use krita_vcs::error::KvcError;
use krita_vcs::tiles::{is_tiled, parse, serialize, Tile, TiledBlock};

#[test]
fn parse_roundtrips() {
    let block = TiledBlock {
        header: "VERSION 2\nTILEWIDTH 64\nTILEHEIGHT 64\nPIXELSIZE 4\nDATA 1\n".to_string(),
        tiles: vec![Tile { x: 0, y: 0, compression: "LZF".into(), data: vec![1, 2, 3, 4] }],
    };
    let bytes = serialize(&block);
    assert_eq!(parse(&bytes).unwrap(), block);
}

#[test]
fn huge_data_count_does_not_over_allocate_or_panic() {
    let bytes = b"VERSION 2\nTILEWIDTH 64\nTILEHEIGHT 64\nPIXELSIZE 4\nDATA 99999999999\n".to_vec();
    let err = parse(&bytes).unwrap_err();
    assert!(matches!(err, KvcError::BadTiles(_)));
}

#[test]
fn negative_positions_and_empty_blocks_round_trip() {
    let block = TiledBlock {
        header: "VERSION 2\nTILEWIDTH 64\nTILEHEIGHT 64\nPIXELSIZE 4\nDATA 2\n".to_string(),
        tiles: vec![
            Tile { x: -64, y: 128, compression: "LZF".into(), data: vec![0; 5] },
            Tile { x: 64, y: -192, compression: "LZF".into(), data: Vec::new() },
        ],
    };
    let bytes = serialize(&block);
    assert!(is_tiled(&bytes));
    assert_eq!(parse(&bytes).unwrap(), block);
    assert!(!is_tiled(b"PK\x03\x04"));
}

#[test]
fn truncated_tile_data_is_refused() {
    let mut bytes = b"VERSION 2\nTILEWIDTH 64\nTILEHEIGHT 64\nPIXELSIZE 4\nDATA 1\n0,0,LZF,4\n".to_vec();
    bytes.extend_from_slice(&[1, 2]);
    assert!(matches!(parse(&bytes), Err(KvcError::BadTiles(_))));
}

#[test]
fn parse_refuses_trailing_bytes_and_non_canonical_numbers() {
    let header = "VERSION 2\nTILEWIDTH 64\nTILEHEIGHT 64\nPIXELSIZE 4\nDATA 1\n";
    let good = format!("{header}0,64,LZF,2\nab");
    assert!(parse(good.as_bytes()).is_ok());
    let trailing = format!("{good}x");
    assert!(matches!(parse(trailing.as_bytes()), Err(KvcError::BadTiles(_))));
    for bad in ["00,64,LZF,2\nab", "+0,64,LZF,2\nab", "0,064,LZF,2\nab", "0,64,LZF,02\nab"] {
        let bytes = format!("{header}{bad}");
        assert!(matches!(parse(bytes.as_bytes()), Err(KvcError::BadTiles(_))), "{bad:?}");
    }
    let blk = parse(good.as_bytes()).unwrap();
    assert_eq!(serialize(&blk), good.as_bytes());
}
