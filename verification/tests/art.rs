use krita_vcs::art::{classify_layers, plan_layers, BeforeSide, LayerChange, LayerNode};

fn layer(name: &str, uuid: &str, opacity: i64, file: &str) -> LayerNode {
    LayerNode {
        name: name.to_string(),
        uuid: uuid.to_string(),
        opacity,
        blend: "normal".to_string(),
        visible: true,
        kind: "paintlayer".to_string(),
        filename: file.to_string(),
    }
}

fn labels(r: &[(LayerNode, LayerChange)]) -> Vec<(String, LayerChange)> {
    r.iter().map(|(l, c)| (l.name.clone(), *c)).collect()
}

#[test]
fn layers_are_labelled_bottom_first_with_removed_ones_below() {
    let old = vec![layer("Ink", "u1", 255, "layer1"), layer("Sketch", "u2", 255, "layer2"), layer("Bg", "u3", 255, "layer3")];
    let new = vec![layer("Ink", "u1", 128, "layer1"), layer("Color", "u4", 255, "layer4"), layer("Bg", "u3", 255, "layer3")];
    let r = classify_layers(Some(&old), "doc", &new, &vec![]);
    assert_eq!(
        labels(&r),
        vec![
            ("Sketch".to_string(), LayerChange::Removed),
            ("Bg".to_string(), LayerChange::Unchanged),
            ("Color".to_string(), LayerChange::Added),
            ("Ink".to_string(), LayerChange::Modified),
        ]
    );
}

#[test]
fn changed_tiles_make_a_layer_modified_and_a_first_version_is_all_added() {
    let old = vec![layer("Bg", "", 255, "layer3")];
    let new = vec![layer("Bg", "", 255, "layer3")];
    let r = classify_layers(Some(&old), "doc", &new, &vec!["doc/layers/layer3".to_string()]);
    assert_eq!(labels(&r), vec![("Bg".to_string(), LayerChange::Modified)]);
    let r = classify_layers(Some(&old), "doc", &new, &vec!["doc/layers/other".to_string()]);
    assert_eq!(labels(&r), vec![("Bg".to_string(), LayerChange::Unchanged)]);
    let r = classify_layers(None, "doc", &new, &vec![]);
    assert_eq!(labels(&r), vec![("Bg".to_string(), LayerChange::Added)]);
}

#[test]
fn the_outline_follows_the_changed_cells_edges() {
    // One changed cell: its four sides, top, bottom, left, right.
    assert_eq!(krita_vcs::outline::boundary_edges(&vec![true], 1, 1), vec![(0, 1), (2, 3), (0, 2), (1, 3)]);
    // Two changed cells side by side share no edge.
    let e = krita_vcs::outline::boundary_edges(&vec![true, true], 2, 1);
    assert_eq!(e.len(), 6);
    assert!(!e.contains(&(1, 4)));
    assert!(krita_vcs::outline::boundary_edges(&vec![false, false], 2, 1).is_empty());
}

#[test]
fn changed_pixels_mark_the_cell_they_fall_in() {
    // A 4x2 grid onto 2x1 cells: pixel (3, 1) falls in cell (1, 0).
    let mut grid = vec![false; 8];
    grid[7] = true;
    assert_eq!(krita_vcs::outline::downsample(&grid, 4, 2, 2, 1), vec![false, true]);
    assert_eq!(krita_vcs::outline::downsample(&vec![false; 8], 4, 2, 2, 1), vec![false, false]);
}

#[test]
fn each_change_calls_for_its_rasters() {
    let labels = vec![
        (layer("A", "1", 255, "a"), LayerChange::Added),
        (layer("M", "2", 255, "m"), LayerChange::Modified),
        (layer("U", "3", 255, "u"), LayerChange::Unchanged),
        (layer("R", "4", 255, "r"), LayerChange::Removed),
    ];
    let plans = plan_layers(&labels);
    let got: Vec<(bool, BeforeSide, bool)> = plans.iter().map(|p| (p.after, p.before, p.highlight)).collect();
    assert_eq!(
        got,
        vec![
            (true, BeforeSide::Absent, false),
            (true, BeforeSide::FromParent, true),
            (true, BeforeSide::SameAsAfter, false),
            (false, BeforeSide::FromParent, false),
        ]
    );
    assert_eq!(plans[3].layer.name, "R");
}
