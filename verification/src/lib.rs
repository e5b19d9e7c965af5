//! Krita VCS engine core: the verified logic of a local version-control store for Krita
//! documents — the tiled layer-block format, LZF tile codec, raster helpers, palette parsing
//! and diffing, the commit DAG and branch algebra, the set-aside shelf, and the storage
//! housekeeping rules.

pub mod error;
pub mod diskspace;
pub mod lzf;
pub mod raster;
pub mod text;
pub mod tiles;
pub mod assoc;
pub mod repo;
pub mod commit;
pub mod branch;
pub mod stash;
pub mod palette;
pub mod paths;
pub mod scan;
pub mod cpu;
pub mod check;
pub mod gc;
pub mod chains;
pub mod delta;
pub mod canvas;
pub mod overlay;
pub mod cli;
pub mod restore;
pub mod merge;
pub mod kra;
pub mod stats;
pub mod kra_store;
pub mod art;
pub mod materialize;
pub mod outline;
