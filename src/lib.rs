//! Block-structured height-field terrain: dirty-region bookkeeping, the
//! level-of-detail mesh tree, RTIN mesh extraction and level selection.
pub mod edit;
pub mod grid;
pub mod level;
pub mod mesh_tree;
pub mod rendering;
pub mod rtin;
pub mod service;
pub mod terrain;
pub mod utils;
