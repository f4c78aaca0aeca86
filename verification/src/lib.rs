//! Rebuilds the cluster hierarchy of geotagged photographs from a flat merge
//! history and summarises every level by a boundary polygon and a leaf count.
pub mod build_tree;
pub mod convert_tree;
pub mod convex_hull;
pub mod extract_filepath_location;
pub mod history;
pub mod launch_pipeline_for_directory;
pub mod leaves;
pub mod relation_index;
pub mod reorganize;
pub mod static_assets;
pub mod to_serde_tree;
pub mod types;
pub mod validate_tree;
