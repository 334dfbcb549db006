//! Open Images Workbench: the verified core of a desktop tool that downloads,
//! indexes and browses Open Images datasets with YOLO-format labels.

pub mod text;
pub mod order;
pub mod numbers;
pub mod clock;
pub mod models;
pub mod paths;
pub mod csv_meta;
pub mod download;
pub mod plan;
pub mod index;
pub mod state;
pub mod display;
