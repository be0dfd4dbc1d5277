pub mod store;
pub mod markdown;
pub mod lang;
pub mod state;
pub mod reading;
pub mod smartpath;
pub mod project;
pub mod paths;
pub mod anchors;
pub mod bundle;
pub mod line_numbers;
pub mod text;
pub mod path_order;
