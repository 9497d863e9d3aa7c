pub mod audit;
pub mod classify;
pub mod conflicts;
pub mod json;
pub mod merge;
pub mod models;
pub mod normalize;
pub mod records;
pub mod text;
pub mod tree;
