pub mod fuzzy;
pub mod models;
