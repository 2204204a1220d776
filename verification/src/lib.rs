pub mod text;
pub mod sanitize;
pub mod types;
pub mod paths;
pub mod score;
pub mod walker;
pub mod search;
