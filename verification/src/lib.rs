pub mod classifier;
pub mod data;
pub mod fetch;
pub mod parser;
pub mod ranker;
pub mod stats;
pub mod text;
