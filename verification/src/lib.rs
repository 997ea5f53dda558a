pub mod cache;
pub mod dag;
pub mod engine;
pub mod graph;
pub mod models;
pub mod runner;
pub mod text;
