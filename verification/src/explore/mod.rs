pub mod explorer;
pub mod graph;
pub mod logger;
pub mod runner;
