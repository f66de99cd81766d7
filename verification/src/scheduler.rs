pub mod graph;
pub mod laws;
pub mod model;
pub mod pool;
pub mod steps;
