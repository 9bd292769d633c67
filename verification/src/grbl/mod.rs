pub mod commands;
pub mod coverage;
pub mod engine;
pub mod heightmap;
pub mod limits;
pub mod parser;
pub mod passes;
pub mod queue;
pub mod range_max;
pub mod repeats;
pub mod reports;
pub mod serial;
pub mod state;
pub mod streaming;
pub mod surface;
