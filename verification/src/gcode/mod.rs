pub mod arcs;
pub mod levelling;
pub mod meaning;
pub mod parser;
pub mod radius;
pub mod spelling;
pub mod transform;
pub mod words;
