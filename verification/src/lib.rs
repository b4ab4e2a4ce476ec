pub mod bits;
pub mod circuit;
pub mod complex;
pub mod counts;
pub mod gate;
pub mod grover;
pub mod grover_success;
pub mod laws;
pub mod op_laws;
mod random;
pub mod render;
pub mod report;
pub mod state;
pub mod text;
