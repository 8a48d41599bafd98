//! Pretty-printing of OTLP trace export documents as span trees.

pub mod text;
pub mod rounding;
pub mod json;
pub mod otlp;
pub mod render;
pub mod report;
pub mod laws;
