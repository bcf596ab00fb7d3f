//! Tidies line-oriented pid/ppid process listings into a sorted tree.

pub mod diagnose;
pub mod forest;
pub mod laws;
pub mod order;
pub mod records;
pub mod render;
pub mod text;
pub mod tree_laws;

pub use diagnose::{diagnose, Diagnostics};
pub use records::{parse, Record};
pub use render::format_ascii;
