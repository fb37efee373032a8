//! Verified core of a terminal system monitor: the text formats it reads from
//! GPU tools, the decisions of its interactive view, and the ordering and
//! filtering of its process table.

pub mod text;
pub mod gpu;
pub mod json;
pub mod control;
pub mod processes;
pub mod display;
