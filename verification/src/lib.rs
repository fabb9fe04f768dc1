//! Streaming statistics for kernel trace events: monotonic time
//! reconstruction, loss detection, per-context runtime accounting, stack
//! watermarks, session handling and report shaping.

pub mod accounting;
pub mod analyzer;
pub mod context;
pub mod histogram;
pub mod order;
pub mod report;
pub mod sequence;
pub mod stack;
pub mod time;
pub mod wrap;
