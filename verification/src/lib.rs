//! A fixed-capacity circular byte buffer that keeps the most recently written
//! bytes and silently discards the oldest ones once capacity is exceeded — the
//! storage model behind a terminal scrollback history.
//!
//! Writers append byte runs with [`HistoryBuffer::add`]; readers address
//! arbitrary historical windows by a monotonically increasing logical offset
//! (the total number of bytes ever appended), not by buffer-relative position.
//! The capacity is always a power of two, so a logical offset maps to a
//! physical slot with a single bitwise AND against `capacity - 1`.

pub mod buffer;
pub mod capacity;
pub mod laws;

pub use buffer::HistoryBuffer;
