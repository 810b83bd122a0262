//! Dependency-free building blocks for operating-system development: fixed-capacity buffers,
//! a small level-filtering logger with an in-memory ring sink, deterministic formatting
//! helpers and OS-style status codes.

/// OS-style status codes and small conversion helpers.
pub mod status;
/// Fixed-capacity data structures (`RingBuffer`, `FixedStr`) intended for allocation-free code.
pub mod buffer;
/// UTF-8 facts and the conversion from bytes to string slices.
pub mod text;
/// Deterministic formatting helpers such as hexdumps and byte-size formatters.
pub mod fmt;
/// Laws of the formatting helpers: what each rendering reads back as.
pub mod fmt_laws;
/// Minimal logging traits and a small `Logger` with level filtering.
pub mod log;
/// Configuration helpers.
pub mod config;
/// The report line written by panic handlers.
pub mod panic;
