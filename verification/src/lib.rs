//! Line-editing core of an interactive, multi-line command prompt rendered on
//! a fixed-width terminal surface. The crate owns the logical text being
//! composed, a single edit cursor, and the pending escape-code output that
//! keeps the displayed text consistent with the logical text.

pub mod codec;
pub mod text;
pub mod wrap;
pub mod rope_store;
pub mod prompt_buffer;
