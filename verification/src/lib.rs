//! Batched calls from Rust into JavaScript: the layout of the operation codes
//! that a channel packs into `u32` words, the JavaScript that reads them back,
//! and the bindings that a module of JavaScript snippets describes.
pub mod bits;
pub mod text;
pub mod channel;
pub mod bindings;
pub mod metadata;
