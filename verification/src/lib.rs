//! Turn a formatted template string into ESC/POS bytes.
//!
//! Layout lives in a string that can sit in a database row, so changing a receipt is a
//! data edit rather than a rebuild. The crate is sans-IO: it hands back bytes, and
//! delivering them is the caller's business.
//!
//! ```text
//! template string
//!       |  parse      syntax only
//!    block AST
//!       |  layout     consumes the Profile
//!    Vec<Op>          device-independent, width-resolved
//!       |  emit       per backend, nearly mechanical
//!    bytes, monospace text, or an HTML fragment
//! ```
//!
//! All three backends share the parse and layout passes, so a preview cannot drift from
//! the bytes.

pub mod error;
pub mod ir;
pub mod parse;
pub mod profile;
pub mod text;
pub mod qr;
pub mod width;
pub mod layout;
pub mod emit;
pub mod stream;
pub mod pipeline;
pub mod ffi;
pub mod page;
pub mod lines;
pub mod cli;
pub mod grammar;

pub use error::Error;
pub use ir::{Align, CutKind, Op};
pub use pipeline::{preview, preview_html, render, to_ops};
pub use profile::{CodePage, Dialect, Font, Profile};
