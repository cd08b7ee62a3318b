//! Backends. Each turns the same [`Op`](crate::ir::Op) stream into one concrete output.
//!
//! Emitters are nearly mechanical: all the judgment happened in layout. [`escpos`] makes
//! the printer's bytes, [`preview`] a monospace text for developers, and [`html`] a
//! fragment for showing a person what the paper will look like.

pub mod escpos;
pub mod preview;
pub mod html;
