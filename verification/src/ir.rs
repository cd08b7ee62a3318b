//! The device-independent intermediate representation.
//!
//! Everything upstream of this module knows about templates; everything downstream knows
//! about printers. `Op` is post-layout: by the time a stream of these exists, every width
//! question has been answered against a [`Profile`](crate::profile::Profile). There is no
//! row or cell op — columns resolve into [`Op::AbsPos`] and [`Op::Text`] pairs.

use vstd::prelude::*;

verus! {

/// A single device-independent rendering instruction.
#[derive(Debug, Clone, PartialEq, Eq)]
pub enum Op {
    /// Literal text, already broken into lines by layout; `\n` is the line break.
    Text(String),
    /// Bold on/off.
    Emphasis(bool),
    /// Underline on/off.
    Underline(bool),
    /// Justification. Sticky on the device until changed.
    Justify(Align),
    /// Character magnification, 1..=8 in each axis.
    Size { w: u8, h: u8 },
    /// Absolute horizontal position, in dots from the left margin.
    AbsPos(u16),
    /// Advance N lines.
    Feed(u8),
    /// Cut the paper.
    Cut(CutKind),
    /// Raw byte passthrough.
    Raw(Vec<u8>),
    /// A QR symbol the printer generates from `data`, at `module` dots per module.
    Qr { data: String, module: u8 },
}

/// Horizontal justification.
#[derive(Debug, Clone, Copy, PartialEq, Eq, Structural)]
pub enum Align {
    Left,
    Center,
    Right,
}

/// Which cut an [`Op::Cut`] requests.
#[derive(Debug, Clone, Copy, PartialEq, Eq, Structural)]
pub enum CutKind {
    /// Leaves a small tab of paper. The safe default.
    Partial,
    /// Severs completely.
    Full,
}

impl Default for Align {
    fn default() -> (a: Self)
        ensures
            a == Align::Left,
    {
        Align::Left
    }
}

impl Default for CutKind {
    fn default() -> (k: Self)
        ensures
            k == CutKind::Partial,
    {
        CutKind::Partial
    }
}

/// The mathematical content of an [`Op`]: text and bytes as sequences.
pub enum OpV {
    Text(Seq<char>),
    Emphasis(bool),
    Underline(bool),
    Justify(Align),
    Size { w: u8, h: u8 },
    AbsPos(u16),
    Feed(u8),
    Cut(CutKind),
    Raw(Seq<u8>),
    Qr { data: Seq<char>, module: u8 },
}

impl View for Op {
    type V = OpV;

    open spec fn view(&self) -> OpV {
        match self {
            Op::Text(s) => OpV::Text(s@),
            Op::Emphasis(b) => OpV::Emphasis(*b),
            Op::Underline(b) => OpV::Underline(*b),
            Op::Justify(a) => OpV::Justify(*a),
            Op::Size { w, h } => OpV::Size { w: *w, h: *h },
            Op::AbsPos(d) => OpV::AbsPos(*d),
            Op::Feed(n) => OpV::Feed(*n),
            Op::Cut(k) => OpV::Cut(*k),
            Op::Raw(b) => OpV::Raw(b@),
            Op::Qr { data, module } => OpV::Qr { data: data@, module: *module },
        }
    }
}

/// The view of an op stream.
pub open spec fn ops_view(ops: Seq<Op>) -> Seq<OpV> {
    ops.map_values(|o: Op| o@)
}

} // verus!
