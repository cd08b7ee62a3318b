//! Block AST + [`Profile`] into a flat [`Op`] stream. This is the product.
//!
//! Right-alignment is arithmetic in dots: column content is positioned with
//! [`Op::AbsPos`], never with space padding. Magnification mutates the grid, so every
//! width question is asked against the current magnification. Widths are display widths
//! in character cells. `:l` and `:c` columns wrap with continuation lines returning to the
//! column's own start; `:r` columns never wrap. The stream always ends with a cut, with
//! emphasis and underline turned back off.

use vstd::prelude::*;
use vstd::utf8::encode_utf8;
use crate::error::{Error, ErrorV};
use crate::ir::{ops_view, Align, CutKind, Op, OpV};
use crate::parse::{
    cols_after, copy_specs, nodes_view, rows_fit, Block, BlockV, Cell, CellV, ColSpec, Node, NodeV,
    SpanV,
};
use crate::profile::{mag_factor, Profile};
use crate::qr;
use crate::text::{chars_of, push_chars, string_from};
use crate::width::{cell_width, char_cells};

verus! {

/// Inline attributes carried by a single character.
#[derive(Debug, Clone, Copy, PartialEq, Eq)]
pub struct Attrs {
    pub bold: bool,
    pub underline: bool,
}

/// A character paired with the attributes it was written under.
pub type Glyph = (char, Attrs);

/// No emphasis, no underline: what `ESC @` leaves behind.
pub open spec fn plain_attrs() -> Attrs {
    Attrs { bold: false, underline: false }
}

// --- text measurement and wrapping ---------------------------------------------------

/// Display width of a glyph run, in character cells.
pub open spec fn width_of(g: Seq<Glyph>) -> int
    decreases g.len(),
{
    if g.len() == 0 {
        0
    } else {
        width_of(g.drop_last()) + cell_width(g.last().0)
    }
}

/// `x`, capped at `usize::MAX`.
pub open spec fn capped(x: int) -> int {
    if x > usize::MAX { usize::MAX as int } else { x }
}

/// How many leading glyphs fit in `w` cells.
pub open spec fn fit_count(g: Seq<Glyph>, w: int) -> int
    decreases g.len(),
{
    if g.len() == 0 || cell_width(g[0].0) > w {
        0
    } else {
        1 + fit_count(g.drop_first(), w - cell_width(g[0].0))
    }
}

/// Index of the last space in `g`, or -1 when there is none.
pub open spec fn last_space(g: Seq<Glyph>) -> int
    decreases g.len(),
{
    if g.len() == 0 {
        -1
    } else if g.last().0 == ' ' {
        g.len() - 1
    } else {
        last_space(g.drop_last())
    }
}

/// `g` without its trailing spaces.
pub open spec fn trim_end(g: Seq<Glyph>) -> Seq<Glyph>
    decreases g.len(),
{
    if g.len() > 0 && g.last().0 == ' ' {
        trim_end(g.drop_last())
    } else {
        g
    }
}

/// `g` without its leading spaces.
pub open spec fn skip_spaces(g: Seq<Glyph>) -> Seq<Glyph>
    decreases g.len(),
{
    if g.len() > 0 && g[0].0 == ' ' {
        skip_spaces(g.drop_first())
    } else {
        g
    }
}

pub proof fn lemma_width_nonneg(g: Seq<Glyph>)
    ensures
        width_of(g) >= 0,
    decreases g.len(),
{
    if g.len() > 0 {
        lemma_width_nonneg(g.drop_last());
    }
}

pub proof fn lemma_fit_count_bounds(g: Seq<Glyph>, w: int)
    ensures
        0 <= fit_count(g, w) <= g.len(),
    decreases g.len(),
{
    if g.len() > 0 && cell_width(g[0].0) <= w {
        lemma_fit_count_bounds(g.drop_first(), w - cell_width(g[0].0));
    }
}

pub proof fn lemma_last_space_bounds(g: Seq<Glyph>)
    ensures
        -1 <= last_space(g) < g.len(),
        last_space(g) >= 0 ==> g[last_space(g)].0 == ' ',
    decreases g.len(),
{
    if g.len() > 0 && g.last().0 != ' ' {
        lemma_last_space_bounds(g.drop_last());
    }
}

pub proof fn lemma_skip_spaces_len(g: Seq<Glyph>)
    ensures
        skip_spaces(g).len() <= g.len(),
    decreases g.len(),
{
    if g.len() > 0 && g[0].0 == ' ' {
        lemma_skip_spaces_len(g.drop_first());
    }
}

/// Where a line that does not fit is broken: the glyphs kept on it and the glyphs
/// consumed by the break (`take`, `skip`).
pub open spec fn break_point(g: Seq<Glyph>, w: int) -> (int, int) {
    let fit = if fit_count(g, w) == 0 { 1 } else { fit_count(g, w) };
    let at = last_space(g.take(fit));
    if at > 0 { (at, at + 1) } else { (fit, fit) }
}

pub proof fn lemma_break_point(g: Seq<Glyph>, w: int)
    requires
        g.len() > 0,
    ensures
        1 <= break_point(g, w).0 <= break_point(g, w).1 <= g.len(),
{
    lemma_fit_count_bounds(g, w);
    let fit = if fit_count(g, w) == 0 { 1 } else { fit_count(g, w) };
    lemma_last_space_bounds(g.take(fit));
}

/// Break glyphs into lines of at most `w` cells: at the last space that fits, or hard
/// inside a word with no break opportunity; the space a break lands on is dropped, as
/// are trailing spaces on every line and leading spaces on continuation lines.
pub open spec fn wrap_spec(g: Seq<Glyph>, w: int) -> Seq<Seq<Glyph>>
    decreases g.len(),
{
    if g.len() == 0 {
        seq![]
    } else if width_of(g) <= w {
        seq![trim_end(g)]
    } else {
        let (take, skip) = break_point(g, w);
        proof {
            lemma_break_point(g, w);
            lemma_skip_spaces_len(g.skip(skip));
        }
        seq![trim_end(g.take(take))] + wrap_spec(skip_spaces(g.skip(skip)), w)
    }
}

/// The characters of a glyph run.
pub open spec fn text_of(g: Seq<Glyph>) -> Seq<char> {
    g.map_values(|x: Glyph| x.0)
}

/// The view of a sequence of glyph lines.
pub open spec fn lines_view(v: Seq<Vec<Glyph>>) -> Seq<Seq<Glyph>> {
    v.map_values(|l: Vec<Glyph>| l@)
}

/// Display width of `g[lo..hi]`, capped at `usize::MAX`.
fn width_of_range(g: &Vec<Glyph>, lo: usize, hi: usize) -> (r: usize)
    requires
        lo <= hi <= g.len(),
    ensures
        r as int == capped(width_of(g@.subrange(lo as int, hi as int))),
{
    let mut total: usize = 0;
    let mut i = lo;
    while i < hi
        invariant
            lo <= i <= hi <= g.len(),
            total as int == capped(width_of(g@.subrange(lo as int, i as int))),
        decreases hi - i,
    {
        let c = char_cells(g[i].0);
        proof {
            assert(g@.subrange(lo as int, i + 1).drop_last() =~= g@.subrange(lo as int, i as int));
            lemma_width_nonneg(g@.subrange(lo as int, i as int));
        }
        total = total.saturating_add(c);
        i = i + 1;
    }
    total
}

pub proof fn lemma_fit_count_step(g: Seq<Glyph>, i: int, w: int)
    requires
        0 <= i < g.len(),
        cell_width(g[i].0) <= w,
    ensures
        fit_count(g.skip(i), w) == 1 + fit_count(g.skip(i + 1), w - cell_width(g[i].0)),
{
    assert(g.skip(i).drop_first() =~= g.skip(i + 1));
}

/// How many of `g[lo..hi]` fit in `w` cells.
fn fit_in(g: &Vec<Glyph>, lo: usize, hi: usize, w: usize) -> (r: usize)
    requires
        lo <= hi <= g.len(),
        w <= u16::MAX,
    ensures
        r as int == fit_count(g@.subrange(lo as int, hi as int), w as int),
{
    let ghost s = g@.subrange(lo as int, hi as int);
    let mut used: usize = 0;
    let mut i = lo;
    assert(s.skip(0) =~= s);
    while i < hi
        invariant
            lo <= i <= hi <= g.len(),
            s == g@.subrange(lo as int, hi as int),
            used <= w <= u16::MAX,
            fit_count(s, w as int) == (i - lo) + fit_count(s.skip(i - lo), w - used),
        decreases hi - i,
    {
        let c = char_cells(g[i].0);
        assert(s[i - lo] == g@[i as int]);
        if c > w - used {
            assert(fit_count(s.skip(i - lo), w - used) == 0);
            return i - lo;
        }
        proof {
            lemma_fit_count_step(s, i - lo, w - used);
        }
        used = used + c;
        i = i + 1;
    }
    assert(s.skip(i - lo).len() == 0);
    i - lo
}

/// Index of the last space in `g[lo..hi]`, relative to `lo`.
fn last_space_in(g: &Vec<Glyph>, lo: usize, hi: usize) -> (r: Option<usize>)
    requires
        lo <= hi <= g.len(),
    ensures
        match r {
            Some(k) => k as int == last_space(g@.subrange(lo as int, hi as int)),
            None => last_space(g@.subrange(lo as int, hi as int)) == -1,
        },
{
    let mut j = hi;
    while j > lo
        invariant
            lo <= j <= hi <= g.len(),
            last_space(g@.subrange(lo as int, hi as int)) == last_space(
                g@.subrange(lo as int, j as int),
            ),
        decreases j - lo,
    {
        let ghost t = g@.subrange(lo as int, j as int);
        assert(t.drop_last() =~= g@.subrange(lo as int, j - 1));
        if g[j - 1].0 == ' ' {
            return Some(j - 1 - lo);
        }
        j = j - 1;
    }
    None
}

/// `g[lo..hi]` without trailing spaces, as a new line.
fn trimmed_line(g: &Vec<Glyph>, lo: usize, hi: usize) -> (r: Vec<Glyph>)
    requires
        lo <= hi <= g.len(),
    ensures
        r@ == trim_end(g@.subrange(lo as int, hi as int)),
{
    let mut end = hi;
    while end > lo && g[end - 1].0 == ' '
        invariant
            lo <= end <= hi <= g.len(),
            trim_end(g@.subrange(lo as int, hi as int)) == trim_end(
                g@.subrange(lo as int, end as int),
            ),
        decreases end - lo,
    {
        assert(g@.subrange(lo as int, end as int).drop_last() =~= g@.subrange(lo as int, end - 1));
        end = end - 1;
    }
    let mut out: Vec<Glyph> = Vec::new();
    let mut i = lo;
    while i < end
        invariant
            lo <= i <= end <= g.len(),
            out@ =~= g@.subrange(lo as int, i as int),
        decreases end - i,
    {
        out.push(g[i]);
        i = i + 1;
    }
    out
}

/// Break `glyphs` into lines of at most `width` cells (at least one).
fn wrap(glyphs: &Vec<Glyph>, width: usize) -> (r: Vec<Vec<Glyph>>)
    requires
        width <= u16::MAX,
    ensures
        lines_view(r@) == wrap_spec(glyphs@, if width == 0 { 1 } else { width as int }),
{
    let width = if width == 0 { 1 } else { width };
    let ghost w = width as int;
    let n = glyphs.len();
    let mut lines: Vec<Vec<Glyph>> = Vec::new();
    let mut pos: usize = 0;
    assert(glyphs@.skip(0) =~= glyphs@);
    assert(lines_view(lines@) + wrap_spec(glyphs@, w) =~= wrap_spec(glyphs@, w));
    while pos < n
        invariant
            pos <= n == glyphs.len(),
            1 <= width <= u16::MAX,
            w == width,
            wrap_spec(glyphs@, w) == lines_view(lines@) + wrap_spec(glyphs@.skip(pos as int), w),
        decreases n - pos,
    {
        let ghost rest = glyphs@.skip(pos as int);
        assert(glyphs@.subrange(pos as int, n as int) =~= rest);
        let total = width_of_range(glyphs, pos, n);
        if total <= width {
            let line = trimmed_line(glyphs, pos, n);
            proof {
                assert(lines_view(lines@.push(line)) =~= lines_view(lines@).push(line@));
                assert(wrap_spec(rest, w) =~= seq![trim_end(rest)]);
                assert(wrap_spec(glyphs@.skip(n as int), w) =~= Seq::<Seq<Glyph>>::empty());
            }
            lines.push(line);
            pos = n;
            proof {
                assert(glyphs@.skip(pos as int).len() == 0);
                assert(lines_view(lines@) + wrap_spec(glyphs@.skip(pos as int), w) =~= lines_view(lines@));
            }
        } else {
            let fit0 = fit_in(glyphs, pos, n, width);
            let fit = if fit0 == 0 { 1 } else { fit0 };
            proof {
                lemma_fit_count_bounds(rest, w);
            }
            assert(glyphs@.subrange(pos as int, pos + fit) =~= rest.take(fit as int));
            let at = last_space_in(glyphs, pos, pos + fit);
            proof {
                lemma_last_space_bounds(glyphs@.subrange(pos as int, pos + fit));
            }
            let (take, skip) = match at {
                Some(k) if k > 0 => (k, k + 1),
                _ => (fit, fit),
            };
            assert((take as int, skip as int) == break_point(rest, w));
            proof {
                lemma_break_point(rest, w);
            }
            let line = trimmed_line(glyphs, pos, pos + take);
            assert(glyphs@.subrange(pos as int, pos + take) =~= rest.take(take as int));
            let ghost before = lines@;
            lines.push(line);
            let mut next = pos + skip;
            assert(rest.skip(skip as int) =~= glyphs@.skip(next as int));
            while next < n && glyphs[next].0 == ' '
                invariant
                    pos + skip <= next <= n == glyphs.len(),
                    skip_spaces(rest.skip(skip as int)) == skip_spaces(glyphs@.skip(next as int)),
                decreases n - next,
            {
                assert(glyphs@.skip(next as int).drop_first() =~= glyphs@.skip(next + 1));
                next = next + 1;
            }
            proof {
                if next < n {
                    assert(glyphs@.skip(next as int)[0] == glyphs@[next as int]);
                }
                assert(skip_spaces(glyphs@.skip(next as int)) == glyphs@.skip(next as int));
                assert(wrap_spec(rest, w) == seq![trim_end(rest.take(take as int))] + wrap_spec(
                    skip_spaces(rest.skip(skip as int)),
                    w,
                ));
                assert(lines_view(lines@) =~= lines_view(before).push(line@));
                assert(lines_view(before) + wrap_spec(rest, w) =~= lines_view(lines@) + wrap_spec(
                    glyphs@.skip(next as int),
                    w,
                ));
            }
            pos = next;
        }
    }
    proof {
        assert(glyphs@.skip(pos as int).len() == 0);
        assert(lines_view(lines@) + wrap_spec(glyphs@.skip(pos as int), w) =~= lines_view(lines@));
    }
    lines
}


// --- engine state ------------------------------------------------------------------

/// Lines fed before the closing cut when the template does not end with one itself.
pub const FINAL_FEED: u8 = 4;

/// The layout engine's state: the ops so far, the sticky template state, and a mirror
/// of the device state, so that redundant state changes are never emitted.
pub struct EngV {
    pub ops: Seq<OpV>,
    pub justify: Align,
    pub mag_w: u8,
    pub mag_h: u8,
    pub cols: Option<Seq<ColSpec>>,
    pub qr_module: u8,
    pub dev_justify: Align,
    pub dev_mag_w: u8,
    pub dev_mag_h: u8,
    pub dev_attrs: Attrs,
}

/// The state before the first node: what `ESC @` leaves behind.
pub open spec fn init_state() -> EngV {
    EngV {
        ops: seq![],
        justify: Align::Left,
        mag_w: 1,
        mag_h: 1,
        cols: None,
        qr_module: qr::DEFAULT_MODULE,
        dev_justify: Align::Left,
        dev_mag_w: 1,
        dev_mag_h: 1,
        dev_attrs: plain_attrs(),
    }
}

/// Append text, merging into the previous op when that is also text.
pub open spec fn push_text(ops: Seq<OpV>, s: Seq<char>) -> Seq<OpV> {
    if s.len() == 0 {
        ops
    } else if ops.len() > 0 {
        match ops.last() {
            OpV::Text(prev) => ops.drop_last().push(OpV::Text(prev + s)),
            _ => ops.push(OpV::Text(s)),
        }
    } else {
        ops.push(OpV::Text(s))
    }
}

pub open spec fn e_text(e: EngV, s: Seq<char>) -> EngV {
    EngV { ops: push_text(e.ops, s), ..e }
}

pub open spec fn e_push(e: EngV, op: OpV) -> EngV {
    EngV { ops: e.ops.push(op), ..e }
}

pub open spec fn set_justify_s(e: EngV, a: Align) -> EngV {
    if e.dev_justify != a {
        EngV { ops: e.ops.push(OpV::Justify(a)), dev_justify: a, ..e }
    } else {
        e
    }
}

pub open spec fn set_size_s(e: EngV) -> EngV {
    if e.dev_mag_w != e.mag_w || e.dev_mag_h != e.mag_h {
        EngV {
            ops: e.ops.push(OpV::Size { w: e.mag_w, h: e.mag_h }),
            dev_mag_w: e.mag_w,
            dev_mag_h: e.mag_h,
            ..e
        }
    } else {
        e
    }
}

pub open spec fn set_attrs_s(e: EngV, a: Attrs) -> EngV {
    let e1 = if e.dev_attrs.bold != a.bold {
        EngV {
            ops: e.ops.push(OpV::Emphasis(a.bold)),
            dev_attrs: Attrs { bold: a.bold, ..e.dev_attrs },
            ..e
        }
    } else {
        e
    };
    if e1.dev_attrs.underline != a.underline {
        EngV {
            ops: e1.ops.push(OpV::Underline(a.underline)),
            dev_attrs: Attrs { underline: a.underline, ..e1.dev_attrs },
            ..e1
        }
    } else {
        e1
    }
}

/// Emit a line of glyphs: each maximal run of equal attributes is preceded by the
/// attribute changes it needs.
pub open spec fn glyphs_go(e: EngV, line: Seq<Glyph>, attrs: Attrs, buf: Seq<char>) -> EngV
    decreases line.len(),
{
    if line.len() == 0 {
        e_text(set_attrs_s(e, attrs), buf)
    } else if line[0].1 != attrs {
        glyphs_go(e_text(set_attrs_s(e, attrs), buf), line.drop_first(), line[0].1, seq![line[0].0])
    } else {
        glyphs_go(e, line.drop_first(), attrs, buf.push(line[0].0))
    }
}

pub open spec fn glyphs_s(e: EngV, line: Seq<Glyph>) -> EngV {
    glyphs_go(e, line, if line.len() > 0 { line[0].1 } else { plain_attrs() }, seq![])
}


// --- the blocks, as specifications -------------------------------------------------

/// The glyphs of one span: its characters under its attributes.
pub open spec fn span_glyphs(s: SpanV) -> Seq<Glyph> {
    s.text.map_values(|c: char| (c, Attrs { bold: s.bold, underline: s.underline }))
}

pub open spec fn flatten_spans(spans: Seq<SpanV>) -> Seq<Glyph>
    decreases spans.len(),
{
    if spans.len() == 0 {
        seq![]
    } else {
        flatten_spans(spans.drop_last()) + span_glyphs(spans.last())
    }
}

/// A cell flattened into attributed characters.
pub open spec fn flatten(c: CellV) -> Seq<Glyph> {
    flatten_spans(c.spans)
}

/// Several cells flattened into one run.
pub open spec fn flatten_cells(cells: Seq<CellV>) -> Seq<Glyph>
    decreases cells.len(),
{
    if cells.len() == 0 {
        seq![]
    } else {
        flatten_cells(cells.drop_last()) + flatten(cells.last())
    }
}

/// Characters per line at the current magnification.
pub open spec fn grid_columns(e: EngV, p: Profile) -> int {
    p.spec_columns_at(e.mag_w)
}

/// Dots per character cell at the current magnification.
pub open spec fn cell_dots(e: EngV, p: Profile) -> int {
    p.font.dots() as int * mag_factor(e.mag_w)
}

pub open spec fn newline() -> Seq<char> {
    seq!['\n']
}

/// Wrapping width: zero is read as one.
pub open spec fn at_least_one(w: int) -> int {
    if w < 1 { 1 } else { w }
}

/// Emit wrapped lines, each followed by a line break.
pub open spec fn lines_s(e: EngV, lines: Seq<Seq<Glyph>>) -> EngV
    decreases lines.len(),
{
    if lines.len() == 0 {
        e
    } else {
        lines_s(e_text(glyphs_s(e, lines[0]), newline()), lines.drop_first())
    }
}

/// An empty source line.
pub open spec fn blank_s(e: EngV) -> EngV {
    e_text(set_attrs_s(e, plain_attrs()), newline())
}

/// A full-width rule at the current grid: left-justified, unattributed dashes.
pub open spec fn rule_s(e: EngV, p: Profile) -> EngV {
    let width = grid_columns(e, p);
    let e1 = set_attrs_s(set_size_s(set_justify_s(e, Align::Left)), plain_attrs());
    e_text(e_text(e1, Seq::new(width as nat, |i: int| '-')), newline())
}

/// A line outside column mode; justification is left to the device.
pub open spec fn plain_s(e: EngV, p: Profile, cells: Seq<CellV>) -> EngV {
    let g = flatten_cells(cells);
    let e1 = set_size_s(set_justify_s(e, e.justify));
    if g.len() == 0 {
        e_text(set_attrs_s(e1, plain_attrs()), newline())
    } else {
        lines_s(e1, wrap_spec(g, at_least_one(grid_columns(e, p))))
    }
}

/// A QR symbol: rejected when its payload is past the version-40 ceiling or its footprint
/// is wider than the paper; otherwise placed under the current justification.
pub open spec fn qr_s(e: EngV, p: Profile, line: usize, data: Seq<char>) -> Result<EngV, ErrorV> {
    let bytes = encode_utf8(data).len() as usize;
    match qr::spec_footprint_dots(bytes as int, e.qr_module) {
        None => Err(ErrorV::QrTooLong { line, bytes, max_bytes: 2331 }),
        Some(needed) => if needed > p.width_dots {
            Err(
                ErrorV::QrTooWide {
                    line,
                    module: e.qr_module,
                    needed_dots: needed,
                    available_dots: p.width_dots,
                },
            )
        } else {
            Ok(
                e_push(
                    set_attrs_s(set_justify_s(e, e.justify), plain_attrs()),
                    OpV::Qr { data, module: e.qr_module },
                ),
            )
        },
    }
}

/// Total width of a column spec, in characters.
pub open spec fn sum_widths(specs: Seq<ColSpec>) -> int
    decreases specs.len(),
{
    if specs.len() == 0 {
        0
    } else {
        sum_widths(specs.drop_last()) + specs.last().width_chars
    }
}

/// `x` as a `u16`, saturating.
pub open spec fn sat16(x: int) -> u16 {
    if x > u16::MAX { u16::MAX } else if x < 0 { 0 } else { x as u16 }
}

/// The lines one cell occupies: a right-aligned cell is never wrapped and must fit its
/// column; any other cell wraps at its column width.
pub open spec fn cell_lines(line: usize, idx: int, spec: ColSpec, cell: CellV) -> Result<
    Seq<Seq<Glyph>>,
    ErrorV,
> {
    let g = flatten(cell);
    let width = spec.width_chars as int;
    if spec.align == Align::Right {
        if width_of(g) > width {
            Err(
                ErrorV::RightColumnOverflow {
                    line,
                    column: (idx + 1) as usize,
                    width: spec.width_chars,
                    content: text_of(g),
                },
            )
        } else if g.len() == 0 {
            Ok(seq![])
        } else {
            Ok(seq![g])
        }
    } else {
        Ok(wrap_spec(g, at_least_one(width)))
    }
}

/// The lines of the first `k` cells, or the first cell's error.
pub open spec fn wrap_cells(line: usize, specs: Seq<ColSpec>, cells: Seq<CellV>, k: int) -> Result<
    Seq<Seq<Seq<Glyph>>>,
    ErrorV,
>
    decreases k,
{
    if k <= 0 {
        Ok(seq![])
    } else {
        match wrap_cells(line, specs, cells, k - 1) {
            Err(x) => Err(x),
            Ok(acc) => match cell_lines(line, k - 1, specs[k - 1], cells[k - 1]) {
                Err(x) => Err(x),
                Ok(l) => Ok(acc.push(l)),
            },
        }
    }
}

/// The checks a row must pass, and its cells' lines when it passes.
pub open spec fn row_check(e: EngV, p: Profile, line: usize, specs: Seq<ColSpec>, cells: Seq<CellV>) -> Result<
    Seq<Seq<Seq<Glyph>>>,
    ErrorV,
> {
    let requested = sum_widths(specs);
    let available = grid_columns(e, p);
    if requested > available {
        Err(ErrorV::ColumnsTooWide { line, requested: sat16(requested), available: sat16(available) })
    } else {
        wrap_cells(line, specs, cells, if specs.len() < cells.len() { specs.len() as int } else { cells.len() as int })
    }
}

/// A row that passes its checks but has fewer cells than its spec has columns. Such a row
/// has no layout (there is no cell to put in the last columns), so `layout` does not
/// accept it; a parsed template never holds one.
pub open spec fn row_panics(e: EngV, p: Profile, line: usize, specs: Seq<ColSpec>, cells: Seq<CellV>) -> bool {
    row_check(e, p, line, specs, cells) is Ok && specs.len() > cells.len()
}

/// The tallest cell, in lines.
pub open spec fn max_height(wrapped: Seq<Seq<Seq<Glyph>>>) -> int
    decreases wrapped.len(),
{
    if wrapped.len() == 0 {
        0
    } else {
        let m = max_height(wrapped.drop_last());
        if wrapped.last().len() > m { wrapped.last().len() as int } else { m }
    }
}

/// Where a cell's line starts inside its column, in characters.
pub open spec fn cell_offset(spec: ColSpec, g: Seq<Glyph>) -> int {
    let width = spec.width_chars as int;
    let slack = if width_of(g) >= width { 0 } else { width - width_of(g) };
    match spec.align {
        Align::Left => 0,
        Align::Right => slack,
        Align::Center => slack / 2,
    }
}

/// One physical line of a row: each cell that has a line here is positioned absolutely
/// at its column start plus its alignment offset, in dots, then written.
pub open spec fn emit_cells(
    e: EngV,
    specs: Seq<ColSpec>,
    wrapped: Seq<Seq<Seq<Glyph>>>,
    r: int,
    idx: int,
    start: int,
    cd: int,
) -> EngV
    decreases specs.len() - idx,
{
    if idx < 0 || idx >= specs.len() {
        e
    } else {
        let e2 = if r < wrapped[idx].len() && wrapped[idx][r].len() > 0 {
            let g = wrapped[idx][r];
            glyphs_s(e_push(e, OpV::AbsPos(sat16((start + cell_offset(specs[idx], g)) * cd))), g)
        } else {
            e
        };
        emit_cells(e2, specs, wrapped, r, idx + 1, start + specs[idx].width_chars, cd)
    }
}

/// Every physical line of a row, each ending in a line break.
pub open spec fn emit_rows(
    e: EngV,
    specs: Seq<ColSpec>,
    wrapped: Seq<Seq<Seq<Glyph>>>,
    r: int,
    height: int,
    cd: int,
) -> EngV
    decreases height - r,
{
    if r >= height {
        e
    } else {
        emit_rows(
            e_text(emit_cells(e, specs, wrapped, r, 0, 0, cd), newline()),
            specs,
            wrapped,
            r + 1,
            height,
            cd,
        )
    }
}

/// A row in column mode: as tall as its tallest cell, left-justified on the device.
pub open spec fn row_s(e: EngV, p: Profile, line: usize, specs: Seq<ColSpec>, cells: Seq<CellV>) -> Result<
    EngV,
    ErrorV,
> {
    match row_check(e, p, line, specs, cells) {
        Err(x) => Err(x),
        Ok(wrapped) => {
            let height = if max_height(wrapped) < 1 { 1 } else { max_height(wrapped) };
            let e1 = set_size_s(set_justify_s(e, Align::Left));
            Ok(emit_rows(e1, specs, wrapped, 0, height, cell_dots(e, p)))
        },
    }
}

/// One node's effect on the engine.
pub open spec fn node_s(e: EngV, p: Profile, n: NodeV) -> Result<EngV, ErrorV> {
    match n.block {
        BlockV::Version(_) => Ok(e),
        BlockV::Justify(a) => Ok(EngV { justify: a, ..e }),
        BlockV::Size { w, h } => Ok(EngV { mag_w: w, mag_h: h, ..e }),
        BlockV::Cols(specs) => Ok(EngV { cols: Some(specs), ..e }),
        BlockV::ColsEnd => Ok(EngV { cols: None, ..e }),
        BlockV::Feed(k) => Ok(e_push(e, OpV::Feed(k))),
        BlockV::Cut => Ok(e_push(e, OpV::Cut(CutKind::Partial))),
        BlockV::Raw(b) => Ok(e_push(set_justify_s(e, e.justify), OpV::Raw(b))),
        BlockV::QrModule(k) => Ok(EngV { qr_module: k, ..e }),
        BlockV::Qr(d) => qr_s(e, p, n.line, d),
        BlockV::Blank => Ok(blank_s(e)),
        BlockV::Rule => Ok(rule_s(e, p)),
        BlockV::Line(cells) => match e.cols {
            Some(specs) => row_s(e, p, n.line, specs, cells),
            None => Ok(plain_s(e, p, cells)),
        },
    }
}

/// Whether a node is a row with fewer cells than the active column spec.
pub open spec fn node_panics(e: EngV, p: Profile, n: NodeV) -> bool {
    match n.block {
        BlockV::Line(cells) => match e.cols {
            Some(specs) => row_panics(e, p, n.line, specs, cells),
            None => false,
        },
        _ => false,
    }
}

/// All nodes in order, stopping at the first error.
pub open spec fn run_s(e: EngV, p: Profile, nodes: Seq<NodeV>) -> Result<EngV, ErrorV>
    decreases nodes.len(),
{
    if nodes.len() == 0 {
        Ok(e)
    } else {
        match node_s(e, p, nodes[0]) {
            Err(x) => Err(x),
            Ok(e2) => run_s(e2, p, nodes.drop_first()),
        }
    }
}

/// Whether running the nodes reaches a row with fewer cells than the active column spec.
pub open spec fn run_panics(e: EngV, p: Profile, nodes: Seq<NodeV>) -> bool
    decreases nodes.len(),
{
    if nodes.len() == 0 {
        false
    } else if node_panics(e, p, nodes[0]) {
        true
    } else {
        match node_s(e, p, nodes[0]) {
            Err(_) => false,
            Ok(e2) => run_panics(e2, p, nodes.drop_first()),
        }
    }
}

/// Close the document: attributes off, then a feed and a cut unless the stream already
/// ends with a cut, in which case the reset goes just before that cut.
pub open spec fn finish_s(e: EngV) -> Seq<OpV> {
    if e.ops.len() > 0 && e.ops.last() is Cut {
        set_attrs_s(EngV { ops: e.ops.drop_last(), ..e }, plain_attrs()).ops.push(e.ops.last())
    } else {
        set_attrs_s(e, plain_attrs()).ops.push(OpV::Feed(FINAL_FEED)).push(OpV::Cut(CutKind::Partial))
    }
}

/// The op stream a node sequence lays out to against a profile, or the first error.
pub open spec fn layout_spec(ast: Seq<NodeV>, p: Profile) -> Result<Seq<OpV>, ErrorV> {
    match run_s(init_state(), p, ast) {
        Ok(e) => Ok(finish_s(e)),
        Err(x) => Err(x),
    }
}

/// Whether laying out `ast` reaches a row with fewer cells than the active column spec.
pub open spec fn layout_panics(ast: Seq<NodeV>, p: Profile) -> bool {
    run_panics(init_state(), p, ast)
}

pub open spec fn cells_view(cells: Seq<Cell>) -> Seq<CellV> {
    cells.map_values(|c: Cell| c@)
}

pub open spec fn wrapped_view(w: Seq<Vec<Vec<Glyph>>>) -> Seq<Seq<Seq<Glyph>>> {
    w.map_values(|c: Vec<Vec<Glyph>>| lines_view(c@))
}

struct Engine {
    ops: Vec<Op>,
    justify: Align,
    mag_w: u8,
    mag_h: u8,
    cols: Option<Vec<ColSpec>>,
    qr_module: u8,
    dev_justify: Align,
    dev_mag_w: u8,
    dev_mag_h: u8,
    dev_attrs: Attrs,
}

impl Engine {
    spec fn ev(&self) -> EngV {
        EngV {
            ops: ops_view(self.ops@),
            justify: self.justify,
            mag_w: self.mag_w,
            mag_h: self.mag_h,
            cols: match self.cols {
                Some(v) => Some(v@),
                None => None,
            },
            qr_module: self.qr_module,
            dev_justify: self.dev_justify,
            dev_mag_w: self.dev_mag_w,
            dev_mag_h: self.dev_mag_h,
            dev_attrs: self.dev_attrs,
        }
    }

    fn new() -> (r: Engine)
        ensures
            r.ev() == init_state(),
    {
        let r = Engine {
            ops: Vec::new(),
            justify: Align::Left,
            mag_w: 1,
            mag_h: 1,
            cols: None,
            qr_module: qr::DEFAULT_MODULE,
            dev_justify: Align::Left,
            dev_mag_w: 1,
            dev_mag_h: 1,
            dev_attrs: Attrs { bold: false, underline: false },
        };
        assert(ops_view(r.ops@) =~= seq![]);
        r
    }

    fn push_op(&mut self, op: Op)
        ensures
            final(self).ev() == e_push(old(self).ev(), op@),
    {
        self.ops.push(op);
        assert(ops_view(self.ops@) =~= ops_view(old(self).ops@).push(op@));
    }

    fn text(&mut self, s: &Vec<char>)
        ensures
            final(self).ev() == e_text(old(self).ev(), s@),
    {
        if s.len() == 0 {
            return;
        }
        let ghost before = ops_view(self.ops@);
        let last = self.ops.pop();
        match last {
            Some(Op::Text(prev)) => {
                let mut p = prev;
                push_chars(&mut p, s.as_slice());
                self.ops.push(Op::Text(p));
                assert(ops_view(self.ops@) =~= before.drop_last().push(OpV::Text(prev@ + s@)));
            },
            Some(other) => {
                self.ops.push(other);
                assert(ops_view(self.ops@) =~= before);
                self.ops.push(Op::Text(string_from(s.as_slice())));
                assert(ops_view(self.ops@) =~= before.push(OpV::Text(s@)));
            },
            None => {
                self.ops.push(Op::Text(string_from(s.as_slice())));
                assert(ops_view(self.ops@) =~= before.push(OpV::Text(s@)));
            },
        }
    }

    fn set_justify(&mut self, a: Align)
        ensures
            final(self).ev() == set_justify_s(old(self).ev(), a),
    {
        if self.dev_justify != a {
            self.push_op(Op::Justify(a));
            self.dev_justify = a;
        }
    }

    fn set_size(&mut self)
        ensures
            final(self).ev() == set_size_s(old(self).ev()),
    {
        if self.dev_mag_w != self.mag_w || self.dev_mag_h != self.mag_h {
            self.push_op(Op::Size { w: self.mag_w, h: self.mag_h });
            self.dev_mag_w = self.mag_w;
            self.dev_mag_h = self.mag_h;
        }
    }

    fn set_attrs(&mut self, a: Attrs)
        ensures
            final(self).ev() == set_attrs_s(old(self).ev(), a),
    {
        if self.dev_attrs.bold != a.bold {
            self.push_op(Op::Emphasis(a.bold));
            self.dev_attrs.bold = a.bold;
        }
        if self.dev_attrs.underline != a.underline {
            self.push_op(Op::Underline(a.underline));
            self.dev_attrs.underline = a.underline;
        }
    }

    fn glyphs(&mut self, line: &Vec<Glyph>)
        ensures
            final(self).ev() == glyphs_s(old(self).ev(), line@),
    {
        let mut buf: Vec<char> = Vec::new();
        let mut attrs = if line.len() > 0 { line[0].1 } else { Attrs { bold: false, underline: false } };
        let ghost goal = glyphs_s(self.ev(), line@);
        assert(line@.skip(0) =~= line@);
        let mut i: usize = 0;
        while i < line.len()
            invariant
                i <= line.len(),
                goal == glyphs_go(self.ev(), line@.skip(i as int), attrs, buf@),
            decreases line.len() - i,
        {
            let (ch, a) = line[i];
            assert(line@.skip(i as int).drop_first() =~= line@.skip(i + 1));
            if a.bold != attrs.bold || a.underline != attrs.underline {
                self.set_attrs(attrs);
                self.text(&buf);
                buf = Vec::new();
                attrs = a;
            }
            buf.push(ch);
            assert(buf@ =~= buf@);
            i = i + 1;
        }
        self.set_attrs(attrs);
        self.text(&buf);
    }
}



// --- the blocks, executed ----------------------------------------------------------

/// Append a cell's glyphs.
fn flatten_into(out: &mut Vec<Glyph>, cell: &Cell)
    ensures
        final(out)@ == old(out)@ + flatten(cell@),
{
    let ghost spans = cell@.spans;
    let ghost start = out@;
    let mut i: usize = 0;
    assert(spans.take(0) =~= Seq::<SpanV>::empty());
    assert(out@ =~= start + flatten_spans(spans.take(0)));
    while i < cell.spans.len()
        invariant
            i <= cell.spans.len(),
            spans == cell@.spans,
            spans.len() == cell.spans.len(),
            out@ == start + flatten_spans(spans.take(i as int)),
        decreases cell.spans.len() - i,
    {
        let span = &cell.spans[i];
        assert(spans[i as int] == span@);
        let chars = chars_of(span.text.as_str());
        let attrs = Attrs { bold: span.bold, underline: span.underline };
        let ghost mid = out@;
        let mut j: usize = 0;
        while j < chars.len()
            invariant
                j <= chars.len(),
                chars@ == span@.text,
                attrs == (Attrs { bold: span@.bold, underline: span@.underline }),
                out@ =~= mid + span_glyphs(span@).take(j as int),
            decreases chars.len() - j,
        {
            out.push((chars[j], attrs));
            j = j + 1;
        }
        assert(span_glyphs(span@).take(j as int) =~= span_glyphs(span@));
        assert(spans.take(i + 1).drop_last() =~= spans.take(i as int));
        i = i + 1;
    }
    assert(spans.take(i as int) =~= spans);
}

/// The characters of glyphs.
fn chars_of_glyphs(g: &Vec<Glyph>) -> (r: Vec<char>)
    ensures
        r@ == text_of(g@),
{
    let mut out: Vec<char> = Vec::new();
    let mut i: usize = 0;
    while i < g.len()
        invariant
            i <= g.len(),
            out@ =~= text_of(g@).take(i as int),
        decreases g.len() - i,
    {
        out.push(g[i].0);
        i = i + 1;
    }
    assert(text_of(g@).take(i as int) =~= text_of(g@));
    out
}

/// `n` as a `u16`, saturating.
fn saturating_u16(n: usize) -> (r: u16)
    ensures
        r == sat16(n as int),
{
    if n > u16::MAX as usize { u16::MAX } else { n as u16 }
}

fn newline_vec() -> (r: Vec<char>)
    ensures
        r@ == newline(),
{
    let mut v: Vec<char> = Vec::new();
    v.push('\n');
    assert(v@ =~= newline());
    v
}

proof fn lemma_lines_s_step(e: EngV, lines: Seq<Seq<Glyph>>, k: int)
    requires
        0 <= k < lines.len(),
    ensures
        lines_s(e, lines.skip(k)) == lines_s(e_text(glyphs_s(e, lines[k]), newline()), lines.skip(k + 1)),
{
    assert(lines.skip(k).drop_first() =~= lines.skip(k + 1));
}

impl Engine {
    fn blank(&mut self)
        ensures
            final(self).ev() == blank_s(old(self).ev()),
    {
        self.set_attrs(Attrs { bold: false, underline: false });
        self.text(&newline_vec());
    }

    fn rule(&mut self, profile: &Profile)
        ensures
            final(self).ev() == rule_s(old(self).ev(), *profile),
    {
        let width = profile.columns_at(self.mag_w) as usize;
        self.set_justify(Align::Left);
        self.set_size();
        self.set_attrs(Attrs { bold: false, underline: false });
        let mut dashes: Vec<char> = Vec::new();
        let mut i: usize = 0;
        while i < width
            invariant
                i <= width,
                dashes@ =~= Seq::new(i as nat, |k: int| '-'),
            decreases width - i,
        {
            dashes.push('-');
            i = i + 1;
        }
        self.text(&dashes);
        self.text(&newline_vec());
    }

    fn plain(&mut self, profile: &Profile, cells: &Vec<Cell>)
        ensures
            final(self).ev() == plain_s(old(self).ev(), *profile, cells_view(cells@)),
    {
        let ghost e0 = self.ev();
        let width = profile.columns_at(self.mag_w) as usize;
        let ghost cv = cells_view(cells@);
        let mut glyphs: Vec<Glyph> = Vec::new();
        let mut i: usize = 0;
        assert(cv.take(0) =~= Seq::<CellV>::empty());
        while i < cells.len()
            invariant
                i <= cells.len(),
                cv == cells_view(cells@),
                glyphs@ == flatten_cells(cv.take(i as int)),
            decreases cells.len() - i,
        {
            flatten_into(&mut glyphs, &cells[i]);
            assert(cv.take(i + 1).drop_last() =~= cv.take(i as int));
            i = i + 1;
        }
        assert(cv.take(i as int) =~= cv);
        self.set_justify(self.justify);
        self.set_size();
        if glyphs.len() == 0 {
            self.set_attrs(Attrs { bold: false, underline: false });
            self.text(&newline_vec());
            return;
        }
        let lines = wrap(&glyphs, width);
        let ghost lv = lines_view(lines@);
        let ghost goal = plain_s(e0, *profile, cv);
        assert(lv.skip(0) =~= lv);
        let nl = newline_vec();
        let mut k: usize = 0;
        while k < lines.len()
            invariant
                k <= lines.len(),
                lv == lines_view(lines@),
                nl@ == newline(),
                goal == lines_s(self.ev(), lv.skip(k as int)),
            decreases lines.len() - k,
        {
            proof {
                lemma_lines_s_step(self.ev(), lv, k as int);
            }
            self.glyphs(&lines[k]);
            self.text(&nl);
            k = k + 1;
        }
    }

    fn qr(&mut self, profile: &Profile, line: usize, data: &String) -> (r: Result<(), Error>)
        ensures
            match r {
                Ok(_) => qr_s(old(self).ev(), *profile, line, data@) == Ok::<EngV, ErrorV>(final(self).ev()),
                Err(x) => qr_s(old(self).ev(), *profile, line, data@) == Err::<EngV, ErrorV>(x@) && final(self).ev()
                    == old(self).ev(),
            },
    {
        let bytes = data.as_str().len();
        let available = profile.width_dots;
        let needed = match qr::footprint_dots(bytes, self.qr_module) {
            Some(n) => n,
            None => {
                return Err(Error::QrTooLong { line, bytes, max_bytes: qr::max_bytes() });
            },
        };
        if needed > available {
            return Err(
                Error::QrTooWide {
                    line,
                    module: self.qr_module,
                    needed_dots: needed,
                    available_dots: available,
                },
            );
        }
        self.set_justify(self.justify);
        self.set_attrs(Attrs { bold: false, underline: false });
        let module = self.qr_module;
        self.push_op(Op::Qr { data: data.clone(), module });
        Ok(())
    }
}


proof fn lemma_wrap_cells_err(line: usize, specs: Seq<ColSpec>, cells: Seq<CellV>, k1: int, k2: int)
    requires
        k1 <= k2,
        wrap_cells(line, specs, cells, k1) is Err,
    ensures
        wrap_cells(line, specs, cells, k2) == wrap_cells(line, specs, cells, k1),
    decreases k2 - k1,
{
    if k1 < k2 {
        lemma_wrap_cells_err(line, specs, cells, k1, k2 - 1);
    }
}

pub proof fn lemma_sum_widths_prefix(specs: Seq<ColSpec>, i: int)
    requires
        0 <= i <= specs.len(),
    ensures
        0 <= sum_widths(specs.take(i)) <= sum_widths(specs),
    decreases specs.len() - i,
{
    if i < specs.len() {
        lemma_sum_widths_prefix(specs, i + 1);
        assert(specs.take(i + 1).drop_last() =~= specs.take(i));
    } else {
        assert(specs.take(i) =~= specs);
    }
    lemma_sum_widths_nonneg(specs.take(i));
}

pub proof fn lemma_sum_widths_nonneg(specs: Seq<ColSpec>)
    ensures
        sum_widths(specs) >= 0,
    decreases specs.len(),
{
    if specs.len() > 0 {
        lemma_sum_widths_nonneg(specs.drop_last());
    }
}

impl Engine {
    fn row(&mut self, profile: &Profile, line: usize, specs: &Vec<ColSpec>, cells: &Vec<Cell>) -> (r: Result<(), Error>)
        requires
            !row_panics(old(self).ev(), *profile, line, specs@, cells_view(cells@)),
        ensures
            match r {
                Ok(_) => row_s(old(self).ev(), *profile, line, specs@, cells_view(cells@)) == Ok::<EngV, ErrorV>(final(self).ev()),
                Err(x) => row_s(old(self).ev(), *profile, line, specs@, cells_view(cells@)) == Err::<EngV, ErrorV>(x@) && final(self).ev()
                    == old(self).ev(),
            },
    {
        let ghost e0 = self.ev();
        let ghost cv = cells_view(cells@);
        let available = profile.columns_at(self.mag_w) as usize;
        let mut requested: usize = 0;
        let mut i: usize = 0;
        assert(specs@.take(0) =~= Seq::<ColSpec>::empty());
        while i < specs.len()
            invariant
                i <= specs.len(),
                requested as int == capped(sum_widths(specs@.take(i as int))),
            decreases specs.len() - i,
        {
            proof {
                assert(specs@.take(i + 1).drop_last() =~= specs@.take(i as int));
                lemma_sum_widths_nonneg(specs@.take(i as int));
            }
            requested = requested.saturating_add(specs[i].width_chars as usize);
            i = i + 1;
        }
        assert(specs@.take(i as int) =~= specs@);
        if requested > available {
            return Err(
                Error::ColumnsTooWide {
                    line,
                    requested: saturating_u16(requested),
                    available: saturating_u16(available),
                },
            );
        }
        assert(sum_widths(specs@) <= grid_columns(e0, *profile));
        let n = if specs.len() < cells.len() { specs.len() } else { cells.len() };
        let mut wrapped: Vec<Vec<Vec<Glyph>>> = Vec::new();
        let mut idx: usize = 0;
        assert(wrapped_view(wrapped@) =~= seq![]);
        while idx < n
            invariant
                idx <= n <= specs.len(),
                n <= cells.len(),
                n == (if specs@.len() < cells@.len() { specs@.len() } else { cells@.len() }),
                wrapped.len() == idx,
                self.ev() == e0,
                e0 == old(self).ev(),
                sum_widths(specs@) <= grid_columns(e0, *profile),
                cv == cells_view(cells@),
                wrap_cells(line, specs@, cv, idx as int) == Ok::<Seq<Seq<Seq<Glyph>>>, ErrorV>(wrapped_view(wrapped@)),
            decreases n - idx,
        {
            let spec = specs[idx];
            let width = spec.width_chars as usize;
            let mut glyphs: Vec<Glyph> = Vec::new();
            flatten_into(&mut glyphs, &cells[idx]);
            assert(glyphs@ =~= flatten(cv[idx as int]));
            if spec.align == Align::Right {
                let w = width_of_range(&glyphs, 0, glyphs.len());
                assert(glyphs@.subrange(0, glyphs.len() as int) =~= glyphs@);
                if w > width {
                    let content = chars_of_glyphs(&glyphs);
                    let err = Error::RightColumnOverflow {
                        line,
                        column: idx + 1,
                        width: spec.width_chars,
                        content: string_from(content.as_slice()),
                    };
                    proof {
                        assert(err@ == ErrorV::RightColumnOverflow {
                            line,
                            column: (idx + 1) as usize,
                            width: specs@[idx as int].width_chars,
                            content: text_of(flatten(cv[idx as int])),
                        });
                        assert(cell_lines(line, idx as int, specs@[idx as int], cv[idx as int]) == Err::<Seq<Seq<Glyph>>, ErrorV>(err@));
                        assert(wrap_cells(line, specs@, cv, idx + 1) == Err::<Seq<Seq<Seq<Glyph>>>, ErrorV>(err@));
                        lemma_wrap_cells_err(line, specs@, cv, idx + 1, n as int);
                        assert(sum_widths(specs@) <= grid_columns(e0, *profile));
                        assert(row_check(e0, *profile, line, specs@, cv) == Err::<Seq<Seq<Seq<Glyph>>>, ErrorV>(err@));
                        assert(row_s(e0, *profile, line, specs@, cv) == Err::<EngV, ErrorV>(err@));
                    }
                    return Err(err);
                }
                let mut one: Vec<Vec<Glyph>> = Vec::new();
                if glyphs.len() > 0 {
                    one.push(glyphs);
                }
                proof {
                    if one.len() > 0 {
                        assert(lines_view(one@) =~= seq![flatten(cv[idx as int])]);
                    } else {
                        assert(lines_view(one@) =~= Seq::<Seq<Glyph>>::empty());
                    }
                }
                let ghost before = wrapped@;
                wrapped.push(one);
                assert(wrapped_view(wrapped@) =~= wrapped_view(before).push(lines_view(one@)));
            } else {
                let lines = wrap(&glyphs, width);
                let ghost before = wrapped@;
                wrapped.push(lines);
                assert(wrapped_view(wrapped@) =~= wrapped_view(before).push(lines_view(lines@)));
            }
            idx = idx + 1;
        }
        // The checks passed, so the spec has no more columns than the row has cells.
        assert(n == specs.len());
        let ghost wv = wrapped_view(wrapped@);
        assert(row_check(e0, *profile, line, specs@, cv) == Ok::<Seq<Seq<Seq<Glyph>>>, ErrorV>(wv));
        let mut height: usize = 0;
        let mut k: usize = 0;
        assert(wv.take(0) =~= Seq::<Seq<Seq<Glyph>>>::empty());
        while k < wrapped.len()
            invariant
                k <= wrapped.len(),
                wv == wrapped_view(wrapped@),
                height as int == max_height(wv.take(k as int)),
            decreases wrapped.len() - k,
        {
            assert(wv.take(k + 1).drop_last() =~= wv.take(k as int));
            if wrapped[k].len() > height {
                height = wrapped[k].len();
            }
            k = k + 1;
        }
        assert(wv.take(k as int) =~= wv);
        if height < 1 {
            height = 1;
        }
        let m: usize = if self.mag_w == 0 { 1 } else { self.mag_w as usize };
        let cd = profile.font.char_width_dots() as usize * m;
        assert(cd <= 12 * 255) by (nonlinear_arith)
            requires cd == profile.font.dots() * m, profile.font.dots() <= 12, m <= 255;
        assert(cd as int == cell_dots(e0, *profile));
        self.set_justify(Align::Left);
        self.set_size();
        let nl = newline_vec();
        let ghost goal = emit_rows(self.ev(), specs@, wv, 0, height as int, cd as int);
        proof {
            lemma_sum_widths_prefix(specs@, specs@.len() as int);
            assert(specs@.take(specs@.len() as int) =~= specs@);
        }
        let mut r: usize = 0;
        while r < height
            invariant
                r <= height,
                wv == wrapped_view(wrapped@),
                wv.len() == specs.len(),
                nl@ == newline(),
                cd <= 12 * 255,
                sum_widths(specs@) <= available <= u16::MAX,
                goal == emit_rows(self.ev(), specs@, wv, r as int, height as int, cd as int),
            decreases height - r,
        {
            let ghost line_goal = emit_cells(self.ev(), specs@, wv, r as int, 0, 0, cd as int);
            let mut start: usize = 0;
            let mut c: usize = 0;
            assert(specs@.take(0) =~= Seq::<ColSpec>::empty());
            while c < specs.len()
                invariant
                    c <= specs.len(),
                    wv == wrapped_view(wrapped@),
                    wv.len() == specs.len(),
                    cd <= 12 * 255,
                    sum_widths(specs@) <= u16::MAX,
                    start as int == sum_widths(specs@.take(c as int)),
                    line_goal == emit_cells(self.ev(), specs@, wv, r as int, c as int, start as int, cd as int),
                decreases specs.len() - c,
            {
                proof {
                    assert(specs@.take(c + 1).drop_last() =~= specs@.take(c as int));
                    lemma_sum_widths_prefix(specs@, c + 1);
                }
                let width = specs[c].width_chars as usize;
                assert(wv[c as int] == lines_view(wrapped@[c as int]@));
                if r < wrapped[c].len() && wrapped[c][r].len() > 0 {
                    let g = &wrapped[c][r];
                    assert(wv[c as int][r as int] == g@);
                    let w = width_of_range(g, 0, g.len());
                    assert(g@.subrange(0, g.len() as int) =~= g@);
                    let slack = if w >= width { 0 } else { width - w };
                    let offset = match specs[c].align {
                        Align::Left => 0,
                        Align::Right => slack,
                        Align::Center => slack / 2,
                    };
                    assert(offset as int == cell_offset(specs@[c as int], g@));
                    assert((start + offset) * cd <= 131070 * 3060) by (nonlinear_arith)
                        requires start + offset <= 131070, cd <= 3060;
                    let pos = saturating_u16((start + offset) * cd);
                    self.push_op(Op::AbsPos(pos));
                    self.glyphs(g);
                }
                start = start + width;
                c = c + 1;
            }
            self.text(&nl);
            r = r + 1;
        }
        Ok(())
    }
}


impl Engine {
    fn node(&mut self, profile: &Profile, node: &Node) -> (r: Result<(), Error>)
        requires
            !node_panics(old(self).ev(), *profile, node@),
        ensures
            match r {
                Ok(_) => node_s(old(self).ev(), *profile, node@) == Ok::<EngV, ErrorV>(final(self).ev()),
                Err(x) => node_s(old(self).ev(), *profile, node@) == Err::<EngV, ErrorV>(x@) && final(self).ev()
                    == old(self).ev(),
            },
    {
        let line = node.line;
        match &node.block {
            Block::Version(_) => {},
            Block::Justify(a) => {
                self.justify = *a;
            },
            Block::Size { w, h } => {
                self.mag_w = *w;
                self.mag_h = *h;
            },
            Block::Cols(specs) => {
                self.cols = Some(copy_specs(specs));
            },
            Block::ColsEnd => {
                self.cols = None;
            },
            Block::Feed(n) => {
                self.push_op(Op::Feed(*n));
            },
            Block::Cut => {
                self.push_op(Op::Cut(CutKind::Partial));
            },
            Block::Raw(bytes) => {
                self.set_justify(self.justify);
                let copy = copy_bytes(bytes);
                self.push_op(Op::Raw(copy));
            },
            Block::QrModule(n) => {
                self.qr_module = *n;
            },
            Block::Qr(data) => {
                return self.qr(profile, line, data);
            },
            Block::Blank => {
                self.blank();
            },
            Block::Rule => {
                self.rule(profile);
            },
            Block::Line(cells) => {
                let active = match &self.cols {
                    Some(v) => Some(copy_specs(v)),
                    None => None,
                };
                match active {
                    Some(specs) => {
                        return self.row(profile, line, &specs, cells);
                    },
                    None => {
                        self.plain(profile, cells);
                    },
                }
            },
        }
        Ok(())
    }

    fn finish(self) -> (r: Vec<Op>)
        ensures
            ops_view(r@) == finish_s(self.ev()),
    {
        let mut me = self;
        let ghost e = me.ev();
        let n = me.ops.len();
        let ends_with_cut = n > 0 && match &me.ops[n - 1] {
            Op::Cut(_) => true,
            _ => false,
        };
        if ends_with_cut {
            let cut = me.ops.pop().unwrap();
            assert(ops_view(me.ops@) =~= e.ops.drop_last());
            me.set_attrs(Attrs { bold: false, underline: false });
            me.push_op(cut);
        } else {
            me.set_attrs(Attrs { bold: false, underline: false });
            me.push_op(Op::Feed(FINAL_FEED));
            me.push_op(Op::Cut(CutKind::Partial));
        }
        me.ops
    }
}

/// A fresh vector of the same bytes.
fn copy_bytes(v: &Vec<u8>) -> (r: Vec<u8>)
    ensures
        r@ == v@,
{
    let mut out: Vec<u8> = Vec::new();
    let mut i: usize = 0;
    while i < v.len()
        invariant
            i <= v.len(),
            out@ =~= v@.take(i as int),
        decreases v.len() - i,
    {
        out.push(v[i]);
        i = i + 1;
    }
    assert(v@.take(i as int) =~= v@);
    out
}

proof fn lemma_run_step(e: EngV, p: Profile, nodes: Seq<NodeV>, i: int)
    requires
        0 <= i < nodes.len(),
    ensures
        run_s(e, p, nodes.skip(i)) == match node_s(e, p, nodes[i]) {
            Err(x) => Err(x),
            Ok(e2) => run_s(e2, p, nodes.skip(i + 1)),
        },
        run_panics(e, p, nodes.skip(i)) == (node_panics(e, p, nodes[i]) || match node_s(e, p, nodes[i]) {
            Err(_) => false,
            Ok(e2) => run_panics(e2, p, nodes.skip(i + 1)),
        }),
{
    assert(nodes.skip(i).drop_first() =~= nodes.skip(i + 1));
}

/// Lay out a parsed template against a profile, producing the device-independent IR.
///
/// Every Line node laid out under an active `{cols}` spec must have at least as many cells
/// as the spec has columns; the parser guarantees exactly as many.
pub fn layout(ast: &[Node], profile: &Profile) -> (r: Result<Vec<Op>, Error>)
    requires
        !layout_panics(nodes_view(ast@), *profile),
    ensures
        match r {
            Ok(ops) => layout_spec(nodes_view(ast@), *profile) == Ok::<Seq<OpV>, ErrorV>(ops_view(ops@)),
            Err(x) => layout_spec(nodes_view(ast@), *profile) == Err::<Seq<OpV>, ErrorV>(x@),
        },
{
    let ghost nv = nodes_view(ast@);
    let mut engine = Engine::new();
    let ghost goal = run_s(init_state(), *profile, nv);
    assert(nv.skip(0) =~= nv);
    let mut i: usize = 0;
    while i < ast.len()
        invariant
            i <= ast.len(),
            nv == nodes_view(ast@),
            goal == run_s(init_state(), *profile, nv),
            goal == run_s(engine.ev(), *profile, nv.skip(i as int)),
            !run_panics(engine.ev(), *profile, nv.skip(i as int)),
        decreases ast.len() - i,
    {
        proof {
            lemma_run_step(engine.ev(), *profile, nv, i as int);
        }
        let ghost before = engine.ev();
        assert(nv[i as int] == ast@[i as int]@);
        match engine.node(profile, &ast[i]) {
            Ok(()) => {},
            Err(x) => {
                assert(goal == Err::<EngV, ErrorV>(x@));
                assert(layout_spec(nv, *profile) == Err::<Seq<OpV>, ErrorV>(x@));
                return Err(x);
            },
        }
        i = i + 1;
    }
    assert(nv.skip(i as int).len() == 0);
    Ok(engine.finish())
}


// --- what every step keeps ---------------------------------------------------------

/// Two states agree on the sticky template state.
pub open spec fn frame_same(a: EngV, b: EngV) -> bool {
    a.justify == b.justify && a.mag_w == b.mag_w && a.mag_h == b.mag_h && a.cols == b.cols
        && a.qr_module == b.qr_module
}

proof fn lemma_glyphs_go_frame(e: EngV, line: Seq<Glyph>, attrs: Attrs, buf: Seq<char>)
    ensures
        frame_same(e, glyphs_go(e, line, attrs, buf)),
    decreases line.len(),
{
    if line.len() > 0 {
        if line[0].1 != attrs {
            lemma_glyphs_go_frame(e_text(set_attrs_s(e, attrs), buf), line.drop_first(), line[0].1, seq![line[0].0]);
        } else {
            lemma_glyphs_go_frame(e, line.drop_first(), attrs, buf.push(line[0].0));
        }
    }
}

proof fn lemma_lines_frame(e: EngV, lines: Seq<Seq<Glyph>>)
    ensures
        frame_same(e, lines_s(e, lines)),
    decreases lines.len(),
{
    if lines.len() > 0 {
        let line = lines[0];
        lemma_glyphs_go_frame(e, line, if line.len() > 0 { line[0].1 } else { plain_attrs() }, seq![]);
        lemma_lines_frame(e_text(glyphs_s(e, lines[0]), newline()), lines.drop_first());
    }
}

proof fn lemma_emit_cells_frame(e: EngV, specs: Seq<ColSpec>, wrapped: Seq<Seq<Seq<Glyph>>>, r: int, idx: int, start: int, cd: int)
    ensures
        frame_same(e, emit_cells(e, specs, wrapped, r, idx, start, cd)),
    decreases specs.len() - idx,
{
    if 0 <= idx < specs.len() {
        let e2 = if r < wrapped[idx].len() && wrapped[idx][r].len() > 0 {
            let g = wrapped[idx][r];
            let e1 = e_push(e, OpV::AbsPos(sat16((start + cell_offset(specs[idx], g)) * cd)));
            lemma_glyphs_go_frame(e1, g, if g.len() > 0 { g[0].1 } else { plain_attrs() }, seq![]);
            glyphs_s(e1, g)
        } else {
            e
        };
        lemma_emit_cells_frame(e2, specs, wrapped, r, idx + 1, start + specs[idx].width_chars, cd);
    }
}

proof fn lemma_emit_rows_frame(e: EngV, specs: Seq<ColSpec>, wrapped: Seq<Seq<Seq<Glyph>>>, r: int, height: int, cd: int)
    ensures
        frame_same(e, emit_rows(e, specs, wrapped, r, height, cd)),
    decreases height - r,
{
    if r < height {
        lemma_emit_cells_frame(e, specs, wrapped, r, 0, 0, cd);
        lemma_emit_rows_frame(e_text(emit_cells(e, specs, wrapped, r, 0, 0, cd), newline()), specs, wrapped, r + 1, height, cd);
    }
}

/// The active column spec after a node: set by `{cols}`, cleared by `{/cols}`, and
/// otherwise untouched.
pub open spec fn next_cols(cols: Option<Seq<ColSpec>>, n: NodeV) -> Option<Seq<ColSpec>> {
    match n.block {
        BlockV::Cols(s) => Some(s),
        BlockV::ColsEnd => None,
        _ => cols,
    }
}

proof fn lemma_node_cols(e: EngV, p: Profile, n: NodeV)
    ensures
        node_s(e, p, n) matches Ok(e2) ==> e2.cols == next_cols(e.cols, n),
{
    match n.block {
        BlockV::Blank => {},
        BlockV::Rule => {},
        BlockV::Line(cells) => match e.cols {
            Some(specs) => match row_check(e, p, n.line, specs, cells) {
                Err(_) => {},
                Ok(wrapped) => {
                    let height = if max_height(wrapped) < 1 { 1 } else { max_height(wrapped) };
                    lemma_emit_rows_frame(set_size_s(set_justify_s(e, Align::Left)), specs, wrapped, 0, height, cell_dots(e, p));
                },
            },
            None => {
                let g = flatten_cells(cells);
                if g.len() > 0 {
                    lemma_lines_frame(set_size_s(set_justify_s(e, e.justify)), wrap_spec(g, at_least_one(grid_columns(e, p))));
                }
            },
        },
        _ => {},
    }
}

proof fn lemma_rows_fit_prefix(nodes: Seq<NodeV>, k: int)
    requires
        rows_fit(nodes),
        0 <= k <= nodes.len(),
    ensures
        rows_fit(nodes.take(k)),
    decreases nodes.len() - k,
{
    if k < nodes.len() {
        assert(nodes.take(k + 1).drop_last() =~= nodes.take(k));
        lemma_rows_fit_prefix(nodes, k + 1);
    } else {
        assert(nodes.take(k) =~= nodes);
    }
}

proof fn lemma_no_panic_from(e: EngV, p: Profile, ast: Seq<NodeV>, i: int)
    requires
        0 <= i <= ast.len(),
        rows_fit(ast),
        e.cols == cols_after(ast.take(i)),
    ensures
        !run_panics(e, p, ast.skip(i)),
    decreases ast.len() - i,
{
    if i < ast.len() {
        let n = ast[i];
        assert(ast.skip(i)[0] == n);
        assert(ast.skip(i).drop_first() =~= ast.skip(i + 1));
        lemma_rows_fit_prefix(ast, i + 1);
        assert(ast.take(i + 1).drop_last() =~= ast.take(i));
        assert(ast.take(i + 1).last() == n);
        lemma_node_cols(e, p, n);
        match node_s(e, p, n) {
            Err(_) => {},
            Ok(e2) => {
                lemma_no_panic_from(e2, p, ast, i + 1);
            },
        }
    }
}

/// A node sequence whose rows fit their column specs never reaches a row with fewer
/// cells than its spec, at any paper width.
pub proof fn law_fitting_rows_never_fall_short(ast: Seq<NodeV>, p: Profile)
    requires
        rows_fit(ast),
    ensures
        !layout_panics(ast, p),
{
    assert(ast.take(0) =~= Seq::<NodeV>::empty());
    assert(ast.skip(0) =~= ast);
    lemma_no_panic_from(init_state(), p, ast, 0);
}


// --- the overflow policy -----------------------------------------------------------

/// Overflow is decided per column: a right-aligned cell is never wrapped, so it either
/// stays one line, untouched, or is refused when it is wider than its column; a left or
/// centered cell always has lines, wrapped at its width.
pub proof fn law_right_columns_never_wrap(line: usize, idx: int, spec: ColSpec, cell: CellV)
    ensures
        spec.align == Align::Right ==> (cell_lines(line, idx, spec, cell) is Err <==> width_of(
            flatten(cell),
        ) > spec.width_chars as int),
        spec.align == Align::Right ==> (cell_lines(line, idx, spec, cell) matches Ok(lines)
            ==> lines.len() <= 1 && (lines.len() == 1 ==> lines[0] == flatten(cell))),
        spec.align != Align::Right ==> cell_lines(line, idx, spec, cell) == Ok::<
            Seq<Seq<Glyph>>,
            ErrorV,
        >(wrap_spec(flatten(cell), at_least_one(spec.width_chars as int))),
{
}

/// Whether a cell is too wide for its right-aligned column.
pub open spec fn overflows(spec: ColSpec, cell: CellV) -> bool {
    spec.align == Align::Right && width_of(flatten(cell)) > spec.width_chars as int
}

/// The refusal of the cell at `idx` when it overflows its right-aligned column.
pub open spec fn overflow_error(line: usize, idx: int, spec: ColSpec, cell: CellV) -> ErrorV {
    ErrorV::RightColumnOverflow {
        line,
        column: (idx + 1) as usize,
        width: spec.width_chars,
        content: text_of(flatten(cell)),
    }
}

proof fn lemma_wrap_cells_first(line: usize, specs: Seq<ColSpec>, cells: Seq<CellV>, k: int, i: int)
    requires
        0 <= k,
    ensures
        (forall|j: int| 0 <= j < k ==> !overflows(#[trigger] specs[j], cells[j]))
            ==> wrap_cells(line, specs, cells, k) is Ok,
        0 <= i < k && overflows(specs[i], cells[i]) && (forall|j: int|
            0 <= j < i ==> !overflows(#[trigger] specs[j], cells[j])) ==> wrap_cells(line, specs, cells, k)
            == Err::<Seq<Seq<Seq<Glyph>>>, ErrorV>(overflow_error(line, i, specs[i], cells[i])),
    decreases k,
{
    if k > 0 {
        lemma_wrap_cells_first(line, specs, cells, k - 1, i);
        if i == k - 1 && 0 <= i && overflows(specs[i], cells[i]) && (forall|j: int|
            0 <= j < i ==> !overflows(#[trigger] specs[j], cells[j])) {
            lemma_wrap_cells_first(line, specs, cells, k - 1, -1);
        }
    }
}

/// A row is refused for the first thing wrong with it, in a fixed order: columns that
/// together are wider than the paper come first; after that, the leftmost right-aligned
/// cell wider than its column; a row with neither problem is accepted.
pub proof fn law_row_errors_come_in_order(
    e: EngV,
    p: Profile,
    line: usize,
    specs: Seq<ColSpec>,
    cells: Seq<CellV>,
    i: int,
)
    requires
        specs.len() == cells.len(),
    ensures
        sum_widths(specs) > grid_columns(e, p) ==> row_check(e, p, line, specs, cells) == Err::<
            Seq<Seq<Seq<Glyph>>>,
            ErrorV,
        >(
            ErrorV::ColumnsTooWide {
                line,
                requested: sat16(sum_widths(specs)),
                available: sat16(grid_columns(e, p)),
            },
        ),
        sum_widths(specs) <= grid_columns(e, p) && 0 <= i < specs.len() && overflows(specs[i], cells[i])
            && (forall|j: int| 0 <= j < i ==> !overflows(#[trigger] specs[j], cells[j])) ==> row_check(
            e,
            p,
            line,
            specs,
            cells,
        ) == Err::<Seq<Seq<Seq<Glyph>>>, ErrorV>(overflow_error(line, i, specs[i], cells[i])),
        sum_widths(specs) <= grid_columns(e, p) && (forall|j: int|
            0 <= j < specs.len() ==> !overflows(#[trigger] specs[j], cells[j])) ==> row_check(
            e,
            p,
            line,
            specs,
            cells,
        ) is Ok,
{
    lemma_wrap_cells_first(line, specs, cells, specs.len() as int, i);
}

/// Right-alignment is arithmetic, not padding: a right-aligned line that fits its column
/// starts exactly where it ends flush with the column's right edge, a centered one splits
/// the slack with the extra cell on the right, and a left-aligned one starts at the column.
pub proof fn law_alignment_offsets(spec: ColSpec, g: Seq<Glyph>)
    requires
        width_of(g) <= spec.width_chars as int,
    ensures
        spec.align == Align::Right ==> cell_offset(spec, g) + width_of(g) == spec.width_chars as int,
        spec.align == Align::Center ==> cell_offset(spec, g) == (spec.width_chars as int - width_of(g)) / 2,
        spec.align == Align::Left ==> cell_offset(spec, g) == 0,
        0 <= cell_offset(spec, g) <= spec.width_chars as int - width_of(g),
{
    lemma_width_nonneg(g);
}

/// Magnification is a text command: `{size}` changes nothing about a QR symbol, which is
/// placed and sized the same whatever the magnification.
pub proof fn law_qr_ignores_magnification(e: EngV, p: Profile, line: usize, data: Seq<char>, w: u8, h: u8)
    ensures
        qr_s(EngV { mag_w: w, mag_h: h, ..e }, p, line, data) matches Ok(e2) ==> qr_s(e, p, line, data)
            matches Ok(e1) && e2.ops == e1.ops,
        qr_s(EngV { mag_w: w, mag_h: h, ..e }, p, line, data) is Err ==> qr_s(e, p, line, data)
            == qr_s(EngV { mag_w: w, mag_h: h, ..e }, p, line, data),
{
}

/// The ops that switch off whichever of bold and underline the device has on.
pub open spec fn attrs_off(a: Attrs) -> Seq<OpV> {
    (if a.bold { seq![OpV::Emphasis(false)] } else { seq![] }) + (if a.underline {
        seq![OpV::Underline(false)]
    } else {
        seq![]
    })
}

proof fn lemma_attrs_off(e: EngV)
    ensures
        set_attrs_s(e, plain_attrs()).ops == e.ops + attrs_off(e.dev_attrs),
        set_attrs_s(e, plain_attrs()).dev_attrs == plain_attrs(),
{
    let a = e.dev_attrs;
    if a.bold && a.underline {
        assert(e.ops.push(OpV::Emphasis(false)).push(OpV::Underline(false)) =~= e.ops + attrs_off(a));
    } else if a.bold {
        assert(e.ops.push(OpV::Emphasis(false)) =~= e.ops + attrs_off(a));
    } else if a.underline {
        assert(e.ops.push(OpV::Underline(false)) =~= e.ops + attrs_off(a));
    } else {
        assert(e.ops =~= e.ops + attrs_off(a));
    }
}

/// A QR symbol that is placed adds exactly this to the stream: the current justification
/// if the device does not have it, bold and underline switched off if they are on, and the
/// symbol itself at the current module size. It is refused only for a payload past the
/// version-40 ceiling or a footprint wider than the paper.
pub proof fn law_qr_step(e: EngV, p: Profile, line: usize, data: Seq<char>)
    ensures
        qr_s(e, p, line, data) matches Ok(e2) ==> e2.ops == e.ops + (if e.dev_justify != e.justify {
            seq![OpV::Justify(e.justify)]
        } else {
            seq![]
        }) + attrs_off(e.dev_attrs) + seq![OpV::Qr { data, module: e.qr_module }],
        ({
            let n = (encode_utf8(data).len() as usize) as int;
            qr_s(e, p, line, data) matches Err(x) ==> (x is QrTooLong && qr::spec_footprint_dots(
                n,
                e.qr_module,
            ) is None) || (x is QrTooWide && (qr::spec_footprint_dots(n, e.qr_module) matches Some(
                d,
            ) && d > p.width_dots))
        }),
{
    let e1 = set_justify_s(e, e.justify);
    lemma_attrs_off(e1);
    if e.dev_justify != e.justify {
        assert(e.ops.push(OpV::Justify(e.justify)) =~= e.ops + seq![OpV::Justify(e.justify)]);
    } else {
        assert(e.ops =~= e.ops + Seq::<OpV>::empty());
    }
}

/// A document always closes the same way: bold and underline are switched off if they are
/// on, then a feed and a partial cut follow, unless the stream already ends with a cut, in
/// which case only the switching off is added, just before that cut.
pub proof fn law_finish_shape(e: EngV)
    ensures
        e.ops.len() > 0 && e.ops.last() is Cut ==> finish_s(e) == e.ops.drop_last() + attrs_off(
            e.dev_attrs,
        ) + seq![e.ops.last()],
        !(e.ops.len() > 0 && e.ops.last() is Cut) ==> finish_s(e) == e.ops + attrs_off(e.dev_attrs)
            + seq![OpV::Feed(FINAL_FEED), OpV::Cut(CutKind::Partial)],
{
    if e.ops.len() > 0 && e.ops.last() is Cut {
        lemma_attrs_off(EngV { ops: e.ops.drop_last(), ..e });
    } else {
        lemma_attrs_off(e);
    }
}

// --- what a row writes ------------------------------------------------------------

/// The characters of every text op, in order, whatever stands between them.
pub open spec fn text_chars(ops: Seq<OpV>) -> Seq<char>
    decreases ops.len(),
{
    if ops.len() == 0 {
        seq![]
    } else {
        text_chars(ops.drop_last()) + match ops.last() {
            OpV::Text(s) => s,
            _ => seq![],
        }
    }
}

/// The text of cell `idx` on physical line `r` of a row: its `r`-th wrapped line, if it
/// has one.
pub open spec fn cell_line_text(wrapped: Seq<Seq<Seq<Glyph>>>, idx: int, r: int) -> Seq<char> {
    if 0 <= r < wrapped[idx].len() {
        text_of(wrapped[idx][r])
    } else {
        seq![]
    }
}

/// The text of physical line `r` of a row, cells `idx` and on, left to right.
pub open spec fn line_text(specs: Seq<ColSpec>, wrapped: Seq<Seq<Seq<Glyph>>>, r: int, idx: int) -> Seq<char>
    decreases specs.len() - idx,
{
    if idx < 0 || idx >= specs.len() {
        seq![]
    } else {
        cell_line_text(wrapped, idx, r) + line_text(specs, wrapped, r, idx + 1)
    }
}

/// The text of physical lines `r` up to `height` of a row, each ended by a line break.
pub open spec fn rows_text(specs: Seq<ColSpec>, wrapped: Seq<Seq<Seq<Glyph>>>, r: int, height: int) -> Seq<char>
    decreases height - r,
{
    if r >= height {
        seq![]
    } else {
        line_text(specs, wrapped, r, 0) + newline() + rows_text(specs, wrapped, r + 1, height)
    }
}

proof fn lemma_text_push(ops: Seq<OpV>, op: OpV)
    ensures
        text_chars(ops.push(op)) == text_chars(ops) + match op {
            OpV::Text(s) => s,
            _ => seq![],
        },
{
    assert(ops.push(op).drop_last() =~= ops);
}

proof fn lemma_text_push_text(ops: Seq<OpV>, s: Seq<char>)
    ensures
        text_chars(push_text(ops, s)) == text_chars(ops) + s,
{
    if s.len() == 0 {
        assert(text_chars(ops) + s =~= text_chars(ops));
    } else if ops.len() > 0 {
        match ops.last() {
            OpV::Text(prev) => {
                let d = ops.drop_last();
                lemma_text_push(d, OpV::Text(prev + s));
                assert(d.push(ops.last()) =~= ops);
                lemma_text_push(d, ops.last());
                assert(text_chars(d) + (prev + s) =~= text_chars(d) + prev + s);
            },
            _ => lemma_text_push(ops, OpV::Text(s)),
        }
    } else {
        lemma_text_push(ops, OpV::Text(s));
    }
}

proof fn lemma_text_set_attrs(e: EngV, a: Attrs)
    ensures
        text_chars(set_attrs_s(e, a).ops) == text_chars(e.ops),
{
    lemma_text_push(e.ops, OpV::Emphasis(a.bold));
    let e1 = if e.dev_attrs.bold != a.bold {
        EngV { ops: e.ops.push(OpV::Emphasis(a.bold)), dev_attrs: Attrs { bold: a.bold, ..e.dev_attrs }, ..e }
    } else {
        e
    };
    lemma_text_push(e1.ops, OpV::Underline(a.underline));
    assert(text_chars(e.ops) + Seq::<char>::empty() =~= text_chars(e.ops));
    assert(text_chars(e1.ops) + Seq::<char>::empty() =~= text_chars(e1.ops));
}

proof fn lemma_text_glyphs(e: EngV, line: Seq<Glyph>, attrs: Attrs, buf: Seq<char>)
    ensures
        text_chars(glyphs_go(e, line, attrs, buf).ops) == text_chars(e.ops) + buf + text_of(line),
    decreases line.len(),
{
    lemma_text_set_attrs(e, attrs);
    lemma_text_push_text(set_attrs_s(e, attrs).ops, buf);
    if line.len() == 0 {
        assert(text_of(line) =~= Seq::<char>::empty());
        assert(text_chars(e.ops) + buf + text_of(line) =~= text_chars(e.ops) + buf);
    } else {
        let rest = line.drop_first();
        assert(text_of(line) =~= seq![line[0].0] + text_of(rest));
        if line[0].1 != attrs {
            let e1 = e_text(set_attrs_s(e, attrs), buf);
            lemma_text_glyphs(e1, rest, line[0].1, seq![line[0].0]);
            assert(text_chars(e.ops) + buf + seq![line[0].0] + text_of(rest) =~= text_chars(e.ops) + buf
                + text_of(line));
        } else {
            lemma_text_glyphs(e, rest, attrs, buf.push(line[0].0));
            assert(text_chars(e.ops) + buf.push(line[0].0) + text_of(rest) =~= text_chars(e.ops) + buf
                + text_of(line));
        }
    }
}

proof fn lemma_text_cells(e: EngV, specs: Seq<ColSpec>, wrapped: Seq<Seq<Seq<Glyph>>>, r: int, idx: int, start: int, cd: int)
    requires
        0 <= idx,
        0 <= r,
        specs.len() <= wrapped.len(),
    ensures
        text_chars(emit_cells(e, specs, wrapped, r, idx, start, cd).ops) == text_chars(e.ops) + line_text(
            specs,
            wrapped,
            r,
            idx,
        ),
    decreases specs.len() - idx,
{
    if idx >= specs.len() {
        assert(text_chars(e.ops) + Seq::<char>::empty() =~= text_chars(e.ops));
    } else {
        let e2 = if r < wrapped[idx].len() && wrapped[idx][r].len() > 0 {
            let g = wrapped[idx][r];
            glyphs_s(e_push(e, OpV::AbsPos(sat16((start + cell_offset(specs[idx], g)) * cd))), g)
        } else {
            e
        };
        if r < wrapped[idx].len() && wrapped[idx][r].len() > 0 {
            let g = wrapped[idx][r];
            let ep = e_push(e, OpV::AbsPos(sat16((start + cell_offset(specs[idx], g)) * cd)));
            lemma_text_push(e.ops, OpV::AbsPos(sat16((start + cell_offset(specs[idx], g)) * cd)));
            lemma_text_glyphs(ep, g, if g.len() > 0 { g[0].1 } else { plain_attrs() }, seq![]);
            assert(text_chars(ep.ops) + Seq::<char>::empty() + text_of(g) =~= text_chars(e.ops) + text_of(g));
        } else {
            if 0 <= r < wrapped[idx].len() {
                assert(text_of(wrapped[idx][r]) =~= Seq::<char>::empty());
            }
            assert(text_chars(e.ops) + cell_line_text(wrapped, idx, r) =~= text_chars(e.ops));
        }
        lemma_text_cells(e2, specs, wrapped, r, idx + 1, start + specs[idx].width_chars, cd);
        assert(text_chars(e2.ops) == text_chars(e.ops) + cell_line_text(wrapped, idx, r));
        assert(text_chars(e.ops) + cell_line_text(wrapped, idx, r) + line_text(specs, wrapped, r, idx + 1)
            =~= text_chars(e.ops) + line_text(specs, wrapped, r, idx));
    }
}

proof fn lemma_text_rows(e: EngV, specs: Seq<ColSpec>, wrapped: Seq<Seq<Seq<Glyph>>>, r: int, height: int, cd: int)
    requires
        0 <= r,
        specs.len() <= wrapped.len(),
    ensures
        text_chars(emit_rows(e, specs, wrapped, r, height, cd).ops) == text_chars(e.ops) + rows_text(
            specs,
            wrapped,
            r,
            height,
        ),
    decreases height - r,
{
    if r >= height {
        assert(text_chars(e.ops) + Seq::<char>::empty() =~= text_chars(e.ops));
    } else {
        let ec = emit_cells(e, specs, wrapped, r, 0, 0, cd);
        lemma_text_cells(e, specs, wrapped, r, 0, 0, cd);
        lemma_text_push_text(ec.ops, newline());
        lemma_text_rows(e_text(ec, newline()), specs, wrapped, r + 1, height, cd);
        assert(text_chars(e.ops) + line_text(specs, wrapped, r, 0) + newline() + rows_text(specs, wrapped, r + 1, height)
            =~= text_chars(e.ops) + rows_text(specs, wrapped, r, height));
    }
}

proof fn lemma_wrap_cells_len(line: usize, specs: Seq<ColSpec>, cells: Seq<CellV>, k: int)
    requires
        0 <= k,
    ensures
        wrap_cells(line, specs, cells, k) matches Ok(w) ==> w.len() == k,
    decreases k,
{
    if k > 0 {
        lemma_wrap_cells_len(line, specs, cells, k - 1);
    }
}

/// What a row writes, read as text: for each of its physical lines, as many as its tallest
/// cell has (and at least one), the cells' lines left to right, then one line break. Only
/// positions and attribute changes stand between them.
pub proof fn law_row_text(e: EngV, p: Profile, line: usize, specs: Seq<ColSpec>, cells: Seq<CellV>)
    requires
        specs.len() == cells.len(),
    ensures
        row_s(e, p, line, specs, cells) matches Ok(e2) ==> row_check(e, p, line, specs, cells) matches Ok(
            wrapped,
        ) && text_chars(e2.ops) == text_chars(e.ops) + rows_text(
            specs,
            wrapped,
            0,
            if max_height(wrapped) < 1 { 1 } else { max_height(wrapped) },
        ),
{
    if let Ok(wrapped) = row_check(e, p, line, specs, cells) {
        lemma_wrap_cells_len(line, specs, cells, specs.len() as int);
        let e0 = set_justify_s(e, Align::Left);
        let e1 = set_size_s(e0);
        lemma_text_push(e.ops, OpV::Justify(Align::Left));
        lemma_text_push(e0.ops, OpV::Size { w: e0.mag_w, h: e0.mag_h });
        assert(text_chars(e.ops) + Seq::<char>::empty() =~= text_chars(e.ops));
        assert(text_chars(e0.ops) + Seq::<char>::empty() =~= text_chars(e0.ops));
        let height = if max_height(wrapped) < 1 { 1 } else { max_height(wrapped) };
        lemma_text_rows(e1, specs, wrapped, 0, height, cell_dots(e, p));
    }
}

/// Whether no glyph of `g` is a line break.
pub open spec fn no_break(g: Seq<Glyph>) -> bool {
    forall|k: int| 0 <= k < g.len() ==> (#[trigger] g[k]).0 != '\n'
}

/// How many line breaks `s` holds.
pub open spec fn count_nl(s: Seq<char>) -> nat
    decreases s.len(),
{
    if s.len() == 0 {
        0
    } else {
        count_nl(s.drop_last()) + if s.last() == '\n' { 1nat } else { 0nat }
    }
}

proof fn lemma_count_nl_add(a: Seq<char>, b: Seq<char>)
    ensures
        count_nl(a + b) == count_nl(a) + count_nl(b),
    decreases b.len(),
{
    if b.len() == 0 {
        assert(a + b =~= a);
    } else {
        lemma_count_nl_add(a, b.drop_last());
        assert((a + b).drop_last() =~= a + b.drop_last());
    }
}

proof fn lemma_text_of_no_nl(g: Seq<Glyph>)
    requires
        no_break(g),
    ensures
        count_nl(text_of(g)) == 0,
    decreases g.len(),
{
    if g.len() > 0 {
        let d = g.drop_last();
        assert(text_of(g).drop_last() =~= text_of(d));
        lemma_text_of_no_nl(d);
    }
}

proof fn lemma_wrap_no_break(g: Seq<Glyph>, w: int)
    requires
        no_break(g),
    ensures
        forall|i: int| 0 <= i < wrap_spec(g, w).len() ==> no_break(#[trigger] wrap_spec(g, w)[i]),
    decreases g.len(),
{
    if g.len() > 0 {
        if width_of(g) <= w {
            lemma_trim_end(g);
            assert(no_break(trim_end(g))) by {
                assert forall|k: int| 0 <= k < trim_end(g).len() implies (#[trigger] trim_end(g)[k]).0 != '\n' by {
                    assert(trim_end(g)[k] == g[k]);
                }
            }
        } else {
            let (take, skip) = break_point(g, w);
            lemma_break_point(g, w);
            lemma_skip_spaces_len(g.skip(skip));
            let first = trim_end(g.take(take));
            let rest = skip_spaces(g.skip(skip));
            lemma_trim_end(g.take(take));
            lemma_skip_spaces(g.skip(skip));
            assert(no_break(first)) by {
                assert forall|k: int| 0 <= k < first.len() implies (#[trigger] first[k]).0 != '\n' by {
                    assert(first[k] == g.take(take)[k]);
                    assert(g.take(take)[k] == g[k]);
                }
            }
            assert(no_break(rest)) by {
                let off = g.skip(skip).len() - rest.len();
                assert forall|k: int| 0 <= k < rest.len() implies (#[trigger] rest[k]).0 != '\n' by {
                    assert(rest[k] == g.skip(skip)[off + k]);
                    assert(g.skip(skip)[off + k] == g[skip + off + k]);
                }
            }
            lemma_wrap_no_break(rest, w);
            let lines = wrap_spec(g, w);
            assert forall|i: int| 0 <= i < lines.len() implies no_break(#[trigger] lines[i]) by {
                if i > 0 {
                    assert(lines[i] == wrap_spec(rest, w)[i - 1]);
                }
            }
        }
    }
}

proof fn lemma_wrap_cells_no_break(line: usize, specs: Seq<ColSpec>, cells: Seq<CellV>, k: int)
    requires
        0 <= k <= cells.len(),
        forall|j: int| 0 <= j < cells.len() ==> no_break(flatten(#[trigger] cells[j])),
    ensures
        wrap_cells(line, specs, cells, k) matches Ok(wr) ==> wr.len() == k && forall|j: int, r: int|
            0 <= j < k && 0 <= r < wr[j].len() ==> no_break(#[trigger] wr[j][r]),
    decreases k,
{
    if k > 0 {
        lemma_wrap_cells_no_break(line, specs, cells, k - 1);
        let g = flatten(cells[k - 1]);
        lemma_wrap_no_break(g, at_least_one(specs[k - 1].width_chars as int));
        if let Ok(wr) = wrap_cells(line, specs, cells, k) {
            let acc = wrap_cells(line, specs, cells, k - 1)->Ok_0;
            let l = cell_lines(line, k - 1, specs[k - 1], cells[k - 1])->Ok_0;
            assert(wr == acc.push(l));
            assert forall|j: int, r: int| 0 <= j < k && 0 <= r < wr[j].len() implies no_break(#[trigger] wr[j][r]) by {
                if j < k - 1 {
                    assert(wr[j] == acc[j]);
                } else {
                    assert(wr[j] == l);
                    if specs[k - 1].align == Align::Right {
                        assert(l[r] == g);
                    } else {
                        assert(l == wrap_spec(g, at_least_one(specs[k - 1].width_chars as int)));
                    }
                }
            }
        }
    }
}

proof fn lemma_line_text_no_nl(specs: Seq<ColSpec>, wrapped: Seq<Seq<Seq<Glyph>>>, r: int, idx: int)
    requires
        0 <= idx,
        0 <= r,
        specs.len() <= wrapped.len(),
        forall|j: int, q: int| 0 <= j < wrapped.len() && 0 <= q < wrapped[j].len() ==> no_break(#[trigger] wrapped[j][q]),
    ensures
        count_nl(line_text(specs, wrapped, r, idx)) == 0,
    decreases specs.len() - idx,
{
    if idx < specs.len() {
        lemma_line_text_no_nl(specs, wrapped, r, idx + 1);
        if r < wrapped[idx].len() {
            lemma_text_of_no_nl(wrapped[idx][r]);
        }
        lemma_count_nl_add(cell_line_text(wrapped, idx, r), line_text(specs, wrapped, r, idx + 1));
    }
}

proof fn lemma_rows_text_nl(specs: Seq<ColSpec>, wrapped: Seq<Seq<Seq<Glyph>>>, r: int, height: int)
    requires
        0 <= r <= height,
        specs.len() <= wrapped.len(),
        forall|j: int, q: int| 0 <= j < wrapped.len() && 0 <= q < wrapped[j].len() ==> no_break(#[trigger] wrapped[j][q]),
    ensures
        count_nl(rows_text(specs, wrapped, r, height)) == height - r,
    decreases height - r,
{
    if r < height {
        lemma_rows_text_nl(specs, wrapped, r + 1, height);
        lemma_line_text_no_nl(specs, wrapped, r, 0);
        let a = line_text(specs, wrapped, r, 0);
        lemma_count_nl_add(a, newline());
        lemma_count_nl_add(a + newline(), rows_text(specs, wrapped, r + 1, height));
        assert(count_nl(newline()) == 1) by {
            assert(newline().drop_last() =~= Seq::<char>::empty());
            assert(count_nl(Seq::<char>::empty()) == 0);
            assert(newline().last() == '\n');
        }
    }
}

/// A row writes exactly one line break per physical line: as many as its tallest cell has
/// lines, and one for a row whose cells are all empty; cells hold no line breaks of their
/// own, so none comes from them.
pub proof fn law_row_line_breaks(e: EngV, p: Profile, line: usize, specs: Seq<ColSpec>, cells: Seq<CellV>)
    requires
        specs.len() == cells.len(),
        forall|j: int| 0 <= j < cells.len() ==> no_break(flatten(#[trigger] cells[j])),
    ensures
        row_s(e, p, line, specs, cells) matches Ok(e2) ==> row_check(e, p, line, specs, cells) matches Ok(
            wrapped,
        ) && count_nl(text_chars(e2.ops)) == count_nl(text_chars(e.ops)) + if max_height(wrapped) < 1 {
            1
        } else {
            max_height(wrapped)
        },
{
    law_row_text(e, p, line, specs, cells);
    if let Ok(wrapped) = row_check(e, p, line, specs, cells) {
        lemma_wrap_cells_no_break(line, specs, cells, specs.len() as int);
        let height = if max_height(wrapped) < 1 { 1 } else { max_height(wrapped) };
        lemma_rows_text_nl(specs, wrapped, 0, height);
        lemma_count_nl_add(text_chars(e.ops), rows_text(specs, wrapped, 0, height));
    }
}

// --- justification and magnification reach the next line ---------------------------

/// Whether an op sets the device's justification or magnification.
pub open spec fn is_setting(op: OpV) -> bool {
    op is Justify || op is Size
}

/// The justification and magnification commands a stream sends, in order.
pub open spec fn settings(ops: Seq<OpV>) -> Seq<OpV>
    decreases ops.len(),
{
    if ops.len() == 0 {
        seq![]
    } else {
        settings(ops.drop_last()) + if is_setting(ops.last()) { seq![ops.last()] } else { seq![] }
    }
}

proof fn lemma_settings_push(ops: Seq<OpV>, op: OpV)
    ensures
        settings(ops.push(op)) == settings(ops) + if is_setting(op) { seq![op] } else { seq![] },
        !is_setting(op) ==> settings(ops.push(op)) == settings(ops),
{
    assert(ops.push(op).drop_last() =~= ops);
    assert(settings(ops) + Seq::<OpV>::empty() =~= settings(ops));
}

proof fn lemma_settings_push_text(ops: Seq<OpV>, s: Seq<char>)
    ensures
        settings(push_text(ops, s)) == settings(ops),
{
    if s.len() > 0 {
        if ops.len() > 0 {
            match ops.last() {
                OpV::Text(prev) => {
                    let d = ops.drop_last();
                    lemma_settings_push(d, OpV::Text(prev + s));
                    assert(d.push(ops.last()) =~= ops);
                    lemma_settings_push(d, ops.last());
                },
                _ => lemma_settings_push(ops, OpV::Text(s)),
            }
        } else {
            lemma_settings_push(ops, OpV::Text(s));
        }
    }
}

proof fn lemma_settings_set_attrs(e: EngV, a: Attrs)
    ensures
        settings(set_attrs_s(e, a).ops) == settings(e.ops),
        set_attrs_s(e, a).dev_mag_w == e.dev_mag_w,
        set_attrs_s(e, a).dev_mag_h == e.dev_mag_h,
        set_attrs_s(e, a).dev_justify == e.dev_justify,
{
    lemma_settings_push(e.ops, OpV::Emphasis(a.bold));
    let e1 = if e.dev_attrs.bold != a.bold {
        EngV { ops: e.ops.push(OpV::Emphasis(a.bold)), dev_attrs: Attrs { bold: a.bold, ..e.dev_attrs }, ..e }
    } else {
        e
    };
    lemma_settings_push(e1.ops, OpV::Underline(a.underline));
}

proof fn lemma_settings_glyphs(e: EngV, line: Seq<Glyph>, attrs: Attrs, buf: Seq<char>)
    ensures
        settings(glyphs_go(e, line, attrs, buf).ops) == settings(e.ops),
        glyphs_go(e, line, attrs, buf).dev_mag_w == e.dev_mag_w,
        glyphs_go(e, line, attrs, buf).dev_mag_h == e.dev_mag_h,
        glyphs_go(e, line, attrs, buf).dev_justify == e.dev_justify,
    decreases line.len(),
{
    lemma_settings_set_attrs(e, attrs);
    lemma_settings_push_text(set_attrs_s(e, attrs).ops, buf);
    if line.len() > 0 {
        let rest = line.drop_first();
        if line[0].1 != attrs {
            lemma_settings_glyphs(e_text(set_attrs_s(e, attrs), buf), rest, line[0].1, seq![line[0].0]);
        } else {
            lemma_settings_glyphs(e, rest, attrs, buf.push(line[0].0));
        }
    }
}

proof fn lemma_settings_lines(e: EngV, lines: Seq<Seq<Glyph>>)
    ensures
        settings(lines_s(e, lines).ops) == settings(e.ops),
        lines_s(e, lines).dev_mag_w == e.dev_mag_w,
        lines_s(e, lines).dev_mag_h == e.dev_mag_h,
        lines_s(e, lines).dev_justify == e.dev_justify,
    decreases lines.len(),
{
    if lines.len() > 0 {
        let g = lines[0];
        let eg = glyphs_s(e, g);
        lemma_settings_glyphs(e, g, if g.len() > 0 { g[0].1 } else { plain_attrs() }, seq![]);
        lemma_settings_push_text(eg.ops, newline());
        lemma_settings_lines(e_text(eg, newline()), lines.drop_first());
    }
}

/// `{size WxH}` sets the magnification to exactly W wide and H high and sends nothing by
/// itself; the grid becomes the paper's width over W magnified cells. The next line of
/// text outside column mode, after a justification directive, then sends exactly what the
/// device lacks of the two, in this order: that justification, then that magnification,
/// W then H. The device is left with both.
pub proof fn law_settings_reach_the_next_line(
    e: EngV,
    p: Profile,
    a: Align,
    w: u8,
    h: u8,
    line: usize,
    cells: Seq<CellV>,
)
    requires
        w >= 1,
        e.cols is None,
    ensures
        ({
            let e1 = node_s(e, p, NodeV { line, block: BlockV::Justify(a) })->Ok_0;
            let e2 = node_s(e1, p, NodeV { line, block: BlockV::Size { w, h } })->Ok_0;
            &&& node_s(e, p, NodeV { line, block: BlockV::Justify(a) }) is Ok
            &&& node_s(e1, p, NodeV { line, block: BlockV::Size { w, h } }) is Ok
            &&& e2.justify == a && e2.mag_w == w && e2.mag_h == h && e2.ops == e.ops
            &&& grid_columns(e2, p) == p.width_dots as int / (p.font.dots() as int * w as int)
            &&& node_s(e2, p, NodeV { line, block: BlockV::Line(cells) }) matches Ok(e3)
            &&& settings(e3.ops) == settings(e.ops) + (if e.dev_justify != a {
                seq![OpV::Justify(a)]
            } else {
                seq![]
            }) + (if e.dev_mag_w != w || e.dev_mag_h != h {
                seq![OpV::Size { w, h }]
            } else {
                seq![]
            })
            &&& e3.dev_justify == a && e3.dev_mag_w == w && e3.dev_mag_h == h
        }),
{
    let e2 = EngV { justify: a, mag_w: w, mag_h: h, ..e };
    let ej = set_justify_s(e2, a);
    let e1 = set_size_s(ej);
    lemma_settings_push(e2.ops, OpV::Justify(a));
    lemma_settings_push(ej.ops, OpV::Size { w, h });
    let js: Seq<OpV> = if e.dev_justify != a { seq![OpV::Justify(a)] } else { seq![] };
    let ss: Seq<OpV> = if e.dev_mag_w != w || e.dev_mag_h != h { seq![OpV::Size { w, h }] } else { seq![] };
    assert(settings(ej.ops) =~= settings(e.ops) + js);
    assert(settings(e1.ops) =~= settings(e.ops) + js + ss);
    let g = flatten_cells(cells);
    if g.len() == 0 {
        lemma_settings_set_attrs(e1, plain_attrs());
        lemma_settings_push_text(set_attrs_s(e1, plain_attrs()).ops, newline());
    } else {
        lemma_settings_lines(e1, wrap_spec(g, at_least_one(grid_columns(e2, p))));
    }
}

/// The simple blocks do exactly their one thing: `{feed N}` sends a feed of N lines and
/// `{cut}` a partial cut, both appended as they are; `{raw}` sends its bytes untouched,
/// after the justification the device lacks; a blank line is a bare line break with
/// bold and underline off; a rule is the current grid's width in dashes and a line break,
/// left-justified at the current magnification. None of them changes the directive state.
pub proof fn law_simple_blocks(e: EngV, p: Profile, line: usize, k: u8, b: Seq<u8>)
    ensures
        node_s(e, p, NodeV { line, block: BlockV::Feed(k) }) == Ok::<EngV, ErrorV>(
            EngV { ops: e.ops.push(OpV::Feed(k)), ..e },
        ),
        node_s(e, p, NodeV { line, block: BlockV::Cut }) == Ok::<EngV, ErrorV>(
            EngV { ops: e.ops.push(OpV::Cut(CutKind::Partial)), ..e },
        ),
        node_s(e, p, NodeV { line, block: BlockV::Raw(b) }) matches Ok(e2) && e2.ops == e.ops + (if e.dev_justify
            != e.justify {
            seq![OpV::Justify(e.justify)]
        } else {
            seq![]
        }) + seq![OpV::Raw(b)],
        node_s(e, p, NodeV { line, block: BlockV::Blank }) matches Ok(e2) && text_chars(e2.ops) == text_chars(e.ops)
            + seq!['\n'] && settings(e2.ops) == settings(e.ops) && e2.justify == e.justify
            && e2.mag_w == e.mag_w && e2.mag_h == e.mag_h,
        node_s(e, p, NodeV { line, block: BlockV::Rule }) matches Ok(e2) && text_chars(e2.ops) == text_chars(e.ops)
            + Seq::new(
            (p.width_dots as int / (p.font.dots() as int * (if e.mag_w == 0 { 1 } else { e.mag_w as int }))) as nat,
            |i: int| '-',
        ) + seq!['\n'] && settings(e2.ops) == settings(e.ops) + (if e.dev_justify != Align::Left {
            seq![OpV::Justify(Align::Left)]
        } else {
            seq![]
        }) + (if e.dev_mag_w != e.mag_w || e.dev_mag_h != e.mag_h {
            seq![OpV::Size { w: e.mag_w, h: e.mag_h }]
        } else {
            seq![]
        }),
{
    // raw
    if e.dev_justify != e.justify {
        assert(e.ops.push(OpV::Justify(e.justify)).push(OpV::Raw(b)) =~= e.ops + seq![OpV::Justify(e.justify)] + seq![OpV::Raw(b)]);
    } else {
        assert(e.ops.push(OpV::Raw(b)) =~= e.ops + Seq::<OpV>::empty() + seq![OpV::Raw(b)]);
    }
    // blank
    lemma_text_set_attrs(e, plain_attrs());
    lemma_settings_set_attrs(e, plain_attrs());
    lemma_text_push_text(set_attrs_s(e, plain_attrs()).ops, newline());
    lemma_settings_push_text(set_attrs_s(e, plain_attrs()).ops, newline());
    // rule
    let ej = set_justify_s(e, Align::Left);
    let es = set_size_s(ej);
    let ea = set_attrs_s(es, plain_attrs());
    let width = grid_columns(e, p);
    let dashes = Seq::new(width as nat, |i: int| '-');
    lemma_text_push(e.ops, OpV::Justify(Align::Left));
    lemma_text_push(ej.ops, OpV::Size { w: ej.mag_w, h: ej.mag_h });
    lemma_settings_push(e.ops, OpV::Justify(Align::Left));
    lemma_settings_push(ej.ops, OpV::Size { w: ej.mag_w, h: ej.mag_h });
    assert(text_chars(e.ops) + Seq::<char>::empty() =~= text_chars(e.ops));
    assert(text_chars(ej.ops) + Seq::<char>::empty() =~= text_chars(ej.ops));
    lemma_text_set_attrs(es, plain_attrs());
    lemma_settings_set_attrs(es, plain_attrs());
    lemma_text_push_text(ea.ops, dashes);
    lemma_settings_push_text(ea.ops, dashes);
    lemma_text_push_text(push_text(ea.ops, dashes), newline());
    lemma_settings_push_text(push_text(ea.ops, dashes), newline());
    let js: Seq<OpV> = if e.dev_justify != Align::Left { seq![OpV::Justify(Align::Left)] } else { seq![] };
    let ss: Seq<OpV> = if e.dev_mag_w != e.mag_w || e.dev_mag_h != e.mag_h {
        seq![OpV::Size { w: e.mag_w, h: e.mag_h }]
    } else {
        seq![]
    };
    assert(settings(ej.ops) =~= settings(e.ops) + js);
    assert(settings(es.ops) =~= settings(e.ops) + js + ss);
}

/// Lines of glyphs as text, each followed by a line break.
pub open spec fn lines_text(lines: Seq<Seq<Glyph>>) -> Seq<char>
    decreases lines.len(),
{
    if lines.len() == 0 {
        seq![]
    } else {
        text_of(lines[0]) + seq!['\n'] + lines_text(lines.drop_first())
    }
}

proof fn lemma_text_lines(e: EngV, lines: Seq<Seq<Glyph>>)
    ensures
        text_chars(lines_s(e, lines).ops) == text_chars(e.ops) + lines_text(lines),
        settings(lines_s(e, lines).ops) == settings(e.ops),
    decreases lines.len(),
{
    lemma_settings_lines(e, lines);
    if lines.len() == 0 {
        assert(text_chars(e.ops) + Seq::<char>::empty() =~= text_chars(e.ops));
    } else {
        let g = lines[0];
        let eg = glyphs_s(e, g);
        lemma_text_glyphs(e, g, if g.len() > 0 { g[0].1 } else { plain_attrs() }, seq![]);
        lemma_text_push_text(eg.ops, newline());
        lemma_text_lines(e_text(eg, newline()), lines.drop_first());
        assert(text_chars(e.ops) + Seq::<char>::empty() + text_of(g) + newline() + lines_text(lines.drop_first())
            =~= text_chars(e.ops) + lines_text(lines));
    }
}

/// A line of text outside column mode writes its cells' characters, wrapped at the grid
/// of the current magnification (the paper's width over the magnified cell, and at least
/// one), each wrapped line followed by a line break; an empty line writes one line break.
/// Before it, it sends only the justification and the magnification the device lacks.
pub proof fn law_plain_line_text(e: EngV, p: Profile, line: usize, cells: Seq<CellV>)
    requires
        e.cols is None,
    ensures
        ({
            let g = flatten_cells(cells);
            let grid = p.width_dots as int / (p.font.dots() as int * (if e.mag_w == 0 { 1 } else { e.mag_w as int }));
            &&& node_s(e, p, NodeV { line, block: BlockV::Line(cells) }) matches Ok(e2)
            &&& text_chars(e2.ops) == text_chars(e.ops) + (if g.len() == 0 {
                seq!['\n']
            } else {
                lines_text(wrap_spec(g, if grid < 1 { 1 } else { grid }))
            })
            &&& settings(e2.ops) == settings(e.ops) + (if e.dev_justify != e.justify {
                seq![OpV::Justify(e.justify)]
            } else {
                seq![]
            }) + (if e.dev_mag_w != e.mag_w || e.dev_mag_h != e.mag_h {
                seq![OpV::Size { w: e.mag_w, h: e.mag_h }]
            } else {
                seq![]
            })
        }),
{
    let ej = set_justify_s(e, e.justify);
    let es = set_size_s(ej);
    lemma_text_push(e.ops, OpV::Justify(e.justify));
    lemma_text_push(ej.ops, OpV::Size { w: ej.mag_w, h: ej.mag_h });
    lemma_settings_push(e.ops, OpV::Justify(e.justify));
    lemma_settings_push(ej.ops, OpV::Size { w: ej.mag_w, h: ej.mag_h });
    assert(text_chars(e.ops) + Seq::<char>::empty() =~= text_chars(e.ops));
    assert(text_chars(ej.ops) + Seq::<char>::empty() =~= text_chars(ej.ops));
    let js: Seq<OpV> = if e.dev_justify != e.justify { seq![OpV::Justify(e.justify)] } else { seq![] };
    let ss: Seq<OpV> = if e.dev_mag_w != e.mag_w || e.dev_mag_h != e.mag_h {
        seq![OpV::Size { w: e.mag_w, h: e.mag_h }]
    } else {
        seq![]
    };
    assert(settings(ej.ops) =~= settings(e.ops) + js);
    assert(settings(es.ops) =~= settings(e.ops) + js + ss);
    let g = flatten_cells(cells);
    if g.len() == 0 {
        lemma_text_set_attrs(es, plain_attrs());
        lemma_settings_set_attrs(es, plain_attrs());
        lemma_text_push_text(set_attrs_s(es, plain_attrs()).ops, newline());
        lemma_settings_push_text(set_attrs_s(es, plain_attrs()).ops, newline());
    } else {
        lemma_text_lines(es, wrap_spec(g, at_least_one(grid_columns(e, p))));
    }
}

/// Attribute changes are sent only when they change something: switching to attributes
/// `a` sends emphasis when the device's bold differs, then underline when its underline
/// differs, each set to `a`'s value, and leaves the device at `a`.
pub proof fn law_attribute_changes(e: EngV, a: Attrs)
    ensures
        set_attrs_s(e, a).ops == e.ops + (if e.dev_attrs.bold != a.bold {
            seq![OpV::Emphasis(a.bold)]
        } else {
            seq![]
        }) + (if e.dev_attrs.underline != a.underline {
            seq![OpV::Underline(a.underline)]
        } else {
            seq![]
        }),
        set_attrs_s(e, a).dev_attrs == a,
{
    let eb: Seq<OpV> = if e.dev_attrs.bold != a.bold { seq![OpV::Emphasis(a.bold)] } else { seq![] };
    let eu: Seq<OpV> = if e.dev_attrs.underline != a.underline { seq![OpV::Underline(a.underline)] } else { seq![] };
    assert(set_attrs_s(e, a).ops =~= e.ops + eb + eu);
}

proof fn lemma_glyphs_uniform(e: EngV, line: Seq<Glyph>, a: Attrs, buf: Seq<char>)
    requires
        forall|k: int| 0 <= k < line.len() ==> (#[trigger] line[k]).1 == a,
    ensures
        glyphs_go(e, line, a, buf) == e_text(set_attrs_s(e, a), buf + text_of(line)),
    decreases line.len(),
{
    if line.len() == 0 {
        assert(buf + text_of(line) =~= buf);
    } else {
        let rest = line.drop_first();
        assert(line[0].1 == a);
        assert forall|k: int| 0 <= k < rest.len() implies (#[trigger] rest[k]).1 == a by {
            assert(rest[k] == line[k + 1]);
        }
        lemma_glyphs_uniform(e, rest, a, buf.push(line[0].0));
        assert(text_of(line) =~= seq![line[0].0] + text_of(rest));
        assert(buf.push(line[0].0) + text_of(rest) =~= buf + text_of(line));
    }
}

/// A run of glyphs under one set of attributes is written as those attributes (sent only
/// where the device lacks them) followed by the run's characters as text, and leaves the
/// device in those attributes.
pub proof fn law_uniform_glyphs(e: EngV, line: Seq<Glyph>, a: Attrs)
    requires
        line.len() > 0,
        forall|k: int| 0 <= k < line.len() ==> (#[trigger] line[k]).1 == a,
    ensures
        glyphs_s(e, line).dev_attrs == a,
        text_chars(glyphs_s(e, line).ops) == text_chars(e.ops) + text_of(line),
        glyphs_s(e, line).ops.len() > 0 && glyphs_s(e, line).ops.last() == OpV::Text(
            if set_attrs_s(e, a).ops.len() > 0 && set_attrs_s(e, a).ops.last() is Text {
                set_attrs_s(e, a).ops.last()->Text_0 + text_of(line)
            } else {
                text_of(line)
            },
        ),
        glyphs_s(e, line).ops.drop_last() == (if set_attrs_s(e, a).ops.len() > 0
            && set_attrs_s(e, a).ops.last() is Text {
            set_attrs_s(e, a).ops.drop_last()
        } else {
            set_attrs_s(e, a).ops
        }),
{
    assert(line[0].1 == a);
    lemma_glyphs_uniform(e, line, a, seq![]);
    assert(Seq::<char>::empty() + text_of(line) =~= text_of(line));
    law_attribute_changes(e, a);
    lemma_text_glyphs(e, line, a, seq![]);
    assert(text_of(line).len() == line.len());
    let o = set_attrs_s(e, a).ops;
    if o.len() > 0 && o.last() is Text {
        assert(o.drop_last().push(OpV::Text(o.last()->Text_0 + text_of(line))).drop_last() =~= o.drop_last());
    } else {
        assert(o.push(OpV::Text(text_of(line))).drop_last() =~= o);
    }
}

/// A character cell at the current magnification is the font's cell times the horizontal
/// magnification (zero read as one), in dots; the grid is the paper over such cells.
pub proof fn law_magnified_cells(e: EngV, p: Profile)
    ensures
        cell_dots(e, p) == p.font.dots() as int * (if e.mag_w == 0 { 1 } else { e.mag_w as int }),
        grid_columns(e, p) == p.width_dots as int / (p.font.dots() as int * (if e.mag_w == 0 {
            1
        } else {
            e.mag_w as int
        })),
{
}

/// The absolute positions a stream sends, in order.
pub open spec fn positions(ops: Seq<OpV>) -> Seq<u16>
    decreases ops.len(),
{
    if ops.len() == 0 {
        seq![]
    } else {
        positions(ops.drop_last()) + match ops.last() {
            OpV::AbsPos(d) => seq![d],
            _ => seq![],
        }
    }
}

/// Where column `idx` starts, in characters: the widths of the columns left of it.
pub open spec fn col_start(specs: Seq<ColSpec>, idx: int) -> int {
    sum_widths(specs.take(idx))
}

/// The positions physical line `r` of a row sends, cells `idx` and on: one for each cell
/// that has a non-empty line there, at its column's start plus its alignment offset, in
/// dots.
pub open spec fn line_positions(specs: Seq<ColSpec>, wrapped: Seq<Seq<Seq<Glyph>>>, r: int, idx: int, cd: int) -> Seq<u16>
    decreases specs.len() - idx,
{
    if idx < 0 || idx >= specs.len() {
        seq![]
    } else if r < wrapped[idx].len() && wrapped[idx][r].len() > 0 {
        seq![sat16((col_start(specs, idx) + cell_offset(specs[idx], wrapped[idx][r])) * cd)]
            + line_positions(specs, wrapped, r, idx + 1, cd)
    } else {
        line_positions(specs, wrapped, r, idx + 1, cd)
    }
}

/// The positions of physical lines `r` up to `height` of a row.
pub open spec fn rows_positions(specs: Seq<ColSpec>, wrapped: Seq<Seq<Seq<Glyph>>>, r: int, height: int, cd: int) -> Seq<u16>
    decreases height - r,
{
    if r >= height {
        seq![]
    } else {
        line_positions(specs, wrapped, r, 0, cd) + rows_positions(specs, wrapped, r + 1, height, cd)
    }
}

proof fn lemma_pos_push(ops: Seq<OpV>, op: OpV)
    ensures
        positions(ops.push(op)) == positions(ops) + match op {
            OpV::AbsPos(d) => seq![d],
            _ => seq![],
        },
{
    assert(ops.push(op).drop_last() =~= ops);
}

proof fn lemma_pos_push_text(ops: Seq<OpV>, s: Seq<char>)
    ensures
        positions(push_text(ops, s)) == positions(ops),
{
    if s.len() > 0 {
        if ops.len() > 0 {
            match ops.last() {
                OpV::Text(prev) => {
                    let d = ops.drop_last();
                    lemma_pos_push(d, OpV::Text(prev + s));
                    assert(d.push(ops.last()) =~= ops);
                    lemma_pos_push(d, ops.last());
                },
                _ => lemma_pos_push(ops, OpV::Text(s)),
            }
        } else {
            lemma_pos_push(ops, OpV::Text(s));
        }
        assert(positions(ops) + Seq::<u16>::empty() =~= positions(ops));
    }
}

proof fn lemma_pos_set_attrs(e: EngV, a: Attrs)
    ensures
        positions(set_attrs_s(e, a).ops) == positions(e.ops),
{
    lemma_pos_push(e.ops, OpV::Emphasis(a.bold));
    let e1 = if e.dev_attrs.bold != a.bold {
        EngV { ops: e.ops.push(OpV::Emphasis(a.bold)), dev_attrs: Attrs { bold: a.bold, ..e.dev_attrs }, ..e }
    } else {
        e
    };
    lemma_pos_push(e1.ops, OpV::Underline(a.underline));
    assert(positions(e.ops) + Seq::<u16>::empty() =~= positions(e.ops));
    assert(positions(e1.ops) + Seq::<u16>::empty() =~= positions(e1.ops));
}

proof fn lemma_pos_glyphs(e: EngV, line: Seq<Glyph>, attrs: Attrs, buf: Seq<char>)
    ensures
        positions(glyphs_go(e, line, attrs, buf).ops) == positions(e.ops),
    decreases line.len(),
{
    lemma_pos_set_attrs(e, attrs);
    lemma_pos_push_text(set_attrs_s(e, attrs).ops, buf);
    if line.len() > 0 {
        let rest = line.drop_first();
        if line[0].1 != attrs {
            lemma_pos_glyphs(e_text(set_attrs_s(e, attrs), buf), rest, line[0].1, seq![line[0].0]);
        } else {
            lemma_pos_glyphs(e, rest, attrs, buf.push(line[0].0));
        }
    }
}

proof fn lemma_pos_cells(e: EngV, specs: Seq<ColSpec>, wrapped: Seq<Seq<Seq<Glyph>>>, r: int, idx: int, cd: int)
    requires
        0 <= idx <= specs.len(),
    ensures
        positions(emit_cells(e, specs, wrapped, r, idx, col_start(specs, idx), cd).ops) == positions(e.ops)
            + line_positions(specs, wrapped, r, idx, cd),
    decreases specs.len() - idx,
{
    if idx >= specs.len() {
        assert(positions(e.ops) + Seq::<u16>::empty() =~= positions(e.ops));
    } else {
        let start = col_start(specs, idx);
        assert(specs.take(idx + 1).drop_last() =~= specs.take(idx));
        assert(col_start(specs, idx + 1) == start + specs[idx].width_chars);
        if r < wrapped[idx].len() && wrapped[idx][r].len() > 0 {
            let g = wrapped[idx][r];
            let d = sat16((start + cell_offset(specs[idx], g)) * cd);
            let ep = e_push(e, OpV::AbsPos(d));
            lemma_pos_push(e.ops, OpV::AbsPos(d));
            lemma_pos_glyphs(ep, g, if g.len() > 0 { g[0].1 } else { plain_attrs() }, seq![]);
            let e2 = glyphs_s(ep, g);
            lemma_pos_cells(e2, specs, wrapped, r, idx + 1, cd);
            assert(positions(e.ops) + seq![d] + line_positions(specs, wrapped, r, idx + 1, cd) =~= positions(e.ops)
                + line_positions(specs, wrapped, r, idx, cd));
        } else {
            lemma_pos_cells(e, specs, wrapped, r, idx + 1, cd);
        }
    }
}

proof fn lemma_pos_rows(e: EngV, specs: Seq<ColSpec>, wrapped: Seq<Seq<Seq<Glyph>>>, r: int, height: int, cd: int)
    ensures
        positions(emit_rows(e, specs, wrapped, r, height, cd).ops) == positions(e.ops) + rows_positions(
            specs,
            wrapped,
            r,
            height,
            cd,
        ),
    decreases height - r,
{
    if r >= height {
        assert(positions(e.ops) + Seq::<u16>::empty() =~= positions(e.ops));
    } else {
        assert(specs.take(0) =~= Seq::<ColSpec>::empty());
        let ec = emit_cells(e, specs, wrapped, r, 0, 0, cd);
        lemma_pos_cells(e, specs, wrapped, r, 0, cd);
        lemma_pos_push_text(ec.ops, newline());
        lemma_pos_rows(e_text(ec, newline()), specs, wrapped, r + 1, height, cd);
        assert(positions(e.ops) + line_positions(specs, wrapped, r, 0, cd) + rows_positions(specs, wrapped, r + 1, height, cd)
            =~= positions(e.ops) + rows_positions(specs, wrapped, r, height, cd));
    }
}

/// Column resolution: a row sends one absolute position per non-empty cell line, line by
/// line and left to right, each at the cell's column start (the widths of the columns to
/// its left) plus its alignment offset, in cells of the current magnification converted
/// to dots. Before them it sends only left justification, if the device is not already
/// left-justified, and the magnification, if the device does not already have it.
pub proof fn law_row_positions(e: EngV, p: Profile, line: usize, specs: Seq<ColSpec>, cells: Seq<CellV>)
    ensures
        row_s(e, p, line, specs, cells) matches Ok(e2) ==> row_check(e, p, line, specs, cells) matches Ok(
            wrapped,
        ) && positions(e2.ops) == positions(e.ops) + rows_positions(
            specs,
            wrapped,
            0,
            if max_height(wrapped) < 1 { 1 } else { max_height(wrapped) },
            cell_dots(e, p),
        ),
        ({
            let e1 = set_size_s(set_justify_s(e, Align::Left));
            e1.ops == e.ops + (if e.dev_justify != Align::Left {
                seq![OpV::Justify(Align::Left)]
            } else {
                seq![]
            }) + (if e.dev_mag_w != e.mag_w || e.dev_mag_h != e.mag_h {
                seq![OpV::Size { w: e.mag_w, h: e.mag_h }]
            } else {
                seq![]
            })
        }),
{
    let e0 = set_justify_s(e, Align::Left);
    let e1 = set_size_s(e0);
    assert(e1.ops =~= e.ops + (if e.dev_justify != Align::Left {
        seq![OpV::Justify(Align::Left)]
    } else {
        seq![]
    }) + (if e.dev_mag_w != e.mag_w || e.dev_mag_h != e.mag_h {
        seq![OpV::Size { w: e.mag_w, h: e.mag_h }]
    } else {
        seq![]
    }));
    if let Ok(wrapped) = row_check(e, p, line, specs, cells) {
        lemma_pos_push(e.ops, OpV::Justify(Align::Left));
        lemma_pos_push(e0.ops, OpV::Size { w: e0.mag_w, h: e0.mag_h });
        assert(positions(e.ops) + Seq::<u16>::empty() =~= positions(e.ops));
        assert(positions(e0.ops) + Seq::<u16>::empty() =~= positions(e0.ops));
        let height = if max_height(wrapped) < 1 { 1 } else { max_height(wrapped) };
        lemma_pos_rows(e1, specs, wrapped, 0, height, cell_dots(e, p));
    }
}

/// A column row is positioned by its spec, not by the paper: on two profiles that differ
/// only in width, a row that fits both lays out to the same ops.
pub proof fn law_rows_do_not_depend_on_paper_width(
    e: EngV,
    p1: Profile,
    p2: Profile,
    line: usize,
    specs: Seq<ColSpec>,
    cells: Seq<CellV>,
)
    requires
        p1.font == p2.font,
    ensures
        row_s(e, p1, line, specs, cells) matches Ok(e1) ==> (row_s(e, p2, line, specs, cells) matches Ok(
            e2,
        ) ==> e1 == e2),
{
}

// --- what wrapping keeps ----------------------------------------------------------

/// The glyphs that are not spaces, in order.
pub open spec fn words_of(g: Seq<Glyph>) -> Seq<Glyph>
    decreases g.len(),
{
    if g.len() == 0 {
        g
    } else if g.last().0 == ' ' {
        words_of(g.drop_last())
    } else {
        words_of(g.drop_last()).push(g.last())
    }
}

proof fn lemma_words_add(a: Seq<Glyph>, b: Seq<Glyph>)
    ensures
        words_of(a + b) == words_of(a) + words_of(b),
    decreases b.len(),
{
    if b.len() > 0 {
        assert((a + b).drop_last() =~= a + b.drop_last());
        assert((a + b).last() == b.last());
        lemma_words_add(a, b.drop_last());
        if b.last().0 != ' ' {
            assert(words_of(a) + words_of(b.drop_last()).push(b.last()) =~= (words_of(a) + words_of(
                b.drop_last(),
            )).push(b.last()));
        }
    } else {
        assert(a + b =~= a);
        assert(words_of(a) + words_of(b) =~= words_of(a));
    }
}

proof fn lemma_width_add(a: Seq<Glyph>, b: Seq<Glyph>)
    ensures
        width_of(a + b) == width_of(a) + width_of(b),
    decreases b.len(),
{
    if b.len() > 0 {
        assert((a + b).drop_last() =~= a + b.drop_last());
        lemma_width_add(a, b.drop_last());
    } else {
        assert(a + b =~= a);
    }
}

proof fn lemma_width_prefix(g: Seq<Glyph>, k: int)
    requires
        0 <= k <= g.len(),
    ensures
        width_of(g.take(k)) <= width_of(g),
{
    assert(g =~= g.take(k) + g.skip(k));
    lemma_width_add(g.take(k), g.skip(k));
    lemma_width_nonneg(g.skip(k));
}

proof fn lemma_fit_width(g: Seq<Glyph>, w: int)
    ensures
        fit_count(g, w) > 0 ==> width_of(g.take(fit_count(g, w))) <= w,
    decreases g.len(),
{
    if g.len() > 0 && cell_width(g[0].0) <= w {
        let t = g.drop_first();
        let w2 = w - cell_width(g[0].0);
        lemma_fit_width(t, w2);
        lemma_fit_count_bounds(t, w2);
        let f = fit_count(t, w2);
        assert(g.take(1 + f) =~= seq![g[0]] + t.take(f));
        lemma_width_add(seq![g[0]], t.take(f));
        let one = seq![g[0]];
        assert(one.drop_last() =~= Seq::<Glyph>::empty());
        assert(width_of(one.drop_last()) == 0);
        assert(one.last() == g[0]);
        assert(width_of(one) == cell_width(g[0].0));
        assert(fit_count(g, w) == 1 + f);
        if f == 0 {
            assert(t.take(0) =~= Seq::<Glyph>::empty());
        }
    }
}

proof fn lemma_trim_end(g: Seq<Glyph>)
    ensures
        trim_end(g).len() <= g.len(),
        trim_end(g) == g.take(trim_end(g).len() as int),
        trim_end(g).len() == 0 || trim_end(g).last().0 != ' ',
        words_of(trim_end(g)) == words_of(g),
    decreases g.len(),
{
    if g.len() > 0 && g.last().0 == ' ' {
        let d = g.drop_last();
        lemma_trim_end(d);
        assert(d.take(trim_end(d).len() as int) =~= g.take(trim_end(d).len() as int));
        assert(g =~= d.push(g.last()));
        assert(words_of(g) =~= words_of(d));
    } else {
        assert(g.take(g.len() as int) =~= g);
    }
}

proof fn lemma_skip_spaces(g: Seq<Glyph>)
    ensures
        skip_spaces(g).len() <= g.len(),
        skip_spaces(g) == g.skip(g.len() - skip_spaces(g).len()),
        skip_spaces(g).len() == 0 || skip_spaces(g)[0].0 != ' ',
        words_of(skip_spaces(g)) == words_of(g),
    decreases g.len(),
{
    if g.len() > 0 && g[0].0 == ' ' {
        let t = g.drop_first();
        lemma_skip_spaces(t);
        assert(t.skip(t.len() - skip_spaces(t).len()) =~= g.skip(g.len() - skip_spaces(t).len()));
        assert(g =~= seq![g[0]] + t);
        lemma_words_add(seq![g[0]], t);
        let one = seq![g[0]];
        assert(one.drop_last() =~= Seq::<Glyph>::empty());
        assert(words_of(one.drop_last()) =~= Seq::<Glyph>::empty());
        assert(one.last() == g[0]);
        assert(words_of(one) =~= Seq::<Glyph>::empty());
        assert(Seq::<Glyph>::empty() + words_of(t) =~= words_of(t));
    } else {
        assert(g.skip(0) =~= g);
    }
}

/// What one break keeps: the line and the rest carry every non-space glyph of `g`.
proof fn lemma_break_words(g: Seq<Glyph>, w: int)
    requires
        g.len() > 0,
    ensures
        ({
            let (take, skip) = break_point(g, w);
            words_of(g) == words_of(g.take(take)) + words_of(g.skip(skip))
        }),
{
    lemma_break_point(g, w);
    let (take, skip) = break_point(g, w);
    let fit = if fit_count(g, w) == 0 { 1 } else { fit_count(g, w) };
    lemma_fit_count_bounds(g, w);
    lemma_last_space_bounds(g.take(fit));
    let mid = g.subrange(take, skip);
    assert(g =~= g.take(take) + (mid + g.skip(skip)));
    lemma_words_add(g.take(take), mid + g.skip(skip));
    lemma_words_add(mid, g.skip(skip));
    if take < skip {
        assert(mid =~= seq![g[take]]);
        assert(mid.drop_last() =~= Seq::<Glyph>::empty());
        assert(words_of(mid.drop_last()) =~= Seq::<Glyph>::empty());
        assert(mid.last() == g[take]);
        assert(g.take(fit)[take] == g[take]);
    } else {
        assert(mid =~= Seq::<Glyph>::empty());
    }
    assert(words_of(mid) =~= Seq::<Glyph>::empty());
    assert(Seq::<Glyph>::empty() + words_of(g.skip(skip)) =~= words_of(g.skip(skip)));
}

/// Wrapping loses no word: the non-space glyphs of the lines, read in order, are those of
/// the input. Only spaces are dropped, at the breaks and the ends of lines.
pub proof fn law_wrap_keeps_every_word(g: Seq<Glyph>, w: int)
    ensures
        words_of(wrap_spec(g, w).flatten()) == words_of(g),
    decreases g.len(),
{
    let lines = wrap_spec(g, w);
    if g.len() == 0 {
        assert(lines.flatten() =~= Seq::<Glyph>::empty());
    } else if width_of(g) <= w {
        lemma_trim_end(g);
        assert(lines.drop_first() =~= Seq::<Seq<Glyph>>::empty());
        assert(lines.drop_first().flatten() =~= Seq::<Glyph>::empty());
        assert(lines.flatten() =~= trim_end(g));
    } else {
        let (take, skip) = break_point(g, w);
        lemma_break_point(g, w);
        lemma_skip_spaces_len(g.skip(skip));
        let rest = skip_spaces(g.skip(skip));
        law_wrap_keeps_every_word(rest, w);
        lemma_skip_spaces(g.skip(skip));
        lemma_trim_end(g.take(take));
        lemma_break_words(g, w);
        assert(lines.drop_first() =~= wrap_spec(rest, w));
        assert(lines.flatten() == trim_end(g.take(take)) + wrap_spec(rest, w).flatten());
        lemma_words_add(trim_end(g.take(take)), wrap_spec(rest, w).flatten());
    }
}

/// Every wrapped line fits its width, but for a single glyph wider than the whole width,
/// which is taken alone rather than looping; no line ends in a space, and no line after the
/// first starts with one.
pub proof fn law_wrapped_lines_fit(g: Seq<Glyph>, w: int)
    ensures
        forall|i: int| 0 <= i < wrap_spec(g, w).len() ==> #[trigger] wrap_spec(g, w)[i].len() <= 1
            || width_of(wrap_spec(g, w)[i]) <= w,
        forall|i: int| 0 <= i < wrap_spec(g, w).len() ==> (#[trigger] wrap_spec(g, w)[i]).len() == 0
            || wrap_spec(g, w)[i].last().0 != ' ',
        forall|i: int| 0 < i < wrap_spec(g, w).len() ==> (#[trigger] wrap_spec(g, w)[i]).len() == 0
            || wrap_spec(g, w)[i][0].0 != ' ',
    decreases g.len(),
{
    let lines = wrap_spec(g, w);
    if g.len() == 0 {
    } else if width_of(g) <= w {
        lemma_trim_end(g);
        lemma_width_prefix(g, trim_end(g).len() as int);
    } else {
        let (take, skip) = break_point(g, w);
        lemma_break_point(g, w);
        lemma_skip_spaces_len(g.skip(skip));
        let rest = skip_spaces(g.skip(skip));
        law_wrap_keeps_every_word(rest, w);
        law_wrapped_lines_fit(rest, w);
        lemma_skip_spaces(g.skip(skip));
        let first = trim_end(g.take(take));
        lemma_trim_end(g.take(take));
        let fit = if fit_count(g, w) == 0 { 1 } else { fit_count(g, w) };
        lemma_fit_count_bounds(g, w);
        lemma_last_space_bounds(g.take(fit));
        lemma_fit_width(g, w);
        // The first line is a prefix of the glyphs that fit, or a single glyph.
        assert(first =~= g.take(first.len() as int));
        if fit_count(g, w) > 0 {
            assert(g.take(fit).take(first.len() as int) =~= first);
            lemma_width_prefix(g.take(fit), first.len() as int);
        }
        let tail = wrap_spec(rest, w);
        assert(lines =~= seq![first] + tail);
        assert forall|i: int| 0 < i < lines.len() implies #[trigger] lines[i] == tail[i - 1] by {}
        if tail.len() > 0 {
            // A continuation line is a prefix of the rest, which starts with a non-space.
            if rest.len() > 0 && width_of(rest) <= w {
                lemma_trim_end(rest);
            } else if rest.len() > 0 {
                lemma_break_point(rest, w);
                let (t2, s2) = break_point(rest, w);
                lemma_trim_end(rest.take(t2));
            }
        }
    }
}

proof fn lemma_width_take_first(g: Seq<Glyph>, j: int)
    requires
        1 <= j <= g.len(),
    ensures
        width_of(g.take(j)) == cell_width(g[0].0) + width_of(g.drop_first().take(j - 1)),
{
    assert(g.take(j) =~= seq![g[0]] + g.drop_first().take(j - 1));
    lemma_width_add(seq![g[0]], g.drop_first().take(j - 1));
    assert(seq![g[0]].drop_last() =~= Seq::<Glyph>::empty());
    assert(width_of(Seq::<Glyph>::empty()) == 0);
    assert(seq![g[0]].last() == g[0]);
    assert(width_of(seq![g[0]]) == cell_width(g[0].0));
}

proof fn lemma_fit_max(g: Seq<Glyph>, w: int, j: int)
    requires
        0 <= j <= g.len(),
        width_of(g.take(j)) <= w,
    ensures
        j <= fit_count(g, w),
    decreases g.len(),
{
    lemma_fit_count_bounds(g, w);
    if j > 0 {
        lemma_width_take_first(g, j);
        lemma_width_nonneg(g.drop_first().take(j - 1));
        let c0 = cell_width(g[0].0);
        assert(c0 <= w);
        lemma_fit_max(g.drop_first(), w - c0, j - 1);
        assert(fit_count(g, w) == 1 + fit_count(g.drop_first(), w - c0));
    }
}

proof fn lemma_last_space_at_least(s: Seq<Glyph>, k: int)
    requires
        0 <= k < s.len(),
        s[k].0 == ' ',
    ensures
        last_space(s) >= k,
    decreases s.len(),
{
    if s.last().0 != ' ' {
        assert(k < s.len() - 1);
        assert(s.drop_last()[k] == s[k]);
        lemma_last_space_at_least(s.drop_last(), k);
    }
}

proof fn lemma_trim_end_keeps(x: Seq<Glyph>, i: int)
    requires
        0 <= i < x.len(),
        x[i].0 != ' ',
    ensures
        trim_end(x).len() >= i + 1,
    decreases x.len(),
{
    if x.last().0 == ' ' {
        assert(i < x.len() - 1);
        assert(x.drop_last()[i] == x[i]);
        lemma_trim_end_keeps(x.drop_last(), i);
    }
}

proof fn lemma_trim_end_monotone(s: Seq<Glyph>, k: int, m: int)
    requires
        0 <= k <= m <= s.len(),
    ensures
        trim_end(s.take(k)).len() <= trim_end(s.take(m)).len(),
{
    lemma_trim_end(s.take(k));
    let l = trim_end(s.take(k)).len() as int;
    if l > 0 {
        assert(trim_end(s.take(k)).last() == s.take(k)[l - 1]);
        assert(s.take(k)[l - 1] == s.take(m)[l - 1]);
        lemma_trim_end_keeps(s.take(m), l - 1);
    }
}

/// Wrapping breaks at the last space that fits: no space whose line, with the space
/// itself, fits the width would have given a longer first line than the one chosen. So a
/// line is never broken earlier than it has to be.
pub proof fn law_wrap_breaks_at_the_last_space_that_fits(g: Seq<Glyph>, w: int, k: int)
    requires
        g.len() > 0,
        width_of(g) > w,
        0 < k < g.len(),
        g[k].0 == ' ',
        width_of(g.take(k + 1)) <= w,
    ensures
        trim_end(g.take(k)).len() <= wrap_spec(g, w)[0].len(),
{
    lemma_break_point(g, w);
    lemma_fit_count_bounds(g, w);
    lemma_fit_max(g, w, k + 1);
    let fit = if fit_count(g, w) == 0 { 1 } else { fit_count(g, w) };
    assert(g.take(fit)[k] == g[k]);
    lemma_last_space_at_least(g.take(fit), k);
    let at = last_space(g.take(fit));
    lemma_last_space_bounds(g.take(fit));
    let (take, skip) = break_point(g, w);
    assert(take == at);
    lemma_trim_end_monotone(g, k, at);
    lemma_skip_spaces_len(g.skip(skip));
    assert(wrap_spec(g, w)[0] == trim_end(g.take(take)));
}

} // verus!
