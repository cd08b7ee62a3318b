//! Monospace plaintext backend: a developer's diff tool, honest about the fixed-width grid.
//!
//! It cannot show bold, underline or magnification, so magnification is tracked for
//! positioning only: a magnified character covers `w` base cells on paper, and centering
//! and right-justification measure it at that printed width. [`Op::AbsPos`] resolves to the
//! character column it will land on. A QR symbol is drawn as a three-line box at its true
//! printed width, placed by the current justification, and raw bytes as a labelled line.

use vstd::prelude::*;
use vstd::utf8::encode_utf8;
use crate::error::Error;
use crate::ir::{ops_view, Align, CutKind, Op, OpV};
use crate::profile::Profile;
use crate::qr;
use crate::text::{chars_of, decimal, push_decimal, push_str_chars, string_from};
use crate::width::{chars_width, str_width_table};

verus! {

/// The preview being built: the finished text, the line still pending, and the device
/// state that placement depends on.
pub struct PvState {
    pub out: Seq<char>,
    pub line: Seq<char>,
    pub justify: Align,
    pub mag_w: u8,
}

pub open spec fn pv_init() -> PvState {
    PvState { out: seq![], line: seq![], justify: Align::Left, mag_w: 1 }
}

/// `n` copies of `c`.
pub open spec fn repeat_char(c: char, n: nat) -> Seq<char> {
    Seq::new(n, |i: int| c)
}

/// `cols - used`, or zero when nothing is left.
pub open spec fn slack(cols: int, used: int) -> int {
    if cols > used { cols - used } else { 0 }
}

/// Where something `used` cells wide starts on a `cols`-cell line under a justification.
pub open spec fn lead(justify: Align, cols: int, used: int) -> int {
    match justify {
        Align::Left => 0,
        Align::Center => slack(cols, used) / 2,
        Align::Right => slack(cols, used),
    }
}

/// Commit the pending line: an empty one is a bare line break; any other is justified at
/// its printed width, the display width times the horizontal magnification.
pub open spec fn commit_s(st: PvState, cols: int) -> PvState {
    if st.line.len() == 0 {
        PvState { out: st.out.push('\n'), ..st }
    } else {
        let mag = if st.mag_w == 0 { 1 } else { st.mag_w as int };
        let printed = str_width_table(st.line) as int * mag;
        PvState {
            out: st.out + repeat_char(' ', lead(st.justify, cols, printed) as nat) + st.line + seq!['\n'],
            line: seq![],
            ..st
        }
    }
}

/// Commit the pending line only if there is one.
pub open spec fn flush_s(st: PvState, cols: int) -> PvState {
    if st.line.len() == 0 { st } else { commit_s(st, cols) }
}

/// One character of text: a line break commits the line, anything else joins it.
pub open spec fn char_s(st: PvState, c: char, cols: int) -> PvState {
    if c == '\n' {
        commit_s(st, cols)
    } else {
        PvState { line: st.line.push(c), ..st }
    }
}

pub open spec fn text_s(st: PvState, s: Seq<char>, cols: int) -> PvState
    decreases s.len(),
{
    if s.len() == 0 {
        st
    } else {
        text_s(char_s(st, s[0], cols), s.drop_first(), cols)
    }
}

/// Width of a QR symbol in cells: its footprint in dots, rounded up to whole cells; no
/// width when the payload has no footprint.
pub open spec fn qr_cells(data: Seq<char>, module: u8, cell_dots: int) -> int {
    let dots = match qr::spec_footprint_dots((encode_utf8(data).len() as usize) as int, module) {
        Some(d) => d as int,
        None => 0,
    };
    (dots + cell_dots - 1) / cell_dots
}

/// The label inside a QR box `inner` cells wide: `QR`, centered, when it fits.
pub open spec fn qr_label(inner: int) -> Seq<char> {
    if inner >= 2 {
        repeat_char(' ', ((inner - 2) / 2) as nat) + seq!['Q', 'R'] + repeat_char(
            ' ',
            (inner - 2 - (inner - 2) / 2) as nat,
        )
    } else {
        repeat_char(' ', inner as nat)
    }
}

/// The top or bottom line of a QR box.
pub open spec fn qr_edge(lead: int, inner: int) -> Seq<char> {
    repeat_char(' ', lead as nat) + seq!['+'] + repeat_char('-', inner as nat) + seq!['+', '\n']
}

/// The middle line of a QR box.
pub open spec fn qr_middle(lead: int, inner: int) -> Seq<char> {
    repeat_char(' ', lead as nat) + seq!['|'] + qr_label(inner) + seq!['|', '\n']
}

/// A QR symbol as a three-line box `width` cells wide, `lead` cells from the margin.
pub open spec fn qr_sketch(lead: int, width: int) -> Seq<char> {
    let inner = if width >= 2 { width - 2 } else { 0 };
    qr_edge(lead, inner) + qr_middle(lead, inner) + qr_edge(lead, inner)
}

/// One op's effect on the preview.
pub open spec fn op_s(st: PvState, op: OpV, cell_dots: int, cols: int) -> PvState {
    match op {
        OpV::Text(s) => text_s(st, s, cols),
        OpV::AbsPos(d) => {
            let target = d as int / cell_dots;
            let current = str_width_table(st.line) as int;
            if target > current {
                PvState { line: st.line + repeat_char(' ', (target - current) as nat), ..st }
            } else {
                st
            }
        },
        OpV::Justify(a) => PvState { justify: a, ..st },
        OpV::Size { w, h } => PvState { mag_w: if w == 0 { 1 } else { w }, ..st },
        OpV::Feed(n) => {
            let f = flush_s(st, cols);
            PvState { out: f.out + repeat_char('\n', n as nat), ..f }
        },
        OpV::Cut(k) => {
            let f = flush_s(st, cols);
            let mark = match k {
                CutKind::Partial => '-',
                CutKind::Full => '=',
            };
            PvState { out: f.out + repeat_char(mark, cols as nat) + seq!['\n'], ..f }
        },
        OpV::Emphasis(_) => st,
        OpV::Underline(_) => st,
        OpV::Raw(b) => {
            let f = flush_s(st, cols);
            PvState { out: f.out + "<raw "@ + decimal(b.len()) + " bytes>\n"@, ..f }
        },
        OpV::Qr { data, module } => {
            let f = flush_s(st, cols);
            let width = qr_cells(data, module, cell_dots);
            PvState { out: f.out + qr_sketch(lead(f.justify, cols, width), width), ..f }
        },
    }
}

pub open spec fn ops_s(st: PvState, ops: Seq<OpV>, cell_dots: int, cols: int) -> PvState
    decreases ops.len(),
{
    if ops.len() == 0 {
        st
    } else {
        ops_s(op_s(st, ops[0], cell_dots, cols), ops.drop_first(), cell_dots, cols)
    }
}

/// The monospace preview of an op stream against a profile.
pub open spec fn preview_spec(ops: Seq<OpV>, p: Profile) -> Seq<char> {
    let cols = p.spec_columns_at(1);
    flush_s(ops_s(pv_init(), ops, p.font.dots() as int, cols), cols).out
}

struct Preview {
    out: Vec<char>,
    line: Vec<char>,
    justify: Align,
    mag_w: u8,
}

/// Append `n` copies of `c`.
pub(crate) fn push_repeat(out: &mut Vec<char>, c: char, n: usize)
    ensures
        final(out)@ == old(out)@ + repeat_char(c, n as nat),
{
    let ghost start = out@;
    let mut i: usize = 0;
    while i < n
        invariant
            i <= n,
            out@ =~= start + repeat_char(c, i as nat),
        decreases n - i,
    {
        out.push(c);
        i = i + 1;
    }
}

/// `lead` in cells, for something `used` cells wide.
pub(crate) fn lead_of(justify: Align, cols: usize, used: usize) -> (r: usize)
    ensures
        r as int == lead(justify, cols as int, used as int),
        r <= cols,
{
    let slack: usize = if cols > used { cols - used } else { 0 };
    match justify {
        Align::Left => 0,
        Align::Center => slack / 2,
        Align::Right => slack,
    }
}

/// Append the top or bottom line of a QR box.
fn push_edge(out: &mut Vec<char>, n: usize, inner: usize)
    ensures
        final(out)@ == old(out)@ + qr_edge(n as int, inner as int),
{
    let ghost start = out@;
    push_repeat(out, ' ', n);
    out.push('+');
    push_repeat(out, '-', inner);
    out.push('+');
    out.push('\n');
    assert(out@ =~= start + qr_edge(n as int, inner as int));
}

/// Append the middle line of a QR box.
fn push_middle(out: &mut Vec<char>, n: usize, inner: usize)
    ensures
        final(out)@ == old(out)@ + qr_middle(n as int, inner as int),
{
    let ghost start = out@;
    push_repeat(out, ' ', n);
    out.push('|');
    let ghost label_start = out@;
    if inner >= 2 {
        push_repeat(out, ' ', (inner - 2) / 2);
        out.push('Q');
        out.push('R');
        push_repeat(out, ' ', inner - 2 - (inner - 2) / 2);
    } else {
        push_repeat(out, ' ', inner);
    }
    assert(out@ =~= label_start + qr_label(inner as int));
    out.push('|');
    out.push('\n');
    assert(out@ =~= start + qr_middle(n as int, inner as int));
}

/// Width of a QR symbol in cells, for a payload of `data` at `module` dots per module.
pub(crate) fn qr_width(data: &String, module: u8, cell_dots: u16) -> (r: usize)
    requires
        cell_dots > 0,
    ensures
        r as int == qr_cells(data@, module, cell_dots as int),
{
    let dots: u16 = match qr::footprint_dots(data.as_str().len(), module) {
        Some(d) => d,
        None => 0,
    };
    let cd = cell_dots as u32;
    ((dots as u32 + cd - 1) / cd) as usize
}

impl Preview {
    spec fn pv(&self) -> PvState {
        PvState { out: self.out@, line: self.line@, justify: self.justify, mag_w: self.mag_w }
    }

    fn commit(&mut self, cols: usize)
        ensures
            final(self).pv() == commit_s(old(self).pv(), cols as int),
    {
        if self.line.len() == 0 {
            self.out.push('\n');
            return;
        }
        let mag: usize = if self.mag_w == 0 { 1 } else { self.mag_w as usize };
        let w = chars_width(self.line.as_slice());
        // A width past what a usize holds leaves no room on any line, as zero slack says.
        let printed: usize = if w > usize::MAX / mag {
            assert(w as int * mag >= usize::MAX) by (nonlinear_arith)
                requires w > usize::MAX / mag, mag >= 1;
            usize::MAX
        } else {
            assert(w as int * mag <= usize::MAX) by (nonlinear_arith)
                requires w <= usize::MAX / mag, mag >= 1;
            w * mag
        };
        let n = lead_of(self.justify, cols, printed);
        proof {
            assert(lead(self.justify, cols as int, printed as int) == lead(
                self.justify,
                cols as int,
                str_width_table(self.line@) as int * mag,
            ));
        }
        let ghost pv0 = self.pv();
        push_repeat(&mut self.out, ' ', n);
        let ghost before = self.out@;
        let mut i: usize = 0;
        while i < self.line.len()
            invariant
                i <= self.line.len(),
                self.line@ == pv0.line,
                self.justify == pv0.justify,
                self.mag_w == pv0.mag_w,
                self.out@ =~= before + self.line@.take(i as int),
            decreases self.line.len() - i,
        {
            let c = self.line[i];
            self.out.push(c);
            i = i + 1;
        }
        assert(self.line@.take(i as int) =~= self.line@);
        self.out.push('\n');
        self.line = Vec::new();
        assert(self.out@ =~= pv0.out + repeat_char(' ', n as nat) + pv0.line + seq!['\n']);
        assert(self.line@ =~= Seq::<char>::empty());
    }

    fn flush(&mut self, cols: usize)
        ensures
            final(self).pv() == flush_s(old(self).pv(), cols as int),
    {
        if self.line.len() > 0 {
            self.commit(cols);
        }
    }

    fn text(&mut self, s: &String, cols: usize)
        ensures
            final(self).pv() == text_s(old(self).pv(), s@, cols as int),
    {
        let chars = chars_of(s.as_str());
        let ghost goal = text_s(self.pv(), s@, cols as int);
        assert(chars@.skip(0) =~= chars@);
        let mut i: usize = 0;
        while i < chars.len()
            invariant
                i <= chars.len(),
                chars@ == s@,
                goal == text_s(self.pv(), chars@.skip(i as int), cols as int),
            decreases chars.len() - i,
        {
            let c = chars[i];
            assert(chars@.skip(i as int)[0] == c);
            assert(chars@.skip(i as int).drop_first() =~= chars@.skip(i + 1));
            if c == '\n' {
                self.commit(cols);
            } else {
                self.line.push(c);
            }
            i = i + 1;
        }
        assert(chars@.skip(i as int).len() == 0);
    }

    fn qr(&mut self, data: &String, module: u8, cell_dots: u16, cols: usize)
        requires
            cell_dots > 0,
        ensures
            final(self).pv() == op_s(
                old(self).pv(),
                OpV::Qr { data: data@, module },
                cell_dots as int,
                cols as int,
            ),
    {
        self.flush(cols);
        let width = qr_width(data, module, cell_dots);
        let n = lead_of(self.justify, cols, width);
        let inner: usize = if width >= 2 { width - 2 } else { 0 };
        let ghost start = self.out@;
        push_edge(&mut self.out, n, inner);
        push_middle(&mut self.out, n, inner);
        push_edge(&mut self.out, n, inner);
        assert(self.out@ =~= start + qr_sketch(n as int, width as int));
    }

    fn op(&mut self, op: &Op, cell_dots: u16, cols: usize)
        requires
            cell_dots > 0,
        ensures
            final(self).pv() == op_s(old(self).pv(), op@, cell_dots as int, cols as int),
    {
        match op {
            Op::Text(s) => self.text(s, cols),
            Op::AbsPos(dots) => {
                let target: usize = (*dots / cell_dots) as usize;
                let current = chars_width(self.line.as_slice());
                if target > current {
                    push_repeat(&mut self.line, ' ', target - current);
                }
            },
            Op::Justify(a) => {
                self.justify = *a;
            },
            Op::Size { w, h } => {
                self.mag_w = if *w == 0 { 1 } else { *w };
            },
            Op::Feed(n) => {
                self.flush(cols);
                push_repeat(&mut self.out, '\n', *n as usize);
            },
            Op::Cut(kind) => {
                self.flush(cols);
                let mark = match kind {
                    CutKind::Partial => '-',
                    CutKind::Full => '=',
                };
                let ghost f = self.pv();
                push_repeat(&mut self.out, mark, cols);
                self.out.push('\n');
                assert(self.out@ =~= f.out + repeat_char(mark, cols as nat) + seq!['\n']);
            },
            Op::Emphasis(_) => {},
            Op::Underline(_) => {},
            Op::Raw(bytes) => {
                self.flush(cols);
                let ghost f = self.pv();
                push_str_chars(&mut self.out, "<raw ");
                push_decimal(&mut self.out, bytes.len() as u64);
                push_str_chars(&mut self.out, " bytes>\n");
                assert(self.out@ =~= f.out + "<raw "@ + decimal(bytes@.len()) + " bytes>\n"@);
            },
            Op::Qr { data, module } => self.qr(data, *module, cell_dots, cols),
        }
    }
}

/// Render an op stream as monospace text. Every op stream has a preview.
pub fn emit(ops: &[Op], profile: &Profile) -> (r: Result<String, Error>)
    ensures
        r matches Ok(s) && s@ == preview_spec(ops_view(ops@), *profile),
{
    let cell_dots = profile.font.char_width_dots();
    let cols = profile.columns() as usize;
    let ghost ov = ops_view(ops@);
    let mut pv = Preview { out: Vec::new(), line: Vec::new(), justify: Align::Left, mag_w: 1 };
    let ghost goal = ops_s(pv_init(), ov, cell_dots as int, cols as int);
    assert(pv.pv() == pv_init());
    assert(ov.skip(0) =~= ov);
    let mut i: usize = 0;
    while i < ops.len()
        invariant
            i <= ops.len(),
            cell_dots > 0,
            ov == ops_view(ops@),
            goal == ops_s(pv.pv(), ov.skip(i as int), cell_dots as int, cols as int),
        decreases ops.len() - i,
    {
        assert(ov.skip(i as int)[0] == ops@[i as int]@);
        assert(ov.skip(i as int).drop_first() =~= ov.skip(i + 1));
        pv.op(&ops[i], cell_dots, cols);
        i = i + 1;
    }
    assert(ov.skip(i as int).len() == 0);
    pv.flush(cols);
    Ok(string_from(pv.out.as_slice()))
}


// --- what the preview promises ---------------------------------------------------

proof fn lemma_text_line(st: PvState, s: Seq<char>, cols: int)
    requires
        forall|k: int| 0 <= k < s.len() ==> s[k] != '\n',
    ensures
        text_s(st, s.push('\n'), cols) == commit_s(PvState { line: st.line + s, ..st }, cols),
    decreases s.len(),
{
    if s.len() == 0 {
        let t = s.push('\n');
        assert(t[0] == '\n');
        assert(t.drop_first() =~= Seq::<char>::empty());
        assert(st.line + s =~= st.line);
        assert(text_s(commit_s(st, cols), Seq::<char>::empty(), cols) == commit_s(st, cols));
    } else {
        let rest = s.drop_first();
        let t = s.push('\n');
        assert(t[0] == s[0]);
        assert(t.drop_first() =~= rest.push('\n'));
        let st1 = PvState { line: st.line.push(s[0]), ..st };
        lemma_text_line(st1, rest, cols);
        assert(st1.line + rest =~= st.line + s);
    }
}

/// A line of text is placed by the justification and the horizontal magnification in
/// effect: after `Justify(a)` and `Size { w, h }` (with `w` at least one), a line of text
/// `n` cells wide is printed after no spaces when left-justified, half the room left over
/// by its `n * w` printed cells when centered, and all of it when right-justified.
pub proof fn law_preview_places_a_line(
    st: PvState,
    a: Align,
    w: u8,
    h: u8,
    s: Seq<char>,
    cell_dots: int,
    cols: int,
)
    requires
        st.line.len() == 0,
        w >= 1,
        s.len() > 0,
        forall|k: int| 0 <= k < s.len() ==> s[k] != '\n',
    ensures
        ({
            let ops = seq![OpV::Justify(a), OpV::Size { w, h }, OpV::Text(s.push('\n'))];
            let end = ops_s(st, ops, cell_dots, cols);
            let used = str_width_table(s) as int * w as int;
            let room = if cols > used { cols - used } else { 0 };
            let spaces = match a {
                Align::Left => 0,
                Align::Center => room / 2,
                Align::Right => room,
            };
            &&& end.out == st.out + repeat_char(' ', spaces as nat) + s + seq!['\n']
            &&& end.line.len() == 0
            &&& end.justify == a
            &&& end.mag_w == w
        }),
{
    let ops = seq![OpV::Justify(a), OpV::Size { w, h }, OpV::Text(s.push('\n'))];
    let s1 = op_s(st, ops[0], cell_dots, cols);
    let s2 = op_s(s1, ops[1], cell_dots, cols);
    let s3 = op_s(s2, ops[2], cell_dots, cols);
    assert(ops.drop_first() =~= seq![OpV::Size { w, h }, OpV::Text(s.push('\n'))]);
    assert(ops.drop_first().drop_first() =~= seq![OpV::Text(s.push('\n'))]);
    assert(ops.drop_first().drop_first().drop_first() =~= Seq::<OpV>::empty());
    assert(ops_s(s3, Seq::<OpV>::empty(), cell_dots, cols) == s3);
    assert(ops_s(s2, seq![OpV::Text(s.push('\n'))], cell_dots, cols) == s3);
    assert(ops_s(s1, ops.drop_first(), cell_dots, cols) == s3);
    lemma_text_line(s2, s, cols);
    assert(s2.line + s =~= s);
}

/// Between lines, the preview marks what paper does: a feed of N is N empty lines, a
/// partial cut a line of `-` and a full cut a line of `=` across the paper, and raw bytes
/// a labelled line giving their count; emphasis and underline change nothing it shows.
/// Each first finishes the pending line.
pub proof fn law_preview_marks(st: PvState, n: u8, b: Seq<u8>, on: bool, cell_dots: int, cols: int)
    requires
        st.line.len() == 0,
        cols >= 0,
    ensures
        op_s(st, OpV::Feed(n), cell_dots, cols).out == st.out + Seq::new(n as nat, |i: int| '\n'),
        op_s(st, OpV::Cut(CutKind::Partial), cell_dots, cols).out == st.out + Seq::new(cols as nat, |i: int| '-')
            + seq!['\n'],
        op_s(st, OpV::Cut(CutKind::Full), cell_dots, cols).out == st.out + Seq::new(cols as nat, |i: int| '=')
            + seq!['\n'],
        op_s(st, OpV::Raw(b), cell_dots, cols).out == st.out + "<raw "@ + decimal(b.len()) + " bytes>\n"@,
        op_s(st, OpV::Emphasis(on), cell_dots, cols) == st,
        op_s(st, OpV::Underline(on), cell_dots, cols) == st,
{
    assert(repeat_char('\n', n as nat) =~= Seq::new(n as nat, |i: int| '\n'));
    assert(repeat_char('-', cols as nat) =~= Seq::new(cols as nat, |i: int| '-'));
    assert(repeat_char('=', cols as nat) =~= Seq::new(cols as nat, |i: int| '='));
}
} // verus!
