//! HTML backend, for showing a person what the paper will look like.
//!
//! It draws what the monospace backend discards: emphasis, underline and magnification at
//! its real size. Everything horizontal is in `ch` units and positions resolve to whole
//! character cells exactly as the monospace backend resolves [`Op::AbsPos`], so the two
//! previews cannot disagree about where a column starts. A QR symbol renders as an empty
//! square at its true footprint with its payload on a `data-` attribute, and raw bytes as a
//! labelled band; neither gets invented artwork. Text and attribute values are escaped.

use vstd::prelude::*;
use crate::emit::preview::{lead, lead_of, qr_cells, qr_width};
use crate::error::Error;
use crate::ir::{ops_view, Align, CutKind, Op, OpV};
use crate::profile::Profile;
use crate::text::{chars_of, decimal, push_decimal, push_str_chars, string_from};
use crate::width::{chars_width, str_width_table};

verus! {

/// Scoped stylesheet, shipped inside the fragment. Every rule is under `.mdpos`.
pub const STYLE: &'static str = "\
.mdpos{--mdpos-lh:2ch;display:inline-block;padding:16px;background:#f4f4f5;\
font-family:ui-monospace,SFMono-Regular,Menlo,Consolas,\"DejaVu Sans Mono\",monospace;\
font-size:14px;line-height:var(--mdpos-lh);color:#111}\
.mdpos-paper{width:calc(var(--mdpos-cols) * 1ch);padding:12px 10px;background:#fff;\
box-shadow:0 1px 4px rgba(0,0,0,.25)}\
.mdpos-line{position:relative;height:var(--mdpos-lh)}\
.mdpos-run{position:absolute;top:0;left:0;white-space:pre;transform-origin:left top}\
.mdpos-b{font-weight:700}\
.mdpos-u{text-decoration:underline}\
.mdpos-qr{aspect-ratio:1;box-sizing:border-box;border:1px dashed #9a9a9a;\
display:flex;align-items:center;justify-content:center;color:#6b6b6b;font-size:.8em}\
.mdpos-raw{box-sizing:border-box;border:1px dashed #9a9a9a;color:#6b6b6b;font-size:.8em;\
text-align:center;padding:4px 0}\
.mdpos-cut{border-top:1px dashed #9a9a9a;margin:6px 0;text-align:center;color:#9a9a9a;\
font-size:.7em}\
";

// --- escaping ----------------------------------------------------------------------

/// One character, escaped for text content and double-quoted attribute values.
pub open spec fn escape_char(c: char) -> Seq<char> {
    if c == '&' {
        "&amp;"@
    } else if c == '<' {
        "&lt;"@
    } else if c == '>' {
        "&gt;"@
    } else if c == '"' {
        "&quot;"@
    } else if c == '\'' {
        "&#39;"@
    } else {
        seq![c]
    }
}

/// A string, escaped character by character.
pub open spec fn escape_spec(s: Seq<char>) -> Seq<char>
    decreases s.len(),
{
    if s.len() == 0 {
        seq![]
    } else {
        escape_spec(s.drop_last()) + escape_char(s.last())
    }
}

/// Append `s`, escaped.
pub fn push_escaped(out: &mut Vec<char>, s: &[char])
    ensures
        final(out)@ == old(out)@ + escape_spec(s@),
{
    let ghost start = out@;
    let mut i: usize = 0;
    while i < s.len()
        invariant
            i <= s.len(),
            out@ =~= start + escape_spec(s@.take(i as int)),
        decreases s.len() - i,
    {
        let c = s[i];
        let ghost before = out@;
        if c == '&' {
            push_str_chars(out, "&amp;");
        } else if c == '<' {
            push_str_chars(out, "&lt;");
        } else if c == '>' {
            push_str_chars(out, "&gt;");
        } else if c == '"' {
            push_str_chars(out, "&quot;");
        } else if c == '\'' {
            push_str_chars(out, "&#39;");
        } else {
            out.push(c);
        }
        assert(s@.take(i + 1).drop_last() =~= s@.take(i as int));
        assert(out@ =~= before + escape_char(c));
        i = i + 1;
    }
    assert(s@.take(i as int) =~= s@);
}

/// Escaped text cannot open or close a tag, end an attribute value, or start one: no `<`,
/// `>`, `"` or `'` survives escaping, and every other character is kept in order.
pub proof fn law_escaped_text_stays_text(s: Seq<char>)
    ensures
        forall|i: int| 0 <= i < escape_spec(s).len() ==> {
            let c = #[trigger] escape_spec(s)[i];
            c != '<' && c != '>' && c != '"' && c != '\''
        },
    decreases s.len(),
{
    reveal_strlit("&amp;");
    reveal_strlit("&lt;");
    reveal_strlit("&gt;");
    reveal_strlit("&quot;");
    reveal_strlit("&#39;");
    if s.len() > 0 {
        law_escaped_text_stays_text(s.drop_last());
        let a = escape_spec(s.drop_last());
        let b = escape_char(s.last());
        assert forall|i: int| 0 <= i < escape_spec(s).len() implies {
            let c = #[trigger] escape_spec(s)[i];
            c != '<' && c != '>' && c != '"' && c != '\''
        } by {
            if i < a.len() {
                assert(escape_spec(s)[i] == a[i]);
            } else {
                assert(escape_spec(s)[i] == b[i - a.len()]);
            }
        }
    }
}

/// Escaping works character by character, as the HTML entities name them: `&` is `&amp;`,
/// `<` is `&lt;`, `>` is `&gt;`, `"` is `&quot;`, `'` is `&#39;`, and every other character
/// stays itself; the escape of a concatenation is the concatenation of the escapes.
pub proof fn law_escape_table(a: Seq<char>, b: Seq<char>, c: char)
    ensures
        escape_spec(seq!['&']) == seq!['&', 'a', 'm', 'p', ';'],
        escape_spec(seq!['<']) == seq!['&', 'l', 't', ';'],
        escape_spec(seq!['>']) == seq!['&', 'g', 't', ';'],
        escape_spec(seq!['"']) == seq!['&', 'q', 'u', 'o', 't', ';'],
        escape_spec(seq!['\'']) == seq!['&', '#', '3', '9', ';'],
        c != '&' && c != '<' && c != '>' && c != '"' && c != '\'' ==> escape_spec(seq![c]) == seq![c],
        escape_spec(a + b) == escape_spec(a) + escape_spec(b),
    decreases b.len(),
{
    reveal_strlit("&amp;");
    reveal_strlit("&lt;");
    reveal_strlit("&gt;");
    reveal_strlit("&quot;");
    reveal_strlit("&#39;");
    assert(seq![c].drop_last() =~= Seq::<char>::empty());
    assert(seq!['&'].drop_last() =~= Seq::<char>::empty());
    assert(seq!['<'].drop_last() =~= Seq::<char>::empty());
    assert(seq!['>'].drop_last() =~= Seq::<char>::empty());
    assert(seq!['"'].drop_last() =~= Seq::<char>::empty());
    assert(seq!['\''].drop_last() =~= Seq::<char>::empty());
    assert(escape_spec(Seq::<char>::empty()) == Seq::<char>::empty());
    assert(Seq::<char>::empty() + seq!['&', 'a', 'm', 'p', ';'] =~= seq!['&', 'a', 'm', 'p', ';']);
    assert(Seq::<char>::empty() + seq!['&', 'l', 't', ';'] =~= seq!['&', 'l', 't', ';']);
    assert(Seq::<char>::empty() + seq!['&', 'g', 't', ';'] =~= seq!['&', 'g', 't', ';']);
    assert(Seq::<char>::empty() + seq!['&', 'q', 'u', 'o', 't', ';'] =~= seq!['&', 'q', 'u', 'o', 't', ';']);
    assert(Seq::<char>::empty() + seq!['&', '#', '3', '9', ';'] =~= seq!['&', '#', '3', '9', ';']);
    assert(Seq::<char>::empty() + seq![c] =~= seq![c]);
    assert("&amp;"@ =~= seq!['&', 'a', 'm', 'p', ';']);
    assert("&lt;"@ =~= seq!['&', 'l', 't', ';']);
    assert("&gt;"@ =~= seq!['&', 'g', 't', ';']);
    assert("&quot;"@ =~= seq!['&', 'q', 'u', 'o', 't', ';']);
    assert("&#39;"@ =~= seq!['&', '#', '3', '9', ';']);
    if b.len() == 0 {
        assert(a + b =~= a);
        assert(escape_spec(a) + escape_spec(b) =~= escape_spec(a));
    } else {
        law_escape_table(a, b.drop_last(), c);
        assert((a + b).drop_last() =~= a + b.drop_last());
        assert((a + b).last() == b.last());
        assert(escape_spec(a) + escape_spec(b.drop_last()) + escape_char(b.last()) =~= escape_spec(a) + (
        escape_spec(b.drop_last()) + escape_char(b.last())));
    }
}

// --- the model ---------------------------------------------------------------------

/// One stretch of text sharing a single set of attributes; `pos` is set only where
/// layout positioned it explicitly.
pub struct RunV {
    pub text: Seq<char>,
    pub bold: bool,
    pub underline: bool,
    pub mag_w: u8,
    pub mag_h: u8,
    pub pos: Option<usize>,
}

/// The fragment being built, the attributes in effect, a pending position, and the runs
/// of the line not yet committed.
pub struct HtState {
    pub out: Seq<char>,
    pub justify: Align,
    pub bold: bool,
    pub underline: bool,
    pub mag_w: u8,
    pub mag_h: u8,
    pub next_pos: Option<usize>,
    pub runs: Seq<RunV>,
}

/// `a + b`, saturating at `usize::MAX`.
pub open spec fn sat_add(a: int, b: int) -> int {
    if a + b > usize::MAX { usize::MAX as int } else { a + b }
}

/// `a * b`, saturating at `usize::MAX`.
pub open spec fn sat_mul(a: int, b: int) -> int {
    if a * b > usize::MAX { usize::MAX as int } else { a * b }
}

/// Cells a run covers on paper: its display width times its horizontal magnification.
pub open spec fn printed_cells(r: RunV) -> int {
    sat_mul(str_width_table(r.text) as int, if r.mag_w == 0 { 1 } else { r.mag_w as int })
}

pub open spec fn printed_total(runs: Seq<RunV>) -> int
    decreases runs.len(),
{
    if runs.len() == 0 {
        0
    } else {
        sat_add(printed_total(runs.drop_last()), printed_cells(runs.last()))
    }
}

/// Whether some run of the line was positioned by layout.
pub open spec fn positioned(runs: Seq<RunV>) -> bool
    decreases runs.len(),
{
    runs.len() > 0 && (runs.last().pos is Some || positioned(runs.drop_last()))
}

/// The tallest magnification on the line, and at least one.
pub open spec fn line_height(runs: Seq<RunV>) -> u8
    decreases runs.len(),
{
    if runs.len() == 0 {
        1
    } else {
        let h = line_height(runs.drop_last());
        if runs.last().mag_h > h { runs.last().mag_h } else { h }
    }
}

pub open spec fn run_class(r: RunV) -> Seq<char> {
    "mdpos-run"@ + (if r.bold { " mdpos-b"@ } else { seq![] }) + (if r.underline {
        " mdpos-u"@
    } else {
        seq![]
    })
}

pub open spec fn run_style(r: RunV, x: int) -> Seq<char> {
    "left:"@ + decimal(x as nat) + "ch"@ + (if r.mag_w > 1 || r.mag_h > 1 {
        ";transform:scale("@ + decimal(r.mag_w as nat) + ","@ + decimal(r.mag_h as nat) + ")"@
    } else {
        seq![]
    })
}

/// One run as a positioned, classed span.
pub open spec fn run_span(r: RunV, x: int) -> Seq<char> {
    "<span class=\""@ + run_class(r) + "\" style=\""@ + run_style(r, x) + "\">"@ + escape_spec(r.text)
        + "</span>"@
}

/// Where a run starts: its own position, or where the previous run ended.
pub open spec fn run_x(r: RunV, cursor: int) -> int {
    match r.pos {
        Some(p) => p as int,
        None => cursor,
    }
}

/// The spans of a line, each run advancing the cursor past itself.
pub open spec fn spans(runs: Seq<RunV>, cursor: int) -> Seq<char>
    decreases runs.len(),
{
    if runs.len() == 0 {
        seq![]
    } else {
        let x = run_x(runs[0], cursor);
        run_span(runs[0], x) + spans(runs.drop_first(), sat_add(x, printed_cells(runs[0])))
    }
}

pub open spec fn line_open(height: u8) -> Seq<char> {
    if height > 1 {
        "<div class=\"mdpos-line\" style=\"height:calc("@ + decimal(height as nat)
            + " * var(--mdpos-lh))\">"@
    } else {
        "<div class=\"mdpos-line\">"@
    }
}

pub open spec fn blank_line() -> Seq<char> {
    "<div class=\"mdpos-line\"></div>\n"@
}

/// Commit the pending line; an empty one is still a line. A line holding a positioned run
/// is a column row and keeps layout's positions; any other is justified at its printed
/// width.
pub open spec fn commit_line_s(st: HtState, cols: int) -> HtState {
    if st.runs.len() == 0 {
        HtState { out: st.out + blank_line(), ..st }
    } else {
        let cursor = if positioned(st.runs) {
            0
        } else {
            lead(st.justify, cols, printed_total(st.runs))
        };
        HtState {
            out: st.out + line_open(line_height(st.runs)) + spans(st.runs, cursor) + "</div>\n"@,
            runs: seq![],
            ..st
        }
    }
}

pub open spec fn flush_s(st: HtState, cols: int) -> HtState {
    if st.runs.len() == 0 { st } else { commit_line_s(st, cols) }
}

/// A segment of text: it consumes any pending position, and becomes a run if non-empty.
pub open spec fn push_text_s(st: HtState, t: Seq<char>) -> HtState {
    if t.len() == 0 {
        HtState { next_pos: None, ..st }
    } else {
        HtState {
            next_pos: None,
            runs: st.runs.push(
                RunV {
                    text: t,
                    bold: st.bold,
                    underline: st.underline,
                    mag_w: st.mag_w,
                    mag_h: st.mag_h,
                    pos: st.next_pos,
                },
            ),
            ..st
        }
    }
}

/// Text: each line break ends the segment before it and commits the line.
pub open spec fn text_go(st: HtState, s: Seq<char>, seg: Seq<char>, cols: int) -> HtState
    decreases s.len(),
{
    if s.len() == 0 {
        push_text_s(st, seg)
    } else if s[0] == '\n' {
        text_go(commit_line_s(push_text_s(st, seg), cols), s.drop_first(), seq![], cols)
    } else {
        text_go(st, s.drop_first(), seg.push(s[0]), cols)
    }
}

pub open spec fn cut_html(k: CutKind) -> Seq<char> {
    "<div class=\"mdpos-cut\">"@ + (match k {
        CutKind::Partial => "partial cut"@,
        CutKind::Full => "full cut"@,
    }) + "</div>\n"@
}

pub open spec fn raw_html(len: nat) -> Seq<char> {
    "<div class=\"mdpos-raw\">raw &middot; "@ + decimal(len) + " bytes &middot; not rendered</div>\n"@
}

pub open spec fn qr_html(left: int, width: int, data: Seq<char>) -> Seq<char> {
    "<div class=\"mdpos-qr\" style=\"margin-left:"@ + decimal(left as nat) + "ch;width:"@ + decimal(
        width as nat,
    ) + "ch\" data-mdpos-qr=\""@ + escape_spec(data) + "\" title=\""@ + escape_spec(data)
        + "\">QR</div>\n"@
}

/// `n` blank lines.
pub open spec fn blank_lines(n: nat) -> Seq<char>
    decreases n,
{
    if n == 0 { seq![] } else { blank_lines((n - 1) as nat) + blank_line() }
}

/// One op's effect on the fragment.
pub open spec fn op_s(st: HtState, op: OpV, cell_dots: int, cols: int) -> HtState {
    match op {
        OpV::Text(s) => text_go(st, s, seq![], cols),
        OpV::AbsPos(d) => HtState { next_pos: Some((d as int / cell_dots) as usize), ..st },
        OpV::Justify(a) => HtState { justify: a, ..st },
        OpV::Size { w, h } => HtState {
            mag_w: if w == 0 { 1 } else { w },
            mag_h: if h == 0 { 1 } else { h },
            ..st
        },
        OpV::Emphasis(on) => HtState { bold: on, ..st },
        OpV::Underline(on) => HtState { underline: on, ..st },
        OpV::Feed(n) => {
            let f = flush_s(st, cols);
            HtState { out: f.out + blank_lines(n as nat), ..f }
        },
        OpV::Cut(k) => {
            let f = flush_s(st, cols);
            HtState { out: f.out + cut_html(k), ..f }
        },
        OpV::Raw(b) => {
            let f = flush_s(st, cols);
            HtState { out: f.out + raw_html(b.len()), ..f }
        },
        OpV::Qr { data, module } => {
            let f = flush_s(st, cols);
            let width = qr_cells(data, module, cell_dots);
            HtState { out: f.out + qr_html(lead(f.justify, cols, width), width, data), ..f }
        },
    }
}

pub open spec fn ops_s(st: HtState, ops: Seq<OpV>, cell_dots: int, cols: int) -> HtState
    decreases ops.len(),
{
    if ops.len() == 0 {
        st
    } else {
        ops_s(op_s(st, ops[0], cell_dots, cols), ops.drop_first(), cell_dots, cols)
    }
}

/// The opening of the fragment: the outer box with the paper's width in cells, the
/// stylesheet, and the paper.
pub open spec fn header(cols: int) -> Seq<char> {
    "<div class=\"mdpos\" style=\"--mdpos-cols:"@ + decimal(cols as nat) + "\">\n<style>"@ + STYLE@
        + "</style>\n<div class=\"mdpos-paper\">\n"@
}

pub open spec fn footer() -> Seq<char> {
    "</div>\n</div>\n"@
}

pub open spec fn ht_init(cols: int) -> HtState {
    HtState {
        out: header(cols),
        justify: Align::Left,
        bold: false,
        underline: false,
        mag_w: 1,
        mag_h: 1,
        next_pos: None,
        runs: seq![],
    }
}

/// The HTML fragment of an op stream against a profile.
pub open spec fn html_spec(ops: Seq<OpV>, p: Profile) -> Seq<char> {
    let cols = p.spec_columns_at(1);
    flush_s(ops_s(ht_init(cols), ops, p.font.dots() as int, cols), cols).out + footer()
}

// --- runs follow each other -----------------------------------------------------

/// The cells a run covers on paper: its display width times its horizontal magnification
/// (a magnification of zero reads as one).
pub open spec fn run_width_on_paper(r: RunV) -> int {
    str_width_table(r.text) as int * (if r.mag_w == 0 { 1 } else { r.mag_w as int })
}

/// The cells the runs cover on paper, together.
pub open spec fn runs_width_on_paper(runs: Seq<RunV>) -> int
    decreases runs.len(),
{
    if runs.len() == 0 {
        0
    } else {
        run_width_on_paper(runs[0]) + runs_width_on_paper(runs.drop_first())
    }
}

proof fn lemma_run_width_nonneg(r: RunV)
    ensures
        run_width_on_paper(r) >= 0,
{
    let w = str_width_table(r.text) as int;
    let m = if r.mag_w == 0 { 1 } else { r.mag_w as int };
    assert(w * m >= 0) by (nonlinear_arith)
        requires
            w >= 0,
            m >= 1,
    ;
}

proof fn lemma_runs_width_nonneg(runs: Seq<RunV>)
    ensures
        runs_width_on_paper(runs) >= 0,
    decreases runs.len(),
{
    if runs.len() > 0 {
        lemma_run_width_nonneg(runs[0]);
        lemma_runs_width_nonneg(runs.drop_first());
    }
}

/// Runs that layout did not position follow each other on their line: each starts where
/// the cells the runs before it cover on paper end, so a magnified run pushes the next
/// one along by its display width times its magnification. This holds whenever those
/// positions fit in a `usize`.
pub proof fn law_runs_follow_each_other(runs: Seq<RunV>, cursor: int)
    requires
        forall|i: int| 0 <= i < runs.len() ==> (#[trigger] runs[i]).pos is None,
        0 <= cursor,
        cursor + runs_width_on_paper(runs) <= usize::MAX,
    ensures
        spans(runs, cursor) == Seq::new(
            runs.len(),
            |i: int| run_span(runs[i], cursor + runs_width_on_paper(runs.take(i))),
        ).flatten(),
    decreases runs.len(),
{
    let f = |i: int| run_span(runs[i], cursor + runs_width_on_paper(runs.take(i)));
    let all = Seq::new(runs.len(), f);
    if runs.len() == 0 {
        assert(all.flatten() =~= Seq::<char>::empty());
    } else {
        let r0 = runs[0];
        let rest = runs.drop_first();
        lemma_run_width_nonneg(r0);
        lemma_runs_width_nonneg(rest);
        let pc = run_width_on_paper(r0);
        assert(printed_cells(r0) == pc);
        let c2 = cursor + pc;
        assert(sat_add(cursor, printed_cells(r0)) == c2);
        assert forall|i: int| 0 <= i < rest.len() implies (#[trigger] rest[i]).pos is None by {
            assert(rest[i] == runs[i + 1]);
        }
        law_runs_follow_each_other(rest, c2);
        let g = |i: int| run_span(rest[i], c2 + runs_width_on_paper(rest.take(i)));
        assert(runs.take(0) =~= Seq::<RunV>::empty());
        assert(all.first() == run_span(r0, cursor));
        assert(all.drop_first() =~= Seq::new(rest.len(), g)) by {
            assert forall|i: int| 0 <= i < rest.len() implies all.drop_first()[i] == g(i) by {
                assert(runs.take(i + 1).drop_first() =~= rest.take(i));
                assert(runs.take(i + 1)[0] == r0);
                assert(runs_width_on_paper(runs.take(i + 1)) == pc + runs_width_on_paper(rest.take(i)));
                assert(rest[i] == runs[i + 1]);
            }
        }
    }
}

proof fn lemma_width_last(runs: Seq<RunV>)
    requires
        runs.len() > 0,
    ensures
        runs_width_on_paper(runs) == runs_width_on_paper(runs.drop_last()) + run_width_on_paper(runs.last()),
    decreases runs.len(),
{
    if runs.len() > 1 {
        let rest = runs.drop_first();
        lemma_width_last(rest);
        assert(rest.drop_last() =~= runs.drop_last().drop_first());
        assert(rest.last() == runs.last());
        assert(runs.drop_last()[0] == runs[0]);
    } else {
        assert(runs.drop_last() =~= Seq::<RunV>::empty());
        assert(runs.drop_first() =~= Seq::<RunV>::empty());
    }
}

proof fn lemma_printed_total_exact(runs: Seq<RunV>)
    requires
        runs_width_on_paper(runs) <= usize::MAX,
    ensures
        printed_total(runs) == runs_width_on_paper(runs),
        (forall|i: int| 0 <= i < runs.len() ==> (#[trigger] runs[i]).pos is None) ==> !positioned(runs),
    decreases runs.len(),
{
    if runs.len() > 0 {
        let d = runs.drop_last();
        lemma_width_last(runs);
        lemma_runs_width_nonneg(d);
        lemma_run_width_nonneg(runs.last());
        lemma_printed_total_exact(d);
        assert(printed_cells(runs.last()) == run_width_on_paper(runs.last()));
        if forall|i: int| 0 <= i < runs.len() ==> (#[trigger] runs[i]).pos is None {
            assert forall|i: int| 0 <= i < d.len() implies (#[trigger] d[i]).pos is None by {
                assert(d[i] == runs[i]);
            }
            assert(runs[runs.len() - 1].pos is None);
        }
    }
}

/// A line that layout did not position is justified as a whole at its printed width: its
/// first run starts after no cells when left-justified, half the room its runs leave on
/// the paper when centered, and all of it when right-justified, and the runs then follow
/// each other.
pub proof fn law_unpositioned_line_is_justified(st: HtState, cols: int)
    requires
        st.runs.len() > 0,
        forall|i: int| 0 <= i < st.runs.len() ==> (#[trigger] st.runs[i]).pos is None,
        cols >= 0,
        cols + runs_width_on_paper(st.runs) <= usize::MAX,
    ensures
        ({
            let used = runs_width_on_paper(st.runs);
            let room = if cols > used { cols - used } else { 0 };
            let start = match st.justify {
                Align::Left => 0,
                Align::Center => room / 2,
                Align::Right => room,
            };
            commit_line_s(st, cols).out == st.out + line_open(line_height(st.runs)) + Seq::new(
                st.runs.len(),
                |i: int| run_span(st.runs[i], start + runs_width_on_paper(st.runs.take(i))),
            ).flatten() + "</div>\n"@
        }),
{
    lemma_runs_width_nonneg(st.runs);
    lemma_printed_total_exact(st.runs);
    let used = runs_width_on_paper(st.runs);
    let room = if cols > used { cols - used } else { 0 };
    let start = lead(st.justify, cols, printed_total(st.runs));
    assert(start <= room);
    law_runs_follow_each_other(st.runs, start);
}

/// A run is one absolutely placed span: its classes name the run and, when they apply,
/// bold and underline; its style puts its left edge `x` cells in and, when it is
/// magnified, scales it by its width and height magnification; its text is escaped.
pub proof fn law_run_span_markup(r: RunV, x: int)
    ensures
        run_span(r, x) == "<span class=\"mdpos-run"@ + (if r.bold { " mdpos-b"@ } else { seq![] }) + (
        if r.underline {
            " mdpos-u"@
        } else {
            seq![]
        }) + "\" style=\"left:"@ + decimal(x as nat) + "ch"@ + (if r.mag_w > 1 || r.mag_h > 1 {
            ";transform:scale("@ + decimal(r.mag_w as nat) + ","@ + decimal(r.mag_h as nat) + ")"@
        } else {
            seq![]
        }) + "\">"@ + escape_spec(r.text) + "</span>"@,
{
    reveal_strlit("<span class=\"mdpos-run");
    reveal_strlit("<span class=\"");
    reveal_strlit("mdpos-run");
    reveal_strlit("\" style=\"left:");
    reveal_strlit("\" style=\"");
    reveal_strlit("left:");
    assert("<span class=\"mdpos-run"@ =~= "<span class=\""@ + "mdpos-run"@);
    assert("\" style=\"left:"@ =~= "\" style=\""@ + "left:"@);
    assert(run_span(r, x) =~= "<span class=\"mdpos-run"@ + (if r.bold { " mdpos-b"@ } else { seq![] }) + (
        if r.underline {
            " mdpos-u"@
        } else {
            seq![]
        }) + "\" style=\"left:"@ + decimal(x as nat) + "ch"@ + (if r.mag_w > 1 || r.mag_h > 1 {
            ";transform:scale("@ + decimal(r.mag_w as nat) + ","@ + decimal(r.mag_h as nat) + ")"@
        } else {
            seq![]
        }) + "\">"@ + escape_spec(r.text) + "</span>"@);
}

proof fn lemma_text_go_line(st: HtState, s: Seq<char>, seg: Seq<char>, cols: int)
    requires
        forall|k: int| 0 <= k < s.len() ==> s[k] != '\n',
    ensures
        text_go(st, s.push('\n'), seg, cols) == push_text_s(
            commit_line_s(push_text_s(st, seg + s), cols),
            seq![],
        ),
    decreases s.len(),
{
    let t = s.push('\n');
    if s.len() == 0 {
        assert(t[0] == '\n');
        assert(t.drop_first() =~= Seq::<char>::empty());
        assert(seg + s =~= seg);
        let c = commit_line_s(push_text_s(st, seg), cols);
        assert(text_go(c, Seq::<char>::empty(), seq![], cols) == push_text_s(c, seq![]));
    } else {
        assert(t[0] == s[0]);
        assert(t.drop_first() =~= s.drop_first().push('\n'));
        lemma_text_go_line(st, s.drop_first(), seg.push(s[0]), cols);
        assert(seg.push(s[0]) + s.drop_first() =~= seg + s);
    }
}

/// A line of text is placed by the justification and magnification in effect: after
/// `Justify(a)` and `Size { w, h }`, a line of text `n` cells wide becomes one line, as
/// tall as `h` lines when `h` is more than one, holding one span scaled by `w` and `h`,
/// whose left edge is no cells in when left-justified, half the room left by its `n * w`
/// printed cells when centered, and all of it when right-justified.
pub proof fn law_html_places_a_line(
    st: HtState,
    a: Align,
    w: u8,
    h: u8,
    s: Seq<char>,
    cell_dots: int,
    cols: int,
)
    requires
        st.runs.len() == 0,
        st.next_pos is None,
        w >= 1,
        h >= 1,
        s.len() > 0,
        forall|k: int| 0 <= k < s.len() ==> s[k] != '\n',
        cols >= 0,
        cols + str_width_table(s) as int * w as int <= usize::MAX,
    ensures
        ({
            let ops = seq![OpV::Justify(a), OpV::Size { w, h }, OpV::Text(s.push('\n'))];
            let end = ops_s(st, ops, cell_dots, cols);
            let used = str_width_table(s) as int * w as int;
            let room = if cols > used { cols - used } else { 0 };
            let start = match a {
                Align::Left => 0,
                Align::Center => room / 2,
                Align::Right => room,
            };
            let run = RunV { text: s, bold: st.bold, underline: st.underline, mag_w: w, mag_h: h, pos: None };
            &&& end.out == st.out + line_open(h) + run_span(run, start) + "</div>\n"@
            &&& end.runs.len() == 0
        }),
{
    let ops = seq![OpV::Justify(a), OpV::Size { w, h }, OpV::Text(s.push('\n'))];
    let s1 = op_s(st, ops[0], cell_dots, cols);
    let s2 = op_s(s1, ops[1], cell_dots, cols);
    let s3 = op_s(s2, ops[2], cell_dots, cols);
    assert(ops.drop_first() =~= seq![OpV::Size { w, h }, OpV::Text(s.push('\n'))]);
    assert(ops.drop_first().drop_first() =~= seq![OpV::Text(s.push('\n'))]);
    assert(ops.drop_first().drop_first().drop_first() =~= Seq::<OpV>::empty());
    assert(ops_s(s3, Seq::<OpV>::empty(), cell_dots, cols) == s3);
    assert(ops_s(s2, seq![OpV::Text(s.push('\n'))], cell_dots, cols) == s3);
    assert(ops_s(s1, ops.drop_first(), cell_dots, cols) == s3);
    lemma_text_go_line(s2, s, seq![], cols);
    assert(Seq::<char>::empty() + s =~= s);
    let pushed = push_text_s(s2, s);
    let run = RunV { text: s, bold: st.bold, underline: st.underline, mag_w: w, mag_h: h, pos: None };
    assert(pushed.runs =~= seq![run]);
    assert(run_width_on_paper(run) == str_width_table(s) as int * w as int);
    assert(seq![run].drop_first() =~= Seq::<RunV>::empty());
    assert(runs_width_on_paper(Seq::<RunV>::empty()) == 0);
    assert(runs_width_on_paper(seq![run]) == run_width_on_paper(run));
    law_unpositioned_line_is_justified(pushed, cols);
    let start = lead(a, cols, printed_total(seq![run]));
    assert(seq![run].take(0) =~= Seq::<RunV>::empty());
    let f = |i: int| run_span(seq![run][i], start + runs_width_on_paper(seq![run].take(i)));
    assert(Seq::new(1, f).drop_first() =~= Seq::<Seq<char>>::empty());
    assert(Seq::<Seq<char>>::empty().flatten() =~= Seq::<char>::empty());
    assert(runs_width_on_paper(seq![run].take(0)) == 0);
    assert(Seq::new(1, f).first() == run_span(run, start));
    assert(Seq::new(1, f).flatten() =~= run_span(run, start));
    assert(seq![run].drop_last() =~= Seq::<RunV>::empty());
    assert(line_height(seq![run]) == h);
}

/// The state-setting ops set exactly what they name and write nothing: emphasis sets
/// bold, underline sets underline, a justification or a magnification (zero read as one)
/// is taken as given, and an absolute position becomes the cell it falls in.
pub proof fn law_html_settings(st: HtState, on: bool, a: Align, w: u8, h: u8, d: u16, cell_dots: int, cols: int)
    requires
        cell_dots > 0,
    ensures
        op_s(st, OpV::Emphasis(on), cell_dots, cols) == (HtState { bold: on, ..st }),
        op_s(st, OpV::Underline(on), cell_dots, cols) == (HtState { underline: on, ..st }),
        op_s(st, OpV::Justify(a), cell_dots, cols) == (HtState { justify: a, ..st }),
        w >= 1 && h >= 1 ==> op_s(st, OpV::Size { w, h }, cell_dots, cols) == (HtState { mag_w: w, mag_h: h, ..st }),
        op_s(st, OpV::AbsPos(d), cell_dots, cols) == (HtState { next_pos: Some((d as int / cell_dots) as usize), ..st }),
{
}

// --- the fragment's frame ---------------------------------------------------------

/// Whether `b` begins with `a`.
pub open spec fn begins_with(b: Seq<char>, a: Seq<char>) -> bool {
    a.len() <= b.len() && b.subrange(0, a.len() as int) == a
}

proof fn lemma_begins_with_trans(a: Seq<char>, b: Seq<char>, c: Seq<char>)
    requires
        begins_with(b, a),
        begins_with(c, b),
    ensures
        begins_with(c, a),
{
    assert(c.subrange(0, a.len() as int) =~= b.subrange(0, a.len() as int));
}

proof fn lemma_begins_with_append(a: Seq<char>, x: Seq<char>)
    ensures
        begins_with(a + x, a),
{
    assert((a + x).subrange(0, a.len() as int) =~= a);
}

proof fn lemma_begins_with_refl(a: Seq<char>)
    ensures
        begins_with(a, a),
{
    assert(a.subrange(0, a.len() as int) =~= a);
}

proof fn lemma_commit_keeps_out(st: HtState, cols: int)
    ensures
        begins_with(commit_line_s(st, cols).out, st.out),
        begins_with(flush_s(st, cols).out, st.out),
{
    lemma_begins_with_refl(st.out);
    if st.runs.len() == 0 {
        lemma_begins_with_append(st.out, blank_line());
    } else {
        let cursor = if positioned(st.runs) {
            0
        } else {
            lead(st.justify, cols, printed_total(st.runs))
        };
        let x = line_open(line_height(st.runs)) + spans(st.runs, cursor) + "</div>\n"@;
        assert(st.out + line_open(line_height(st.runs)) + spans(st.runs, cursor) + "</div>\n"@
            =~= st.out + x);
        lemma_begins_with_append(st.out, x);
    }
}

proof fn lemma_text_keeps_out(st: HtState, s: Seq<char>, seg: Seq<char>, cols: int)
    ensures
        begins_with(text_go(st, s, seg, cols).out, st.out),
    decreases s.len(),
{
    lemma_begins_with_refl(st.out);
    if s.len() > 0 {
        if s[0] == '\n' {
            let st1 = commit_line_s(push_text_s(st, seg), cols);
            lemma_commit_keeps_out(push_text_s(st, seg), cols);
            lemma_text_keeps_out(st1, s.drop_first(), seq![], cols);
            lemma_begins_with_trans(st.out, st1.out, text_go(st, s, seg, cols).out);
        } else {
            lemma_text_keeps_out(st, s.drop_first(), seg.push(s[0]), cols);
        }
    }
}

proof fn lemma_op_keeps_out(st: HtState, op: OpV, cell_dots: int, cols: int)
    ensures
        begins_with(op_s(st, op, cell_dots, cols).out, st.out),
{
    lemma_begins_with_refl(st.out);
    lemma_commit_keeps_out(st, cols);
    let f = flush_s(st, cols);
    match op {
        OpV::Text(s) => lemma_text_keeps_out(st, s, seq![], cols),
        OpV::Feed(n) => {
            lemma_begins_with_append(f.out, blank_lines(n as nat));
            lemma_begins_with_trans(st.out, f.out, f.out + blank_lines(n as nat));
        },
        OpV::Cut(k) => {
            lemma_begins_with_append(f.out, cut_html(k));
            lemma_begins_with_trans(st.out, f.out, f.out + cut_html(k));
        },
        OpV::Raw(b) => {
            lemma_begins_with_append(f.out, raw_html(b.len()));
            lemma_begins_with_trans(st.out, f.out, f.out + raw_html(b.len()));
        },
        OpV::Qr { data, module } => {
            let width = qr_cells(data, module, cell_dots);
            let q = qr_html(lead(f.justify, cols, width), width, data);
            lemma_begins_with_append(f.out, q);
            lemma_begins_with_trans(st.out, f.out, f.out + q);
        },
        _ => {},
    }
}

proof fn lemma_ops_keep_out(st: HtState, ops: Seq<OpV>, cell_dots: int, cols: int)
    ensures
        begins_with(ops_s(st, ops, cell_dots, cols).out, st.out),
    decreases ops.len(),
{
    lemma_begins_with_refl(st.out);
    if ops.len() > 0 {
        let st1 = op_s(st, ops[0], cell_dots, cols);
        lemma_op_keeps_out(st, ops[0], cell_dots, cols);
        lemma_ops_keep_out(st1, ops.drop_first(), cell_dots, cols);
        lemma_begins_with_trans(st.out, st1.out, ops_s(st, ops, cell_dots, cols).out);
    }
}

/// Every fragment is framed the same way: it opens with the scoped outer box, which
/// carries the paper's width in cells as `--mdpos-cols` and holds the stylesheet and the
/// paper, and it closes the paper and the box; what the ops produce lies between.
pub proof fn law_fragment_is_framed(ops: Seq<OpV>, p: Profile)
    ensures
        ({
            let h = html_spec(ops, p);
            let top = header(p.spec_columns_at(1));
            &&& h.len() >= top.len() + footer().len()
            &&& h.subrange(0, top.len() as int) == top
            &&& h.subrange(h.len() - footer().len(), h.len() as int) == footer()
        }),
{
    let cols = p.spec_columns_at(1);
    let st = ops_s(ht_init(cols), ops, p.font.dots() as int, cols);
    lemma_ops_keep_out(ht_init(cols), ops, p.font.dots() as int, cols);
    lemma_commit_keeps_out(st, cols);
    let body = flush_s(st, cols).out;
    lemma_begins_with_trans(header(cols), st.out, body);
    let h = body + footer();
    assert(h.subrange(0, header(cols).len() as int) =~= body.subrange(0, header(cols).len() as int));
    assert(h.subrange(h.len() - footer().len(), h.len() as int) =~= footer());
}

// --- markup comes only from the emitter ------------------------------------------

/// Whether `name` follows position `i` of `s`.
pub open spec fn name_at(s: Seq<char>, i: int, name: Seq<char>) -> bool {
    i + 1 + name.len() <= s.len() && s.subrange(i + 1, i + 1 + name.len()) == name
}

/// Whether the `<` at position `i` opens or closes one of the fragment's own `div` or
/// `span` elements.
pub open spec fn own_tag_at(s: Seq<char>, i: int) -> bool {
    name_at(s, i, "div"@) || name_at(s, i, "/div"@) || name_at(s, i, "span"@) || name_at(
        s,
        i,
        "/span"@,
    )
}

/// Whether every `<` in `s` opens or closes one of the fragment's own elements.
pub open spec fn tags_ok(s: Seq<char>) -> bool {
    forall|i: int| 0 <= i < s.len() && #[trigger] s[i] == '<' ==> own_tag_at(s, i)
}

/// Whether `s` holds no `<` at all.
pub open spec fn no_lt(s: Seq<char>) -> bool {
    forall|i: int| 0 <= i < s.len() ==> #[trigger] s[i] != '<'
}

proof fn lemma_name_at_concat(a: Seq<char>, b: Seq<char>, i: int, name: Seq<char>)
    ensures
        0 <= i < a.len() && name_at(a, i, name) ==> name_at(a + b, i, name),
        0 <= i < b.len() && name_at(b, i, name) ==> name_at(a + b, a.len() + i, name),
{
    if 0 <= i < a.len() && name_at(a, i, name) {
        assert((a + b).subrange(i + 1, i + 1 + name.len()) =~= a.subrange(i + 1, i + 1 + name.len()));
    }
    if 0 <= i < b.len() && name_at(b, i, name) {
        let j = a.len() + i;
        assert((a + b).subrange(j + 1, j + 1 + name.len()) =~= b.subrange(i + 1, i + 1 + name.len()));
    }
}

proof fn lemma_tags_concat(a: Seq<char>, b: Seq<char>)
    requires
        tags_ok(a),
        tags_ok(b),
    ensures
        tags_ok(a + b),
{
    assert forall|i: int| 0 <= i < (a + b).len() && #[trigger] (a + b)[i] == '<' implies own_tag_at(a + b, i) by {
        if i < a.len() {
            assert(a[i] == '<');
            lemma_name_at_concat(a, b, i, "div"@);
            lemma_name_at_concat(a, b, i, "/div"@);
            lemma_name_at_concat(a, b, i, "span"@);
            lemma_name_at_concat(a, b, i, "/span"@);
        } else {
            let j = i - a.len();
            assert(b[j] == '<');
            lemma_name_at_concat(a, b, j, "div"@);
            lemma_name_at_concat(a, b, j, "/div"@);
            lemma_name_at_concat(a, b, j, "span"@);
            lemma_name_at_concat(a, b, j, "/span"@);
        }
    }
}

proof fn lemma_no_lt_tags(s: Seq<char>)
    requires
        no_lt(s),
    ensures
        tags_ok(s),
{
}

proof fn lemma_no_lt_concat(a: Seq<char>, b: Seq<char>)
    requires
        no_lt(a),
        no_lt(b),
    ensures
        no_lt(a + b),
{
    assert forall|i: int| 0 <= i < (a + b).len() implies #[trigger] (a + b)[i] != '<' by {
        if i < a.len() {
            assert((a + b)[i] == a[i]);
        } else {
            assert((a + b)[i] == b[i - a.len()]);
        }
    }
}

proof fn lemma_decimal_no_lt(n: nat)
    ensures
        no_lt(decimal(n)),
    decreases n,
{
    if n >= 10 {
        lemma_decimal_no_lt(n / 10);
        let d = decimal(n / 10);
        assert forall|i: int| 0 <= i < decimal(n).len() implies #[trigger] decimal(n)[i] != '<' by {
            if i < d.len() {
                assert(decimal(n)[i] == d[i]);
            }
        }
    }
}

proof fn lemma_escape_no_lt(s: Seq<char>)
    ensures
        no_lt(escape_spec(s)),
{
    law_escaped_text_stays_text(s);
}

proof fn lemma_run_span_tags(r: RunV, x: int)
    ensures
        tags_ok(run_span(r, x)),
{
    reveal_strlit("<span class=\"");
    reveal_strlit("mdpos-run");
    reveal_strlit(" mdpos-b");
    reveal_strlit(" mdpos-u");
    reveal_strlit("\" style=\"");
    reveal_strlit("left:");
    reveal_strlit("ch");
    reveal_strlit(";transform:scale(");
    reveal_strlit(",");
    reveal_strlit(")");
    reveal_strlit("\">");
    reveal_strlit("</span>");
    reveal_strlit("span");
    reveal_strlit("/span");
    let open = "<span class=\""@;
    assert(open.subrange(1, 5) =~= "span"@);
    assert(name_at(open, 0, "span"@));
    assert(tags_ok(open));
    let close = "</span>"@;
    assert(close.subrange(1, 6) =~= "/span"@);
    assert(name_at(close, 0, "/span"@));
    assert(tags_ok(close));
    let cls = run_class(r);
    assert(no_lt(cls)) by {
        lemma_no_lt_concat("mdpos-run"@, if r.bold { " mdpos-b"@ } else { seq![] });
        lemma_no_lt_concat("mdpos-run"@ + (if r.bold { " mdpos-b"@ } else { seq![] }), if r.underline { " mdpos-u"@ } else { seq![] });
    }
    lemma_decimal_no_lt(x as nat);
    lemma_decimal_no_lt(r.mag_w as nat);
    lemma_decimal_no_lt(r.mag_h as nat);
    let scale = if r.mag_w > 1 || r.mag_h > 1 {
        ";transform:scale("@ + decimal(r.mag_w as nat) + ","@ + decimal(r.mag_h as nat) + ")"@
    } else {
        seq![]
    };
    assert(no_lt(scale)) by {
        if r.mag_w > 1 || r.mag_h > 1 {
            lemma_no_lt_concat(";transform:scale("@, decimal(r.mag_w as nat));
            lemma_no_lt_concat(";transform:scale("@ + decimal(r.mag_w as nat), ","@);
            lemma_no_lt_concat(";transform:scale("@ + decimal(r.mag_w as nat) + ","@, decimal(r.mag_h as nat));
            lemma_no_lt_concat(";transform:scale("@ + decimal(r.mag_w as nat) + ","@ + decimal(r.mag_h as nat), ")"@);
        }
    }
    let sty = run_style(r, x);
    assert(no_lt(sty)) by {
        lemma_no_lt_concat("left:"@, decimal(x as nat));
        lemma_no_lt_concat("left:"@ + decimal(x as nat), "ch"@);
        lemma_no_lt_concat("left:"@ + decimal(x as nat) + "ch"@, scale);
    }
    lemma_escape_no_lt(r.text);
    let mid = cls + "\" style=\""@ + sty + "\">"@ + escape_spec(r.text);
    assert(no_lt(mid)) by {
        lemma_no_lt_concat(cls, "\" style=\""@);
        lemma_no_lt_concat(cls + "\" style=\""@, sty);
        lemma_no_lt_concat(cls + "\" style=\""@ + sty, "\">"@);
        lemma_no_lt_concat(cls + "\" style=\""@ + sty + "\">"@, escape_spec(r.text));
    }
    lemma_no_lt_tags(mid);
    lemma_tags_concat(open, mid);
    lemma_tags_concat(open + mid, close);
    assert(run_span(r, x) =~= open + mid + close);
}

proof fn lemma_spans_tags(runs: Seq<RunV>, cursor: int)
    ensures
        tags_ok(spans(runs, cursor)),
    decreases runs.len(),
{
    if runs.len() > 0 {
        let x = run_x(runs[0], cursor);
        lemma_run_span_tags(runs[0], x);
        lemma_spans_tags(runs.drop_first(), sat_add(x, printed_cells(runs[0])));
        lemma_tags_concat(run_span(runs[0], x), spans(runs.drop_first(), sat_add(x, printed_cells(runs[0]))));
    }
}

/// Every literal the emitter writes after the header either holds no `<` or holds only
/// `<`s that open or close a `div`.
proof fn lemma_literals()
    ensures
        tags_ok("<div class=\"mdpos-line\"></div>\n"@),
        tags_ok("<div class=\"mdpos-line\" style=\"height:calc("@),
        tags_ok("<div class=\"mdpos-line\">"@),
        tags_ok("</div>\n"@),
        tags_ok("<div class=\"mdpos-cut\">"@),
        tags_ok("<div class=\"mdpos-raw\">raw &middot; "@),
        tags_ok(" bytes &middot; not rendered</div>\n"@),
        tags_ok("<div class=\"mdpos-qr\" style=\"margin-left:"@),
        tags_ok("\">QR</div>\n"@),
        tags_ok("</div>\n</div>\n"@),
        no_lt(" * var(--mdpos-lh))\">"@),
        no_lt("partial cut"@),
        no_lt("full cut"@),
        no_lt("ch;width:"@),
        no_lt("ch\" data-mdpos-qr=\""@),
        no_lt("\" title=\""@),
{
    reveal_strlit("div");
    reveal_strlit("/div");
    reveal_strlit("<div class=\"mdpos-line\"></div>\n");
    reveal_strlit("<div class=\"mdpos-line\" style=\"height:calc(");
    reveal_strlit("<div class=\"mdpos-line\">");
    reveal_strlit("</div>\n");
    reveal_strlit("<div class=\"mdpos-cut\">");
    reveal_strlit("<div class=\"mdpos-raw\">raw &middot; ");
    reveal_strlit(" bytes &middot; not rendered</div>\n");
    reveal_strlit("<div class=\"mdpos-qr\" style=\"margin-left:");
    reveal_strlit("\">QR</div>\n");
    reveal_strlit("</div>\n</div>\n");
    reveal_strlit(" * var(--mdpos-lh))\">");
    reveal_strlit("partial cut");
    reveal_strlit("full cut");
    reveal_strlit("ch;width:");
    reveal_strlit("ch\" data-mdpos-qr=\"");
    reveal_strlit("\" title=\"");
    assert("<div class=\"mdpos-line\"></div>\n"@.subrange(1, 4) =~= "div"@);
    assert(name_at("<div class=\"mdpos-line\"></div>\n"@, 0, "div"@));
    assert("<div class=\"mdpos-line\"></div>\n"@.subrange(25, 29) =~= "/div"@);
    assert(name_at("<div class=\"mdpos-line\"></div>\n"@, 24, "/div"@));
    assert("<div class=\"mdpos-line\" style=\"height:calc("@.subrange(1, 4) =~= "div"@);
    assert(name_at("<div class=\"mdpos-line\" style=\"height:calc("@, 0, "div"@));
    assert("<div class=\"mdpos-line\">"@.subrange(1, 4) =~= "div"@);
    assert(name_at("<div class=\"mdpos-line\">"@, 0, "div"@));
    assert("</div>\n"@.subrange(1, 5) =~= "/div"@);
    assert(name_at("</div>\n"@, 0, "/div"@));
    assert("<div class=\"mdpos-cut\">"@.subrange(1, 4) =~= "div"@);
    assert(name_at("<div class=\"mdpos-cut\">"@, 0, "div"@));
    assert("<div class=\"mdpos-raw\">raw &middot; "@.subrange(1, 4) =~= "div"@);
    assert(name_at("<div class=\"mdpos-raw\">raw &middot; "@, 0, "div"@));
    assert(" bytes &middot; not rendered</div>\n"@.subrange(29, 33) =~= "/div"@);
    assert(name_at(" bytes &middot; not rendered</div>\n"@, 28, "/div"@));
    assert("<div class=\"mdpos-qr\" style=\"margin-left:"@.subrange(1, 4) =~= "div"@);
    assert(name_at("<div class=\"mdpos-qr\" style=\"margin-left:"@, 0, "div"@));
    assert("\">QR</div>\n"@.subrange(5, 9) =~= "/div"@);
    assert(name_at("\">QR</div>\n"@, 4, "/div"@));
    assert("</div>\n</div>\n"@.subrange(1, 5) =~= "/div"@);
    assert(name_at("</div>\n</div>\n"@, 0, "/div"@));
    assert("</div>\n</div>\n"@.subrange(8, 12) =~= "/div"@);
    assert(name_at("</div>\n</div>\n"@, 7, "/div"@));
}

proof fn lemma_tags_concat3(a: Seq<char>, b: Seq<char>, c: Seq<char>)
    requires
        tags_ok(a),
        tags_ok(b),
        tags_ok(c),
    ensures
        tags_ok(a + b + c),
{
    lemma_tags_concat(a, b);
    lemma_tags_concat(a + b, c);
}

/// What follows position `k` of the fragment keeps its markup well formed.
pub open spec fn tail_ok(out: Seq<char>, k: int) -> bool {
    0 <= k <= out.len() && tags_ok(out.skip(k))
}

proof fn lemma_append_tail(out: Seq<char>, k: int, x: Seq<char>)
    requires
        tail_ok(out, k),
        tags_ok(x),
    ensures
        tail_ok(out + x, k),
{
    assert((out + x).skip(k) =~= out.skip(k) + x);
    lemma_tags_concat(out.skip(k), x);
}

proof fn lemma_line_open_tags(h: u8)
    ensures
        tags_ok(line_open(h)),
{
    lemma_literals();
    lemma_decimal_no_lt(h as nat);
    if h > 1 {
        let a = "<div class=\"mdpos-line\" style=\"height:calc("@;
        let d = decimal(h as nat);
        let b = " * var(--mdpos-lh))\">"@;
        lemma_no_lt_tags(d);
        lemma_no_lt_tags(b);
        lemma_tags_concat3(a, d, b);
    }
}

proof fn lemma_commit_tags(st: HtState, cols: int, k: int)
    requires
        tail_ok(st.out, k),
    ensures
        tail_ok(commit_line_s(st, cols).out, k),
        tail_ok(flush_s(st, cols).out, k),
{
    lemma_literals();
    if st.runs.len() == 0 {
        lemma_append_tail(st.out, k, blank_line());
    } else {
        let cursor = if positioned(st.runs) {
            0
        } else {
            lead(st.justify, cols, printed_total(st.runs))
        };
        let o = line_open(line_height(st.runs));
        let sp = spans(st.runs, cursor);
        lemma_line_open_tags(line_height(st.runs));
        lemma_spans_tags(st.runs, cursor);
        lemma_tags_concat3(o, sp, "</div>\n"@);
        lemma_append_tail(st.out, k, o + sp + "</div>\n"@);
        assert(st.out + o + sp + "</div>\n"@ =~= st.out + (o + sp + "</div>\n"@));
    }
}

proof fn lemma_text_tags(st: HtState, s: Seq<char>, seg: Seq<char>, cols: int, k: int)
    requires
        tail_ok(st.out, k),
    ensures
        tail_ok(text_go(st, s, seg, cols).out, k),
    decreases s.len(),
{
    if s.len() > 0 {
        if s[0] == '\n' {
            lemma_commit_tags(push_text_s(st, seg), cols, k);
            lemma_text_tags(commit_line_s(push_text_s(st, seg), cols), s.drop_first(), seq![], cols, k);
        } else {
            lemma_text_tags(st, s.drop_first(), seg.push(s[0]), cols, k);
        }
    }
}

proof fn lemma_blank_lines_tags(n: nat)
    ensures
        tags_ok(blank_lines(n)),
    decreases n,
{
    lemma_literals();
    if n > 0 {
        lemma_blank_lines_tags((n - 1) as nat);
        lemma_tags_concat(blank_lines((n - 1) as nat), blank_line());
    }
}

proof fn lemma_piece_tags(op: OpV, f: HtState, cell_dots: int, cols: int)
    ensures
        op matches OpV::Feed(n) ==> tags_ok(blank_lines(n as nat)),
        op matches OpV::Cut(c) ==> tags_ok(cut_html(c)),
        op matches OpV::Raw(b) ==> tags_ok(raw_html(b.len())),
        op matches OpV::Qr { data, module } ==> tags_ok(
            qr_html(
                lead(f.justify, cols, qr_cells(data, module, cell_dots)),
                qr_cells(data, module, cell_dots),
                data,
            ),
        ),
{
    lemma_literals();
    match op {
        OpV::Feed(n) => lemma_blank_lines_tags(n as nat),
        OpV::Cut(c) => {
            let w = match c {
                CutKind::Partial => "partial cut"@,
                CutKind::Full => "full cut"@,
            };
            lemma_no_lt_tags(w);
            lemma_tags_concat3("<div class=\"mdpos-cut\">"@, w, "</div>\n"@);
        },
        OpV::Raw(b) => {
            lemma_decimal_no_lt(b.len());
            lemma_no_lt_tags(decimal(b.len()));
            lemma_tags_concat3(
                "<div class=\"mdpos-raw\">raw &middot; "@,
                decimal(b.len()),
                " bytes &middot; not rendered</div>\n"@,
            );
        },
        OpV::Qr { data, module } => {
            let width = qr_cells(data, module, cell_dots);
            let left = lead(f.justify, cols, width);
            let dl = decimal(left as nat);
            let dw = decimal(width as nat);
            let e = escape_spec(data);
            lemma_decimal_no_lt(left as nat);
            lemma_decimal_no_lt(width as nat);
            lemma_escape_no_lt(data);
            let mid = dl + "ch;width:"@ + dw + "ch\" data-mdpos-qr=\""@ + e + "\" title=\""@ + e;
            assert(no_lt(mid)) by {
                lemma_no_lt_concat(dl, "ch;width:"@);
                lemma_no_lt_concat(dl + "ch;width:"@, dw);
                lemma_no_lt_concat(dl + "ch;width:"@ + dw, "ch\" data-mdpos-qr=\""@);
                lemma_no_lt_concat(dl + "ch;width:"@ + dw + "ch\" data-mdpos-qr=\""@, e);
                lemma_no_lt_concat(dl + "ch;width:"@ + dw + "ch\" data-mdpos-qr=\""@ + e, "\" title=\""@);
                lemma_no_lt_concat(dl + "ch;width:"@ + dw + "ch\" data-mdpos-qr=\""@ + e + "\" title=\""@, e);
            }
            lemma_no_lt_tags(mid);
            let a = "<div class=\"mdpos-qr\" style=\"margin-left:"@;
            let z = "\">QR</div>\n"@;
            lemma_tags_concat3(a, mid, z);
            assert(qr_html(left, width, data) =~= a + mid + z);
        },
        _ => {},
    }
}

proof fn lemma_op_tags(st: HtState, op: OpV, cell_dots: int, cols: int, k: int)
    requires
        tail_ok(st.out, k),
    ensures
        tail_ok(op_s(st, op, cell_dots, cols).out, k),
{
    lemma_commit_tags(st, cols, k);
    let f = flush_s(st, cols);
    lemma_piece_tags(op, f, cell_dots, cols);
    match op {
        OpV::Text(s) => lemma_text_tags(st, s, seq![], cols, k),
        OpV::Feed(n) => lemma_append_tail(f.out, k, blank_lines(n as nat)),
        OpV::Cut(c) => lemma_append_tail(f.out, k, cut_html(c)),
        OpV::Raw(b) => lemma_append_tail(f.out, k, raw_html(b.len())),
        OpV::Qr { data, module } => {
            let width = qr_cells(data, module, cell_dots);
            lemma_append_tail(f.out, k, qr_html(lead(f.justify, cols, width), width, data));
        },
        _ => {},
    }
}

proof fn lemma_ops_tags(st: HtState, ops: Seq<OpV>, cell_dots: int, cols: int, k: int)
    requires
        tail_ok(st.out, k),
    ensures
        tail_ok(ops_s(st, ops, cell_dots, cols).out, k),
    decreases ops.len(),
{
    if ops.len() > 0 {
        lemma_op_tags(st, ops[0], cell_dots, cols, k);
        lemma_ops_tags(op_s(st, ops[0], cell_dots, cols), ops.drop_first(), cell_dots, cols, k);
    }
}

/// Markup in a template cannot escape into the page: after the fixed header (the outer
/// box and its stylesheet), every `<` in the fragment opens or closes one of the
/// emitter's own `div` or `span` elements, whatever text and QR payloads the ops carry;
/// those reach the page only escaped.
pub proof fn law_markup_comes_only_from_the_emitter(ops: Seq<OpV>, p: Profile)
    ensures
        ({
            let h = html_spec(ops, p);
            let top = header(p.spec_columns_at(1)).len() as int;
            top <= h.len() && tags_ok(h.skip(top))
        }),
{
    let cols = p.spec_columns_at(1);
    let top = header(cols).len() as int;
    let st0 = ht_init(cols);
    assert(st0.out.skip(top) =~= Seq::<char>::empty());
    let st = ops_s(st0, ops, p.font.dots() as int, cols);
    lemma_ops_tags(st0, ops, p.font.dots() as int, cols, top);
    lemma_commit_tags(st, cols, top);
    lemma_literals();
    lemma_append_tail(flush_s(st, cols).out, top, footer());
}

// --- the two previews agree -------------------------------------------------------

/// The two previews place things alike: an absolute position resolves to the same
/// character column in both, and under the same justification a QR symbol gets the same
/// width and the same lead in both, the monospace box and the HTML square.
pub proof fn law_previews_place_alike(
    st: crate::emit::preview::PvState,
    hs: HtState,
    d: u16,
    data: Seq<char>,
    module: u8,
    cell_dots: int,
    cols: int,
)
    requires
        st.justify == hs.justify,
        cell_dots > 0,
    ensures
        op_s(hs, OpV::AbsPos(d), cell_dots, cols).next_pos == Some((d as int / cell_dots) as usize),
        ({
            let target = d as int / cell_dots;
            let line = crate::emit::preview::op_s(st, OpV::AbsPos(d), cell_dots, cols).line;
            target > str_width_table(st.line) ==> line == st.line + crate::emit::preview::repeat_char(
                ' ',
                (target - str_width_table(st.line)) as nat,
            )
        }),
        ({
            let w = qr_cells(data, module, cell_dots);
            let l = lead(st.justify, cols, w);
            let pf = crate::emit::preview::flush_s(st, cols);
            let hf = flush_s(hs, cols);
            &&& crate::emit::preview::op_s(st, OpV::Qr { data, module }, cell_dots, cols).out == pf.out
                + crate::emit::preview::qr_sketch(l, w)
            &&& op_s(hs, OpV::Qr { data, module }, cell_dots, cols).out == hf.out + qr_html(l, w, data)
        }),
{
}

// --- the emitter -------------------------------------------------------------------

struct Run {
    text: Vec<char>,
    bold: bool,
    underline: bool,
    mag_w: u8,
    mag_h: u8,
    pos: Option<usize>,
}

impl Run {
    spec fn rv(&self) -> RunV {
        RunV {
            text: self.text@,
            bold: self.bold,
            underline: self.underline,
            mag_w: self.mag_w,
            mag_h: self.mag_h,
            pos: self.pos,
        }
    }
}

spec fn runs_view(runs: Seq<Run>) -> Seq<RunV> {
    runs.map_values(|r: Run| r.rv())
}

/// Cells a run covers on paper.
fn run_cells(run: &Run) -> (r: usize)
    ensures
        r as int == printed_cells(run.rv()),
{
    let w = chars_width(run.text.as_slice());
    let m: usize = if run.mag_w == 0 { 1 } else { run.mag_w as usize };
    match w.checked_mul(m) {
        Some(x) => x,
        None => usize::MAX,
    }
}

fn push_run_class(out: &mut Vec<char>, run: &Run)
    ensures
        final(out)@ == old(out)@ + run_class(run.rv()),
{
    let ghost start = out@;
    push_str_chars(out, "mdpos-run");
    if run.bold {
        push_str_chars(out, " mdpos-b");
    }
    if run.underline {
        push_str_chars(out, " mdpos-u");
    }
    assert(out@ =~= start + run_class(run.rv()));
}

fn push_run_style(out: &mut Vec<char>, run: &Run, x: usize)
    ensures
        final(out)@ == old(out)@ + run_style(run.rv(), x as int),
{
    let ghost start = out@;
    push_str_chars(out, "left:");
    push_decimal(out, x as u64);
    push_str_chars(out, "ch");
    let ghost mid = out@;
    if run.mag_w > 1 || run.mag_h > 1 {
        push_str_chars(out, ";transform:scale(");
        push_decimal(out, run.mag_w as u64);
        push_str_chars(out, ",");
        push_decimal(out, run.mag_h as u64);
        push_str_chars(out, ")");
    }
    assert(out@ =~= start + run_style(run.rv(), x as int));
}

fn push_run_span(out: &mut Vec<char>, run: &Run, x: usize)
    ensures
        final(out)@ == old(out)@ + run_span(run.rv(), x as int),
{
    let ghost start = out@;
    push_str_chars(out, "<span class=\"");
    push_run_class(out, run);
    push_str_chars(out, "\" style=\"");
    push_run_style(out, run, x);
    push_str_chars(out, "\">");
    push_escaped(out, run.text.as_slice());
    push_str_chars(out, "</span>");
    assert(out@ =~= start + run_span(run.rv(), x as int));
}

proof fn lemma_printed_total_step(runs: Seq<RunV>, i: int)
    requires
        0 <= i < runs.len(),
    ensures
        printed_total(runs.take(i + 1)) == sat_add(printed_total(runs.take(i)), printed_cells(runs[i])),
        positioned(runs.take(i + 1)) == (runs[i].pos is Some || positioned(runs.take(i))),
        line_height(runs.take(i + 1)) == (if runs[i].mag_h > line_height(runs.take(i)) {
            runs[i].mag_h
        } else {
            line_height(runs.take(i))
        }),
{
    assert(runs.take(i + 1).drop_last() =~= runs.take(i));
}

fn push_qr_html(out: &mut Vec<char>, left: usize, width: usize, data: &String)
    ensures
        final(out)@ == old(out)@ + qr_html(left as int, width as int, data@),
{
    let ghost f = out@;
    let chars = chars_of(data.as_str());
    push_str_chars(out, "<div class=\"mdpos-qr\" style=\"margin-left:");
    push_decimal(out, left as u64);
    push_str_chars(out, "ch;width:");
    push_decimal(out, width as u64);
    push_str_chars(out, "ch\" data-mdpos-qr=\"");
    push_escaped(out, chars.as_slice());
    push_str_chars(out, "\" title=\"");
    push_escaped(out, chars.as_slice());
    push_str_chars(out, "\">QR</div>\n");
    assert(out@ =~= f + qr_html(left as int, width as int, data@));
}

struct Emitter {
    out: Vec<char>,
    cols: usize,
    cell_dots: u16,
    justify: Align,
    bold: bool,
    underline: bool,
    mag_w: u8,
    mag_h: u8,
    next_pos: Option<usize>,
    runs: Vec<Run>,
}

impl Emitter {
    spec fn hs(&self) -> HtState {
        HtState {
            out: self.out@,
            justify: self.justify,
            bold: self.bold,
            underline: self.underline,
            mag_w: self.mag_w,
            mag_h: self.mag_h,
            next_pos: self.next_pos,
            runs: runs_view(self.runs@),
        }
    }

    /// The line's printed width, whether it holds a positioned run, and its height.
    fn measure(&self) -> (r: (usize, bool, u8))
        ensures
            r.0 as int == printed_total(runs_view(self.runs@)),
            r.1 == positioned(runs_view(self.runs@)),
            r.2 == line_height(runs_view(self.runs@)),
    {
        let ghost rv = runs_view(self.runs@);
        let mut total: usize = 0;
        let mut any = false;
        let mut height: u8 = 1;
        let mut i: usize = 0;
        assert(rv.take(0) =~= Seq::<RunV>::empty());
        while i < self.runs.len()
            invariant
                i <= self.runs.len(),
                rv == runs_view(self.runs@),
                total as int == printed_total(rv.take(i as int)),
                any == positioned(rv.take(i as int)),
                height == line_height(rv.take(i as int)),
            decreases self.runs.len() - i,
        {
            proof {
                lemma_printed_total_step(rv, i as int);
            }
            let run = &self.runs[i];
            let c = run_cells(run);
            total = total.saturating_add(c);
            if run.pos.is_some() {
                any = true;
            }
            if run.mag_h > height {
                height = run.mag_h;
            }
            i = i + 1;
        }
        assert(rv.take(i as int) =~= rv);
        (total, any, height)
    }

    fn commit_line(&mut self)
        ensures
            final(self).hs() == commit_line_s(old(self).hs(), old(self).cols as int),
            final(self).cols == old(self).cols,
            final(self).cell_dots == old(self).cell_dots,
    {
        if self.runs.len() == 0 {
            push_str_chars(&mut self.out, "<div class=\"mdpos-line\"></div>\n");
            return;
        }
        let ghost h0 = self.hs();
        let (printed, any, height) = self.measure();
        let mut cursor: usize = if any { 0 } else { lead_of(self.justify, self.cols, printed) };
        if height > 1 {
            push_str_chars(&mut self.out, "<div class=\"mdpos-line\" style=\"height:calc(");
            push_decimal(&mut self.out, height as u64);
            push_str_chars(&mut self.out, " * var(--mdpos-lh))\">");
        } else {
            push_str_chars(&mut self.out, "<div class=\"mdpos-line\">");
        }
        let ghost rv = runs_view(self.runs@);
        let ghost base = self.out@;
        let ghost c0 = cursor as int;
        assert(base =~= h0.out + line_open(height));
        assert(rv.skip(0) =~= rv);
        let mut i: usize = 0;
        while i < self.runs.len()
            invariant
                i <= self.runs.len(),
                rv == runs_view(self.runs@),
                rv == h0.runs,
                self.cols == old(self).cols,
                self.cell_dots == old(self).cell_dots,
                self.justify == h0.justify,
                self.bold == h0.bold,
                self.underline == h0.underline,
                self.mag_w == h0.mag_w,
                self.mag_h == h0.mag_h,
                self.next_pos == h0.next_pos,
                base + spans(rv, c0) == self.out@ + spans(rv.skip(i as int), cursor as int),
            decreases self.runs.len() - i,
        {
            let ghost before = self.out@;
            let ghost cur = cursor as int;
            let x: usize = match self.runs[i].pos {
                Some(p) => p,
                None => cursor,
            };
            push_run_span(&mut self.out, &self.runs[i], x);
            let c = run_cells(&self.runs[i]);
            let ghost rest = rv.skip(i as int);
            assert(rest[0] == rv[i as int]);
            assert(rest.drop_first() =~= rv.skip(i + 1));
            assert(x as int == run_x(rv[i as int], cur));
            cursor = x.saturating_add(c);
            assert(spans(rest, cur) == run_span(rv[i as int], x as int) + spans(rv.skip(i + 1), cursor as int));
            assert(before + spans(rest, cur) =~= self.out@ + spans(rv.skip(i + 1), cursor as int));
            i = i + 1;
        }
        assert(rv.skip(i as int) =~= Seq::<RunV>::empty());
        assert(c0 == (if positioned(h0.runs) { 0 } else { lead(h0.justify, old(self).cols as int, printed_total(h0.runs)) }));
        push_str_chars(&mut self.out, "</div>\n");
        self.runs = Vec::new();
        assert(runs_view(self.runs@) =~= Seq::<RunV>::empty());
    }

    fn flush(&mut self)
        ensures
            final(self).hs() == flush_s(old(self).hs(), old(self).cols as int),
            final(self).cols == old(self).cols,
            final(self).cell_dots == old(self).cell_dots,
    {
        if self.runs.len() > 0 {
            self.commit_line();
        }
    }

    fn push_text(&mut self, seg: Vec<char>)
        ensures
            final(self).hs() == push_text_s(old(self).hs(), seg@),
            final(self).cols == old(self).cols,
            final(self).cell_dots == old(self).cell_dots,
    {
        let pos = self.next_pos;
        self.next_pos = None;
        if seg.len() == 0 {
            return;
        }
        let run = Run {
            text: seg,
            bold: self.bold,
            underline: self.underline,
            mag_w: self.mag_w,
            mag_h: self.mag_h,
            pos,
        };
        let ghost before = self.runs@;
        self.runs.push(run);
        assert(runs_view(self.runs@) =~= runs_view(before).push(run.rv()));
    }

    fn text(&mut self, s: &String)
        ensures
            final(self).hs() == text_go(old(self).hs(), s@, seq![], old(self).cols as int),
            final(self).cols == old(self).cols,
            final(self).cell_dots == old(self).cell_dots,
    {
        let chars = chars_of(s.as_str());
        let ghost cols = self.cols as int;
        let ghost goal = text_go(self.hs(), s@, seq![], cols);
        let mut seg: Vec<char> = Vec::new();
        assert(chars@.skip(0) =~= chars@);
        let mut i: usize = 0;
        while i < chars.len()
            invariant
                i <= chars.len(),
                chars@ == s@,
                cols == self.cols as int,
                self.cell_dots == old(self).cell_dots,
                goal == text_go(self.hs(), chars@.skip(i as int), seg@, cols),
            decreases chars.len() - i,
        {
            let c = chars[i];
            assert(chars@.skip(i as int)[0] == c);
            assert(chars@.skip(i as int).drop_first() =~= chars@.skip(i + 1));
            if c == '\n' {
                let done = seg;
                seg = Vec::new();
                self.push_text(done);
                self.commit_line();
            } else {
                seg.push(c);
            }
            i = i + 1;
        }
        assert(chars@.skip(i as int).len() == 0);
        self.push_text(seg);
    }

    fn feed(&mut self, n: u8)
        ensures
            final(self).hs() == op_s(old(self).hs(), OpV::Feed(n), old(self).cell_dots as int, old(self).cols as int),
            final(self).cols == old(self).cols,
            final(self).cell_dots == old(self).cell_dots,
    {
        self.flush();
        let ghost h = self.hs();
        let mut k: u8 = 0;
        while k < n
            invariant
                k <= n,
                self.out@ =~= h.out + blank_lines(k as nat),
                self.hs() == (HtState { out: self.out@, ..h }),
                self.cols == old(self).cols,
                self.cell_dots == old(self).cell_dots,
            decreases n - k,
        {
            push_str_chars(&mut self.out, "<div class=\"mdpos-line\"></div>\n");
            k = k + 1;
        }
    }

    fn cut(&mut self, kind: CutKind)
        ensures
            final(self).hs() == op_s(old(self).hs(), OpV::Cut(kind), old(self).cell_dots as int, old(self).cols as int),
            final(self).cols == old(self).cols,
            final(self).cell_dots == old(self).cell_dots,
    {
        self.flush();
        let ghost f = self.out@;
        push_str_chars(&mut self.out, "<div class=\"mdpos-cut\">");
        match kind {
            CutKind::Partial => push_str_chars(&mut self.out, "partial cut"),
            CutKind::Full => push_str_chars(&mut self.out, "full cut"),
        }
        push_str_chars(&mut self.out, "</div>\n");
        assert(self.out@ =~= f + cut_html(kind));
    }

    fn raw(&mut self, bytes: &Vec<u8>)
        ensures
            final(self).hs() == op_s(old(self).hs(), OpV::Raw(bytes@), old(self).cell_dots as int, old(self).cols as int),
            final(self).cols == old(self).cols,
            final(self).cell_dots == old(self).cell_dots,
    {
        self.flush();
        let ghost f = self.out@;
        push_str_chars(&mut self.out, "<div class=\"mdpos-raw\">raw &middot; ");
        push_decimal(&mut self.out, bytes.len() as u64);
        push_str_chars(&mut self.out, " bytes &middot; not rendered</div>\n");
        assert(self.out@ =~= f + raw_html(bytes@.len()));
    }

    fn qr(&mut self, data: &String, module: u8)
        requires
            old(self).cell_dots > 0,
        ensures
            final(self).hs() == op_s(old(self).hs(), OpV::Qr { data: data@, module }, old(self).cell_dots as int, old(self).cols as int),
            final(self).cols == old(self).cols,
            final(self).cell_dots == old(self).cell_dots,
    {
        self.flush();
        let width = qr_width(data, module, self.cell_dots);
        let left = lead_of(self.justify, self.cols, width);
        push_qr_html(&mut self.out, left, width, data);
    }

    fn op(&mut self, op: &Op)
        requires
            old(self).cell_dots > 0,
        ensures
            final(self).hs() == op_s(old(self).hs(), op@, old(self).cell_dots as int, old(self).cols as int),
            final(self).cols == old(self).cols,
            final(self).cell_dots == old(self).cell_dots,
    {
        match op {
            Op::Text(s) => self.text(s),
            Op::AbsPos(dots) => {
                self.next_pos = Some((*dots / self.cell_dots) as usize);
            },
            Op::Justify(a) => {
                self.justify = *a;
            },
            Op::Size { w, h } => {
                self.mag_w = if *w == 0 { 1 } else { *w };
                self.mag_h = if *h == 0 { 1 } else { *h };
            },
            Op::Emphasis(on) => {
                self.bold = *on;
            },
            Op::Underline(on) => {
                self.underline = *on;
            },
            Op::Feed(n) => self.feed(*n),
            Op::Cut(kind) => self.cut(*kind),
            Op::Raw(bytes) => self.raw(bytes),
            Op::Qr { data, module } => self.qr(data, *module),
        }
    }
}

/// Render an op stream as a self-contained HTML fragment. Every op stream has one.
pub fn emit(ops: &[Op], profile: &Profile) -> (r: Result<String, Error>)
    ensures
        r matches Ok(s) && s@ == html_spec(ops_view(ops@), *profile),
{
    let cols = profile.columns() as usize;
    let mut out: Vec<char> = Vec::new();
    push_str_chars(&mut out, "<div class=\"mdpos\" style=\"--mdpos-cols:");
    push_decimal(&mut out, cols as u64);
    push_str_chars(&mut out, "\">\n<style>");
    push_str_chars(&mut out, STYLE);
    push_str_chars(&mut out, "</style>\n<div class=\"mdpos-paper\">\n");
    assert(out@ =~= header(cols as int));
    let mut e = Emitter {
        out,
        cols,
        cell_dots: profile.font.char_width_dots(),
        justify: Align::Left,
        bold: false,
        underline: false,
        mag_w: 1,
        mag_h: 1,
        next_pos: None,
        runs: Vec::new(),
    };
    assert(runs_view(e.runs@) =~= Seq::<RunV>::empty());
    let ghost ov = ops_view(ops@);
    let ghost cd = e.cell_dots as int;
    let ghost goal = ops_s(ht_init(cols as int), ov, cd, cols as int);
    assert(e.hs() == ht_init(cols as int));
    assert(ov.skip(0) =~= ov);
    let mut i: usize = 0;
    while i < ops.len()
        invariant
            i <= ops.len(),
            e.cell_dots > 0,
            e.cell_dots as int == cd,
            e.cols == cols,
            ov == ops_view(ops@),
            goal == ops_s(e.hs(), ov.skip(i as int), cd, cols as int),
        decreases ops.len() - i,
    {
        assert(ov.skip(i as int)[0] == ops@[i as int]@);
        assert(ov.skip(i as int).drop_first() =~= ov.skip(i + 1));
        e.op(&ops[i]);
        i = i + 1;
    }
    assert(ov.skip(i as int).len() == 0);
    e.flush();
    let ghost body = e.out@;
    push_str_chars(&mut e.out, "</div>\n</div>\n");
    assert(e.out@ =~= body + footer());
    Ok(string_from(e.out.as_slice()))
}

} // verus!
