//! Where errors point.
//!
//! Template authors edit a string in a database field or a text area, often with no
//! compiler between them and the printer, so every error that comes from the template
//! names the 1-based source line it comes from. Blocks keep their source lines, in order.

use vstd::prelude::*;
use crate::error::ErrorV;
use crate::layout::{node_s, run_s, wrap_cells, EngV};
use crate::parse::{
    col_specs_s, content_s, directive_s, directives_s, init_pstate, lemma_next_newline, line_s,
    lines_from, parse_spec, push_s, raw_line, BlockV, CellV, ColSpec, NodeV, PState,
};
use crate::pipeline::{ops_spec, render_spec};
use crate::profile::Profile;

verus! {

/// The source line an error names, if it names one.
pub open spec fn err_line(e: ErrorV) -> Option<usize> {
    match e {
        ErrorV::UnknownDirective { line, .. } => Some(line),
        ErrorV::BadDirective { line, .. } => Some(line),
        ErrorV::UnsupportedVersion { line, .. } => Some(line),
        ErrorV::SizeOutOfRange { line, .. } => Some(line),
        ErrorV::ColumnCountMismatch { line, .. } => Some(line),
        ErrorV::ColumnsTooWide { line, .. } => Some(line),
        ErrorV::RightColumnOverflow { line, .. } => Some(line),
        ErrorV::BadHex { line, .. } => Some(line),
        ErrorV::QrTooWide { line, .. } => Some(line),
        ErrorV::QrTooLong { line, .. } => Some(line),
        ErrorV::Unrepresentable { .. } => None,
    }
}

/// `new` is `old` followed by nodes whose lines lie in `lo..=hi`, in source order.
pub open spec fn extends_within(old: Seq<NodeV>, new: Seq<NodeV>, lo: int, hi: int) -> bool {
    &&& old.len() <= new.len()
    &&& new.take(old.len() as int) == old
    &&& forall|i: int| old.len() <= i < new.len() ==> lo <= #[trigger] new[i].line <= hi
    &&& forall|i: int, j: int|
        old.len() <= i < j < new.len() ==> #[trigger] new[i].line <= #[trigger] new[j].line
}

proof fn lemma_extends_refl(s: Seq<NodeV>, lo: int, hi: int)
    ensures
        extends_within(s, s, lo, hi),
{
    assert(s.take(s.len() as int) =~= s);
}

proof fn lemma_extends_push(st: PState, line: usize, block: BlockV)
    ensures
        extends_within(st.nodes, push_s(st, line, block).nodes, line as int, line as int),
{
    assert(push_s(st, line, block).nodes.take(st.nodes.len() as int) =~= st.nodes);
}

proof fn lemma_extends_trans(a: Seq<NodeV>, b: Seq<NodeV>, c: Seq<NodeV>, lo: int, mid1: int, mid2: int, hi: int)
    requires
        extends_within(a, b, lo, mid1),
        extends_within(b, c, mid2, hi),
        mid1 <= mid2,
        lo <= mid2,
        mid1 <= hi,
    ensures
        extends_within(a, c, lo, hi),
{
    assert(c.take(a.len() as int) =~= c.take(b.len() as int).take(a.len() as int));
    assert forall|i: int| a.len() <= i < b.len() implies c[i] == b[i] by {
        assert(c.take(b.len() as int)[i] == c[i]);
    }
    assert forall|i: int, j: int| a.len() <= i < j < c.len() implies #[trigger] c[i].line <= #[trigger] c[j].line by {
        if j < b.len() {
            assert(c[i] == b[i] && c[j] == b[j]);
        } else if i < b.len() {
            assert(c[i] == b[i]);
        }
    }
}

proof fn lemma_col_specs_line(parts: Seq<Seq<char>>, line: usize, name: Seq<char>)
    ensures
        col_specs_s(parts, line, name) matches Err(x) ==> err_line(x) == Some(line),
    decreases parts.len(),
{
    if parts.len() > 0 {
        lemma_col_specs_line(parts.drop_first(), line, name);
    }
}

proof fn lemma_directive_line(st: PState, line: usize, inner: Seq<char>)
    ensures
        directive_s(st, line, inner) matches Err(x) ==> err_line(x) == Some(line),
{
    lemma_col_specs_line(crate::parse::split_commas(crate::parse::dargs(inner)), line, crate::parse::dname(inner));
}

proof fn lemma_directives_line(st: PState, line: usize, rest: Seq<char>, had: bool)
    ensures
        directives_s(st, line, rest, had) matches Err(x) ==> err_line(x) == Some(line),
        directives_s(st, line, rest, had) matches Ok((st2, r, h)) ==> extends_within(
            st.nodes,
            st2.nodes,
            line as int,
            line as int,
        ),
    decreases rest.len(),
{
    lemma_extends_refl(st.nodes, line as int, line as int);
    if rest.len() > 0 && rest[0] == '{' {
        match crate::parse::directive_end(rest) {
            None => {},
            Some(end) => {
                if 1 <= end < rest.len() {
                    let inner = crate::text::trim(rest.subrange(1, end));
                    lemma_directive_line(st, line, inner);
                    if let Ok(block) = directive_s(st, line, inner) {
                        let tail = rest.subrange(end + 1, rest.len() as int);
                        crate::parse::lemma_trim_start_len(tail);
                        let st1 = push_s(st, line, block);
                        lemma_directives_line(st1, line, crate::text::trim_start(tail), true);
                        lemma_extends_push(st, line, block);
                        if let Ok((st2, r, h)) = directives_s(st1, line, crate::text::trim_start(tail), true) {
                            lemma_extends_trans(st.nodes, st1.nodes, st2.nodes, line as int, line as int, line as int, line as int);
                        }
                    }
                }
            },
        }
    }
}

proof fn lemma_content_line(st: PState, line: usize, rest: Seq<char>, had: bool)
    ensures
        content_s(st, line, rest, had) matches Err(x) ==> err_line(x) == Some(line),
        content_s(st, line, rest, had) matches Ok(st2) ==> extends_within(
            st.nodes,
            st2.nodes,
            line as int,
            line as int,
        ),
{
    lemma_extends_refl(st.nodes, line as int, line as int);
    lemma_extends_push(st, line, BlockV::Blank);
    lemma_extends_push(st, line, BlockV::Rule);
    let cells = crate::parse::split_cells_s(rest);
    lemma_extends_push(st, line, BlockV::Line(cells.map_values(|c: Seq<char>| crate::parse::parse_cell_s(c))));
    lemma_extends_push(st, line, BlockV::Line(seq![crate::parse::parse_cell_s(rest)]));
}

proof fn lemma_line_line(st: PState, line: usize, raw: Seq<char>)
    ensures
        line_s(st, line, raw) matches Err(x) ==> err_line(x) == Some(line),
        line_s(st, line, raw) matches Ok(st2) ==> extends_within(st.nodes, st2.nodes, line as int, line as int),
{
    let t = crate::text::trim(raw);
    lemma_directives_line(st, line, t, false);
    if let Ok((st1, r, h)) = directives_s(st, line, t, false) {
        lemma_content_line(st1, line, r, h);
        if let Ok(st2) = content_s(st1, line, r, h) {
            lemma_extends_trans(st.nodes, st1.nodes, st2.nodes, line as int, line as int, line as int, line as int);
        }
    }
}

proof fn lemma_lines_from_line(t: Seq<char>, pos: int, n: int, st: PState)
    requires
        0 <= n,
        pos >= t.len() || n <= pos,
        t.len() <= usize::MAX,
    ensures
        lines_from(t, pos, n, st) matches Err(x) ==> err_line(x) matches Some(l) && n + 1 <= l <= t.len(),
        lines_from(t, pos, n, st) matches Ok(st2) ==> extends_within(st.nodes, st2.nodes, n + 1, t.len() as int),
    decreases t.len() + 1 - pos,
{
    lemma_extends_refl(st.nodes, n + 1, t.len() as int);
    if 0 <= pos < t.len() {
        let line = (n + 1) as usize;
        assert(line as int == n + 1);
        lemma_line_line(st, line, raw_line(t, pos, n));
        if let Ok(st2) = line_s(st, line, raw_line(t, pos, n)) {
            lemma_next_newline(t, pos);
            lemma_lines_from_line(t, crate::parse::next_newline(t, pos) + 1, n + 1, st2);
            if let Ok(st3) = lines_from(t, crate::parse::next_newline(t, pos) + 1, n + 1, st2) {
                lemma_extends_trans(st.nodes, st2.nodes, st3.nodes, n + 1, n + 1, n + 2, t.len() as int);
            }
        }
    }
}

/// Every template error names a source line of the template, and the blocks of a parsed
/// template keep their source lines, each one of the template's lines, in order.
pub proof fn law_parse_errors_name_their_line(t: Seq<char>)
    requires
        t.len() <= usize::MAX,
    ensures
        parse_spec(t) matches Err(x) ==> err_line(x) matches Some(l) && 1 <= l <= t.len(),
        parse_spec(t) matches Ok(nodes) ==> (forall|i: int|
            0 <= i < nodes.len() ==> 1 <= #[trigger] nodes[i].line <= t.len()) && (forall|i: int, j: int|
            0 <= i < j < nodes.len() ==> #[trigger] nodes[i].line <= #[trigger] nodes[j].line),
{
    lemma_lines_from_line(t, 0, 0, init_pstate());
    if let Ok(nodes) = parse_spec(t) {
        assert(init_pstate().nodes.len() == 0);
    }
}

proof fn lemma_wrap_cells_line(line: usize, specs: Seq<ColSpec>, cells: Seq<CellV>, k: int)
    ensures
        wrap_cells(line, specs, cells, k) matches Err(x) ==> err_line(x) == Some(line),
    decreases k,
{
    if k > 0 {
        lemma_wrap_cells_line(line, specs, cells, k - 1);
    }
}

proof fn lemma_node_line(e: EngV, p: Profile, n: NodeV)
    ensures
        node_s(e, p, n) matches Err(x) ==> err_line(x) == Some(n.line),
{
    if let BlockV::Line(cells) = n.block {
        if let Some(specs) = e.cols {
            let k = if specs.len() < cells.len() { specs.len() as int } else { cells.len() as int };
            lemma_wrap_cells_line(n.line, specs, cells, k);
        }
    }
}

proof fn lemma_run_line(e: EngV, p: Profile, nodes: Seq<NodeV>)
    ensures
        run_s(e, p, nodes) matches Err(x) ==> exists|i: int|
            0 <= i < nodes.len() && err_line(x) == Some(#[trigger] nodes[i].line),
    decreases nodes.len(),
{
    if nodes.len() > 0 {
        lemma_node_line(e, p, nodes[0]);
        match node_s(e, p, nodes[0]) {
            Err(x) => {
                assert(err_line(x) == Some(nodes[0].line));
            },
            Ok(e2) => {
                lemma_run_line(e2, p, nodes.drop_first());
                if let Err(x) = run_s(e2, p, nodes.drop_first()) {
                    let i = choose|i: int|
                        0 <= i < nodes.drop_first().len() && err_line(x) == Some(#[trigger] nodes.drop_first()[i].line);
                    assert(nodes[i + 1] == nodes.drop_first()[i]);
                }
            },
        }
    }
}

/// Every error that parse or layout raises for a template names one of its source lines;
/// the bytes add only one error of their own, a character with no encoding, which names
/// the character instead.
pub proof fn law_errors_name_their_line(t: Seq<char>, p: Profile)
    requires
        t.len() <= usize::MAX,
    ensures
        ops_spec(t, p) matches Err(x) ==> err_line(x) matches Some(l) && 1 <= l <= t.len(),
        render_spec(t, p) matches Err(x) ==> x is Unrepresentable || (err_line(x) matches Some(l) && 1
            <= l <= t.len()),
{
    law_parse_errors_name_their_line(t);
    if let Ok(nodes) = parse_spec(t) {
        lemma_run_line(crate::layout::init_state(), p, nodes);
        if let Err(x) = ops_spec(t, p) {
            let i = choose|i: int| 0 <= i < nodes.len() && err_line(x) == Some(#[trigger] nodes[i].line);
        }
    }
    if let Ok(ops) = ops_spec(t, p) {
        if let Err(x) = render_spec(t, p) {
            lemma_emit_error_kind(ops, p);
        }
    }
}

proof fn lemma_emit_error_kind(ops: Seq<crate::ir::OpV>, p: Profile)
    ensures
        crate::emit::escpos::ops_bytes(ops, p) matches Err(x) ==> x is Unrepresentable,
    decreases ops.len(),
{
    if ops.len() > 0 {
        lemma_emit_error_kind(ops.drop_first(), p);
    }
}

} // verus!
