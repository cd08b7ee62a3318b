//! What every laid-out op stream keeps.
//!
//! The layout engine mirrors the device state (justification, magnification, emphasis,
//! underline) so that it never sends a state change the device already has. Text is
//! merged, so no two text ops stand side by side and none is empty. Absolute positions
//! are only sent while the device is left-justified, since a centered line buffer would
//! move them. A finished stream ends with a partial cut and with emphasis and underline
//! off, and closing a document adds a cut only when the template did not end with one.
//! Nothing is placed past the paper's edge: QR symbols and column positions fit the
//! printable width.

use vstd::prelude::*;
use crate::ir::{Align, CutKind, OpV};
use crate::layout::{
    at_least_one, cell_dots, cell_offset, e_push, e_text, emit_cells, emit_rows, finish_s,
    flatten_cells, glyphs_go, glyphs_s, grid_columns, init_state, layout_spec,
    lemma_sum_widths_prefix, lemma_width_nonneg, lines_s, max_height, newline, node_s,
    plain_attrs, plain_s, qr_s, row_check, row_s, rule_s, run_s, sat16, set_attrs_s,
    set_justify_s, set_size_s, sum_widths, wrap_spec, Attrs, EngV, Glyph, FINAL_FEED,
};
use crate::parse::{BlockV, CellV, ColSpec, NodeV};
use crate::profile::{mag_factor, Profile};
use crate::qr;
use vstd::utf8::encode_utf8;

verus! {

/// Device justification after a stream, starting from what `ESC @` leaves behind.
pub open spec fn justify_after(ops: Seq<OpV>) -> Align
    decreases ops.len(),
{
    if ops.len() == 0 {
        Align::Left
    } else {
        match ops.last() {
            OpV::Justify(a) => a,
            _ => justify_after(ops.drop_last()),
        }
    }
}

/// Device magnification `(w, h)` after a stream, starting from 1x1.
pub open spec fn mag_after(ops: Seq<OpV>) -> (u8, u8)
    decreases ops.len(),
{
    if ops.len() == 0 {
        (1u8, 1u8)
    } else {
        match ops.last() {
            OpV::Size { w, h } => (w, h),
            _ => mag_after(ops.drop_last()),
        }
    }
}

/// Whether emphasis is on after a stream, starting from off.
pub open spec fn bold_after(ops: Seq<OpV>) -> bool
    decreases ops.len(),
{
    if ops.len() == 0 {
        false
    } else {
        match ops.last() {
            OpV::Emphasis(b) => b,
            _ => bold_after(ops.drop_last()),
        }
    }
}

/// Whether underline is on after a stream, starting from off.
pub open spec fn underline_after(ops: Seq<OpV>) -> bool
    decreases ops.len(),
{
    if ops.len() == 0 {
        false
    } else {
        match ops.last() {
            OpV::Underline(b) => b,
            _ => underline_after(ops.drop_last()),
        }
    }
}

/// Whether `op`, sent after `prev`, is well placed: a state op changes the state it sets,
/// text is non-empty and does not follow text, an absolute position is sent only while the
/// device is left-justified, and a cut is the partial one.
pub open spec fn well_placed(prev: Seq<OpV>, op: OpV) -> bool {
    match op {
        OpV::Justify(a) => a != justify_after(prev),
        OpV::Size { w, h } => (w, h) != mag_after(prev),
        OpV::Emphasis(b) => b != bold_after(prev),
        OpV::Underline(b) => b != underline_after(prev),
        OpV::Text(t) => t.len() > 0 && !(prev.len() > 0 && prev.last() is Text),
        OpV::AbsPos(_) => justify_after(prev) == Align::Left,
        OpV::Cut(k) => k == CutKind::Partial,
        _ => true,
    }
}

/// Every op of the stream is well placed after the ops before it.
pub open spec fn tidy(ops: Seq<OpV>) -> bool
    decreases ops.len(),
{
    ops.len() == 0 || (tidy(ops.drop_last()) && well_placed(ops.drop_last(), ops.last()))
}

/// How many cut ops a stream holds.
pub open spec fn cut_count(ops: Seq<OpV>) -> nat
    decreases ops.len(),
{
    if ops.len() == 0 {
        0
    } else {
        cut_count(ops.drop_last()) + if ops.last() is Cut { 1nat } else { 0nat }
    }
}

/// Whether an op occupies a place on the paper's width: a QR symbol or an absolute
/// position.
pub open spec fn is_placed(op: OpV) -> bool {
    op is Qr || op is AbsPos
}

/// The QR symbols and absolute positions of a stream, in order.
pub open spec fn placed_ops(ops: Seq<OpV>) -> Seq<OpV>
    decreases ops.len(),
{
    if ops.len() == 0 {
        seq![]
    } else if is_placed(ops.last()) {
        placed_ops(ops.drop_last()).push(ops.last())
    } else {
        placed_ops(ops.drop_last())
    }
}

/// An op fits the paper: a QR symbol's payload has a footprint no wider than the
/// printable width, and an absolute position is within the printable width.
pub open spec fn fits_paper(op: OpV, p: Profile) -> bool {
    match op {
        OpV::AbsPos(d) => d <= p.width_dots,
        OpV::Qr { data, module } => match qr::spec_footprint_dots(
            (encode_utf8(data).len() as usize) as int,
            module,
        ) {
            Some(d) => d <= p.width_dots,
            None => false,
        },
        _ => true,
    }
}

/// Every op of a list fits the paper.
pub open spec fn all_fit(qrs: Seq<OpV>, p: Profile) -> bool {
    forall|i: int| 0 <= i < qrs.len() ==> fits_paper(#[trigger] qrs[i], p)
}

/// How many `{cut}` nodes a template holds.
pub open spec fn cut_nodes(nodes: Seq<NodeV>) -> nat
    decreases nodes.len(),
{
    if nodes.len() == 0 {
        0
    } else {
        (if nodes[0].block is Cut { 1nat } else { 0nat }) + cut_nodes(nodes.drop_first())
    }
}

/// The engine's mirror of the device agrees with the stream it has produced, and that
/// stream is tidy.
pub open spec fn engine_ok(e: EngV) -> bool {
    &&& tidy(e.ops)
    &&& e.dev_justify == justify_after(e.ops)
    &&& e.dev_mag_w == mag_after(e.ops).0
    &&& e.dev_mag_h == mag_after(e.ops).1
    &&& e.dev_attrs.bold == bold_after(e.ops)
    &&& e.dev_attrs.underline == underline_after(e.ops)
}

/// An op that does not touch the mirrored device state.
pub open spec fn stateless(op: OpV) -> bool {
    op is Text || op is Feed || op is Cut || op is Raw || op is Qr || op is AbsPos
}

proof fn lemma_push(ops: Seq<OpV>, op: OpV)
    ensures
        ops.push(op).drop_last() == ops,
        ops.push(op).last() == op,
        tidy(ops.push(op)) == (tidy(ops) && well_placed(ops, op)),
        cut_count(ops.push(op)) == cut_count(ops) + if op is Cut { 1nat } else { 0nat },
        placed_ops(ops.push(op)) == if is_placed(op) { placed_ops(ops).push(op) } else { placed_ops(ops) },
{
    assert(ops.push(op).drop_last() =~= ops);
}

proof fn lemma_push_stateless(ops: Seq<OpV>, op: OpV)
    requires
        stateless(op),
    ensures
        ops.push(op).drop_last() == ops,
        justify_after(ops.push(op)) == justify_after(ops),
        mag_after(ops.push(op)) == mag_after(ops),
        bold_after(ops.push(op)) == bold_after(ops),
        underline_after(ops.push(op)) == underline_after(ops),
        cut_count(ops.push(op)) == cut_count(ops) + if op is Cut { 1nat } else { 0nat },
        placed_ops(ops.push(op)) == if is_placed(op) { placed_ops(ops).push(op) } else { placed_ops(ops) },
{
    lemma_push(ops, op);
}

proof fn lemma_e_push(e: EngV, op: OpV)
    requires
        engine_ok(e),
        stateless(op),
        !(op is Text),
        op is AbsPos ==> e.dev_justify == Align::Left,
        op is Cut ==> op == OpV::Cut(CutKind::Partial),
    ensures
        engine_ok(e_push(e, op)),
        cut_count(e_push(e, op).ops) == cut_count(e.ops) + if op is Cut { 1nat } else { 0nat },
        placed_ops(e_push(e, op).ops) == if is_placed(op) { placed_ops(e.ops).push(op) } else { placed_ops(e.ops) },
{
    lemma_push_stateless(e.ops, op);
}

proof fn lemma_e_text(e: EngV, s: Seq<char>)
    requires
        engine_ok(e),
    ensures
        engine_ok(e_text(e, s)),
        e_text(e, s).dev_justify == e.dev_justify,
        e_text(e, s).dev_attrs == e.dev_attrs,
        cut_count(e_text(e, s).ops) == cut_count(e.ops),
        placed_ops(e_text(e, s).ops) == placed_ops(e.ops),
{
    let ops = e.ops;
    if s.len() > 0 {
        if ops.len() > 0 && ops.last() is Text {
            let p = ops.drop_last();
            let prev = ops.last()->Text_0;
            lemma_push_stateless(p, OpV::Text(prev + s));
            assert(p.push(OpV::Text(prev)) =~= ops);
            lemma_push_stateless(p, OpV::Text(prev));
        } else {
            lemma_push_stateless(ops, OpV::Text(s));
        }
    }
}

proof fn lemma_set_justify(e: EngV, a: Align)
    requires
        engine_ok(e),
    ensures
        engine_ok(set_justify_s(e, a)),
        set_justify_s(e, a).dev_justify == a,
        set_justify_s(e, a).dev_attrs == e.dev_attrs,
        cut_count(set_justify_s(e, a).ops) == cut_count(e.ops),
        placed_ops(set_justify_s(e, a).ops) == placed_ops(e.ops),
{
    lemma_push(e.ops, OpV::Justify(a));
}

proof fn lemma_set_size(e: EngV)
    requires
        engine_ok(e),
    ensures
        engine_ok(set_size_s(e)),
        set_size_s(e).dev_justify == e.dev_justify,
        set_size_s(e).dev_attrs == e.dev_attrs,
        cut_count(set_size_s(e).ops) == cut_count(e.ops),
        placed_ops(set_size_s(e).ops) == placed_ops(e.ops),
{
    lemma_push(e.ops, OpV::Size { w: e.mag_w, h: e.mag_h });
}

proof fn lemma_set_attrs(e: EngV, a: Attrs)
    requires
        engine_ok(e),
    ensures
        engine_ok(set_attrs_s(e, a)),
        set_attrs_s(e, a).dev_justify == e.dev_justify,
        set_attrs_s(e, a).dev_attrs == a,
        cut_count(set_attrs_s(e, a).ops) == cut_count(e.ops),
        placed_ops(set_attrs_s(e, a).ops) == placed_ops(e.ops),
{
    let o1 = e.ops.push(OpV::Emphasis(a.bold));
    lemma_push(e.ops, OpV::Emphasis(a.bold));
    let e1 = if e.dev_attrs.bold != a.bold {
        EngV { ops: o1, dev_attrs: Attrs { bold: a.bold, ..e.dev_attrs }, ..e }
    } else {
        e
    };
    assert(engine_ok(e1));
    lemma_push(e1.ops, OpV::Underline(a.underline));
}

proof fn lemma_glyphs_go(e: EngV, line: Seq<Glyph>, attrs: Attrs, buf: Seq<char>)
    requires
        engine_ok(e),
    ensures
        engine_ok(glyphs_go(e, line, attrs, buf)),
        glyphs_go(e, line, attrs, buf).dev_justify == e.dev_justify,
        cut_count(glyphs_go(e, line, attrs, buf).ops) == cut_count(e.ops),
        placed_ops(glyphs_go(e, line, attrs, buf).ops) == placed_ops(e.ops),
    decreases line.len(),
{
    lemma_set_attrs(e, attrs);
    lemma_e_text(set_attrs_s(e, attrs), buf);
    if line.len() > 0 {
        if line[0].1 != attrs {
            lemma_glyphs_go(e_text(set_attrs_s(e, attrs), buf), line.drop_first(), line[0].1, seq![line[0].0]);
        } else {
            lemma_glyphs_go(e, line.drop_first(), attrs, buf.push(line[0].0));
        }
    }
}

proof fn lemma_glyphs(e: EngV, line: Seq<Glyph>)
    requires
        engine_ok(e),
    ensures
        engine_ok(glyphs_s(e, line)),
        glyphs_s(e, line).dev_justify == e.dev_justify,
        cut_count(glyphs_s(e, line).ops) == cut_count(e.ops),
        placed_ops(glyphs_s(e, line).ops) == placed_ops(e.ops),
{
    lemma_glyphs_go(e, line, if line.len() > 0 { line[0].1 } else { plain_attrs() }, seq![]);
}

proof fn lemma_lines(e: EngV, lines: Seq<Seq<Glyph>>)
    requires
        engine_ok(e),
    ensures
        engine_ok(lines_s(e, lines)),
        cut_count(lines_s(e, lines).ops) == cut_count(e.ops),
        placed_ops(lines_s(e, lines).ops) == placed_ops(e.ops),
    decreases lines.len(),
{
    if lines.len() > 0 {
        lemma_glyphs(e, lines[0]);
        lemma_e_text(glyphs_s(e, lines[0]), newline());
        lemma_lines(e_text(glyphs_s(e, lines[0]), newline()), lines.drop_first());
    }
}

proof fn lemma_emit_cells(
    e: EngV,
    p: Profile,
    specs: Seq<ColSpec>,
    wrapped: Seq<Seq<Seq<Glyph>>>,
    r: int,
    idx: int,
    start: int,
    cd: int,
    g: int,
)
    requires
        engine_ok(e),
        e.dev_justify == Align::Left,
        0 <= idx <= specs.len(),
        start == sum_widths(specs.take(idx)),
        sum_widths(specs) <= g,
        0 <= cd,
        cd * g <= p.width_dots,
    ensures
        engine_ok(emit_cells(e, specs, wrapped, r, idx, start, cd)),
        emit_cells(e, specs, wrapped, r, idx, start, cd).dev_justify == Align::Left,
        cut_count(emit_cells(e, specs, wrapped, r, idx, start, cd).ops) == cut_count(e.ops),
        all_fit(placed_ops(e.ops), p) ==> all_fit(placed_ops(emit_cells(e, specs, wrapped, r, idx, start, cd).ops), p),
    decreases specs.len() - idx,
{
    if 0 <= idx < specs.len() {
        let w = specs[idx].width_chars as int;
        assert(specs.take(idx + 1).drop_last() =~= specs.take(idx));
        lemma_sum_widths_prefix(specs, idx + 1);
        let e2 = if r < wrapped[idx].len() && wrapped[idx][r].len() > 0 {
            let gl = wrapped[idx][r];
            let off = cell_offset(specs[idx], gl);
            lemma_width_nonneg(gl);
            assert(0 <= off <= w);
            lemma_sum_widths_prefix(specs, idx);
            let x = start + off;
            assert(0 <= x <= g);
            assert(x * cd <= cd * g) by (nonlinear_arith)
                requires 0 <= x <= g, 0 <= cd;
            assert(x * cd >= 0) by (nonlinear_arith)
                requires 0 <= x, 0 <= cd;
            let op = OpV::AbsPos(sat16(x * cd));
            assert(fits_paper(op, p));
            lemma_e_push(e, op);
            lemma_glyphs(e_push(e, op), gl);
            glyphs_s(e_push(e, op), gl)
        } else {
            e
        };
        lemma_emit_cells(e2, p, specs, wrapped, r, idx + 1, start + specs[idx].width_chars, cd, g);
    }
}

proof fn lemma_emit_rows(
    e: EngV,
    p: Profile,
    specs: Seq<ColSpec>,
    wrapped: Seq<Seq<Seq<Glyph>>>,
    r: int,
    height: int,
    cd: int,
    g: int,
)
    requires
        engine_ok(e),
        e.dev_justify == Align::Left,
        sum_widths(specs) <= g,
        0 <= cd,
        cd * g <= p.width_dots,
    ensures
        engine_ok(emit_rows(e, specs, wrapped, r, height, cd)),
        cut_count(emit_rows(e, specs, wrapped, r, height, cd).ops) == cut_count(e.ops),
        all_fit(placed_ops(e.ops), p) ==> all_fit(placed_ops(emit_rows(e, specs, wrapped, r, height, cd).ops), p),
    decreases height - r,
{
    if r < height {
        let e1 = emit_cells(e, specs, wrapped, r, 0, 0, cd);
        assert(specs.take(0) =~= Seq::<ColSpec>::empty());
        lemma_emit_cells(e, p, specs, wrapped, r, 0, 0, cd, g);
        lemma_e_text(e1, newline());
        lemma_emit_rows(e_text(e1, newline()), p, specs, wrapped, r + 1, height, cd, g);
    }
}

proof fn lemma_node_rule(e: EngV, p: Profile)
    requires
        engine_ok(e),
    ensures
        engine_ok(rule_s(e, p)),
        cut_count(rule_s(e, p).ops) == cut_count(e.ops),
        placed_ops(rule_s(e, p).ops) == placed_ops(e.ops),
{
    lemma_set_justify(e, Align::Left);
    lemma_set_size(set_justify_s(e, Align::Left));
    let e0 = set_size_s(set_justify_s(e, Align::Left));
    lemma_set_attrs(e0, plain_attrs());
    let e1 = set_attrs_s(e0, plain_attrs());
    let dashes = Seq::new(grid_columns(e, p) as nat, |i: int| '-');
    lemma_e_text(e1, dashes);
    lemma_e_text(e_text(e1, dashes), newline());
}

proof fn lemma_node_row(e: EngV, p: Profile, line: usize, specs: Seq<ColSpec>, cells: Seq<CellV>)
    requires
        engine_ok(e),
    ensures
        row_s(e, p, line, specs, cells) matches Ok(e2) ==> engine_ok(e2) && cut_count(e2.ops) == cut_count(e.ops)
            && (all_fit(placed_ops(e.ops), p) ==> all_fit(placed_ops(e2.ops), p)),
{
    lemma_set_justify(e, Align::Left);
    lemma_set_size(set_justify_s(e, Align::Left));
    match row_check(e, p, line, specs, cells) {
        Err(_) => {},
        Ok(wrapped) => {
            let height = if max_height(wrapped) < 1 { 1 } else { max_height(wrapped) };
            let cd = cell_dots(e, p);
            let g = grid_columns(e, p);
            let w = p.width_dots as int;
            let a = p.font.dots() as int;
            let k = mag_factor(e.mag_w);
            let c = a * k;
            assert(c > 0) by (nonlinear_arith)
                requires a >= 9, k >= 1, c == a * k;
            assert(g == w / c);
            assert(c * (w / c) <= w) by (nonlinear_arith)
                requires c > 0, w >= 0;
            lemma_emit_rows(set_size_s(set_justify_s(e, Align::Left)), p, specs, wrapped, 0, height, cd, g);
        },
    }
}

proof fn lemma_node_plain(e: EngV, p: Profile, cells: Seq<CellV>)
    requires
        engine_ok(e),
    ensures
        engine_ok(plain_s(e, p, cells)),
        cut_count(plain_s(e, p, cells).ops) == cut_count(e.ops),
        placed_ops(plain_s(e, p, cells).ops) == placed_ops(e.ops),
{
    lemma_set_justify(e, e.justify);
    lemma_set_size(set_justify_s(e, e.justify));
    let e1 = set_size_s(set_justify_s(e, e.justify));
    let g = flatten_cells(cells);
    if g.len() == 0 {
        lemma_set_attrs(e1, plain_attrs());
        lemma_e_text(set_attrs_s(e1, plain_attrs()), newline());
    } else {
        lemma_lines(e1, wrap_spec(g, at_least_one(grid_columns(e, p))));
    }
}

proof fn lemma_node_qr(e: EngV, p: Profile, line: usize, d: Seq<char>)
    requires
        engine_ok(e),
    ensures
        qr_s(e, p, line, d) matches Ok(e2) ==> engine_ok(e2) && cut_count(e2.ops) == cut_count(e.ops)
            && placed_ops(e2.ops) == placed_ops(e.ops).push(e2.ops.last()) && fits_paper(e2.ops.last(), p),
{
    lemma_set_justify(e, e.justify);
    lemma_set_attrs(set_justify_s(e, e.justify), plain_attrs());
    let e1 = set_attrs_s(set_justify_s(e, e.justify), plain_attrs());
    lemma_e_push(e1, OpV::Qr { data: d, module: e.qr_module });
}

proof fn lemma_node(e: EngV, p: Profile, n: NodeV)
    requires
        engine_ok(e),
    ensures
        node_s(e, p, n) matches Ok(e2) ==> engine_ok(e2) && cut_count(e2.ops) == cut_count(e.ops)
            + if n.block is Cut { 1nat } else { 0nat },
        node_s(e, p, n) matches Ok(e2) ==> (all_fit(placed_ops(e.ops), p) ==> all_fit(placed_ops(e2.ops), p)),
{
    match n.block {
        BlockV::Feed(k) => lemma_e_push(e, OpV::Feed(k)),
        BlockV::Cut => lemma_e_push(e, OpV::Cut(CutKind::Partial)),
        BlockV::Raw(b) => {
            lemma_set_justify(e, e.justify);
            lemma_e_push(set_justify_s(e, e.justify), OpV::Raw(b));
        },
        BlockV::Qr(d) => lemma_node_qr(e, p, n.line, d),
        BlockV::Blank => {
            lemma_set_attrs(e, plain_attrs());
            lemma_e_text(set_attrs_s(e, plain_attrs()), newline());
        },
        BlockV::Rule => lemma_node_rule(e, p),
        BlockV::Line(cells) => match e.cols {
            Some(specs) => lemma_node_row(e, p, n.line, specs, cells),
            None => lemma_node_plain(e, p, cells),
        },
        _ => {},
    }
}

proof fn lemma_run(e: EngV, p: Profile, nodes: Seq<NodeV>)
    requires
        engine_ok(e),
    ensures
        run_s(e, p, nodes) matches Ok(e2) ==> engine_ok(e2) && cut_count(e2.ops) == cut_count(e.ops)
            + cut_nodes(nodes),
        run_s(e, p, nodes) matches Ok(e2) ==> (all_fit(placed_ops(e.ops), p) ==> all_fit(placed_ops(e2.ops), p)),
    decreases nodes.len(),
{
    if nodes.len() > 0 {
        lemma_node(e, p, nodes[0]);
        match node_s(e, p, nodes[0]) {
            Err(_) => {},
            Ok(e2) => lemma_run(e2, p, nodes.drop_first()),
        }
    }
}

proof fn lemma_finish(e: EngV)
    requires
        engine_ok(e),
    ensures
        tidy(finish_s(e)),
        finish_s(e).len() > 0,
        finish_s(e).last() == OpV::Cut(CutKind::Partial),
        !bold_after(finish_s(e)),
        !underline_after(finish_s(e)),
        cut_count(finish_s(e)) == cut_count(e.ops) + if e.ops.len() > 0 && e.ops.last() is Cut {
            0nat
        } else {
            1nat
        },
        placed_ops(finish_s(e)) == placed_ops(e.ops),
{
    if e.ops.len() > 0 && e.ops.last() is Cut {
        let last = e.ops.last();
        let body = e.ops.drop_last();
        assert(body.push(last) =~= e.ops);
        lemma_push_stateless(body, last);
        let e0 = EngV { ops: body, ..e };
        assert(engine_ok(e0));
        lemma_set_attrs(e0, plain_attrs());
        lemma_push(body, last);
        lemma_push(set_attrs_s(e0, plain_attrs()).ops, last);
        lemma_push_stateless(set_attrs_s(e0, plain_attrs()).ops, last);
    } else {
        lemma_set_attrs(e, plain_attrs());
        let o1 = set_attrs_s(e, plain_attrs()).ops;
        lemma_push(o1, OpV::Feed(FINAL_FEED));
        lemma_push_stateless(o1, OpV::Feed(FINAL_FEED));
        lemma_push(o1.push(OpV::Feed(FINAL_FEED)), OpV::Cut(CutKind::Partial));
        lemma_push_stateless(o1.push(OpV::Feed(FINAL_FEED)), OpV::Cut(CutKind::Partial));
    }
}

proof fn lemma_tidy_each(ops: Seq<OpV>)
    requires
        tidy(ops),
    ensures
        forall|i: int| 0 <= i < ops.len() ==> well_placed(ops.take(i), #[trigger] ops[i]),
    decreases ops.len(),
{
    if ops.len() > 0 {
        let body = ops.drop_last();
        lemma_tidy_each(body);
        assert forall|i: int| 0 <= i < ops.len() implies well_placed(ops.take(i), #[trigger] ops[i]) by {
            if i < body.len() {
                assert(ops.take(i) =~= body.take(i));
                assert(ops[i] == body[i]);
            } else {
                assert(ops.take(i) =~= body);
            }
        }
    }
}

/// Every stream that layout produces is self-contained and free of waste: it ends with a
/// partial cut, with emphasis and underline off; every cut in it is partial; every state change it sends changes the state
/// the device is in at that point; no text op is empty or follows another text op; and
/// every absolute position is sent while the device is left-justified.
pub proof fn law_layout_streams_are_tidy(ast: Seq<NodeV>, p: Profile)
    ensures
        layout_spec(ast, p) matches Ok(ops) ==> {
            &&& ops.len() > 0
            &&& ops.last() == OpV::Cut(CutKind::Partial)
            &&& !bold_after(ops)
            &&& !underline_after(ops)
            &&& forall|i: int| 0 <= i < ops.len() ==> well_placed(ops.take(i), #[trigger] ops[i])
        },
{
    let e0 = init_state();
    assert(engine_ok(e0));
    lemma_run(e0, p, ast);
    if let Ok(e) = run_s(e0, p, ast) {
        lemma_finish(e);
        lemma_tidy_each(finish_s(e));
    }
}

proof fn lemma_all_fit(ops: Seq<OpV>, p: Profile)
    requires
        all_fit(placed_ops(ops), p),
    ensures
        forall|i: int| 0 <= i < ops.len() ==> fits_paper(#[trigger] ops[i], p),
    decreases ops.len(),
{
    if ops.len() > 0 {
        let d = ops.drop_last();
        assert(all_fit(placed_ops(d), p)) by {
            if is_placed(ops.last()) {
                assert forall|i: int| 0 <= i < placed_ops(d).len() implies fits_paper(#[trigger] placed_ops(d)[i], p) by {
                    assert(placed_ops(ops)[i] == placed_ops(d)[i]);
                }
            }
        }
        lemma_all_fit(d, p);
        assert forall|i: int| 0 <= i < ops.len() implies fits_paper(#[trigger] ops[i], p) by {
            if i < d.len() {
                assert(ops[i] == d[i]);
            } else if is_placed(ops.last()) {
                assert(placed_ops(ops)[placed_ops(d).len() as int] == ops.last());
            }
        }
    }
}

/// Nothing in a laid-out stream is placed past the paper's edge: every QR symbol has a
/// footprint no wider than the printable width (one too wide, or too long for any symbol,
/// is refused rather than printed clipped), and every absolute position of a column row
/// lies within the printable width, at any magnification.
pub proof fn law_nothing_runs_off_the_paper(ast: Seq<NodeV>, p: Profile)
    ensures
        layout_spec(ast, p) matches Ok(ops) ==> forall|i: int|
            0 <= i < ops.len() ==> fits_paper(#[trigger] ops[i], p),
{
    let e0 = init_state();
    assert(engine_ok(e0));
    assert(placed_ops(e0.ops) =~= Seq::<OpV>::empty());
    lemma_run(e0, p, ast);
    if let Ok(e) = run_s(e0, p, ast) {
        lemma_finish(e);
        lemma_all_fit(finish_s(e), p);
    }
}

/// A finished document holds one cut per `{cut}` in the template, plus one more only
/// when the template's own output did not already end with a cut.
pub proof fn law_cut_once(ast: Seq<NodeV>, p: Profile)
    ensures
        run_s(init_state(), p, ast) matches Ok(e) ==> cut_count(finish_s(e)) == cut_nodes(ast)
            + if e.ops.len() > 0 && e.ops.last() is Cut { 0nat } else { 1nat },
        layout_spec(ast, p) matches Ok(ops) ==> cut_nodes(ast) <= cut_count(ops) <= cut_nodes(ast) + 1,
{
    let e0 = init_state();
    assert(engine_ok(e0));
    lemma_run(e0, p, ast);
    if let Ok(e) = run_s(e0, p, ast) {
        lemma_finish(e);
    }
}

} // verus!
