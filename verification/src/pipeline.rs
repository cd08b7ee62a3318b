//! The whole pipeline: parse, lay out, emit.
//!
//! A rendered document is self-contained: it begins with `ESC @` and ends with a cut, so a
//! lost or duplicated document cannot corrupt the next one. The previews share the parse
//! and layout passes with the bytes, so they fail exactly when layout does.

use vstd::prelude::*;
use crate::emit::{escpos, html, preview as monospace};
use crate::error::{Error, ErrorV};
use crate::ir::{ops_view, CutKind, Op, OpV};
use crate::layout::{law_fitting_rows_never_fall_short, layout, layout_spec};
use crate::parse::{law_parsed_rows_fit, nodes_view, parse, parse_spec};
use crate::profile::Profile;
use crate::stream;

verus! {

/// The op stream a template lays out to, or the first error of parse or layout.
pub open spec fn ops_spec(t: Seq<char>, p: Profile) -> Result<Seq<OpV>, ErrorV> {
    match parse_spec(t) {
        Ok(nodes) => layout_spec(nodes, p),
        Err(x) => Err(x),
    }
}

/// The ESC/POS document a template renders to.
pub open spec fn render_spec(t: Seq<char>, p: Profile) -> Result<Seq<u8>, ErrorV> {
    match ops_spec(t, p) {
        Ok(ops) => escpos::emit_spec(ops, p),
        Err(x) => Err(x),
    }
}

/// The monospace preview of a template.
pub open spec fn preview_text_spec(t: Seq<char>, p: Profile) -> Result<Seq<char>, ErrorV> {
    match ops_spec(t, p) {
        Ok(ops) => Ok(monospace::preview_spec(ops, p)),
        Err(x) => Err(x),
    }
}

/// The HTML preview of a template.
pub open spec fn preview_html_spec(t: Seq<char>, p: Profile) -> Result<Seq<char>, ErrorV> {
    match ops_spec(t, p) {
        Ok(ops) => Ok(html::html_spec(ops, p)),
        Err(x) => Err(x),
    }
}

/// Render a template to the intermediate representation.
pub fn to_ops(template: &str, profile: &Profile) -> (r: Result<Vec<Op>, Error>)
    ensures
        match r {
            Ok(ops) => ops_spec(template@, *profile) == Ok::<Seq<OpV>, ErrorV>(ops_view(ops@)),
            Err(e) => ops_spec(template@, *profile) == Err::<Seq<OpV>, ErrorV>(e@),
        },
{
    let ast = match parse(template) {
        Ok(ast) => ast,
        Err(e) => return Err(e),
    };
    proof {
        law_parsed_rows_fit(template@);
        law_fitting_rows_never_fall_short(nodes_view(ast@), *profile);
    }
    layout(ast.as_slice(), profile)
}

/// Render a template to ESC/POS bytes.
pub fn render(template: &str, profile: &Profile) -> (r: Result<Vec<u8>, Error>)
    ensures
        match r {
            Ok(b) => render_spec(template@, *profile) == Ok::<Seq<u8>, ErrorV>(b@),
            Err(e) => render_spec(template@, *profile) == Err::<Seq<u8>, ErrorV>(e@),
        },
{
    let ops = match to_ops(template, profile) {
        Ok(ops) => ops,
        Err(e) => return Err(e),
    };
    escpos::emit(ops.as_slice(), profile)
}

/// Render a template to monospace plain text, for previewing layout without a printer.
pub fn preview(template: &str, profile: &Profile) -> (r: Result<String, Error>)
    ensures
        match r {
            Ok(s) => preview_text_spec(template@, *profile) == Ok::<Seq<char>, ErrorV>(s@),
            Err(e) => preview_text_spec(template@, *profile) == Err::<Seq<char>, ErrorV>(e@),
        },
{
    let ops = match to_ops(template, profile) {
        Ok(ops) => ops,
        Err(e) => return Err(e),
    };
    monospace::emit(ops.as_slice(), profile)
}

/// Render a template to a self-contained HTML fragment, for showing a person what the
/// paper will look like.
pub fn preview_html(template: &str, profile: &Profile) -> (r: Result<String, Error>)
    ensures
        match r {
            Ok(s) => preview_html_spec(template@, *profile) == Ok::<Seq<char>, ErrorV>(s@),
            Err(e) => preview_html_spec(template@, *profile) == Err::<Seq<char>, ErrorV>(e@),
        },
{
    let ops = match to_ops(template, profile) {
        Ok(ops) => ops,
        Err(e) => return Err(e),
    };
    html::emit(ops.as_slice(), profile)
}


/// The bytes of a stream end with the bytes of its last op.
proof fn lemma_bytes_end_with_last(ops: Seq<OpV>, p: Profile)
    requires
        ops.len() > 0,
        escpos::ops_bytes(ops, p) is Ok,
    ensures
        escpos::op_bytes(ops.last(), p) matches Ok(l) && escpos::ops_bytes(ops, p) matches Ok(b)
            && l.len() <= b.len() && b.subrange(b.len() - l.len(), b.len() as int) == l,
    decreases ops.len(),
{
    let rest = ops.drop_first();
    if ops.len() == 1 {
        let b0 = escpos::op_bytes(ops[0], p)->Ok_0;
        assert(rest.len() == 0);
        assert(escpos::ops_bytes(ops, p)->Ok_0 =~= b0 + Seq::<u8>::empty());
        assert(b0.subrange(0, b0.len() as int) =~= b0);
    } else {
        lemma_bytes_end_with_last(rest, p);
        assert(rest.last() == ops.last());
        let b0 = escpos::op_bytes(ops[0], p)->Ok_0;
        let rb = escpos::ops_bytes(rest, p)->Ok_0;
        let l = escpos::op_bytes(ops.last(), p)->Ok_0;
        let b = b0 + rb;
        assert(b.subrange(b.len() - l.len(), b.len() as int) =~= rb.subrange(rb.len() - l.len(), rb.len() as int));
    }
}

/// Both previews succeed exactly when layout does, with the same error when it does not;
/// the bytes succeed exactly when layout does and no text op holds a character the code
/// page cannot encode. Every failure of layout is reported the same way by all three.
pub proof fn law_backends_fail_together(t: Seq<char>, p: Profile)
    ensures
        preview_text_spec(t, p) is Ok <==> ops_spec(t, p) is Ok,
        preview_html_spec(t, p) is Ok <==> ops_spec(t, p) is Ok,
        render_spec(t, p) is Ok <==> (ops_spec(t, p) matches Ok(ops) && forall|i: int|
            0 <= i < ops.len() ==> !escpos::has_unencodable_text(#[trigger] ops[i])),
        ops_spec(t, p) matches Err(x) ==> render_spec(t, p) == Err::<Seq<u8>, ErrorV>(x)
            && preview_text_spec(t, p) == Err::<Seq<char>, ErrorV>(x)
            && preview_html_spec(t, p) == Err::<Seq<char>, ErrorV>(x),
{
    if let Ok(ops) = ops_spec(t, p) {
        escpos::law_emit_fails_only_on_unencodable_text(ops, p);
    }
}

/// A rendered document is self-contained: it begins with `ESC @` and the font and code
/// page selection, ends with a cut (the partial one when the profile supports it, the
/// full one otherwise), and leaves emphasis and underline off before that cut.
pub proof fn law_render_is_self_contained(t: Seq<char>, p: Profile)
    ensures
        render_spec(t, p) matches Ok(b) ==> {
            let cut = if p.supports_partial_cut {
                seq![escpos::GS, 0x56u8, 0x42u8, 0x00u8]
            } else {
                seq![escpos::GS, 0x56u8, 0x00u8]
            };
            &&& b.len() >= 8 + cut.len()
            &&& b.subrange(0, 8) == escpos::frame_bytes(p)
            &&& b.subrange(b.len() - cut.len(), b.len() as int) == cut
        },
        ops_spec(t, p) matches Ok(ops) ==> !stream::bold_after(ops) && !stream::underline_after(ops),
{
    if let Ok(nodes) = parse_spec(t) {
        stream::law_layout_streams_are_tidy(nodes, p);
    }
    if let Ok(b) = render_spec(t, p) {
        let ops = ops_spec(t, p)->Ok_0;
        lemma_bytes_end_with_last(ops, p);
        escpos::law_document_opens_with_init(ops, p);
        let f = escpos::frame_bytes(p);
        let ob = escpos::ops_bytes(ops, p)->Ok_0;
        let l = escpos::op_bytes(ops.last(), p)->Ok_0;
        assert(b == f + ob);
        assert(b.subrange(b.len() - l.len(), b.len() as int) =~= ob.subrange(ob.len() - l.len(), ob.len() as int));
    }
}

} // verus!
