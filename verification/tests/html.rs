use tk_mdpos::emit::html::{emit, STYLE};
use tk_mdpos::ir::{Align, CutKind, Op};
use tk_mdpos::Profile;

/// Just the paper contents, so assertions are not swamped by the stylesheet.
fn body(ops: &[Op]) -> String {
    let html = emit(ops, &Profile::epson_80mm()).unwrap();
    let start = html.find("<div class=\"mdpos-paper\">\n").unwrap()
        + "<div class=\"mdpos-paper\">\n".len();
    let end = html.rfind("</div>\n</div>\n").unwrap();
    html[start..end].to_string()
}

#[test]
fn abspos_resolves_to_a_character_cell() {
    let out = body(&[
        Op::Text("Item".into()),
        Op::AbsPos(240),
        Op::Text("9.000\n".into()),
    ]);
    assert!(out.contains("style=\"left:0ch\">Item</span>"), "{}", out);
    assert!(out.contains("style=\"left:20ch\">9.000</span>"), "{}", out);
}

#[test]
fn an_unpositioned_line_is_justified_like_the_device_would() {
    let centered = body(&[Op::Justify(Align::Center), Op::Text("HI\n".into())]);
    assert!(centered.contains("left:23ch"), "{}", centered);

    let right = body(&[Op::Justify(Align::Right), Op::Text("END\n".into())]);
    assert!(right.contains("left:45ch"), "{}", right);
}

#[test]
fn html_centering_accounts_for_the_printed_width_of_magnified_text() {
    let out = body(&[
        Op::Justify(Align::Center),
        Op::Size { w: 2, h: 2 },
        Op::Text("HI\n".into()),
    ]);
    assert!(out.contains("left:22ch"), "{}", out);
    assert!(out.contains("transform:scale(2,2)"), "{}", out);
}

#[test]
fn a_magnified_line_reserves_the_height_it_prints_at() {
    let tall = body(&[Op::Size { w: 2, h: 2 }, Op::Text("BIG\n".into())]);
    assert!(
        tall.contains("style=\"height:calc(2 * var(--mdpos-lh))\""),
        "{}",
        tall
    );

    let wide = body(&[Op::Size { w: 2, h: 1 }, Op::Text("WIDE\n".into())]);
    assert!(!wide.contains("height:calc"), "{}", wide);
    assert!(wide.contains("transform:scale(2,1)"), "{}", wide);
}

#[test]
fn emphasis_and_underline_survive_into_the_markup() {
    let out = body(&[
        Op::Emphasis(true),
        Op::Text("TOTAL".into()),
        Op::Emphasis(false),
        Op::Underline(true),
        Op::Text(" x\n".into()),
        Op::Underline(false),
    ]);
    assert!(out.contains("class=\"mdpos-run mdpos-b\""), "{}", out);
    assert!(out.contains("class=\"mdpos-run mdpos-u\""), "{}", out);
}

#[test]
fn runs_on_one_line_advance_past_each_other() {
    let out = body(&[
        Op::Emphasis(true),
        Op::Text("AB".into()),
        Op::Emphasis(false),
        Op::Text("CD\n".into()),
    ]);
    assert!(out.contains("style=\"left:0ch\">AB</span>"), "{}", out);
    assert!(out.contains("style=\"left:2ch\">CD</span>"), "{}", out);
}

#[test]
fn html_wide_characters_count_as_two_cells() {
    let out = body(&[Op::Justify(Align::Right), Op::Text("日本\n".into())]);
    assert!(out.contains("left:44ch"), "{}", out);
}

#[test]
fn qr_is_square_at_its_true_footprint() {
    let out = body(&[Op::Qr {
        data: "HI".into(),
        module: 6,
    }]);
    assert!(out.contains("width:15ch"), "{}", out);
    assert!(!out.contains("height:"), "{}", out);
}

#[test]
fn a_centered_qr_is_offset_like_centered_text() {
    let out = body(&[
        Op::Justify(Align::Center),
        Op::Qr {
            data: "HI".into(),
            module: 6,
        },
    ]);
    assert!(out.contains("margin-left:16ch"), "{}", out);
}

#[test]
fn the_qr_payload_is_carried_for_a_host_to_draw() {
    let out = body(&[Op::Qr {
        data: "https://x.test/?a=1&b=2".into(),
        module: 6,
    }]);
    assert!(
        out.contains("data-mdpos-qr=\"https://x.test/?a=1&amp;b=2\""),
        "{}",
        out
    );
}

#[test]
fn markup_in_a_template_cannot_escape_into_the_page() {
    let out = body(&[Op::Text("<script>alert(1)</script>\n".into())]);
    assert!(!out.contains("<script>"), "{}", out);
    assert!(out.contains("&lt;script&gt;"), "{}", out);
}

#[test]
fn raw_reports_its_size_rather_than_inventing_a_picture() {
    let out = body(&[Op::Raw(vec![0u8; 128])]);
    assert!(out.contains("128 bytes"), "{}", out);
    assert!(out.contains("not rendered"), "{}", out);
}

#[test]
fn feeds_and_cuts_are_visible() {
    let out = body(&[Op::Feed(2), Op::Cut(CutKind::Partial)]);
    assert_eq!(out.matches("<div class=\"mdpos-line\"></div>").count(), 2);
    assert!(out.contains("partial cut"), "{}", out);

    let full = body(&[Op::Cut(CutKind::Full)]);
    assert!(full.contains("full cut"), "{}", full);
}

#[test]
fn the_paper_width_is_derived_from_the_profile() {
    let narrow = Profile {
        width_dots: 384,
        ..Profile::epson_80mm()
    };
    let out = emit(&[Op::Text("HI\n".into())], &narrow).unwrap();
    assert!(out.contains("--mdpos-cols:32"), "{}", out);

    let wide = emit(&[Op::Text("HI\n".into())], &Profile::epson_80mm()).unwrap();
    assert!(wide.contains("--mdpos-cols:48"), "{}", wide);
}

#[test]
fn the_fragment_carries_its_own_scoped_styles() {
    let out = emit(&[Op::Text("HI\n".into())], &Profile::epson_80mm()).unwrap();
    assert!(out.starts_with("<div class=\"mdpos\""), "{}", out);
    assert!(out.contains("<style>"), "{}", out);
    for rule in STYLE.split('}').filter(|r| r.contains('{')) {
        let selector = rule.split('{').next().unwrap();
        assert!(
            selector.split(',').all(|s| s.trim().starts_with(".mdpos")),
            "unscoped selector: {}",
            selector
        );
    }
}

#[test]
fn output_is_deterministic() {
    let ops = [
        Op::Justify(Align::Center),
        Op::Size { w: 2, h: 2 },
        Op::Text("TOKO\n".into()),
        Op::Size { w: 1, h: 1 },
        Op::AbsPos(0),
        Op::Text("a".into()),
        Op::AbsPos(240),
        Op::Text("b\n".into()),
        Op::Cut(CutKind::Partial),
    ];
    let p = Profile::epson_80mm();
    assert_eq!(emit(&ops, &p).unwrap(), emit(&ops, &p).unwrap());
}
