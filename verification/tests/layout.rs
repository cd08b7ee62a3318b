use tk_mdpos::ir::{Align, CutKind, Op};
use tk_mdpos::layout::{layout, FINAL_FEED};
use tk_mdpos::parse::parse;
use tk_mdpos::qr;
use tk_mdpos::{Error, Profile};

fn ops(src: &str) -> Vec<Op> {
    layout(&parse(src).unwrap(), &Profile::epson_80mm()).unwrap()
}

fn err(src: &str) -> Error {
    layout(&parse(src).unwrap(), &Profile::epson_80mm()).unwrap_err()
}

/// Ops with the closing feed and cut stripped, which every document otherwise carries.
fn body(src: &str) -> Vec<Op> {
    let mut v = ops(src);
    if matches!(v.last(), Some(Op::Cut(_))) {
        v.pop();
        if matches!(v.last(), Some(Op::Feed(_))) {
            v.pop();
        }
    }
    v
}

fn text(s: &str) -> Op {
    Op::Text(s.into())
}

#[test]
fn plain_text_leaves_justification_to_the_device() {
    assert_eq!(
        body("{center}\nTOKO MAJU"),
        vec![Op::Justify(Align::Center), text("TOKO MAJU\n")]
    );
}

#[test]
fn redundant_state_changes_are_not_emitted() {
    assert_eq!(body("{left}{size 1x1}\nA"), vec![text("A\n")]);
    assert_eq!(
        body("{center}\nA\n{center}\nB"),
        vec![Op::Justify(Align::Center), text("A\nB\n")]
    );
}

#[test]
fn columns_resolve_to_absolute_dot_positions() {
    let out = body("{cols 20,10:r,12:r}\nNasi Goreng | 2 x 25.000 | 50.000");
    assert_eq!(
        out,
        vec![
            Op::AbsPos(0),
            text("Nasi Goreng"),
            Op::AbsPos(240),
            text("2 x 25.000"),
            Op::AbsPos(432),
            text("50.000\n"),
        ]
    );
}

#[test]
fn magnification_scales_both_the_grid_and_the_positions() {
    let out = body("{size 2x2}{cols 10,10:r}\nA | B");
    assert_eq!(
        out,
        vec![
            Op::Size { w: 2, h: 2 },
            Op::AbsPos(0),
            text("A"),
            Op::AbsPos(19 * 24),
            text("B\n"),
        ]
    );
}

#[test]
fn magnification_shrinks_the_rule_to_the_current_grid() {
    assert_eq!(body("---"), vec![text(&format!("{}\n", "-".repeat(48)))]);
    assert_eq!(
        body("{size 2x2}\n---"),
        vec![
            Op::Size { w: 2, h: 2 },
            text(&format!("{}\n", "-".repeat(24)))
        ]
    );
}

#[test]
fn columns_wider_than_the_magnified_paper_are_rejected() {
    assert!(layout(&parse("{cols 20,10:r,12:r}\na|b|c").unwrap(), &Profile::epson_80mm()).is_ok());

    assert_eq!(
        err("{size 2x2}{cols 20,10:r,12:r}\na|b|c"),
        Error::ColumnsTooWide {
            line: 2,
            requested: 42,
            available: 24,
        }
    );
}

#[test]
fn left_columns_wrap_with_a_hanging_indent() {
    let out = body("{cols 10,10:r}\nNasi Goreng Spesial | 50.000");
    assert_eq!(
        out,
        vec![
            Op::AbsPos(0),
            text("Nasi"),
            Op::AbsPos((10 + 10 - 6) * 12),
            text("50.000\n"),
            Op::AbsPos(0),
            text("Goreng\n"),
            Op::AbsPos(0),
            text("Spesial\n"),
        ]
    );
}

#[test]
fn right_columns_refuse_to_wrap() {
    let e = err("{cols 20,6:r}\nItem | 1.250.000");
    assert_eq!(
        e,
        Error::RightColumnOverflow {
            line: 2,
            column: 2,
            width: 6,
            content: "1.250.000".into(),
        }
    );
}

#[test]
fn centered_columns_wrap_rather_than_erroring() {
    let out = body("{cols 6:c,10}\nabc def | x");
    assert_eq!(
        out,
        vec![
            Op::AbsPos(12),
            text("abc"),
            Op::AbsPos(6 * 12),
            text("x\n"),
            Op::AbsPos(12),
            text("def\n"),
        ]
    );
}

#[test]
fn wide_characters_are_measured_in_cells_not_chars() {
    let out = body("{cols 10:r}\n日本");
    assert_eq!(out, vec![Op::AbsPos(6 * 12), text("日本\n")]);
}

#[test]
fn a_word_longer_than_its_column_is_split_rather_than_overrun() {
    let out = body("{cols 4}\nabcdefghij");
    assert_eq!(
        out,
        vec![
            Op::AbsPos(0),
            text("abcd\n"),
            Op::AbsPos(0),
            text("efgh\n"),
            Op::AbsPos(0),
            text("ij\n"),
        ]
    );
}

#[test]
fn inline_attributes_toggle_around_their_run() {
    assert_eq!(
        body("**TOTAL** now"),
        vec![
            Op::Emphasis(true),
            text("TOTAL"),
            Op::Emphasis(false),
            text(" now\n"),
        ]
    );
}

#[test]
fn documents_end_self_contained() {
    let out = ops("**loud");
    assert_eq!(
        out,
        vec![
            Op::Emphasis(true),
            text("loud\n"),
            Op::Emphasis(false),
            Op::Feed(FINAL_FEED),
            Op::Cut(CutKind::Partial),
        ]
    );
}

#[test]
fn a_bold_ending_does_not_cause_a_second_cut() {
    assert_eq!(
        ops("**TOTAL**\n{cut}"),
        vec![
            Op::Emphasis(true),
            text("TOTAL\n"),
            Op::Emphasis(false),
            Op::Cut(CutKind::Partial),
        ]
    );
}

#[test]
fn an_explicit_cut_is_not_doubled() {
    let out = ops("A\n{feed 2}\n{cut}");
    assert_eq!(
        out,
        vec![text("A\n"), Op::Feed(2), Op::Cut(CutKind::Partial)]
    );
}

#[test]
fn raw_passes_through_layout_untouched() {
    assert_eq!(body("{raw 1D564100}"), vec![Op::Raw(vec![0x1D, 0x56, 0x41, 0x00])]);
}

#[test]
fn the_same_template_renders_at_two_paper_widths() {
    let src = "{cols 12,8:r}\nItem | 1.000";
    let ast = parse(src).unwrap();

    let wide = layout(&ast, &Profile::epson_80mm()).unwrap();
    let narrow = layout(
        &ast,
        &Profile {
            width_dots: 384,
            ..Profile::epson_80mm()
        },
    )
    .unwrap();
    assert_eq!(wide, narrow);

    let ast = parse("{cols 30,10:r}\nItem | 1.000").unwrap();
    assert!(layout(&ast, &Profile::epson_80mm()).is_ok());
    assert!(matches!(
        layout(
            &ast,
            &Profile {
                width_dots: 384,
                ..Profile::epson_80mm()
            }
        ),
        Err(Error::ColumnsTooWide { .. })
    ));
}

#[test]
fn qr_uses_the_default_module_and_current_justification() {
    assert_eq!(
        body("{center}\n{qr https://terrakernel.com}"),
        vec![
            Op::Justify(Align::Center),
            Op::Qr {
                data: "https://terrakernel.com".into(),
                module: qr::DEFAULT_MODULE,
            }
        ]
    );
}

#[test]
fn qrmod_is_sticky_across_symbols() {
    let ops = body("{qrmod 4}\n{qr ONE}\n{qr TWO}");
    assert_eq!(
        ops,
        vec![
            Op::Qr {
                data: "ONE".into(),
                module: 4
            },
            Op::Qr {
                data: "TWO".into(),
                module: 4
            },
        ]
    );
}

#[test]
fn a_qr_too_wide_for_the_paper_is_rejected() {
    let payload = "A".repeat(210);
    let e = err(&format!("{{qrmod 9}}\n{{qr {payload}}}"));
    assert!(
        matches!(
            e,
            Error::QrTooWide {
                line: 2,
                module: 9,
                needed_dots: 585,
                available_dots: 576,
            }
        ),
        "{:?}",
        e
    );

    assert!(ops(&format!("{{qrmod 8}}\n{{qr {payload}}}"))
        .iter()
        .any(|op| matches!(op, Op::Qr { .. })));
}

#[test]
fn a_payload_past_version_40_is_rejected() {
    let e = err(&format!("{{qr {}}}", "A".repeat(2400)));
    assert!(
        matches!(
            e,
            Error::QrTooLong {
                line: 1,
                bytes: 2400,
                ..
            }
        ),
        "{:?}",
        e
    );
}

#[test]
fn qr_is_measured_in_utf8_bytes_not_characters() {
    let ast = parse("{qrmod 16}\n{qr 日本語}").unwrap();
    let ops = layout(&ast, &Profile::epson_80mm()).unwrap();
    let Some(Op::Qr { data, .. }) = ops.iter().find(|o| matches!(o, Op::Qr { .. })) else {
        panic!("expected a QR op");
    };
    assert_eq!(data.len(), 9);
    assert_eq!(data.chars().count(), 3);
}

#[test]
fn qr_size_is_independent_of_magnification() {
    let plain = body("{qr HELLO}");
    let doubled: Vec<Op> = body("{size 2x2}\n{qr HELLO}")
        .into_iter()
        .filter(|op| !matches!(op, Op::Size { .. }))
        .collect();
    assert_eq!(plain, doubled);
}

#[test]
fn a_row_too_wide_is_refused_before_any_cell_is_looked_at() {
    assert_eq!(
        err("{cols 40,10:r}\nItem | far too wide for ten"),
        Error::ColumnsTooWide { line: 2, requested: 50, available: 48 }
    );
}

#[test]
fn the_leftmost_overflowing_right_column_is_named() {
    assert_eq!(
        err("{cols 10,6:r,6:r}\nItem | 1234567 | 7654321"),
        Error::RightColumnOverflow {
            line: 2,
            column: 2,
            width: 6,
            content: "1234567".into()
        }
    );
}

#[test]
fn a_row_writes_one_line_break_per_physical_line() {
    let out = body("{cols 6,10:r}\nabc def ghi | x");
    let breaks: usize = out
        .iter()
        .map(|op| match op {
            Op::Text(s) => s.matches('\n').count(),
            _ => 0,
        })
        .sum();
    assert_eq!(breaks, 3);
    let positions: Vec<u16> = out
        .iter()
        .filter_map(|op| match op {
            Op::AbsPos(d) => Some(*d),
            _ => None,
        })
        .collect();
    // Epson 80 mm, font A: 12 dots a cell; "x" is right-aligned in a 10-cell column at 6.
    assert_eq!(positions, vec![0, (6 + 9) * 12, 0, 0]);
}
