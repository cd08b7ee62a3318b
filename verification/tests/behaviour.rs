//! Checks on concrete values of what the library promises as a whole.

use tk_mdpos::emit::{escpos, html, preview as monospace};
use tk_mdpos::ffi::{mdpos_format_version, mdpos_outcome, mdpos_profile_epson_80mm, nul_terminated, Backend};
use tk_mdpos::ir::{Align, CutKind, Op};
use tk_mdpos::page::{clock, render_output, watch_render, Output};
use tk_mdpos::parse::parse;
use tk_mdpos::{preview, preview_html, render, to_ops, Error, Profile};

fn p80() -> Profile {
    Profile::epson_80mm()
}

fn message_of(src: &str) -> String {
    render(src, &p80()).unwrap_err().message()
}

// --- the stream every layout produces --------------------------------------------

#[test]
fn every_stream_ends_with_a_partial_cut_and_attributes_off() {
    for src in ["**loud", "__under", "**TOTAL**\n{cut}", "A\n{feed 2}\n{cut}", "{cut}\nA", ""] {
        let ops = to_ops(src, &p80()).unwrap();
        assert_eq!(ops.last(), Some(&Op::Cut(CutKind::Partial)), "{}", src);
        let mut bold = false;
        let mut underline = false;
        for op in &ops {
            match op {
                Op::Emphasis(b) => bold = *b,
                Op::Underline(b) => underline = *b,
                _ => {}
            }
        }
        assert!(!bold && !underline, "{}", src);
    }
}

#[test]
fn no_state_change_repeats_what_the_device_already_has() {
    let ops = to_ops(
        "{center}\nA\n{center}\nB\n{size 2x2}\nC\n{size 2x2}\nD\n**E** **F**\n{cols 10,10:r}\nx | y",
        &p80(),
    )
    .unwrap();
    let mut justify = Align::Left;
    let mut size = (1u8, 1u8);
    let mut bold = false;
    for op in &ops {
        match op {
            Op::Justify(a) => {
                assert_ne!(*a, justify);
                justify = *a;
            }
            Op::Size { w, h } => {
                assert_ne!((*w, *h), size);
                size = (*w, *h);
            }
            Op::Emphasis(b) => {
                assert_ne!(*b, bold);
                bold = *b;
            }
            Op::AbsPos(_) => assert_eq!(justify, Align::Left),
            _ => {}
        }
    }
    for pair in ops.windows(2) {
        assert!(!(matches!(pair[0], Op::Text(_)) && matches!(pair[1], Op::Text(_))));
    }
}

#[test]
fn a_cut_is_added_only_when_the_template_does_not_end_with_one() {
    let cuts = |src: &str| {
        to_ops(src, &p80())
            .unwrap()
            .iter()
            .filter(|op| matches!(op, Op::Cut(_)))
            .count()
    };
    assert_eq!(cuts("A"), 1);
    assert_eq!(cuts("A\n{cut}"), 1);
    assert_eq!(cuts("{cut}\nA"), 2);
    assert_eq!(cuts("A\n{cut}\nB\n{cut}"), 2);
}

#[test]
fn every_position_and_symbol_fits_the_paper() {
    let narrow = Profile {
        width_dots: 384,
        ..p80()
    };
    for (src, p) in [
        ("{size 2x2}{cols 10,14:r}\nA | B", p80()),
        ("{cols 20,12:c}\nlong words wrapping here | x", narrow.clone()),
        ("{qrmod 8}\n{qr HELLO}", narrow),
    ] {
        for op in to_ops(src, &p).unwrap() {
            match op {
                Op::AbsPos(d) => assert!(d <= p.width_dots, "{}", src),
                Op::Qr { data, module } => {
                    let dots = tk_mdpos::qr::footprint_dots(data.len(), module).unwrap();
                    assert!(dots <= p.width_dots, "{}", src);
                }
                _ => {}
            }
        }
    }
}

#[test]
fn raw_bytes_take_the_current_justification() {
    let ops = to_ops("{center}\n{raw 1D 76}", &p80()).unwrap();
    assert_eq!(ops[0], Op::Justify(Align::Center));
    assert_eq!(ops[1], Op::Raw(vec![0x1D, 0x76]));
}

#[test]
fn wrapped_lines_fit_their_column_and_keep_every_word() {
    let ops = to_ops("{cols 8}\nalpha beta gamma delta epsilonzeta", &p80()).unwrap();
    let mut words = String::new();
    for op in &ops {
        if let Op::Text(t) = op {
            for line in t.split('\n') {
                assert!(line.chars().count() <= 8, "{:?}", line);
                assert!(!line.ends_with(' '), "{:?}", line);
                words.push_str(&line.replace(' ', ""));
            }
        }
    }
    assert_eq!(words, "alphabetagammadeltaepsilonzeta");
}

// --- the backends ------------------------------------------------------------------

#[test]
fn every_backend_reports_a_layout_failure_the_same_way() {
    let src = "{cols 20,6:r}\nItem | 1.250.000";
    let e = to_ops(src, &p80()).unwrap_err();
    assert_eq!(render(src, &p80()).unwrap_err(), e);
    assert_eq!(preview(src, &p80()).unwrap_err(), e);
    assert_eq!(preview_html(src, &p80()).unwrap_err(), e);
}

#[test]
fn only_the_bytes_refuse_text_outside_the_code_page() {
    let src = "café";
    assert_eq!(render(src, &p80()).unwrap_err(), Error::Unrepresentable { ch: 'é' });
    assert_eq!(
        preview(src, &p80()).unwrap(),
        format!("café\n\n\n\n\n{}\n", "-".repeat(48))
    );
    assert!(preview_html(src, &p80()).unwrap().contains(">café</span>"));
}

#[test]
fn a_rendered_document_is_self_contained() {
    let bytes = render("**TOTAL**", &p80()).unwrap();
    assert_eq!(&bytes[..8], &[0x1B, 0x40, 0x1B, 0x4D, 0x00, 0x1B, 0x74, 0x00]);
    assert_eq!(&bytes[bytes.len() - 4..], &[0x1D, 0x56, 0x42, 0x00]);

    let no_partial = Profile {
        supports_partial_cut: false,
        ..p80()
    };
    let bytes = render("A", &no_partial).unwrap();
    assert_eq!(&bytes[bytes.len() - 3..], &[0x1D, 0x56, 0x00]);
}

#[test]
fn font_b_is_selected_in_the_frame() {
    let p = Profile {
        font: tk_mdpos::Font::B,
        ..p80()
    };
    let bytes = escpos::emit(&[], &p).unwrap();
    assert_eq!(bytes, vec![0x1B, 0x40, 0x1B, 0x4D, 0x01, 0x1B, 0x74, 0x00]);
}

#[test]
fn escpos_encodes_each_state_op() {
    let bytes = escpos::emit(
        &[
            Op::Emphasis(true),
            Op::Underline(false),
            Op::Justify(Align::Right),
            Op::Feed(3),
            Op::Cut(CutKind::Full),
            Op::Size { w: 8, h: 8 },
            Op::Text("A\n".into()),
        ],
        &p80(),
    )
    .unwrap();
    assert_eq!(
        &bytes[8..],
        &[
            0x1B, 0x45, 1, 0x1B, 0x2D, 0, 0x1B, 0x61, 2, 0x1B, 0x64, 3, 0x1D, 0x56, 0x00, 0x1D,
            0x21, 0x77, b'A', 0x0A
        ]
    );
}

#[test]
fn the_monospace_preview_draws_feeds_cuts_raw_and_qr() {
    let out = monospace::emit(
        &[
            Op::Text("A".into()),
            Op::Feed(2),
            Op::Raw(vec![1, 2, 3, 4]),
            Op::Cut(CutKind::Full),
        ],
        &p80(),
    )
    .unwrap();
    assert_eq!(out, format!("A\n\n\n<raw 4 bytes>\n{}\n", "=".repeat(48)));

    let qr = monospace::emit(
        &[
            Op::Justify(Align::Center),
            Op::Qr {
                data: "HI".into(),
                module: 6,
            },
        ],
        &p80(),
    )
    .unwrap();
    let lead = " ".repeat(16);
    let edge = format!("{}+{}+\n", lead, "-".repeat(13));
    assert_eq!(qr, format!("{}{}|     QR      |\n{}", edge, lead, edge));
}

#[test]
fn a_blank_line_is_still_a_line_and_no_phantom_line_is_added() {
    let out = monospace::emit(&[Op::Text("A\n\nB".into())], &p80()).unwrap();
    assert_eq!(out, "A\n\nB\n");
    let out = monospace::emit(&[Op::Text("A\n".into()), Op::Cut(CutKind::Partial)], &p80()).unwrap();
    assert_eq!(out, format!("A\n{}\n", "-".repeat(48)));
}

#[test]
fn the_two_previews_agree_about_where_a_column_starts() {
    let ops = to_ops("{cols 20,10:r}\nItem | 9.000", &p80()).unwrap();
    let text = monospace::emit(&ops, &p80()).unwrap();
    let page = html::emit(&ops, &p80()).unwrap();
    let col = text.find("9.000").unwrap();
    assert!(page.contains(&format!("left:{}ch\">9.000</span>", col)), "{}", page);
}

#[test]
fn html_escapes_apostrophes_and_quotes_in_text() {
    let out = html::emit(&[Op::Text("it's \"x\"\n".into())], &p80()).unwrap();
    assert!(out.contains("it&#39;s &quot;x&quot;"), "{}", out);
}

// --- errors --------------------------------------------------------------------------

#[test]
fn every_error_reads_as_a_message_with_its_line() {
    assert_eq!(message_of("{center}\nok\n{nope}"), "line 3: unknown directive `{nope}`");
    assert!(message_of("{size 2}").starts_with("line 1: bad `{size}` directive: "));
    assert_eq!(
        message_of("{v 2}"),
        "line 1: template format version 2 is newer than this build supports"
    );
    assert_eq!(
        message_of("{size 9x1}"),
        "line 1: size 9x1 outside the supported range 1..=8"
    );
    assert_eq!(
        message_of("{cols 10,10}\na|b|c"),
        "line 2: active {cols} spec has 2 columns but the row has 3"
    );
    assert_eq!(
        message_of("{size 2x2}{cols 20,10:r,12:r}\na|b|c"),
        "line 2: columns total 42 chars but only 24 fit at the current size"
    );
    assert_eq!(
        message_of("{cols 20,6:r}\nItem | \"1.250.000\""),
        "line 2: \"\\\"1.250.000\\\"\" overflows right-aligned column 2 (width 6); right-aligned columns never wrap"
    );
    assert!(message_of("{raw ZZ}").starts_with("line 1: bad `{raw}` payload: "));
    assert_eq!(
        message_of(&format!("{{qrmod 9}}\n{{qr {}}}", "A".repeat(210))),
        "line 2: QR symbol needs 585 dots at module size 9 but only 576 are available; reduce `{qrmod}` or shorten the payload"
    );
    assert_eq!(
        message_of(&format!("{{qr {}}}", "A".repeat(2400))),
        "line 1: QR payload is 2400 bytes, over the 2331-byte ceiling for a version-40 symbol"
    );
    assert_eq!(
        message_of("café"),
        "character 'é' has no encoding in the target code page"
    );
}

#[test]
fn blocks_keep_their_source_lines_in_order() {
    let nodes = parse("{center}\nA\n\n{size 2x2}B\n{cut}").unwrap();
    let lines: Vec<usize> = nodes.iter().map(|n| n.line).collect();
    assert_eq!(lines, vec![1, 2, 3, 4, 4, 5]);
    let e = to_ops("A\n{cols 10}\nB\n{cols 60}\nC", &p80()).unwrap_err();
    assert_eq!(e, Error::ColumnsTooWide { line: 5, requested: 60, available: 48 });
}

#[test]
fn hex_payload_errors_name_the_problem() {
    assert!(matches!(parse("{raw}"), Err(Error::BadDirective { .. }) | Err(Error::BadHex { .. })));
    assert!(matches!(parse("{raw 1D5}"), Err(Error::BadHex { line: 1, .. })));
    assert!(matches!(parse("{raw é}"), Err(Error::BadHex { line: 1, .. })));
}

#[test]
fn a_raw_payload_that_would_split_a_character_is_bad_hex() {
    assert_eq!(
        parse("{raw a\u{e9}b}").unwrap_err(),
        Error::BadHex { line: 1, detail: "`a\u{e9}` is not a hex byte".into() }
    );
    assert_eq!(
        parse("{raw \u{20ac}1}").unwrap_err(),
        Error::BadHex { line: 1, detail: "`\u{20ac}` is not a hex byte".into() }
    );
    let p = mdpos_profile_epson_80mm();
    let out = mdpos_outcome(Some("{raw a\u{e9}b}".as_bytes()), Some(&p), Backend::Bytes);
    assert_eq!(out.code, tk_mdpos::ffi::MDPOS_ERR_TEMPLATE);
    assert!(!out.bytes.is_empty());
}

// --- the host-facing pieces ----------------------------------------------------------

#[test]
fn buffers_are_terminated_outside_their_length() {
    let (v, len) = nul_terminated(vec![0x1B, 0x40, 0x00]);
    assert_eq!(len, 3);
    assert_eq!(v, vec![0x1B, 0x40, 0x00, 0x00]);
    assert_eq!(mdpos_format_version(), 1);
}

#[test]
fn the_clock_formats_the_time_of_day() {
    assert_eq!(clock(0), "00:00:00");
    assert_eq!(clock(3661), "01:01:01");
    assert_eq!(clock(86399), "23:59:59");
    assert_eq!(clock(86400 + 45296), "12:34:56");
}

#[test]
fn each_output_writes_its_backend() {
    let src = "{center}\nHI";
    assert_eq!(render_output(src, Output::Bytes, &p80()).unwrap(), render(src, &p80()).unwrap());
    assert_eq!(
        render_output(src, Output::Preview, &p80()).unwrap(),
        preview(src, &p80()).unwrap().into_bytes()
    );
    assert_eq!(
        render_output(src, Output::Html, &p80()).unwrap(),
        preview_html(src, &p80()).unwrap().into_bytes()
    );
}

#[test]
fn the_watch_loop_shows_a_page_or_the_message() {
    let page = watch_render("HI", Output::Html, "r.tmpl", &p80()).unwrap();
    assert!(page.starts_with("<!doctype html>"));
    assert!(page.contains(&preview_html("HI", &p80()).unwrap()));
    assert_eq!(
        watch_render("HI", Output::Preview, "r.tmpl", &p80()).unwrap(),
        preview("HI", &p80()).unwrap()
    );
    assert_eq!(
        watch_render("{nope}", Output::Preview, "r.tmpl", &p80()).unwrap_err(),
        "line 1: unknown directive `{nope}`"
    );
}
