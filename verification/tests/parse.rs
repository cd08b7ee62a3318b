use tk_mdpos::ir::Align;
use tk_mdpos::parse::{parse, Block, Cell, ColSpec, Span};
use tk_mdpos::Error;

fn blocks(src: &str) -> Vec<Block> {
    parse(src).unwrap().into_iter().map(|n| n.block).collect()
}

fn plain(text: &str) -> Block {
    Block::Line(vec![Cell {
        spans: vec![Span {
            text: text.into(),
            bold: false,
            underline: false,
        }],
    }])
}

fn cell(text: &str) -> Cell {
    Cell {
        spans: vec![Span {
            text: text.into(),
            bold: false,
            underline: false,
        }],
    }
}

#[test]
fn directives_may_prefix_content() {
    assert_eq!(
        blocks("{size 2x2}TOKO MAJU"),
        vec![Block::Size { w: 2, h: 2 }, plain("TOKO MAJU")]
    );
    assert_eq!(
        blocks("{center}{size 2x2}HI"),
        vec![
            Block::Justify(Align::Center),
            Block::Size { w: 2, h: 2 },
            plain("HI")
        ]
    );
}

#[test]
fn directive_only_line_yields_no_content() {
    assert_eq!(blocks("{feed 4}"), vec![Block::Feed(4)]);
    assert_eq!(blocks("{cut}"), vec![Block::Cut]);
}

#[test]
fn blank_lines_are_distinct_from_empty_rows() {
    assert_eq!(blocks("A\n\nB"), vec![plain("A"), Block::Blank, plain("B")]);
}

#[test]
fn rule_needs_three_dashes() {
    assert_eq!(blocks("---"), vec![Block::Rule]);
    assert_eq!(blocks("-----"), vec![Block::Rule]);
    assert_eq!(blocks("--"), vec![plain("--")]);
}

#[test]
fn columns_parse_widths_and_alignment() {
    assert_eq!(
        blocks("{cols 20,10:r,12:c}"),
        vec![Block::Cols(vec![
            ColSpec {
                width_chars: 20,
                align: Align::Left
            },
            ColSpec {
                width_chars: 10,
                align: Align::Right
            },
            ColSpec {
                width_chars: 12,
                align: Align::Center
            },
        ])]
    );
}

#[test]
fn pipes_split_only_while_cols_is_active() {
    assert_eq!(blocks("a | b"), vec![plain("a | b")]);

    let out = blocks("{cols 10,10:r}\na | b");
    assert_eq!(out.len(), 2);
    assert_eq!(out[1], Block::Line(vec![cell("a"), cell("b")]));
}

#[test]
fn cols_end_restores_literal_pipes() {
    let out = blocks("{cols 10,10}\na|b\n{/cols}\nc|d");
    assert_eq!(out[3], plain("c|d"));
}

#[test]
fn cells_are_trimmed_so_padding_is_never_load_bearing() {
    let out = blocks("{cols 20,10:r,12:r}\nNasi Goreng    | 2 x 25.000 | 50.000");
    assert_eq!(
        out[1],
        Block::Line(vec![cell("Nasi Goreng"), cell("2 x 25.000"), cell("50.000")])
    );
}

#[test]
fn wrong_cell_count_is_an_error_with_a_line_number() {
    let err = parse("{cols 10,10}\na|b|c").unwrap_err();
    assert_eq!(
        err,
        Error::ColumnCountMismatch {
            line: 2,
            expected: 2,
            found: 3
        }
    );
}

#[test]
fn escaped_pipe_stays_in_the_cell() {
    let out = blocks("{cols 20,10}\na \\| b | c");
    assert_eq!(out[1], Block::Line(vec![cell("a | b"), cell("c")]));
}

#[test]
fn inline_markup_produces_attributed_runs() {
    let out = blocks("**TOTAL** now");
    assert_eq!(
        out[0],
        Block::Line(vec![Cell {
            spans: vec![
                Span {
                    text: "TOTAL".into(),
                    bold: true,
                    underline: false
                },
                Span {
                    text: " now".into(),
                    bold: false,
                    underline: false
                },
            ]
        }])
    );
}

#[test]
fn underline_and_bold_nest() {
    let out = blocks("**__both__**");
    assert_eq!(
        out[0],
        Block::Line(vec![Cell {
            spans: vec![Span {
                text: "both".into(),
                bold: true,
                underline: true
            }]
        }])
    );
}

#[test]
fn attributes_do_not_leak_across_cells() {
    let out = blocks("{cols 10,10}\n**loud | quiet");
    assert_eq!(
        out[1],
        Block::Line(vec![
            Cell {
                spans: vec![Span {
                    text: "loud".into(),
                    bold: true,
                    underline: false
                }]
            },
            cell("quiet"),
        ])
    );
}

#[test]
fn single_asterisk_is_literal() {
    assert_eq!(blocks("2 * 3"), vec![plain("2 * 3")]);
    assert_eq!(blocks("\\*\\*not bold\\*\\*"), vec![plain("**not bold**")]);
}

#[test]
fn backslash_space_survives_the_trim() {
    assert_eq!(blocks("\\ indented"), vec![plain(" indented")]);
    assert_eq!(blocks("\\ \\ deeper"), vec![plain("  deeper")]);
}

#[test]
fn raw_accepts_spaced_and_packed_hex() {
    assert_eq!(
        blocks("{raw 1D564200}"),
        vec![Block::Raw(vec![0x1D, 0x56, 0x42, 0x00])]
    );
    assert_eq!(
        blocks("{raw 1D 56 42 00}"),
        vec![Block::Raw(vec![0x1D, 0x56, 0x42, 0x00])]
    );
}

#[test]
fn raw_refuses_a_signed_pair() {
    assert!(matches!(
        parse("{raw +1}").unwrap_err(),
        Error::BadHex { line: 1, .. }
    ));
    assert!(matches!(
        parse("{raw +A+B}").unwrap_err(),
        Error::BadHex { line: 1, .. }
    ));
    assert!(matches!(
        parse("ok\n{raw 1D +5}").unwrap_err(),
        Error::BadHex { line: 2, .. }
    ));
}

#[test]
fn size_and_qrmod_edges() {
    assert_eq!(
        parse("{size 1x9}").unwrap_err(),
        Error::SizeOutOfRange { line: 1, w: 1, h: 9 }
    );
    assert_eq!(blocks("{size 8X8}"), vec![Block::Size { w: 8, h: 8 }]);
    assert_eq!(blocks("{qrmod 16}"), vec![Block::QrModule(16)]);
    assert!(matches!(
        parse("{qrmod 17}").unwrap_err(),
        Error::BadDirective { line: 1, .. }
    ));
    assert!(matches!(
        parse("{qrmod 0}").unwrap_err(),
        Error::BadDirective { line: 1, .. }
    ));
}

#[test]
fn version_must_lead_and_must_be_supported() {
    assert_eq!(blocks("{v 1}"), vec![Block::Version(1)]);

    let err = parse("{v 2}").unwrap_err();
    assert_eq!(
        err,
        Error::UnsupportedVersion {
            line: 1,
            requested: 2
        }
    );

    let err = parse("hello\n{v 1}").unwrap_err();
    assert!(matches!(err, Error::BadDirective { line: 2, .. }));
}

#[test]
fn bom_does_not_hide_the_version_marker() {
    assert_eq!(blocks("\u{feff}{v 1}"), vec![Block::Version(1)]);
}

#[test]
fn size_is_range_checked() {
    assert_eq!(
        parse("{size 9x1}").unwrap_err(),
        Error::SizeOutOfRange { line: 1, w: 9, h: 1 }
    );
    assert!(matches!(
        parse("{size 2}").unwrap_err(),
        Error::BadDirective { .. }
    ));
}

#[test]
fn errors_carry_the_source_line() {
    let err = parse("{center}\nok\n{nope}").unwrap_err();
    assert_eq!(
        err,
        Error::UnknownDirective {
            line: 3,
            name: "nope".into()
        }
    );

    let err = parse("{center\n").unwrap_err();
    assert!(matches!(err, Error::BadDirective { line: 1, .. }));

    assert!(matches!(
        parse("{raw 1D5}").unwrap_err(),
        Error::BadHex { line: 1, .. }
    ));
    assert!(matches!(
        parse("{raw ZZ}").unwrap_err(),
        Error::BadHex { line: 1, .. }
    ));
}

#[test]
fn the_readme_template_parses() {
    let src = "\
{v 1}
{center}
{size 2x2}TOKO MAJU
{size 1x1}Jl. Sudirman 42
---
{left}
{cols 20,10:r,12:r}
Nasi Goreng    | 2 x 25.000 | 50.000
Es Teh Manis   | 3 x  5.000 | 15.000
---
{cols 22,20:r}
**TOTAL**      | **65.000**
{feed 4}
{cut}
";
    let nodes = parse(src).unwrap();
    assert!(matches!(nodes.first().map(|n| &n.block), Some(Block::Version(1))));
    assert!(matches!(nodes.last().map(|n| &n.block), Some(Block::Cut)));
    let rows = nodes
        .iter()
        .filter(|n| matches!(n.block, Block::Line(_)))
        .count();
    assert_eq!(rows, 5);
}

#[test]
fn qr_payload_keeps_its_internal_spaces() {
    assert_eq!(
        blocks("{qr 5910TOKO MAJU6013Jakarta Pusat}"),
        vec![Block::Qr("5910TOKO MAJU6013Jakarta Pusat".into())]
    );
}

#[test]
fn qr_payload_may_contain_an_escaped_brace() {
    assert_eq!(
        blocks(r#"{qr {\"amount\":5000\}}"#),
        vec![Block::Qr(r#"{"amount":5000}"#.into())]
    );
}

#[test]
fn qr_without_data_is_rejected() {
    let err = parse("{qr}").unwrap_err();
    assert!(matches!(err, Error::BadDirective { line: 1, .. }), "{:?}", err);
}

#[test]
fn qrmod_is_range_checked() {
    assert_eq!(blocks("{qrmod 6}"), vec![Block::QrModule(6)]);
    assert_eq!(blocks("{qrmod 16}"), vec![Block::QrModule(16)]);

    for bad in ["{qrmod 0}", "{qrmod 17}", "{qrmod x}"] {
        assert!(parse(bad).is_err(), "{} should not parse", bad);
    }
}

#[test]
fn a_directive_may_still_be_unterminated() {
    let err = parse("{qr no closing brace").unwrap_err();
    assert!(matches!(err, Error::BadDirective { line: 1, .. }), "{:?}", err);
}

fn escape_value(s: &str) -> String {
    let mut out = String::new();
    for c in s.chars() {
        if matches!(c, '\\' | '|' | '*' | '_' | '{') {
            out.push('\\');
        }
        out.push(c);
    }
    out
}

#[test]
fn escaped_values_print_as_written() {
    for v in ["Nasi Goreng | Spesial", "**PROMO** Ayam", "Kopi_Susu__Gula", "{cut} Es Teh", "a\\b"] {
        assert_eq!(blocks(&escape_value(v)), vec![plain(v)], "{}", v);
    }
    assert_eq!(escape_value("Nasi Goreng | Spesial"), "Nasi Goreng \\| Spesial");
}

#[test]
fn an_escaped_value_stays_one_cell_of_a_row() {
    let src = format!("{{cols 24,10:r}}\n{} | 50.000", escape_value("Nasi | Goreng"));
    assert_eq!(
        blocks(&src)[1],
        Block::Line(vec![cell("Nasi | Goreng"), cell("50.000")])
    );
}

#[test]
fn a_row_has_one_cell_more_than_unescaped_pipes() {
    assert_eq!(
        parse("{cols 5,5}\na | b \\| c | d").unwrap_err(),
        Error::ColumnCountMismatch { line: 2, expected: 2, found: 3 }
    );
    assert_eq!(
        blocks("{cols 5,5}\na\\\\|b")[1],
        Block::Line(vec![cell("a\\"), cell("b")])
    );
    assert_eq!(
        blocks("{cols 5,5}\na\\\\\\|b | c")[1],
        Block::Line(vec![cell("a\\|b"), cell("c")])
    );
}

#[test]
fn whitespace_at_the_ends_of_template_lines_changes_nothing() {
    assert_eq!(
        parse("  {center}  \r\n\t HI \n   \n{cols 10,6:r}\n  a | b  ").unwrap(),
        parse("{center}\nHI\n\n{cols 10,6:r}\na | b").unwrap()
    );
    assert_eq!(
        parse("{cols 20,10:r}\nNasi Goreng    | 50.000").unwrap(),
        parse("{cols 20,10:r}\nNasi Goreng|50.000").unwrap()
    );
}

#[test]
fn a_row_of_escaped_values_has_one_cell_per_value() {
    let vals = ["Nasi Goreng | Spesial", "**2**", "", "{cut}"];
    let row: Vec<String> = vals.iter().map(|v| escape_value(v)).collect();
    let src = format!("{{cols 10,10,10,10}}\n{}", row.join(" | "));
    let cells: Vec<Cell> = vals
        .iter()
        .map(|v| if v.is_empty() { Cell { spans: vec![] } } else { cell(v) })
        .collect();
    assert_eq!(blocks(&src)[1], Block::Line(cells));
}
