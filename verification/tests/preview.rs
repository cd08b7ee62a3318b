use tk_mdpos::emit::preview::emit;
use tk_mdpos::ir::{Align, Op};
use tk_mdpos::Profile;

#[test]
fn abspos_pads_to_the_character_column() {
    let p = Profile::epson_80mm();
    let ops = vec![
        Op::Text("AB".into()),
        Op::AbsPos(120),
        Op::Text("C\n".into()),
    ];
    assert_eq!(emit(&ops, &p).unwrap(), "AB        C\n");
}

#[test]
fn preview_centering_accounts_for_the_printed_width_of_magnified_text() {
    let p = Profile::epson_80mm();

    let normal = emit(&[Op::Justify(Align::Center), Op::Text("HI\n".into())], &p).unwrap();
    assert_eq!(normal, format!("{}HI\n", " ".repeat(23)));

    let doubled = emit(
        &[
            Op::Justify(Align::Center),
            Op::Size { w: 2, h: 2 },
            Op::Text("HI\n".into()),
        ],
        &p,
    )
    .unwrap();
    assert_eq!(doubled, format!("{}HI\n", " ".repeat(22)));
}

#[test]
fn right_align_pads_to_the_margin() {
    let p = Profile::epson_80mm();
    let out = emit(&[Op::Justify(Align::Right), Op::Text("END\n".into())], &p).unwrap();
    assert_eq!(out, format!("{}END\n", " ".repeat(45)));
}

#[test]
fn preview_wide_characters_count_as_two_cells() {
    let p = Profile::epson_80mm();
    let out = emit(&[Op::Justify(Align::Right), Op::Text("日本\n".into())], &p).unwrap();
    assert_eq!(out, format!("{}日本\n", " ".repeat(44)));
}
