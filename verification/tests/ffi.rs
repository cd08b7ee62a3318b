use tk_mdpos::ffi::{
    mdpos_columns, mdpos_outcome, mdpos_profile_epson_80mm, Backend, MdposProfile, Outcome,
    MDPOS_ERR_INVALID_PROFILE, MDPOS_ERR_INVALID_UTF8, MDPOS_ERR_NULL_ARG, MDPOS_ERR_TEMPLATE,
    MDPOS_OK,
};
use tk_mdpos::{preview, Profile};

fn render(src: &str, profile: &MdposProfile) -> (i32, Vec<u8>, String) {
    let Outcome { code, bytes } = mdpos_outcome(Some(src.as_bytes()), Some(profile), Backend::Bytes);
    let text = String::from_utf8_lossy(&bytes).into_owned();
    (code, bytes, text)
}

#[test]
fn renders_a_template_to_bytes() {
    let profile = mdpos_profile_epson_80mm();
    let (code, bytes, _) = render("{center}\nHI\n{cut}", &profile);

    assert_eq!(code, MDPOS_OK);
    assert_eq!(&bytes[..2], &[0x1B, 0x40], "document must start with ESC @");
    assert_eq!(&bytes[bytes.len() - 4..], &[0x1D, 0x56, 0x42, 0x00]);
    assert!(bytes.contains(&0), "byte output contains embedded NULs");
}

#[test]
fn preview_matches_the_rust_api() {
    let src = "{cols 10,10:r}\na|b\n{cut}";
    let profile = mdpos_profile_epson_80mm();
    let out = mdpos_outcome(Some(src.as_bytes()), Some(&profile), Backend::Text);
    let Outcome { code, bytes } = out;
    assert_eq!(code, MDPOS_OK);
    let text = String::from_utf8_lossy(&bytes).into_owned();
    assert_eq!(text, preview(src, &Profile::epson_80mm()).unwrap());
}

#[test]
fn a_rejected_template_returns_its_message_not_just_a_code() {
    let profile = mdpos_profile_epson_80mm();
    let (code, _, text) = render("{cols 20,6:r}\nItem | 1.250.000", &profile);

    assert_eq!(code, MDPOS_ERR_TEMPLATE);
    assert_eq!(
        text,
        "line 2: \"1.250.000\" overflows right-aligned column 2 (width 6); \
         right-aligned columns never wrap"
    );
}

#[test]
fn invalid_utf8_is_reported_rather_than_lost() {
    let profile = mdpos_profile_epson_80mm();
    let bad = [0xFF_u8, 0xFE];
    let out = mdpos_outcome(Some(&bad), Some(&profile), Backend::Bytes);
    let Outcome { code, bytes } = out;
    assert_eq!(code, MDPOS_ERR_INVALID_UTF8);
    assert!(!bytes.is_empty(), "an error must still produce a message");
}

#[test]
fn null_arguments_do_not_crash() {
    let profile = mdpos_profile_epson_80mm();
    let out = mdpos_outcome(None, Some(&profile), Backend::Bytes);
    assert!(out.code == MDPOS_ERR_NULL_ARG);

    let out = mdpos_outcome(Some("HI".as_bytes()), None, Backend::Bytes);
    assert!(out.code == MDPOS_ERR_NULL_ARG);
}

#[test]
fn unknown_profile_values_are_rejected() {
    let src = "HI";
    for bad in [
        MdposProfile {
            dialect: 9,
            ..mdpos_profile_epson_80mm()
        },
        MdposProfile {
            font: 7,
            ..mdpos_profile_epson_80mm()
        },
        MdposProfile {
            code_page: 3,
            ..mdpos_profile_epson_80mm()
        },
        MdposProfile {
            width_dots: 0,
            ..mdpos_profile_epson_80mm()
        },
    ] {
        let (code, _, text) = render(src, &bad);
        assert_eq!(code, MDPOS_ERR_INVALID_PROFILE, "{:?}", bad);
        assert!(!text.is_empty(), "{:?} produced no explanation", bad);
    }
}

#[test]
fn profile_round_trips_and_reports_its_grid() {
    let p = mdpos_profile_epson_80mm();
    assert_eq!(mdpos_columns(Some(&p), 1), 48);
    assert_eq!(mdpos_columns(Some(&p), 2), 24);

    let narrow = MdposProfile {
        width_dots: 384,
        ..p
    };
    assert_eq!(mdpos_columns(Some(&narrow), 1), 32);

    assert_eq!(mdpos_columns(None, 1), 0);
    let bad = MdposProfile { font: 9, ..p };
    assert_eq!(mdpos_columns(Some(&bad), 1), 0);
}
