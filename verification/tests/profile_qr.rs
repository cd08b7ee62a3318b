use tk_mdpos::qr::{footprint_dots, max_bytes, modules_for_version, version_for, DEFAULT_MODULE};
use tk_mdpos::{Font, Profile};

#[test]
fn columns_are_derived_not_hardcoded() {
    assert_eq!(Profile::epson_80mm().columns(), 48);

    let p58 = Profile {
        width_dots: 384,
        ..Profile::epson_80mm()
    };
    assert_eq!(p58.columns(), 32);
}

#[test]
fn magnification_halves_the_grid() {
    let p = Profile::epson_80mm();
    assert_eq!(p.columns_at(1), 48);
    assert_eq!(p.columns_at(2), 24);
    assert_eq!(p.columns_at(4), 12);
}

#[test]
fn font_b_is_narrower() {
    let p = Profile {
        font: Font::B,
        ..Profile::epson_80mm()
    };
    assert_eq!(p.columns(), 64);
}

#[test]
fn version_grows_with_payload() {
    assert_eq!(version_for(1), Some(1));
    assert_eq!(version_for(14), Some(1));
    assert_eq!(version_for(15), Some(2));
    assert_eq!(version_for(2331), Some(40));
    assert_eq!(version_for(2332), None);
}

#[test]
fn module_counts_match_the_specification() {
    assert_eq!(modules_for_version(1), 21);
    assert_eq!(modules_for_version(10), 57);
    assert_eq!(modules_for_version(40), 177);
}

#[test]
fn a_real_qris_payload_fits_80mm_at_the_default_module() {
    let version = version_for(210).unwrap();
    assert_eq!(version, 10);

    assert_eq!(footprint_dots(210, DEFAULT_MODULE), Some(390));
    assert!(footprint_dots(210, DEFAULT_MODULE).unwrap() <= 576);
}

#[test]
fn the_same_payload_overflows_once_the_module_is_large_enough() {
    assert_eq!(footprint_dots(210, 9), Some(585));
    assert!(footprint_dots(210, 9).unwrap() > 576);
}

#[test]
fn oversized_payloads_have_no_footprint_at_all() {
    assert_eq!(footprint_dots(9000, 1), None);
    assert_eq!(max_bytes(), 2331);
}
