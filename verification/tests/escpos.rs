use tk_mdpos::emit::escpos::emit;
use tk_mdpos::ir::{CutKind, Op};
use tk_mdpos::{Error, Profile};

fn ops_only(ops: &[Op]) -> Vec<u8> {
    // Strip the 8-byte frame (ESC @, ESC M n, ESC t n) to assert on op bytes alone.
    emit(ops, &Profile::epson_80mm()).unwrap()[8..].to_vec()
}

#[test]
fn escpos_document_is_framed_with_init() {
    let bytes = emit(&[], &Profile::epson_80mm()).unwrap();
    assert_eq!(&bytes[..2], &[0x1B, 0x40]);
}

#[test]
fn escpos_size_packs_nibbles_width_high_height_low() {
    assert_eq!(ops_only(&[Op::Size { w: 2, h: 2 }]), vec![0x1D, 0x21, 0x11]);
    assert_eq!(ops_only(&[Op::Size { w: 1, h: 1 }]), vec![0x1D, 0x21, 0x00]);
    assert_eq!(ops_only(&[Op::Size { w: 3, h: 1 }]), vec![0x1D, 0x21, 0x20]);
}

#[test]
fn escpos_abspos_is_little_endian() {
    assert_eq!(ops_only(&[Op::AbsPos(576)]), vec![0x1B, 0x24, 0x40, 0x02]);
    assert_eq!(ops_only(&[Op::AbsPos(0)]), vec![0x1B, 0x24, 0x00, 0x00]);
}

#[test]
fn escpos_partial_cut_falls_back_when_unsupported() {
    let capable = Profile::epson_80mm();
    assert_eq!(
        ops_only(&[Op::Cut(CutKind::Partial)]),
        vec![0x1D, 0x56, 0x42, 0x00]
    );

    let incapable = Profile {
        supports_partial_cut: false,
        ..capable
    };
    let bytes = emit(&[Op::Cut(CutKind::Partial)], &incapable).unwrap();
    assert_eq!(&bytes[8..], &[0x1D, 0x56, 0x00]);
}

#[test]
fn escpos_raw_passes_through_untouched() {
    let quirk = vec![0x1D, 0x56, 0x41, 0x10];
    assert_eq!(ops_only(&[Op::Raw(quirk.clone())]), quirk);
}

#[test]
fn escpos_non_ascii_is_rejected_not_replaced() {
    let err = emit(&[Op::Text("café".into())], &Profile::epson_80mm()).unwrap_err();
    assert_eq!(err, Error::Unrepresentable { ch: 'é' });
}

#[test]
fn qr_emits_the_five_gs_paren_k_calls_in_order() {
    let bytes = ops_only(&[Op::Qr {
        data: "HI".into(),
        module: 6,
    }]);

    let want = vec![
        0x1D, 0x28, 0x6B, 0x04, 0x00, 49, 65, 50, 0,
        0x1D, 0x28, 0x6B, 0x03, 0x00, 49, 67, 6,
        0x1D, 0x28, 0x6B, 0x03, 0x00, 49, 69, 49,
        0x1D, 0x28, 0x6B, 0x05, 0x00, 49, 80, 48, b'H', b'I',
        0x1D, 0x28, 0x6B, 0x03, 0x00, 49, 81, 48,
    ];
    assert_eq!(bytes, want);
}

#[test]
fn qr_store_length_is_little_endian_across_the_256_byte_boundary() {
    let bytes = ops_only(&[Op::Qr {
        data: "A".repeat(253),
        module: 4,
    }]);
    let store = bytes
        .windows(5)
        .find(|w| w[0] == 0x1D && w[1] == 0x28 && w[2] == 0x6B && w[3] == 0x00)
        .expect("a store call with pL == 0");
    assert_eq!(store[3], 0x00, "pL");
    assert_eq!(store[4], 0x01, "pH — 256 bytes, not 1");
}

#[test]
fn qr_payload_bypasses_the_code_page() {
    assert!(emit(&[Op::Text("é".into())], &Profile::epson_80mm()).is_err());

    let bytes = ops_only(&[Op::Qr {
        data: "é".into(),
        module: 6,
    }]);
    assert!(
        bytes.windows(2).any(|w| w == "é".as_bytes()),
        "payload should appear as UTF-8"
    );
}

// The same checks under their shorter names.

#[test]
fn document_is_framed_with_init() {
    let bytes = emit(&[], &Profile::epson_80mm()).unwrap();
    assert_eq!(&bytes[..2], &[0x1B, 0x40]);
}

#[test]
fn size_packs_nibbles_width_high_height_low() {
    assert_eq!(ops_only(&[Op::Size { w: 2, h: 2 }]), vec![0x1D, 0x21, 0x11]);
    assert_eq!(ops_only(&[Op::Size { w: 1, h: 1 }]), vec![0x1D, 0x21, 0x00]);
    assert_eq!(ops_only(&[Op::Size { w: 3, h: 1 }]), vec![0x1D, 0x21, 0x20]);
}

#[test]
fn abspos_is_little_endian() {
    assert_eq!(ops_only(&[Op::AbsPos(576)]), vec![0x1B, 0x24, 0x40, 0x02]);
    assert_eq!(ops_only(&[Op::AbsPos(0)]), vec![0x1B, 0x24, 0x00, 0x00]);
}

#[test]
fn partial_cut_falls_back_when_unsupported() {
    let capable = Profile::epson_80mm();
    assert_eq!(
        ops_only(&[Op::Cut(CutKind::Partial)]),
        vec![0x1D, 0x56, 0x42, 0x00]
    );

    let incapable = Profile {
        supports_partial_cut: false,
        ..capable
    };
    let bytes = emit(&[Op::Cut(CutKind::Partial)], &incapable).unwrap();
    assert_eq!(&bytes[8..], &[0x1D, 0x56, 0x00]);
}

#[test]
fn raw_passes_through_untouched() {
    let quirk = vec![0x1D, 0x56, 0x41, 0x10];
    assert_eq!(ops_only(&[Op::Raw(quirk.clone())]), quirk);
}

#[test]
fn non_ascii_is_rejected_not_replaced() {
    let err = emit(&[Op::Text("café".into())], &Profile::epson_80mm()).unwrap_err();
    assert_eq!(err, Error::Unrepresentable { ch: 'é' });
}

#[test]
fn the_first_unencodable_char_in_op_order_is_named() {
    let p = Profile::epson_80mm();
    let err = emit(
        &[
            Op::Text("ok\n".into()),
            Op::Raw(vec![0xFF]),
            Op::Text("caf\u{e9} \u{fc}ber".into()),
            Op::Text("\u{f1}".into()),
        ],
        &p,
    )
    .unwrap_err();
    assert_eq!(err, Error::Unrepresentable { ch: '\u{e9}' });
}

#[test]
fn emitted_ops_concatenate_after_the_frame() {
    let p = Profile::epson_80mm();
    let a = vec![Op::Text("AB\n".into()), Op::Feed(2)];
    let b = vec![Op::Cut(CutKind::Partial), Op::Raw(vec![1, 2, 3])];
    let both: Vec<Op> = a.iter().chain(b.iter()).cloned().collect();
    let ea = emit(&a, &p).unwrap();
    let eb = emit(&b, &p).unwrap();
    let eab = emit(&both, &p).unwrap();
    let mut expected = ea.clone();
    expected.extend_from_slice(&eb[8..]);
    assert_eq!(eab, expected);
    assert_eq!(&eab[..8], &[0x1B, 0x40, 0x1B, 0x4D, 0x00, 0x1B, 0x74, 0x00]);
}
