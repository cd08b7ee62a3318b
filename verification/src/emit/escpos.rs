//! ESC/POS byte emitter, Epson dialect.
//!
//! The stream is framed here: `ESC @` first, then font and code page selection, then the
//! ops. Text goes through the profile's code page, which covers ASCII and the newline;
//! anything else is rejected rather than silently replaced. A QR payload bypasses the code
//! page and is sent as UTF-8.

use vstd::prelude::*;
use vstd::utf8::encode_utf8;
use crate::error::{Error, ErrorV};
use crate::ir::{ops_view, Align, CutKind, Op, OpV};
use crate::profile::{CodePage, Font, Profile};
use crate::text::chars_of;

verus! {

pub const ESC: u8 = 0x1B;

pub const GS: u8 = 0x1D;

pub const LF: u8 = 0x0A;

/// `ESC @`, `ESC M n` (font) and `ESC t n` (code page): the bytes every document opens with.
pub open spec fn frame_bytes(p: Profile) -> Seq<u8> {
    seq![
        ESC,
        0x40,
        ESC,
        0x4D,
        match p.font {
            Font::A => 0u8,
            Font::B => 1u8,
        },
        ESC,
        0x74,
        match p.code_page {
            CodePage::Cp437 => 0u8,
        },
    ]
}

/// Text in code page 437: each ASCII character as its byte, or the first character that
/// has no encoding.
pub open spec fn text_bytes(s: Seq<char>) -> Result<Seq<u8>, char>
    decreases s.len(),
{
    if s.len() == 0 {
        Ok(seq![])
    } else if (s[0] as u32) >= 0x80 {
        Err(s[0])
    } else {
        match text_bytes(s.drop_first()) {
            Ok(b) => Ok(seq![(s[0] as u32) as u8] + b),
            Err(c) => Err(c),
        }
    }
}

/// The `GS !` parameter: width - 1 in the high nibble, height - 1 in the low nibble.
pub open spec fn size_byte(w: u8, h: u8) -> u8 {
    let ws: u8 = if w == 0 { 0 } else { (w - 1) as u8 };
    let hs: u8 = if h == 0 { 0 } else { (h - 1) as u8 };
    ((ws & 7u8) << 4u8) | (hs & 7u8)
}

/// `GS ( k pL pH` for a body of `n` bytes: `pL + 256 * pH` is `n`, modulo 65536.
pub open spec fn qr_header(n: nat) -> Seq<u8> {
    seq![GS, 0x28, 0x6B, (n % 256) as u8, ((n / 256) % 256) as u8]
}

/// The five `GS ( k` calls for a QR symbol: model 2, module size, error correction M,
/// store the UTF-8 payload, print.
pub open spec fn qr_bytes(data: Seq<char>, module: u8) -> Seq<u8> {
    let payload = encode_utf8(data);
    qr_header(4) + seq![49u8, 65, 50, 0] + qr_header(3) + seq![49u8, 67, module] + qr_header(3)
        + seq![49u8, 69, 49] + qr_header(payload.len() + 3) + seq![49u8, 80, 48]
        + payload + qr_header(3) + seq![49u8, 81, 48]
}

/// The bytes of one op.
pub open spec fn op_bytes(op: OpV, p: Profile) -> Result<Seq<u8>, ErrorV> {
    match op {
        OpV::Text(s) => match text_bytes(s) {
            Ok(b) => Ok(b),
            Err(c) => Err(ErrorV::Unrepresentable { ch: c }),
        },
        OpV::Emphasis(on) => Ok(seq![ESC, 0x45, if on { 1u8 } else { 0u8 }]),
        OpV::Underline(on) => Ok(seq![ESC, 0x2D, if on { 1u8 } else { 0u8 }]),
        OpV::Justify(a) => Ok(
            seq![
                ESC,
                0x61,
                match a {
                    Align::Left => 0u8,
                    Align::Center => 1u8,
                    Align::Right => 2u8,
                },
            ],
        ),
        OpV::Size { w, h } => Ok(seq![GS, 0x21, size_byte(w, h)]),
        OpV::AbsPos(d) => Ok(seq![ESC, 0x24, (d & 0xFFu16) as u8, (d >> 8u16) as u8]),
        OpV::Feed(n) => Ok(seq![ESC, 0x64, n]),
        OpV::Cut(k) => if k == CutKind::Partial && p.supports_partial_cut {
            Ok(seq![GS, 0x56, 0x42, 0x00])
        } else {
            Ok(seq![GS, 0x56, 0x00])
        },
        OpV::Raw(b) => Ok(b),
        OpV::Qr { data, module } => Ok(qr_bytes(data, module)),
    }
}

/// The bytes of an op stream, or the first op's error.
pub open spec fn ops_bytes(ops: Seq<OpV>, p: Profile) -> Result<Seq<u8>, ErrorV>
    decreases ops.len(),
{
    if ops.len() == 0 {
        Ok(seq![])
    } else {
        match op_bytes(ops[0], p) {
            Err(x) => Err(x),
            Ok(b) => match ops_bytes(ops.drop_first(), p) {
                Err(x) => Err(x),
                Ok(rest) => Ok(b + rest),
            },
        }
    }
}

/// A complete document: the frame, then every op's bytes.
pub open spec fn emit_spec(ops: Seq<OpV>, p: Profile) -> Result<Seq<u8>, ErrorV> {
    match ops_bytes(ops, p) {
        Ok(b) => Ok(frame_bytes(p) + b),
        Err(x) => Err(x),
    }
}

/// `r` with `acc` in front of its bytes.
pub open spec fn prepend_bytes(acc: Seq<u8>, r: Result<Seq<u8>, ErrorV>) -> Result<Seq<u8>, ErrorV> {
    match r {
        Ok(b) => Ok(acc + b),
        Err(x) => Err(x),
    }
}

fn push_bytes(out: &mut Vec<u8>, b: &[u8])
    ensures
        final(out)@ == old(out)@ + b@,
{
    let ghost start = out@;
    let mut i: usize = 0;
    while i < b.len()
        invariant
            i <= b.len(),
            out@ =~= start + b@.take(i as int),
        decreases b.len() - i,
    {
        out.push(b[i]);
        i = i + 1;
    }
    assert(b@.take(i as int) =~= b@);
}

fn push3(out: &mut Vec<u8>, a: u8, b: u8, c: u8)
    ensures
        final(out)@ == old(out)@ + seq![a, b, c],
{
    out.push(a);
    out.push(b);
    out.push(c);
    assert(out@ =~= old(out)@ + seq![a, b, c]);
}

fn push_header(out: &mut Vec<u8>, n: usize)
    ensures
        final(out)@ == old(out)@ + qr_header(n as nat),
{
    assert((n & 0xFF) == n % 256 && ((n >> 8) & 0xFF) == (n / 256) % 256) by (bit_vector);
    out.push(GS);
    out.push(0x28);
    out.push(0x6B);
    out.push((n & 0xFF) as u8);
    out.push(((n >> 8) & 0xFF) as u8);
    assert(out@ =~= old(out)@ + qr_header(n as nat));
}

/// Encode text into code page 437.
fn encode_text(s: &String, out: &mut Vec<u8>) -> (r: Result<(), Error>)
    ensures
        match r {
            Ok(_) => text_bytes(s@) matches Ok(b) && final(out)@ == old(out)@ + b,
            Err(e) => text_bytes(s@) matches Err(c) && e@ == (ErrorV::Unrepresentable { ch: c })
                && stops_at(s@, c, old(out)@, final(out)@),
        },
{
    let chars = chars_of(s.as_str());
    let ghost start = out@;
    let mut i: usize = 0;
    assert(chars@.skip(0) =~= chars@);
    assert(start + ascii_codes(chars@.take(0)) =~= start);
    while i < chars.len()
        invariant
            i <= chars.len(),
            chars@ == s@,
            prepend_text(start, text_bytes(chars@)) == prepend_text(out@, text_bytes(chars@.skip(i as int))),
            out@ == start + ascii_codes(chars@.take(i as int)),
            start == old(out)@,
        decreases chars.len() - i,
    {
        let c = chars[i];
        let ghost rest = chars@.skip(i as int);
        assert(rest[0] == c);
        assert(rest.drop_first() =~= chars@.skip(i + 1));
        if (c as u32) >= 0x80 {
            assert(text_bytes(rest) == Err::<Seq<u8>, char>(c));
            assert(s@[i as int] == c);
            assert(out@ == start + ascii_codes(s@.take(i as int)));
            assert(stops_at(s@, c, start, out@));
            return Err(Error::Unrepresentable { ch: c });
        }
        let ghost before = out@;
        out.push((c as u32) as u8);
        assert(chars@.take(i + 1).drop_last() =~= chars@.take(i as int));
        assert(out@ =~= start + ascii_codes(chars@.take(i + 1)));
        proof {
            match text_bytes(chars@.skip(i + 1)) {
                Ok(b) => {
                    assert(before + (seq![(c as u32) as u8] + b) =~= out@ + b);
                },
                Err(_) => {},
            }
        }
        i = i + 1;
    }
    assert(chars@.skip(i as int) =~= Seq::<char>::empty());
    assert(out@ + Seq::<u8>::empty() =~= out@);
    Ok(())
}

/// Whether `after` is `before` with the codes of the characters of `s` ahead of some
/// occurrence of `c` appended: what encoding leaves behind when it stops at `c`.
pub open spec fn stops_at(s: Seq<char>, c: char, before: Seq<u8>, after: Seq<u8>) -> bool {
    exists|k: int| 0 <= k < s.len() && s[k] == c && after == before + #[trigger] ascii_codes(s.take(k))
}

/// Each character as the byte of its code.
pub open spec fn ascii_codes(s: Seq<char>) -> Seq<u8>
    decreases s.len(),
{
    if s.len() == 0 {
        seq![]
    } else {
        ascii_codes(s.drop_last()).push((s.last() as u32) as u8)
    }
}

/// `r` with `acc` in front of its bytes; errors keep their character.
pub open spec fn prepend_text(acc: Seq<u8>, r: Result<Seq<u8>, char>) -> Result<Seq<u8>, char> {
    match r {
        Ok(b) => Ok(acc + b),
        Err(c) => Err(c),
    }
}

/// The five `GS ( k` calls for a QR symbol.
fn emit_qr(data: &String, module: u8, out: &mut Vec<u8>)
    ensures
        final(out)@ == old(out)@ + qr_bytes(data@, module),
{
    push_header(out, 4);
    out.push(49);
    push3(out, 65, 50, 0);
    push_header(out, 3);
    push3(out, 49, 67, module);
    push_header(out, 3);
    push3(out, 49, 69, 49);
    let bytes = data.as_str().as_bytes();
    let len: usize = bytes.len();
    // Only the low 16 bits of the body length reach the header.
    let n: usize = len % 65536 + 3;
    assert((len % 65536 + 3) % 256 == (len + 3) % 256
        && ((len % 65536 + 3) / 256) % 256 == ((len + 3) / 256) % 256) by (bit_vector);
    push_header(out, n);
    push3(out, 49, 80, 48);
    push_bytes(out, bytes);
    push_header(out, 3);
    push3(out, 49, 81, 48);
    assert(out@ =~= old(out)@ + qr_bytes(data@, module));
}

fn emit_op(op: &Op, profile: &Profile, out: &mut Vec<u8>) -> (r: Result<(), Error>)
    ensures
        match r {
            Ok(_) => op_bytes(op@, *profile) matches Ok(b) && final(out)@ == old(out)@ + b,
            Err(e) => op_bytes(op@, *profile) == Err::<Seq<u8>, ErrorV>(e@),
        },
{
    match op {
        Op::Text(s) => {
            return encode_text(s, out);
        },
        Op::Emphasis(on) => push3(out, ESC, 0x45, if *on { 1 } else { 0 }),
        Op::Underline(on) => push3(out, ESC, 0x2D, if *on { 1 } else { 0 }),
        Op::Justify(a) => push3(
            out,
            ESC,
            0x61,
            match a {
                Align::Left => 0,
                Align::Center => 1,
                Align::Right => 2,
            },
        ),
        Op::Size { w, h } => {
            let ws: u8 = if *w == 0 { 0 } else { *w - 1 };
            let hs: u8 = if *h == 0 { 0 } else { *h - 1 };
            let n: u8 = ((ws & 0x07) << 4) | (hs & 0x07);
            push3(out, GS, 0x21, n);
        },
        Op::AbsPos(dots) => {
            push3(out, ESC, 0x24, (*dots & 0xFF) as u8);
            out.push((*dots >> 8) as u8);
            assert(out@ =~= old(out)@ + seq![ESC, 0x24, (*dots & 0xFFu16) as u8, (*dots >> 8u16) as u8]);
        },
        Op::Feed(n) => push3(out, ESC, 0x64, *n),
        Op::Cut(kind) => {
            let partial = match kind {
                CutKind::Partial => profile.supports_partial_cut,
                CutKind::Full => false,
            };
            if partial {
                push3(out, GS, 0x56, 0x42);
                out.push(0x00);
                assert(out@ =~= old(out)@ + seq![GS, 0x56, 0x42, 0x00]);
            } else {
                push3(out, GS, 0x56, 0x00);
            }
        },
        Op::Raw(bytes) => push_bytes(out, bytes.as_slice()),
        Op::Qr { data, module } => emit_qr(data, *module, out),
    }
    Ok(())
}

/// Emit a complete, self-contained ESC/POS document: `ESC @`, font and code page
/// selection, then every op.
pub fn emit(ops: &[Op], profile: &Profile) -> (r: Result<Vec<u8>, Error>)
    ensures
        match r {
            Ok(b) => emit_spec(ops_view(ops@), *profile) == Ok::<Seq<u8>, ErrorV>(b@),
            Err(e) => emit_spec(ops_view(ops@), *profile) == Err::<Seq<u8>, ErrorV>(e@),
        },
{
    let ghost ov = ops_view(ops@);
    let mut out: Vec<u8> = Vec::new();
    push3(&mut out, ESC, 0x40, ESC);
    push3(
        &mut out,
        0x4D,
        match profile.font {
            Font::A => 0,
            Font::B => 1,
        },
        ESC,
    );
    push3(
        &mut out,
        0x74,
        match profile.code_page {
            CodePage::Cp437 => 0,
        },
        0,
    );
    out.pop();
    assert(out@ =~= frame_bytes(*profile));
    let ghost goal = prepend_bytes(out@, ops_bytes(ov, *profile));
    assert(ov.skip(0) =~= ov);
    let mut i: usize = 0;
    while i < ops.len()
        invariant
            i <= ops.len(),
            ov == ops_view(ops@),
            goal == prepend_bytes(frame_bytes(*profile), ops_bytes(ov, *profile)),
            goal == prepend_bytes(out@, ops_bytes(ov.skip(i as int), *profile)),
        decreases ops.len() - i,
    {
        let ghost rest = ov.skip(i as int);
        assert(rest[0] == ops@[i as int]@);
        assert(rest.drop_first() =~= ov.skip(i + 1));
        let ghost before = out@;
        match emit_op(&ops[i], profile, &mut out) {
            Err(e) => {
                return Err(e);
            },
            Ok(()) => {},
        }
        proof {
            let b = op_bytes(ops@[i as int]@, *profile)->Ok_0;
            match ops_bytes(ov.skip(i + 1), *profile) {
                Ok(r2) => {
                    assert(before + (b + r2) =~= out@ + r2);
                },
                Err(_) => {},
            }
        }
        i = i + 1;
    }
    assert(ov.skip(i as int) =~= Seq::<OpV>::empty());
    assert(out@ + Seq::<u8>::empty() =~= out@);
    Ok(out)
}


/// Whether a character has no code page 437 encoding here (it is outside ASCII).
pub open spec fn unencodable(c: char) -> bool {
    (c as u32) >= 0x80
}

/// Text encodes exactly when every character is ASCII; each character then becomes its own
/// code, and otherwise the error names the first character outside ASCII.
pub proof fn law_text_encodes_iff_ascii(s: Seq<char>)
    ensures
        text_bytes(s) is Ok <==> (forall|i: int| 0 <= i < s.len() ==> !unencodable(#[trigger] s[i])),
        text_bytes(s) matches Ok(b) ==> b.len() == s.len() && (forall|i: int|
            0 <= i < s.len() ==> #[trigger] b[i] == (s[i] as u32) as u8),
        text_bytes(s) matches Err(c) ==> exists|k: int|
            0 <= k < s.len() && s[k] == c && unencodable(c) && (forall|i: int|
                0 <= i < k ==> !unencodable(#[trigger] s[i])),
    decreases s.len(),
{
    if s.len() > 0 {
        let t = s.drop_first();
        law_text_encodes_iff_ascii(t);
        assert forall|i: int| 0 < i < s.len() implies s[i] == t[i - 1] by {}
        if !unencodable(s[0]) {
            match text_bytes(t) {
                Ok(b) => {
                    let bb = seq![(s[0] as u32) as u8] + b;
                    assert forall|i: int| 0 <= i < s.len() implies #[trigger] bb[i] == (s[i] as u32) as u8 by {
                        if i > 0 {
                            assert(bb[i] == b[i - 1]);
                        }
                    }
                },
                Err(c) => {
                    let k = choose|k: int|
                        0 <= k < t.len() && t[k] == c && unencodable(c) && (forall|i: int|
                            0 <= i < k ==> !unencodable(#[trigger] t[i]));
                    assert(s[k + 1] == c);
                    assert forall|i: int| 0 <= i < k + 1 implies !unencodable(#[trigger] s[i]) by {
                        if i > 0 {
                            assert(s[i] == t[i - 1]);
                        }
                    }
                    assert(!unencodable(t[k]) == !unencodable(s[k + 1]));
                },
            }
        }
    }
}

/// Whether an op is text holding a character outside ASCII.
pub open spec fn has_unencodable_text(op: OpV) -> bool {
    match op {
        OpV::Text(t) => exists|j: int| 0 <= j < t.len() && unencodable(#[trigger] t[j]),
        _ => false,
    }
}

/// A document fails to encode exactly when some text op holds a character outside ASCII;
/// every other op, raw bytes and QR payloads among them, always has bytes.
pub proof fn law_emit_fails_only_on_unencodable_text(ops: Seq<OpV>, p: Profile)
    ensures
        emit_spec(ops, p) is Err <==> exists|i: int|
            0 <= i < ops.len() && has_unencodable_text(#[trigger] ops[i]),
    decreases ops.len(),
{
    if ops.len() > 0 {
        let rest = ops.drop_first();
        law_emit_fails_only_on_unencodable_text(rest, p);
        assert forall|i: int| 0 < i < ops.len() implies ops[i] == rest[i - 1] by {}
        match ops[0] {
            OpV::Text(t) => {
                law_text_encodes_iff_ascii(t);
            },
            _ => {},
        }
        if ops_bytes(rest, p) is Err {
            let i = choose|i: int| 0 <= i < rest.len() && has_unencodable_text(#[trigger] rest[i]);
            assert(ops[i + 1] == rest[i]);
        }
        if emit_spec(ops, p) is Ok {
            assert forall|i: int| 0 <= i < ops.len() implies !has_unencodable_text(#[trigger] ops[i]) by {
                if i > 0 {
                    assert(ops[i] == rest[i - 1]);
                }
            }
        }
    }
}

/// Whether `c` is the first character of `t` that has no encoding.
pub open spec fn first_unencodable(t: Seq<char>, c: char) -> bool {
    exists|k: int|
        0 <= k < t.len() && t[k] == c && unencodable(c) && (forall|m: int|
            0 <= m < k ==> !unencodable(#[trigger] t[m]))
}

/// Whether `x` is the refusal of text op `op`, naming that op's first character without
/// an encoding.
pub open spec fn refused_for(op: OpV, x: ErrorV) -> bool {
    match (op, x) {
        (OpV::Text(t), ErrorV::Unrepresentable { ch }) => first_unencodable(t, ch),
        _ => false,
    }
}

/// When a document fails to encode, the error names the first character without an
/// encoding in op order: it sits in a text op that no earlier op matches, and it is the
/// first such character of that op.
pub proof fn law_error_names_the_first_unencodable_char(ops: Seq<OpV>, p: Profile)
    ensures
        ops_bytes(ops, p) matches Err(x) ==> exists|i: int|
            0 <= i < ops.len() && (forall|j: int| 0 <= j < i ==> !has_unencodable_text(#[trigger] ops[j]))
                && #[trigger] refused_for(ops[i], x),
    decreases ops.len(),
{
    if ops.len() > 0 {
        let rest = ops.drop_first();
        law_error_names_the_first_unencodable_char(rest, p);
        match ops[0] {
            OpV::Text(t) => {
                law_text_encodes_iff_ascii(t);
            },
            _ => {},
        }
        if let Err(x) = ops_bytes(ops, p) {
            if op_bytes(ops[0], p) is Err {
                assert(forall|j: int| 0 <= j < 0 ==> !has_unencodable_text(#[trigger] ops[j]));
                assert(refused_for(ops[0], x));
            } else {
                let i = choose|i: int|
                    0 <= i < rest.len() && (forall|j: int|
                        0 <= j < i ==> !has_unencodable_text(#[trigger] rest[j])) && #[trigger] refused_for(rest[i], x);
                assert(ops[i + 1] == rest[i]);
                assert forall|j: int| 0 <= j < i + 1 implies !has_unencodable_text(#[trigger] ops[j]) by {
                    if j > 0 {
                        assert(ops[j] == rest[j - 1]);
                    } else {
                        if let OpV::Text(t0) = ops[0] {
                            if exists|q: int| 0 <= q < t0.len() && unencodable(#[trigger] t0[q]) {
                                let q = choose|q: int| 0 <= q < t0.len() && unencodable(#[trigger] t0[q]);
                                assert(!unencodable(t0[q]));
                            }
                        }
                    }
                }
            }
        }
    }
}

/// Encoding distributes over concatenation: the ops of `a` then `b` encode to the bytes of
/// `a` then the bytes of `b`, and fail with `a`'s error if `a` fails, else with `b`'s.
pub proof fn law_ops_bytes_concatenate(a: Seq<OpV>, b: Seq<OpV>, p: Profile)
    ensures
        ops_bytes(a + b, p) == match ops_bytes(a, p) {
            Err(x) => Err(x),
            Ok(x) => prepend_bytes(x, ops_bytes(b, p)),
        },
    decreases a.len(),
{
    if a.len() == 0 {
        assert(a + b =~= b);
        match ops_bytes(b, p) {
            Ok(y) => {
                assert(Seq::<u8>::empty() + y =~= y);
            },
            Err(_) => {},
        }
    } else {
        let rest = a.drop_first();
        law_ops_bytes_concatenate(rest, b, p);
        assert((a + b)[0] == a[0]);
        assert((a + b).drop_first() =~= rest + b);
        match (op_bytes(a[0], p), ops_bytes(rest, p), ops_bytes(b, p)) {
            (Ok(h), Ok(x), Ok(y)) => {
                assert(h + (x + y) =~= (h + x) + y);
            },
            _ => {},
        }
    }
}

/// Documents concatenate after the frame: when `a` and `b` both encode, so does `a` then
/// `b`, to the frame followed by `a`'s bytes and then `b`'s, each without its frame.
pub proof fn law_documents_concatenate_after_the_frame(a: Seq<OpV>, b: Seq<OpV>, p: Profile)
    ensures
        emit_spec(a, p) matches Ok(x) ==> (emit_spec(b, p) matches Ok(y) ==> emit_spec(a + b, p)
            == Ok::<Seq<u8>, ErrorV>(frame_bytes(p) + x.skip(8) + y.skip(8))),
{
    law_ops_bytes_concatenate(a, b, p);
    if let (Ok(x), Ok(y)) = (emit_spec(a, p), emit_spec(b, p)) {
        let f = frame_bytes(p);
        assert(x.skip(8) =~= ops_bytes(a, p)->Ok_0);
        assert(y.skip(8) =~= ops_bytes(b, p)->Ok_0);
        assert(f + (x.skip(8) + y.skip(8)) =~= f + x.skip(8) + y.skip(8));
    }
}

/// Every document opens with the frame, `ESC @` first, whatever the ops.
pub proof fn law_document_opens_with_init(ops: Seq<OpV>, p: Profile)
    ensures
        emit_spec(ops, p) matches Ok(b) ==> b.len() >= 8 && b[0] == ESC && b[1] == 0x40u8
            && b.subrange(0, 8) == frame_bytes(p),
{
    if let Ok(b) = emit_spec(ops, p) {
        let f = frame_bytes(p);
        assert(b.subrange(0, 8) =~= f);
    }
}

/// The command table: every op that is not text, raw bytes or a QR symbol is one fixed
/// ESC/POS command. Justification is `ESC a n` with 0, 1 and 2 for left, center and right;
/// emphasis `ESC E n` and underline `ESC - n` with 1 for on; magnification `GS ! n` with
/// width - 1 in the high nibble and height - 1 in the low one; an absolute position
/// `ESC $ nL nH`, low byte first; a feed `ESC d n`; a cut `GS V 66 0` when partial and the
/// printer can, else the full cut `GS V 0`.
pub proof fn law_command_table(op: OpV, p: Profile)
    ensures
        op == OpV::Justify(Align::Left) ==> op_bytes(op, p) == Ok::<Seq<u8>, ErrorV>(seq![0x1Bu8, 0x61u8, 0u8]),
        op == OpV::Justify(Align::Center) ==> op_bytes(op, p) == Ok::<Seq<u8>, ErrorV>(seq![0x1Bu8, 0x61u8, 1u8]),
        op == OpV::Justify(Align::Right) ==> op_bytes(op, p) == Ok::<Seq<u8>, ErrorV>(seq![0x1Bu8, 0x61u8, 2u8]),
        op == OpV::Emphasis(true) ==> op_bytes(op, p) == Ok::<Seq<u8>, ErrorV>(seq![0x1Bu8, 0x45u8, 1u8]),
        op == OpV::Emphasis(false) ==> op_bytes(op, p) == Ok::<Seq<u8>, ErrorV>(seq![0x1Bu8, 0x45u8, 0u8]),
        op == OpV::Underline(true) ==> op_bytes(op, p) == Ok::<Seq<u8>, ErrorV>(seq![0x1Bu8, 0x2Du8, 1u8]),
        op == OpV::Underline(false) ==> op_bytes(op, p) == Ok::<Seq<u8>, ErrorV>(seq![0x1Bu8, 0x2Du8, 0u8]),
        op matches OpV::Size { w, h } ==> (1 <= w <= 8 && 1 <= h <= 8 ==> op_bytes(op, p) == Ok::<
            Seq<u8>,
            ErrorV,
        >(seq![0x1Du8, 0x21u8, ((w - 1) * 16 + (h - 1)) as u8])),
        op matches OpV::AbsPos(d) ==> op_bytes(op, p) == Ok::<Seq<u8>, ErrorV>(
            seq![0x1Bu8, 0x24u8, (d % 256) as u8, (d / 256) as u8],
        ),
        op matches OpV::Feed(n) ==> op_bytes(op, p) == Ok::<Seq<u8>, ErrorV>(seq![0x1Bu8, 0x64u8, n]),
        op == OpV::Cut(CutKind::Partial) && p.supports_partial_cut ==> op_bytes(op, p) == Ok::<
            Seq<u8>,
            ErrorV,
        >(seq![0x1Du8, 0x56u8, 0x42u8, 0u8]),
        op == OpV::Cut(CutKind::Full) || (op == OpV::Cut(CutKind::Partial) && !p.supports_partial_cut)
            ==> op_bytes(op, p) == Ok::<Seq<u8>, ErrorV>(seq![0x1Du8, 0x56u8, 0u8]),
{
    match op {
        OpV::Size { w, h } => {
            if 1 <= w <= 8 && 1 <= h <= 8 {
                let ws: u8 = (w - 1) as u8;
                let hs: u8 = (h - 1) as u8;
                assert((((ws & 7u8) << 4u8) | (hs & 7u8)) == ws * 16 + hs) by (bit_vector)
                    requires
                        ws < 8,
                        hs < 8,
                ;
            }
        },
        OpV::AbsPos(d) => {
            assert((d & 0xFFu16) as u8 == (d % 256) as u8 && (d >> 8u16) as u8 == (d / 256) as u8) by (bit_vector);
        },
        _ => {},
    }
}

/// Every document opens by resetting the printer and choosing the profile's font and code
/// page: `ESC @`, then `ESC M` with 0 for font A and 1 for font B, then `ESC t 0` for code
/// page 437; the ops' own bytes follow.
pub proof fn law_documents_open_with_reset(ops: Seq<OpV>, p: Profile)
    ensures
        emit_spec(ops, p) matches Ok(b) ==> b.len() >= 8 && b.take(8) == seq![
            0x1Bu8,
            0x40u8,
            0x1Bu8,
            0x4Du8,
            if p.font == Font::A { 0u8 } else { 1u8 },
            0x1Bu8,
            0x74u8,
            0u8,
        ] && ops_bytes(ops, p) == Ok::<Seq<u8>, ErrorV>(b.skip(8)),
{
    if let Ok(b) = emit_spec(ops, p) {
        let x = ops_bytes(ops, p)->Ok_0;
        assert(b.take(8) =~= frame_bytes(p));
        assert(b.skip(8) =~= x);
    }
}

/// A QR symbol is five `GS ( k` calls, in this order: model 2, the module size in dots,
/// error correction level M, store the payload (its UTF-8 bytes, with the three bytes of
/// the call counted in the length, low byte first), and print.
pub proof fn law_qr_calls(data: Seq<char>, module: u8, p: Profile)
    requires
        encode_utf8(data).len() + 3 < 65536,
    ensures
        ({
            let payload = encode_utf8(data);
            let n = payload.len() + 3;
            op_bytes(OpV::Qr { data, module }, p) == Ok::<Seq<u8>, ErrorV>(
                seq![0x1Du8, 0x28u8, 0x6Bu8, 4u8, 0u8, 49u8, 65u8, 50u8, 0u8]
                + seq![0x1Du8, 0x28u8, 0x6Bu8, 3u8, 0u8, 49u8, 67u8, module]
                + seq![0x1Du8, 0x28u8, 0x6Bu8, 3u8, 0u8, 49u8, 69u8, 49u8]
                + seq![0x1Du8, 0x28u8, 0x6Bu8, (n % 256) as u8, (n / 256) as u8, 49u8, 80u8, 48u8]
                + payload
                + seq![0x1Du8, 0x28u8, 0x6Bu8, 3u8, 0u8, 49u8, 81u8, 48u8],
            )
        }),
{
    let payload = encode_utf8(data);
    assert(qr_bytes(data, module) =~= seq![0x1Du8, 0x28u8, 0x6Bu8, 4u8, 0u8, 49u8, 65u8, 50u8, 0u8]
        + seq![0x1Du8, 0x28u8, 0x6Bu8, 3u8, 0u8, 49u8, 67u8, module]
        + seq![0x1Du8, 0x28u8, 0x6Bu8, 3u8, 0u8, 49u8, 69u8, 49u8]
        + seq![0x1Du8, 0x28u8, 0x6Bu8, ((payload.len() + 3) % 256) as u8, ((payload.len() + 3) / 256) as u8, 49u8, 80u8, 48u8]
        + payload
        + seq![0x1Du8, 0x28u8, 0x6Bu8, 3u8, 0u8, 49u8, 81u8, 48u8]);
}

/// `GS !` keeps width - 1 in the high nibble and height - 1 in the low nibble, so every
/// magnification from 1 to 8 is read back from its byte.
pub proof fn law_size_nibbles(w: u8, h: u8)
    requires
        1 <= w <= 8,
        1 <= h <= 8,
    ensures
        size_byte(w, h) >> 4u8 == w - 1,
        size_byte(w, h) & 0x0Fu8 == h - 1,
{
    let ws: u8 = (w - 1) as u8;
    let hs: u8 = (h - 1) as u8;
    assert(((((ws & 7u8) << 4u8) | (hs & 7u8)) >> 4u8) == ws && ((((ws & 7u8) << 4u8) | (hs & 7u8)) & 0x0Fu8) == hs) by (bit_vector)
        requires
            ws < 8,
            hs < 8,
    ;
}

/// `ESC $ nL nH` is little endian: `nL + 256 * nH` is the position in dots.
pub proof fn law_abspos_little_endian(d: u16, p: Profile)
    ensures
        op_bytes(OpV::AbsPos(d), p) matches Ok(b) && b.len() == 4 && b[2] + 256 * b[3] == d,
{
    assert(((d & 0xFFu16) as u8) + 256 * ((d >> 8u16) as u8) == d) by (bit_vector);
}

/// The length in a `GS ( k` header, `pL + 256 * pH`, is the body length for every body
/// shorter than 65536 bytes.
pub proof fn law_qr_header_length(n: nat)
    requires
        n < 65536,
    ensures
        qr_header(n).len() == 5,
        qr_header(n)[3] + 256 * qr_header(n)[4] == n,
{
    assert((n % 256) + 256 * ((n / 256) % 256) == n) by (nonlinear_arith)
        requires
            n < 65536,
    ;
}

/// A QR payload reaches the printer as its UTF-8 bytes, inside the store call, whatever
/// characters it holds.
pub proof fn law_qr_payload_is_utf8(data: Seq<char>, module: u8, p: Profile)
    ensures
        op_bytes(OpV::Qr { data, module }, p) matches Ok(b) && b.subrange(33, 33 + encode_utf8(data).len() as int) == encode_utf8(data),
{
    let payload = encode_utf8(data);
    let b = qr_bytes(data, module);
    assert(b.subrange(33, 33 + payload.len() as int) =~= payload);
}

/// Raw bytes pass through untouched.
pub proof fn law_raw_passes_through(bytes: Seq<u8>, p: Profile)
    ensures
        op_bytes(OpV::Raw(bytes), p) == Ok::<Seq<u8>, ErrorV>(bytes),
{
}

} // verus!
