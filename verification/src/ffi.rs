//! The decisions behind the C ABI, without the pointers.
//!
//! A C caller passes a template as bytes and a profile with its enums flattened to
//! integers, and gets back a status code and a buffer: the output on success, and on any
//! error a human-readable message, so that a template error still says which line. The
//! buffer is always NUL-terminated, with the terminator outside its length, because byte
//! output holds zero bytes of its own. Raw pointers, allocation and panic containment
//! stay with the host-facing shim; what is decided here is which code and which bytes.

use vstd::prelude::*;
use vstd::utf8::{decode_utf8, encode_utf8, valid_utf8};
use crate::error::{message_spec, Error};
use crate::parse::MAX_VERSION;
use crate::pipeline::{preview, preview_text_spec, render, render_spec};
use crate::profile::{CodePage, Dialect, Font, Profile};
use crate::text::utf8_bytes;

verus! {

/// Success.
pub const MDPOS_OK: i32 = 0;

/// The template was rejected; the buffer holds the message, with its line number.
pub const MDPOS_ERR_TEMPLATE: i32 = -1;

/// The template bytes were not valid UTF-8.
pub const MDPOS_ERR_INVALID_UTF8: i32 = -2;

/// A required argument was missing.
pub const MDPOS_ERR_NULL_ARG: i32 = -3;

/// A profile field held a value this build does not define.
pub const MDPOS_ERR_INVALID_PROFILE: i32 = -4;

/// Rendering failed unexpectedly; the buffer is empty.
pub const MDPOS_ERR_PANIC: i32 = -99;

/// Printer description with the enums flattened to integers.
#[derive(Debug, Clone, Copy)]
pub struct MdposProfile {
    /// Command dialect. 0 = Epson.
    pub dialect: u8,
    /// Printable width in dots. Must be non-zero.
    pub width_dots: u16,
    /// Device font. 0 = A, 1 = B.
    pub font: u8,
    /// Code page. 0 = CP437.
    pub code_page: u8,
    /// Whether `GS V 66` is honored by the mechanism.
    pub supports_partial_cut: bool,
}

/// The profile a flattened profile stands for, or why it stands for none; fields are
/// checked in declaration order.
pub open spec fn profile_of(m: MdposProfile) -> Result<Profile, Seq<char>> {
    if m.dialect != 0 {
        Err("unknown dialect: expected 0 (Epson)"@)
    } else if m.width_dots == 0 {
        Err("width_dots must be non-zero"@)
    } else if m.font > 1 {
        Err("unknown font: expected 0 (A) or 1 (B)"@)
    } else if m.code_page != 0 {
        Err("unknown code page: expected 0 (CP437)"@)
    } else {
        Ok(
            Profile {
                dialect: Dialect::Epson,
                width_dots: m.width_dots,
                font: if m.font == 0 { Font::A } else { Font::B },
                code_page: CodePage::Cp437,
                supports_partial_cut: m.supports_partial_cut,
            },
        )
    }
}

impl MdposProfile {
    /// The profile this stands for, or why it stands for none.
    pub fn to_profile(self) -> (r: Result<Profile, &'static str>)
        ensures
            match r {
                Ok(p) => profile_of(self) == Ok::<Profile, Seq<char>>(p),
                Err(m) => profile_of(self) == Err::<Profile, Seq<char>>(m@),
            },
    {
        if self.dialect != 0 {
            return Err("unknown dialect: expected 0 (Epson)");
        }
        if self.width_dots == 0 {
            return Err("width_dots must be non-zero");
        }
        let font = if self.font == 0 {
            Font::A
        } else if self.font == 1 {
            Font::B
        } else {
            return Err("unknown font: expected 0 (A) or 1 (B)");
        };
        if self.code_page != 0 {
            return Err("unknown code page: expected 0 (CP437)");
        }
        Ok(
            Profile {
                dialect: Dialect::Epson,
                width_dots: self.width_dots,
                font,
                code_page: CodePage::Cp437,
                supports_partial_cut: self.supports_partial_cut,
            },
        )
    }
}

/// The default profile: 80mm, 576 dots, Font A, CP437, Epson.
pub fn mdpos_profile_epson_80mm() -> (p: MdposProfile)
    ensures
        p.dialect == 0,
        p.width_dots == 576,
        p.font == 0,
        p.code_page == 0,
        p.supports_partial_cut,
{
    MdposProfile { dialect: 0, width_dots: 576, font: 0, code_page: 0, supports_partial_cut: true }
}

/// Characters per line for a profile at magnification `mag`; 0 when there is no profile
/// or it is invalid.
pub fn mdpos_columns(profile: Option<&MdposProfile>, mag: u8) -> (r: u16)
    ensures
        r as int == match profile {
            None => 0,
            Some(m) => match profile_of(*m) {
                Ok(p) => p.spec_columns_at(mag),
                Err(_) => 0,
            },
        },
{
    match profile {
        None => 0,
        Some(m) => match m.to_profile() {
            Ok(p) => p.columns_at(mag),
            Err(_) => 0,
        },
    }
}

/// The highest template format version this build implements.
pub fn mdpos_format_version() -> (r: u32)
    ensures
        r == MAX_VERSION,
{
    MAX_VERSION
}

/// A buffer's bytes with the terminating NUL appended, and its length without it.
pub fn nul_terminated(v: Vec<u8>) -> (r: (Vec<u8>, usize))
    ensures
        r.0@ == v@.push(0),
        r.1 == v.len(),
{
    let len = v.len();
    let mut v = v;
    v.push(0);
    (v, len)
}

/// Which entry point is answering.
#[derive(Debug, Clone, Copy, PartialEq, Eq)]
pub enum Backend {
    /// ESC/POS bytes.
    Bytes,
    /// Monospace preview text.
    Text,
}

/// What an entry point hands back: a status code and a buffer (before its terminator).
#[derive(Debug, Clone, PartialEq, Eq)]
pub struct Outcome {
    pub code: i32,
    pub bytes: Vec<u8>,
}

/// What an entry point hands back, as values: missing arguments first, then the encoding
/// of the template, then the profile, then the template itself.
pub open spec fn outcome_spec(
    template: Option<Seq<u8>>,
    profile: Option<MdposProfile>,
    backend: Backend,
) -> (i32, Seq<u8>) {
    if template is None || profile is None {
        (MDPOS_ERR_NULL_ARG, encode_utf8("template and profile must not be null"@))
    } else if !valid_utf8(template->Some_0) {
        (MDPOS_ERR_INVALID_UTF8, encode_utf8("template is not valid UTF-8"@))
    } else {
        let text = decode_utf8(template->Some_0);
        match profile_of(profile->Some_0) {
            Err(m) => (MDPOS_ERR_INVALID_PROFILE, encode_utf8(m)),
            Ok(p) => match backend {
                Backend::Bytes => match render_spec(text, p) {
                    Ok(b) => (MDPOS_OK, b),
                    Err(e) => (MDPOS_ERR_TEMPLATE, encode_utf8(message_spec(e))),
                },
                Backend::Text => match preview_text_spec(text, p) {
                    Ok(s) => (MDPOS_OK, encode_utf8(s)),
                    Err(e) => (MDPOS_ERR_TEMPLATE, encode_utf8(message_spec(e))),
                },
            },
        }
    }
}

/// Calls `std::str::from_utf8` and copies the result into a `String`.
///
/// Claims what the std documentation says: the bytes are accepted exactly when they are
/// valid UTF-8, and then the string holds the characters they encode.
#[verifier::external_body]
fn utf8_text(bytes: &[u8]) -> (r: Option<String>)
    ensures
        r is Some <==> valid_utf8(bytes@),
        r matches Some(s) ==> s@ == decode_utf8(bytes@),
{
    std::str::from_utf8(bytes).ok().map(|s| s.to_owned())
}

fn message_bytes(e: &Error) -> (r: Vec<u8>)
    ensures
        r@ == encode_utf8(message_spec(e@)),
{
    let m = e.message();
    utf8_bytes(m.as_str())
}

/// Decide what an entry point hands back for a template and a profile, each of which a
/// caller may have failed to supply.
pub fn mdpos_outcome(template: Option<&[u8]>, profile: Option<&MdposProfile>, backend: Backend) -> (r: Outcome)
    ensures
        outcome_spec(
            match template {
                Some(t) => Some(t@),
                None => None,
            },
            match profile {
                Some(p) => Some(*p),
                None => None,
            },
            backend,
        ) == (r.code, r.bytes@),
{
    let (t, m) = match (template, profile) {
        (Some(t), Some(m)) => (t, m),
        _ => return Outcome { code: MDPOS_ERR_NULL_ARG, bytes: utf8_bytes("template and profile must not be null") },
    };
    let text = match utf8_text(t) {
        Some(s) => s,
        None => return Outcome { code: MDPOS_ERR_INVALID_UTF8, bytes: utf8_bytes("template is not valid UTF-8") },
    };
    let p = match m.to_profile() {
        Ok(p) => p,
        Err(msg) => return Outcome { code: MDPOS_ERR_INVALID_PROFILE, bytes: utf8_bytes(msg) },
    };
    match backend {
        Backend::Bytes => match render(text.as_str(), &p) {
            Ok(b) => Outcome { code: MDPOS_OK, bytes: b },
            Err(e) => Outcome { code: MDPOS_ERR_TEMPLATE, bytes: message_bytes(&e) },
        },
        Backend::Text => match preview(text.as_str(), &p) {
            Ok(s) => Outcome { code: MDPOS_OK, bytes: utf8_bytes(s.as_str()) },
            Err(e) => Outcome { code: MDPOS_ERR_TEMPLATE, bytes: message_bytes(&e) },
        },
    }
}

proof fn lemma_encoded_nonempty(s: Seq<char>)
    requires
        s.len() > 0,
    ensures
        encode_utf8(s).len() > 0,
{
    vstd::utf8::encode_utf8_decode_utf8(s);
    if encode_utf8(s).len() == 0 {
        assert(encode_utf8(s) =~= Seq::<u8>::empty());
        assert(decode_utf8(Seq::<u8>::empty()) =~= Seq::<char>::empty());
    }
}

proof fn lemma_message_nonempty(e: crate::error::ErrorV)
    ensures
        message_spec(e).len() > 0,
{
    reveal_strlit("line ");
    reveal_strlit("character ");
}

/// Every answer that is not a success carries a message: the buffer that comes back with
/// an error code is never empty.
pub proof fn law_errors_carry_a_message(
    template: Option<Seq<u8>>,
    profile: Option<MdposProfile>,
    backend: Backend,
)
    ensures
        outcome_spec(template, profile, backend).0 != MDPOS_OK ==> outcome_spec(
            template,
            profile,
            backend,
        ).1.len() > 0,
{
    reveal_strlit("template and profile must not be null");
    reveal_strlit("template is not valid UTF-8");
    reveal_strlit("unknown dialect: expected 0 (Epson)");
    reveal_strlit("width_dots must be non-zero");
    reveal_strlit("unknown font: expected 0 (A) or 1 (B)");
    reveal_strlit("unknown code page: expected 0 (CP437)");
    if template is None || profile is None {
        lemma_encoded_nonempty("template and profile must not be null"@);
    } else if !valid_utf8(template->Some_0) {
        lemma_encoded_nonempty("template is not valid UTF-8"@);
    } else {
        let text = decode_utf8(template->Some_0);
        match profile_of(profile->Some_0) {
            Err(m) => lemma_encoded_nonempty(m),
            Ok(p) => {
                match backend {
                    Backend::Bytes => if let Err(e) = render_spec(text, p) {
                        lemma_message_nonempty(e);
                        lemma_encoded_nonempty(message_spec(e));
                    },
                    Backend::Text => if let Err(e) = preview_text_spec(text, p) {
                        lemma_message_nonempty(e);
                        lemma_encoded_nonempty(message_spec(e));
                    },
                }
            },
        }
    }
}


/// The refusals have their own status codes: -3 when the template or the profile is
/// missing, -2 when the template is not UTF-8, -4 when the profile is not one this build
/// defines; any other answer is 0 or -1.
pub proof fn law_refusal_codes(template: Option<Seq<u8>>, profile: Option<MdposProfile>, backend: Backend)
    ensures
        (template is None || profile is None) <==> outcome_spec(template, profile, backend).0 == -3,
        (template is Some && profile is Some && !valid_utf8(template->Some_0)) <==> outcome_spec(
            template,
            profile,
            backend,
        ).0 == -2,
        (template is Some && profile is Some && valid_utf8(template->Some_0) && profile_of(profile->Some_0) is Err)
            <==> outcome_spec(template, profile, backend).0 == -4,
        (template is Some && profile is Some && valid_utf8(template->Some_0) && profile_of(profile->Some_0) is Ok)
            ==> (outcome_spec(template, profile, backend).0 == 0 || outcome_spec(template, profile, backend).0 == -1),
{
}

/// For a readable template and a profile this build defines, the answer is 0 with the
/// rendered output exactly when rendering succeeds, and -1 with the error's message when
/// it does not.
pub proof fn law_render_codes(t: Seq<u8>, m: MdposProfile, backend: Backend)
    requires
        valid_utf8(t),
        profile_of(m) is Ok,
    ensures
        ({
            let (code, bytes) = outcome_spec(Some(t), Some(m), backend);
            let p = profile_of(m)->Ok_0;
            let text = decode_utf8(t);
            &&& backend == Backend::Bytes ==> match render_spec(text, p) {
                Ok(b) => code == 0 && bytes == b,
                Err(e) => code == -1 && bytes == encode_utf8(message_spec(e)),
            }
            &&& backend == Backend::Text ==> match preview_text_spec(text, p) {
                Ok(x) => code == 0 && bytes == encode_utf8(x),
                Err(e) => code == -1 && bytes == encode_utf8(message_spec(e)),
            }
        }),
{
}
} // verus!
