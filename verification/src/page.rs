//! The pages and output choices of the command-line renderer.
//!
//! `--html --watch` writes a self-reloading HTML document around the preview fragment,
//! and when a template fails to render, a document carrying the error instead, so the page
//! never blanks and never suggests that a broken edit was fine. Both wrap the fragment
//! verbatim and escape the path and the message they inject.

use vstd::prelude::*;
use vstd::utf8::encode_utf8;
use crate::error::{message_spec, Error, ErrorV};
use crate::pipeline::{preview, preview_html, preview_html_spec, preview_text_spec, render, render_spec};
use crate::profile::Profile;
use crate::text::{
    chars_of, decimal, digit_char, push_decimal, push_str_chars, string_from, utf8_bytes,
};

verus! {

/// How often the generated page reloads itself, in seconds.
pub const RELOAD_SECS: u32 = 1;

/// Page chrome only. The fragment carries its own scoped styles and is not touched.
pub const STYLE: &'static str = "\
body{margin:0;padding:2rem;background:#f4f4f5;display:flex;flex-direction:column;\
align-items:center;gap:1rem;font-family:system-ui,sans-serif}\
.mdpos-watch-note{margin:0;color:#71717a;font-size:.8rem}\
.mdpos-watch-error{margin:0;padding:1rem 1.25rem;max-width:60ch;background:#fef2f2;\
color:#991b1b;border-left:3px solid #dc2626;border-radius:3px;font-size:.85rem;\
white-space:pre-wrap;overflow-wrap:anywhere}";

/// Restores the scroll position that a reload resets.
pub const SCROLL: &'static str = "\
addEventListener('beforeunload',()=>sessionStorage.setItem('mdpos-y',scrollY));\
const y=sessionStorage.getItem('mdpos-y');if(y)scrollTo(0,+y);";

// --- escaping ----------------------------------------------------------------------

/// One character of a path or message, escaped for the page.
pub open spec fn escape_char(c: char) -> Seq<char> {
    if c == '&' {
        "&amp;"@
    } else if c == '<' {
        "&lt;"@
    } else if c == '>' {
        "&gt;"@
    } else if c == '"' {
        "&quot;"@
    } else {
        seq![c]
    }
}

pub open spec fn escape_spec(s: Seq<char>) -> Seq<char>
    decreases s.len(),
{
    if s.len() == 0 {
        seq![]
    } else {
        escape_spec(s.drop_last()) + escape_char(s.last())
    }
}

/// Minimal HTML escaping for the text this page injects: a template path or a message.
pub fn escape(s: &str) -> (r: String)
    ensures
        r@ == escape_spec(s@),
{
    let chars = chars_of(s);
    let mut out: Vec<char> = Vec::new();
    let mut i: usize = 0;
    while i < chars.len()
        invariant
            i <= chars.len(),
            chars@ == s@,
            out@ =~= escape_spec(chars@.take(i as int)),
        decreases chars.len() - i,
    {
        let c = chars[i];
        let ghost before = out@;
        if c == '&' {
            push_str_chars(&mut out, "&amp;");
        } else if c == '<' {
            push_str_chars(&mut out, "&lt;");
        } else if c == '>' {
            push_str_chars(&mut out, "&gt;");
        } else if c == '"' {
            push_str_chars(&mut out, "&quot;");
        } else {
            out.push(c);
        }
        assert(chars@.take(i + 1).drop_last() =~= chars@.take(i as int));
        assert(out@ =~= before + escape_char(c));
        i = i + 1;
    }
    assert(chars@.take(i as int) =~= chars@);
    string_from(out.as_slice())
}

/// An escaped path or message cannot open or close a tag or end an attribute value: no
/// `<`, `>` or `"` survives escaping.
pub proof fn law_escaped_text_cannot_break_out(s: Seq<char>)
    ensures
        forall|i: int| 0 <= i < escape_spec(s).len() ==> {
            let c = #[trigger] escape_spec(s)[i];
            c != '<' && c != '>' && c != '"'
        },
    decreases s.len(),
{
    reveal_strlit("&amp;");
    reveal_strlit("&lt;");
    reveal_strlit("&gt;");
    reveal_strlit("&quot;");
    if s.len() > 0 {
        law_escaped_text_cannot_break_out(s.drop_last());
        let a = escape_spec(s.drop_last());
        let b = escape_char(s.last());
        assert forall|i: int| 0 <= i < escape_spec(s).len() implies {
            let c = #[trigger] escape_spec(s)[i];
            c != '<' && c != '>' && c != '"'
        } by {
            if i < a.len() {
                assert(escape_spec(s)[i] == a[i]);
            } else {
                assert(escape_spec(s)[i] == b[i - a.len()]);
            }
        }
    }
}

// --- the pages ---------------------------------------------------------------------

/// Everything up to and including `<body>`, with the given title.
pub open spec fn page_head(title: Seq<char>) -> Seq<char> {
    "<!doctype html>\n<html lang=\"en\">\n<head>\n<meta charset=\"utf-8\">\n<meta http-equiv=\"refresh\" content=\""@
        + decimal(RELOAD_SECS as nat) + "\">\n<title>"@ + title + " — mdpos</title>\n<style>"@
        + STYLE@ + "</style>\n</head>\n<body>\n"@
}

/// The note naming the watched path, the scroll script, and the close of the page.
pub open spec fn page_tail(path: Seq<char>) -> Seq<char> {
    "\n<p class=\"mdpos-watch-note\">watching "@ + escape_spec(path) + " — reloads every "@
        + decimal(RELOAD_SECS as nat) + "s</p>\n<script>"@ + SCROLL@
        + "</script>\n</body>\n</html>\n"@
}

/// A preview fragment in a self-reloading document.
pub open spec fn document_spec(fragment: Seq<char>, path: Seq<char>) -> Seq<char> {
    page_head(escape_spec(path)) + fragment + page_tail(path)
}

/// The same document, reporting why the template did not render.
pub open spec fn error_document_spec(message: Seq<char>, path: Seq<char>) -> Seq<char> {
    page_head("error"@) + "<pre class=\"mdpos-watch-error\">"@ + escape_spec(message) + "</pre>"@
        + page_tail(path)
}

fn push_head(out: &mut Vec<char>, title: &str)
    ensures
        final(out)@ == old(out)@ + page_head(title@),
{
    let ghost start = out@;
    push_str_chars(
        out,
        "<!doctype html>\n<html lang=\"en\">\n<head>\n<meta charset=\"utf-8\">\n<meta http-equiv=\"refresh\" content=\"",
    );
    push_decimal(out, RELOAD_SECS as u64);
    push_str_chars(out, "\">\n<title>");
    push_str_chars(out, title);
    push_str_chars(out, " — mdpos</title>\n<style>");
    push_str_chars(out, STYLE);
    push_str_chars(out, "</style>\n</head>\n<body>\n");
    assert(out@ =~= start + page_head(title@));
}

fn push_tail(out: &mut Vec<char>, path: &str)
    ensures
        final(out)@ == old(out)@ + page_tail(path@),
{
    let ghost start = out@;
    push_str_chars(out, "\n<p class=\"mdpos-watch-note\">watching ");
    let title = escape(path);
    push_str_chars(out, title.as_str());
    push_str_chars(out, " — reloads every ");
    push_decimal(out, RELOAD_SECS as u64);
    push_str_chars(out, "s</p>\n<script>");
    push_str_chars(out, SCROLL);
    push_str_chars(out, "</script>\n</body>\n</html>\n");
    assert(out@ =~= start + page_tail(path@));
}

/// Wrap a preview fragment in a self-reloading document.
pub fn document(fragment: &str, path: &str) -> (r: String)
    ensures
        r@ == document_spec(fragment@, path@),
{
    let mut out: Vec<char> = Vec::new();
    let title = escape(path);
    push_head(&mut out, title.as_str());
    push_str_chars(&mut out, fragment);
    push_tail(&mut out, path);
    assert(out@ =~= document_spec(fragment@, path@));
    string_from(out.as_slice())
}

/// The same document, reporting why the template did not render.
pub fn error_document(message: &str, path: &str) -> (r: String)
    ensures
        r@ == error_document_spec(message@, path@),
{
    let mut out: Vec<char> = Vec::new();
    push_head(&mut out, "error");
    push_str_chars(&mut out, "<pre class=\"mdpos-watch-error\">");
    let m = escape(message);
    push_str_chars(&mut out, m.as_str());
    push_str_chars(&mut out, "</pre>");
    push_tail(&mut out, path);
    assert(out@ =~= error_document_spec(message@, path@));
    string_from(out.as_slice())
}

/// The document carries the fragment verbatim, right after the page's head.
pub proof fn law_document_embeds_the_fragment(fragment: Seq<char>, path: Seq<char>)
    ensures
        ({
            let start = page_head(escape_spec(path)).len() as int;
            document_spec(fragment, path).subrange(start, start + fragment.len()) == fragment
        }),
{
    let start = page_head(escape_spec(path)).len() as int;
    assert(document_spec(fragment, path).subrange(start, start + fragment.len()) =~= fragment);
}

// --- the clock ---------------------------------------------------------------------

/// `n` (below 100) in two digits.
pub open spec fn two_digits(n: int) -> Seq<char> {
    seq![digit_char(n / 10), digit_char(n % 10)]
}

/// The time of day `secs` seconds after midnight of day zero, as `HH:MM:SS`.
pub open spec fn clock_spec(secs: u64) -> Seq<char> {
    let day = secs as int % 86400;
    two_digits(day / 3600) + seq![':'] + two_digits((day % 3600) / 60) + seq![':'] + two_digits(
        day % 60,
    )
}

fn push_two_digits(out: &mut Vec<char>, n: u64)
    requires
        n < 100,
    ensures
        final(out)@ == old(out)@ + two_digits(n as int),
{
    let ghost start = out@;
    let hi = n / 10;
    let lo = n % 10;
    if hi == 0 {
        out.push('0');
    } else {
        push_decimal(out, hi);
    }
    assert(out@ =~= start + seq![digit_char(hi as int)]);
    let ghost mid = out@;
    if lo == 0 {
        out.push('0');
    } else {
        push_decimal(out, lo);
    }
    assert(out@ =~= mid + seq![digit_char(lo as int)]);
    assert(out@ =~= start + two_digits(n as int));
}

/// `HH:MM:SS` for a count of seconds since the Unix epoch, in UTC.
pub fn clock(secs: u64) -> (r: String)
    ensures
        r@ == clock_spec(secs),
        r@.len() == 8,
        r@[2] == ':' && r@[5] == ':',
{
    let day = secs % 86400;
    let mut out: Vec<char> = Vec::new();
    push_two_digits(&mut out, day / 3600);
    out.push(':');
    push_two_digits(&mut out, (day % 3600) / 60);
    out.push(':');
    push_two_digits(&mut out, day % 60);
    assert(out@ =~= clock_spec(secs));
    string_from(out.as_slice())
}

/// Calls `SystemTime::now()` and `duration_since(UNIX_EPOCH)`, in whole seconds.
///
/// The wall clock can say anything, so nothing is claimed of the result; a clock set
/// before the epoch reads as zero.
#[verifier::external_body]
fn unix_seconds() -> (r: u64) {
    std::time::SystemTime::now().duration_since(std::time::UNIX_EPOCH).map(|d| d.as_secs()).unwrap_or(0)
}

/// `HH:MM:SS` from the wall clock.
pub fn stamp() -> (r: String)
    ensures
        exists|secs: u64| r@ == clock_spec(secs),
        r@.len() == 8,
        r@[2] == ':' && r@[5] == ':',
{
    let secs = unix_seconds();
    clock(secs)
}

// --- what the renderer writes ------------------------------------------------------

/// Which backend the renderer runs. The last flag on the command line wins.
#[derive(Debug, Clone, Copy, PartialEq, Eq)]
pub enum Output {
    /// ESC/POS bytes.
    Bytes,
    /// Monospace preview.
    Preview,
    /// HTML preview fragment.
    Html,
}

/// The bytes a single render writes for a template.
pub open spec fn output_spec(t: Seq<char>, output: Output, p: Profile) -> Result<Seq<u8>, ErrorV> {
    match output {
        Output::Bytes => render_spec(t, p),
        Output::Preview => match preview_text_spec(t, p) {
            Ok(s) => Ok(encode_utf8(s)),
            Err(x) => Err(x),
        },
        Output::Html => match preview_html_spec(t, p) {
            Ok(s) => Ok(encode_utf8(s)),
            Err(x) => Err(x),
        },
    }
}

/// Render a template once, to the bytes the chosen backend writes.
pub fn render_output(template: &str, output: Output, profile: &Profile) -> (r: Result<Vec<u8>, Error>)
    ensures
        match r {
            Ok(b) => output_spec(template@, output, *profile) == Ok::<Seq<u8>, ErrorV>(b@),
            Err(e) => output_spec(template@, output, *profile) == Err::<Seq<u8>, ErrorV>(e@),
        },
{
    match output {
        Output::Bytes => render(template, profile),
        Output::Preview => match preview(template, profile) {
            Ok(s) => Ok(utf8_bytes(s.as_str())),
            Err(e) => Err(e),
        },
        Output::Html => match preview_html(template, profile) {
            Ok(s) => Ok(utf8_bytes(s.as_str())),
            Err(e) => Err(e),
        },
    }
}

/// What one pass of the watch loop shows for a template: the monospace preview, or the
/// HTML preview wrapped in its self-reloading document; or the error's message.
pub open spec fn watch_spec(t: Seq<char>, output: Output, path: Seq<char>, p: Profile) -> Result<
    Seq<char>,
    Seq<char>,
> {
    match output {
        Output::Html => match preview_html_spec(t, p) {
            Ok(f) => Ok(document_spec(f, path)),
            Err(x) => Err(message_spec(x)),
        },
        _ => match preview_text_spec(t, p) {
            Ok(s) => Ok(s),
            Err(x) => Err(message_spec(x)),
        },
    }
}

/// One pass of the watch loop, once the template has been read: what to show, or the
/// message to report. Byte output is never watched.
pub fn watch_render(template: &str, output: Output, path: &str, profile: &Profile) -> (r: Result<
    String,
    String,
>)
    requires
        output != Output::Bytes,
    ensures
        match r {
            Ok(s) => watch_spec(template@, output, path@, *profile) == Ok::<Seq<char>, Seq<char>>(s@),
            Err(m) => watch_spec(template@, output, path@, *profile) == Err::<Seq<char>, Seq<char>>(m@),
        },
{
    match output {
        Output::Html => match preview_html(template, profile) {
            Ok(f) => Ok(document(f.as_str(), path)),
            Err(e) => Err(e.message()),
        },
        _ => match preview(template, profile) {
            Ok(s) => Ok(s),
            Err(e) => Err(e.message()),
        },
    }
}


/// The number two decimal digit characters write.
pub open spec fn two_digit_value(a: char, b: char) -> int {
    (a as int - '0' as int) * 10 + (b as int - '0' as int)
}

proof fn lemma_two_digits(n: int)
    requires
        0 <= n < 100,
    ensures
        two_digit_value(two_digits(n)[0], two_digits(n)[1]) == n,
        '0' <= two_digits(n)[0] <= '9' && '0' <= two_digits(n)[1] <= '9',
{
    let h = n / 10;
    let l = n % 10;
    assert(0 <= h < 10 && 0 <= l < 10);
    assert(digit_char(h) as int == '0' as int + h);
    assert(digit_char(l) as int == '0' as int + l);
}

/// The clock reads back as the time of day it stands for: hours below 24, minutes and
/// seconds below 60, each in two digits, separated by colons, adding up to the seconds
/// since midnight (UTC) of the moment given.
pub proof fn law_clock_reads_back(secs: u64)
    ensures
        ({
            let c = clock_spec(secs);
            let hh = two_digit_value(c[0], c[1]);
            let mm = two_digit_value(c[3], c[4]);
            let ss = two_digit_value(c[6], c[7]);
            &&& c.len() == 8 && c[2] == ':' && c[5] == ':'
            &&& 0 <= hh < 24 && 0 <= mm < 60 && 0 <= ss < 60
            &&& hh * 3600 + mm * 60 + ss == secs as int % 86400
        }),
{
    let day = secs as int % 86400;
    let h = day / 3600;
    let m = (day % 3600) / 60;
    let t = day % 60;
    assert(0 <= h < 24 && 0 <= m < 60 && 0 <= t < 60);
    assert(h * 3600 + m * 60 + t == day);
    lemma_two_digits(h);
    lemma_two_digits(m);
    lemma_two_digits(t);
    let c = clock_spec(secs);
    assert(c[0] == two_digits(h)[0] && c[1] == two_digits(h)[1]);
    assert(c[3] == two_digits(m)[0] && c[4] == two_digits(m)[1]);
    assert(c[6] == two_digits(t)[0] && c[7] == two_digits(t)[1]);
}

/// Paths and messages are escaped character by character: `&` is `&amp;`, `<` is `&lt;`,
/// `>` is `&gt;`, `"` is `&quot;`, every other character stays itself, and the escape of a
/// concatenation is the concatenation of the escapes.
pub proof fn law_page_escape_table(a: Seq<char>, b: Seq<char>, c: char)
    ensures
        escape_spec(seq!['&']) == seq!['&', 'a', 'm', 'p', ';'],
        escape_spec(seq!['<']) == seq!['&', 'l', 't', ';'],
        escape_spec(seq!['>']) == seq!['&', 'g', 't', ';'],
        escape_spec(seq!['"']) == seq!['&', 'q', 'u', 'o', 't', ';'],
        c != '&' && c != '<' && c != '>' && c != '"' ==> escape_spec(seq![c]) == seq![c],
        escape_spec(a + b) == escape_spec(a) + escape_spec(b),
    decreases b.len(),
{
    reveal_strlit("&amp;");
    reveal_strlit("&lt;");
    reveal_strlit("&gt;");
    reveal_strlit("&quot;");
    assert(seq![c].drop_last() =~= Seq::<char>::empty());
    assert(seq!['&'].drop_last() =~= Seq::<char>::empty());
    assert(seq!['<'].drop_last() =~= Seq::<char>::empty());
    assert(seq!['>'].drop_last() =~= Seq::<char>::empty());
    assert(seq!['"'].drop_last() =~= Seq::<char>::empty());
    assert(escape_spec(Seq::<char>::empty()) == Seq::<char>::empty());
    assert(Seq::<char>::empty() + seq!['&', 'a', 'm', 'p', ';'] =~= seq!['&', 'a', 'm', 'p', ';']);
    assert(Seq::<char>::empty() + seq!['&', 'l', 't', ';'] =~= seq!['&', 'l', 't', ';']);
    assert(Seq::<char>::empty() + seq!['&', 'g', 't', ';'] =~= seq!['&', 'g', 't', ';']);
    assert(Seq::<char>::empty() + seq!['&', 'q', 'u', 'o', 't', ';'] =~= seq!['&', 'q', 'u', 'o', 't', ';']);
    assert(Seq::<char>::empty() + seq![c] =~= seq![c]);
    assert("&amp;"@ =~= seq!['&', 'a', 'm', 'p', ';']);
    assert("&lt;"@ =~= seq!['&', 'l', 't', ';']);
    assert("&gt;"@ =~= seq!['&', 'g', 't', ';']);
    assert("&quot;"@ =~= seq!['&', 'q', 'u', 'o', 't', ';']);
    if b.len() == 0 {
        assert(a + b =~= a);
        assert(escape_spec(a) + escape_spec(b) =~= escape_spec(a));
    } else {
        law_page_escape_table(a, b.drop_last(), c);
        assert((a + b).drop_last() =~= a + b.drop_last());
        assert((a + b).last() == b.last());
        assert(escape_spec(a) + escape_spec(b.drop_last()) + escape_char(b.last()) =~= escape_spec(a) + (
        escape_spec(b.drop_last()) + escape_char(b.last())));
    }
}
} // verus!
