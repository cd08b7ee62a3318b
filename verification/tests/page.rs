use tk_mdpos::page::{document, error_document, escape, stamp};
use tk_mdpos::{preview_html, render, Profile};

#[test]
fn escaping_covers_the_characters_that_break_markup() {
    assert_eq!(escape("a<b>&\"c\""), "a&lt;b&gt;&amp;&quot;c&quot;");
    assert_eq!(escape("plain"), "plain");
}

#[test]
fn the_document_embeds_the_fragment_verbatim() {
    let fragment = preview_html("{center}\nHI\n{cut}", &Profile::epson_80mm())
        .expect("fixture template renders");
    let page = document(&fragment, "receipt.tmpl");

    assert!(page.contains(&fragment), "fragment was altered");
    assert!(page.starts_with("<!doctype html>"));
    assert!(page.contains("http-equiv=\"refresh\""));
}

#[test]
fn the_error_document_carries_the_message() {
    let err = render("{cols 20,6:r}\nItem | 1.250.000", &Profile::epson_80mm())
        .expect_err("right-column overflow is rejected");
    let page = error_document(&err.message(), "receipt.tmpl");

    assert!(page.contains("line 2"));
    assert!(page.contains("overflows right-aligned column"));
    assert!(page.contains("http-equiv=\"refresh\""), "must keep retrying");
}

#[test]
fn a_path_containing_markup_cannot_break_out_of_the_page() {
    let page = document("<div></div>", "<script>alert(1)</script>.tmpl");
    assert!(!page.contains("<script>alert(1)</script>"));
    assert!(page.contains("&lt;script&gt;"));
}

#[test]
fn the_clock_is_wall_time_of_day() {
    let s = stamp();
    assert_eq!(s.len(), 8, "{}", s);
    assert!(s.as_bytes()[2] == b':' && s.as_bytes()[5] == b':', "{}", s);
}
