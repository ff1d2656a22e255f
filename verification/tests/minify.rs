use svdmini::text::normalize;
use svdmini::xml::minify;
use svdmini::xml::Token;
use svdmini::xml::XmlMinifier;
use svdmini::MinifyError;

#[test]
fn test_minify() {
    let xml = r#"
            <xml>
                <foo>
                    <bar>baz</bar>
                </foo>
            </xml>
        "#;

    let minified = minify(xml).unwrap();
    assert_eq!(minified, "a=xml,b=foo,c=bar\n<a><b><c>baz</c></b></a>")
}

#[test]
fn minify_is_insensitive_to_surrounding_indentation() {
    let xml = "\t<xml>\n  <foo><bar>baz</bar></foo>\n</xml>\n\n";
    let minified = minify(xml).unwrap();
    assert_eq!(minified, "a=xml,b=foo,c=bar\n<a><b><c>baz</c></b></a>")
}

#[test]
fn minify_runs_are_deterministic() {
    let xml = "<xml>\n  <foo>one two</foo>\n  <foo>three</foo>\n</xml>";
    let first = minify(xml).unwrap();
    let second = minify(xml).unwrap();
    assert_eq!(first, second);
}

#[test]
fn minify_drops_ignored_subtrees() {
    let xml = "<root><baseAddress>0x40</baseAddress><x>keep</x></root>";
    let minified = minify(xml).unwrap();
    assert_eq!(minified, "a=root,b=x\n<a><b>keep</b></a>");
    assert!(!minified.contains("baseAddress"));
    assert!(!minified.contains("0x40"));
}

#[test]
fn minify_tracks_nesting_inside_ignored_subtrees() {
    let xml = "<root><size><size><x>inner</x></size></size><y>ok</y></root>";
    let minified = minify(xml).unwrap();
    assert_eq!(minified, "a=root,b=y\n<a><b>ok</b></a>");
}

#[test]
fn minify_reuses_the_symbol_of_a_repeated_tag() {
    let xml = "<q><r>1</r><r>2</r></q>";
    let minified = minify(xml).unwrap();
    assert_eq!(minified, "a=q,b=r\n<a><b>1</b><b>2</b></a>");
}

#[test]
fn minify_elides_whitespace_only_text() {
    let xml = "<a> \n\t </a>";
    let minified = minify(xml).unwrap();
    assert_eq!(minified, "a=a\n<a></a>");
}

#[test]
fn minify_fails_on_the_twenty_seventh_tag_name() {
    let mut open = String::new();
    let mut close = String::new();
    for i in 0..27 {
        open.push_str(&format!("<t{}>", i));
        close.insert_str(0, &format!("</t{}>", i));
    }
    let xml = format!("{}{}", open, close);
    assert_eq!(minify(&xml), Err(MinifyError::CapacityExceeded));
}

#[test]
fn minify_handles_exactly_twenty_six_tag_names() {
    let mut open = String::new();
    let mut close = String::new();
    for i in 0..26 {
        open.push_str(&format!("<t{}>", i));
        close.insert_str(0, &format!("</t{}>", i));
    }
    let xml = format!("{}{}", open, close);
    let minified = minify(&xml).unwrap();
    assert!(minified.starts_with("a=t0,b=t1,"));
    assert!(minified.contains("z=t25\n"));
}

#[test]
fn minify_keeps_entity_references_in_text() {
    // The tokenizer splits text at a reference and hands the reference
    // through in its raw form; each fragment is normalized on its own.
    let minified = minify("<t>a &amp; b</t>").unwrap();
    assert_eq!(minified, "a=t\n<a>a&amp;b</a>");
}

#[test]
fn minify_rejects_mismatched_end_tags() {
    assert_eq!(minify("<a><b></a>"), Err(MinifyError::MalformedInput));
}

#[test]
fn normalize_deletes_long_whitespace_runs_outright() {
    // The policy deletes a run of two or more whitespace characters; it does
    // not collapse it to a single space.
    assert_eq!(normalize("a\n\n  b"), "ab");
}

#[test]
fn normalize_keeps_isolated_spaces() {
    assert_eq!(normalize("one two\tthree"), "one two three");
    assert_eq!(normalize("  lead and trail "), "lead and trail");
    assert_eq!(normalize("\r\rcr gone\r"), "cr gone");
}

#[test]
fn normalize_of_whitespace_only_is_empty() {
    assert_eq!(normalize(" \t\r\n \n "), "");
    assert_eq!(normalize(""), "");
}

#[test]
fn normalize_is_idempotent_on_samples() {
    let samples = ["a\n\n  b", "  x \t y  ", "no change", " \r\n ", "a  b c\td"];
    for s in samples {
        let once = normalize(s);
        assert_eq!(normalize(&once), once);
    }
}

#[test]
fn allocator_assigns_symbols_in_first_seen_order() {
    let mut m = XmlMinifier::new();
    assert_eq!(m.get_minified_tag_idx("foo"), Ok(0));
    assert_eq!(m.get_minified_tag_idx("bar"), Ok(1));
    assert_eq!(m.get_minified_tag_idx("foo"), Ok(0));
    assert_eq!(m.get_minified_tag("bar"), Ok('b'));
    assert_eq!(m.get_minified_tag("baz"), Ok('c'));
    assert_eq!(m.tags(), "a=foo,b=bar,c=baz");
}

#[test]
fn allocator_fails_past_the_alphabet() {
    let mut m = XmlMinifier::new();
    for i in 0..26 {
        let name = format!("n{}", i);
        assert_eq!(m.get_minified_tag_idx(&name), Ok(i as u8));
    }
    assert_eq!(
        m.get_minified_tag_idx("overflow"),
        Err(MinifyError::CapacityExceeded)
    );
    // The failure does not rebind anything: old names still resolve.
    assert_eq!(m.get_minified_tag_idx("n3"), Ok(3));
}

#[test]
fn minify_tokens_rewrites_a_prepared_stream() {
    let mut m = XmlMinifier::new();
    let toks = vec![
        Token::Start(String::from("xml")),
        Token::Text(String::from("  \n ")),
        Token::Start(String::from("foo")),
        Token::Text(String::from("a\n\n  b")),
        Token::End(String::from("foo")),
        Token::Start(String::from("usage")),
        Token::Text(String::from("dropped")),
        Token::End(String::from("usage")),
        Token::End(String::from("xml")),
    ];
    let body = m.minify_tokens(&toks).unwrap();
    assert_eq!(body, "<a><b>ab</b></a>");
    assert_eq!(m.tags(), "a=xml,b=foo");
}

#[test]
fn minifier_method_rewrites_and_reports_tags() {
    let mut m = XmlMinifier::new();
    let body = m.minify("<zz>x</zz>").unwrap();
    assert_eq!(body, "<a>x</a>");
    assert_eq!(m.tags(), "a=zz");
    // The table persists across calls on one minifier.
    let body = m.minify("<zz>y</zz><ww>z</ww>").unwrap();
    assert_eq!(body, "<a>y</a><b>z</b>");
    assert_eq!(m.tags(), "a=zz,b=ww");
}

#[test]
fn fresh_minifier_exports_an_empty_table() {
    let m = XmlMinifier::new();
    assert_eq!(m.tags(), "");
}

#[test]
fn error_messages_name_the_failure() {
    assert_eq!(
        MinifyError::CapacityExceeded.message(),
        "too many distinct tag names"
    );
    assert_eq!(MinifyError::MalformedInput.message(), "malformed document");
    assert_eq!(
        MinifyError::UnsupportedKind(String::from("toml")).message(),
        "unsupported file type: toml"
    );
}
