use block_parser::parser;
use block_parser::Block;

/// Re-emits a parsed tree the way the round-trip reconstruction walks it:
/// freeform nodes give their raw text, block nodes interleave their content
/// segments with the children's raw text.
fn emit(b: &Block) -> String {
    if b.block_name.is_none() {
        return b.inner_html.clone();
    }
    let mut s = String::new();
    for (i, seg) in b.inner_content.iter().enumerate() {
        s.push_str(seg);
        if i < b.inner_blocks.len() {
            s.push_str(&b.inner_blocks[i].inner_html);
        }
    }
    s
}

fn emit_all(blocks: &[Block]) -> String {
    let mut s = String::new();
    for b in blocks {
        s.push_str(&emit(b));
    }
    s
}

#[test]
fn one_block_with_attrs_and_child() {
    let doc = "<!-- block:col {\"n\":3} --><!-- block:row --><!-- /block:row --><!-- /block:col -->";
    let out = parser(doc);
    assert_eq!(out.len(), 1);
    let col = &out[0];
    assert_eq!(col.block_name.as_deref(), Some("col"));
    let attrs = col.attrs.as_ref().expect("col has an attribute payload");
    assert_eq!(attrs.len(), 1);
    assert_eq!(
        attrs.get("n"),
        Some(&serde_json::Value::Number(serde_json::Number::from(3)))
    );
    assert_eq!(col.inner_blocks.len(), 1);
    let row = &col.inner_blocks[0];
    assert_eq!(row.block_name.as_deref(), Some("row"));
    assert!(row.attrs.is_none());
    assert!(row.inner_blocks.is_empty());
    assert_eq!(row.inner_html, "<!-- block:row --><!-- /block:row -->");
    assert_eq!(col.inner_html, doc);
    assert_eq!(
        col.inner_content,
        vec![
            "<!-- block:col {\"n\":3} -->".to_string(),
            "<!-- /block:col -->".to_string(),
        ]
    );
}

#[test]
fn void_block_between_freeform() {
    let doc = "text<!-- block:img / -->more";
    let out = parser(doc);
    assert_eq!(out.len(), 3);
    assert!(out[0].block_name.is_none());
    assert_eq!(out[0].inner_html, "text");
    assert_eq!(out[1].block_name.as_deref(), Some("img"));
    assert!(out[1].attrs.is_none());
    assert!(out[1].inner_blocks.is_empty());
    assert_eq!(out[1].inner_html, "<!-- block:img / -->");
    assert!(out[2].block_name.is_none());
    assert_eq!(out[2].inner_html, "more");
}

#[test]
fn stray_closer_alone_yields_nothing() {
    let out = parser("<!-- /block:row -->");
    assert!(out.is_empty());
}

#[test]
fn stray_closer_consumes_preceding_text() {
    let out = parser("abc<!-- /block:x -->def");
    assert_eq!(out.len(), 1);
    assert!(out[0].block_name.is_none());
    assert_eq!(out[0].inner_html, "def");
}

#[test]
fn no_delimiters_whole_document_is_freeform() {
    let out = parser("hello world");
    assert_eq!(out.len(), 1);
    assert!(out[0].block_name.is_none());
    assert!(out[0].attrs.is_none());
    assert_eq!(out[0].inner_html, "hello world");
    assert_eq!(out[0].inner_content, vec!["hello world".to_string()]);
}

#[test]
fn empty_document_yields_nothing() {
    assert!(parser("").is_empty());
}

#[test]
fn lookalike_markers_are_freeform() {
    let out = parser("<!-- notblock:a --> and <!-- block:9bad -->");
    assert_eq!(out.len(), 1);
    assert!(out[0].block_name.is_none());
    assert_eq!(out[0].inner_html, "<!-- notblock:a --> and <!-- block:9bad -->");
}

#[test]
fn nesting_three_levels_one_child_each() {
    let doc = "<!-- block:a --><!-- block:b --><!-- block:c --><!-- /block:c --><!-- /block:b --><!-- /block:a -->";
    let out = parser(doc);
    assert_eq!(out.len(), 1);
    let a = &out[0];
    assert_eq!(a.block_name.as_deref(), Some("a"));
    assert_eq!(a.inner_blocks.len(), 1);
    let b = &a.inner_blocks[0];
    assert_eq!(b.block_name.as_deref(), Some("b"));
    assert_eq!(b.inner_blocks.len(), 1);
    let c = &b.inner_blocks[0];
    assert_eq!(c.block_name.as_deref(), Some("c"));
    assert!(c.inner_blocks.is_empty());
    assert_eq!(c.inner_html, "<!-- block:c --><!-- /block:c -->");
    assert_eq!(a.inner_html, doc);
}

#[test]
fn nesting_with_distinct_names_gives_a_single_chain() {
    let names = ["outer", "mid-dle", "in_9", "leaf"];
    let mut doc = String::new();
    for name in names {
        doc.push_str(&format!("<!-- block:{name} -->"));
    }
    for name in names.iter().rev() {
        doc.push_str(&format!("<!-- /block:{name} -->"));
    }
    let out = parser(&doc);
    assert_eq!(out.len(), 1);
    let mut cur = &out[0];
    for (depth, name) in names.iter().enumerate() {
        assert_eq!(cur.block_name.as_deref(), Some(*name));
        assert!(cur.attrs.is_none());
        if depth < names.len() - 1 {
            assert_eq!(cur.inner_blocks.len(), 1);
            cur = &cur.inner_blocks[0];
        } else {
            assert!(cur.inner_blocks.is_empty());
        }
    }
    assert_eq!(emit_all(&out), doc);
}

#[test]
fn uniform_nesting_gives_a_single_chain() {
    let n = 5;
    let doc = format!(
        "{}{}",
        "<!-- block:a -->".repeat(n),
        "<!-- /block:a -->".repeat(n)
    );
    let out = parser(&doc);
    assert_eq!(out.len(), 1);
    let mut cur = &out[0];
    for depth in 0..n {
        assert_eq!(cur.block_name.as_deref(), Some("a"));
        assert!(cur.attrs.is_none());
        if depth < n - 1 {
            assert_eq!(cur.inner_blocks.len(), 1);
            cur = &cur.inner_blocks[0];
        } else {
            assert!(cur.inner_blocks.is_empty());
        }
    }
    assert_eq!(emit_all(&out), doc);
}

#[test]
fn siblings_keep_document_order() {
    let doc = "<!-- block:list -->one<!-- block:x / -->two<!-- block:y / -->three<!-- /block:list -->";
    let out = parser(doc);
    assert_eq!(out.len(), 1);
    let list = &out[0];
    let kinds: Vec<Option<&str>> = list
        .inner_blocks
        .iter()
        .map(|b| b.block_name.as_deref())
        .collect();
    assert_eq!(kinds, vec![None, Some("x"), None, Some("y")]);
    assert_eq!(list.inner_blocks[0].inner_html, "one");
    assert_eq!(list.inner_blocks[2].inner_html, "two");
    // the text right before the closer stays in the final content segment
    assert_eq!(
        list.inner_content.last().unwrap(),
        "three<!-- /block:list -->"
    );
    assert_eq!(emit_all(&out), doc);
}

#[test]
fn malformed_attribute_payload_degrades_to_none() {
    let doc = "<!-- block:a {\"a\":} --><!-- /block:a -->";
    let out = parser(doc);
    assert_eq!(out.len(), 1);
    assert_eq!(out[0].block_name.as_deref(), Some("a"));
    assert!(out[0].attrs.is_none());
}

#[test]
fn empty_object_payload_is_kept_distinct_from_absent() {
    let out = parser("<!-- block:a {} / -->");
    assert_eq!(out.len(), 1);
    let attrs = out[0].attrs.as_ref().expect("empty object is still present");
    assert!(attrs.is_empty());
    let out2 = parser("<!-- block:a / -->");
    assert!(out2[0].attrs.is_none());
}

#[test]
fn nested_braces_in_payload_are_matched() {
    let doc = "<!-- block:a {\"m\":{\"k\":1}} / -->";
    let out = parser(doc);
    assert_eq!(out.len(), 1);
    let attrs = out[0].attrs.as_ref().unwrap();
    let m = attrs.get("m").unwrap();
    assert_eq!(m.get("k"), Some(&serde_json::Value::Number(serde_json::Number::from(1))));
}

#[test]
fn brace_inside_string_value_is_tolerated() {
    // a literal `}` inside a string value does not end the payload
    let doc = "<!-- block:a {\"s\":\"}\"} / -->";
    let out = parser(doc);
    assert_eq!(out.len(), 1);
    assert_eq!(out[0].block_name.as_deref(), Some("a"));
    assert!(out[0].inner_blocks.is_empty());
    let attrs = out[0].attrs.as_ref().unwrap();
    assert_eq!(attrs.get("s"), Some(&serde_json::Value::String("}".to_string())));
    assert_eq!(emit_all(&out), doc);
}

#[test]
fn escapes_inside_string_values_are_honoured() {
    // an escaped quote does not close the string, so the braces behind it
    // still count; an escaped backslash does not escape the closing quote
    let doc = "<!-- block:a {\"q\":\"\\\"}\",\"p\":\"x\\\\\"} / -->";
    let out = parser(doc);
    assert_eq!(out.len(), 1);
    assert_eq!(out[0].block_name.as_deref(), Some("a"));
    let attrs = out[0].attrs.as_ref().unwrap();
    assert_eq!(attrs.get("q"), Some(&serde_json::Value::String("\"}".to_string())));
    assert_eq!(attrs.get("p"), Some(&serde_json::Value::String("x\\".to_string())));
}

#[test]
fn comment_close_inside_string_value_does_not_end_the_payload() {
    let doc = "<!-- block:a {\"u\":\"-->\"} / -->rest";
    let out = parser(doc);
    assert_eq!(out.len(), 2);
    assert_eq!(out[0].block_name.as_deref(), Some("a"));
    assert_eq!(
        out[0].attrs.as_ref().unwrap().get("u"),
        Some(&serde_json::Value::String("-->".to_string()))
    );
    assert_eq!(out[1].inner_html, "rest");
    assert_eq!(emit_all(&out), doc);
}

#[test]
fn unterminated_string_in_payload_means_no_delimiter() {
    // the payload never balances, so no delimiter is recognized and the
    // whole text stays freeform
    let doc = "<!-- block:a {\"s -->";
    let out = parser(doc);
    assert_eq!(out.len(), 1);
    assert!(out[0].block_name.is_none());
    assert_eq!(out[0].inner_html, doc);
}

#[test]
fn namespaced_name_is_resolved_with_slash() {
    let doc = "<!-- block:myns/widget -->w<!-- /block:myns/widget -->";
    let out = parser(doc);
    assert_eq!(out.len(), 1);
    assert_eq!(out[0].block_name.as_deref(), Some("myns/widget"));
}

#[test]
fn whitespace_is_flexible() {
    let out = parser("<!--block:a/-->");
    assert_eq!(out.len(), 1);
    assert_eq!(out[0].block_name.as_deref(), Some("a"));
    assert!(out[0].inner_blocks.is_empty());
    let out2 = parser("<!--   block:b-c_d   {\"k\":\"v\"}   /   -->");
    assert_eq!(out2.len(), 1);
    assert_eq!(out2[0].block_name.as_deref(), Some("b-c_d"));
    assert_eq!(
        out2[0].attrs.as_ref().unwrap().get("k"),
        Some(&serde_json::Value::String("v".to_string()))
    );
}

#[test]
fn unterminated_opener_is_force_closed_at_end() {
    let doc = "<!-- block:a -->tail";
    let out = parser(doc);
    assert_eq!(out.len(), 1);
    let a = &out[0];
    assert_eq!(a.block_name.as_deref(), Some("a"));
    assert!(a.inner_blocks.is_empty());
    assert_eq!(a.inner_html, doc);
    assert_eq!(a.inner_content, vec![doc.to_string()]);
}

#[test]
fn unterminated_nested_openers_are_all_closed() {
    let doc = "x<!-- block:a -->y<!-- block:b -->z";
    let out = parser(doc);
    assert_eq!(out.len(), 2);
    assert_eq!(out[0].inner_html, "x");
    let a = &out[1];
    assert_eq!(a.block_name.as_deref(), Some("a"));
    assert_eq!(a.inner_blocks.len(), 2);
    assert!(a.inner_blocks[0].block_name.is_none());
    assert_eq!(a.inner_blocks[0].inner_html, "y");
    let b = &a.inner_blocks[1];
    assert_eq!(b.block_name.as_deref(), Some("b"));
    assert_eq!(b.inner_html, "<!-- block:b -->z");
    assert_eq!(emit_all(&out), doc);
}

#[test]
fn closer_is_lenient_about_names() {
    let doc = "<!-- block:a -->x<!-- /block:b -->";
    let out = parser(doc);
    assert_eq!(out.len(), 1);
    assert_eq!(out[0].block_name.as_deref(), Some("a"));
    assert_eq!(out[0].inner_html, doc);
}

#[test]
fn delimiter_found_after_false_start() {
    let doc = "<!-- <!-- block:a / -->";
    let out = parser(doc);
    assert_eq!(out.len(), 2);
    assert!(out[0].block_name.is_none());
    assert_eq!(out[0].inner_html, "<!-- ");
    assert_eq!(out[1].block_name.as_deref(), Some("a"));
}

#[test]
fn round_trip_reconstructs_documents() {
    let docs = [
        "",
        "plain text only",
        "<!-- block:a --><!-- /block:a -->",
        "pre<!-- block:a -->in<!-- block:b / -->mid<!-- /block:a -->post",
        "<!-- block:col {\"n\":3} --><!-- block:row -->deep<!-- /block:row --><!-- /block:col -->",
        "<!-- block:a -->no closer at all",
        "a<!-- block:x --><!-- block:y -->b<!-- /block:y -->c<!-- /block:x -->d",
        "unicode \u{00e9}\u{4e2d}\u{6587}<!-- block:u / -->\u{1f600}",
    ];
    for doc in docs {
        let out = parser(doc);
        assert_eq!(emit_all(&out), *doc, "document was not reconstructed: {doc:?}");
    }
}
