use block_parser::tokenizer::next_token;
use block_parser::Block;
use block_parser::TokenKind;

fn chars(s: &str) -> Vec<char> {
    s.chars().collect()
}

#[test]
fn finds_leftmost_delimiter() {
    let doc = chars("text <!-- block:para --> rest");
    let t = next_token(&doc, 0).expect("a delimiter is present");
    assert_eq!(t.kind, TokenKind::Opener);
    assert_eq!(t.name, "para");
    assert!(t.attrs.is_none());
    assert_eq!(t.start, 5);
    assert_eq!(t.length, "<!-- block:para -->".len());
}

#[test]
fn scanning_starts_at_the_offset() {
    let doc = chars("<!-- block:a / --><!-- /block:b -->");
    let first = next_token(&doc, 0).unwrap();
    assert_eq!(first.kind, TokenKind::Void);
    assert_eq!(first.name, "a");
    let second = next_token(&doc, first.start + first.length).unwrap();
    assert_eq!(second.kind, TokenKind::Closer);
    assert_eq!(second.name, "b");
    assert!(next_token(&doc, second.start + second.length).is_none());
}

#[test]
fn no_token_in_plain_text() {
    let doc = chars("no markers here, not even < or -->");
    assert!(next_token(&doc, 0).is_none());
}

#[test]
fn payload_is_parsed_into_attributes() {
    let doc = chars("<!-- block:a {\"k\": [1, 2]} -->");
    let t = next_token(&doc, 0).unwrap();
    let attrs = t.attrs.expect("object payload");
    let v = attrs.get("k").unwrap();
    assert_eq!(v.as_array().unwrap().len(), 2);
}

#[test]
fn non_object_payload_gives_no_attributes() {
    let doc = chars("<!-- block:a {\"broken\" -->");
    // unbalanced brace: no delimiter at all
    assert!(next_token(&doc, 0).is_none());
    let doc2 = chars("<!-- block:a {\"a\":} -->");
    let t = next_token(&doc2, 0).unwrap();
    assert!(t.attrs.is_none());
    assert_eq!(t.kind, TokenKind::Opener);
}

#[test]
fn void_sign_wins_over_closer_sign() {
    let doc = chars("<!-- /block:a / -->");
    let t = next_token(&doc, 0).unwrap();
    assert_eq!(t.kind, TokenKind::Void);
}

#[test]
fn freeform_constructor_holds_the_text() {
    let b = Block::new("some text");
    assert!(b.block_name.is_none());
    assert!(b.attrs.is_none());
    assert!(b.inner_blocks.is_empty());
    assert_eq!(b.inner_html, "some text");
    assert_eq!(b.inner_content, vec!["some text".to_string()]);
}
