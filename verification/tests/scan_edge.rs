use html_parser::ScanError;
use html_parser::Scanner;
use html_parser::Token;
use html_parser::Tokenizer::Annocation;
use html_parser::Tokenizer::Attribute;
use html_parser::Tokenizer::EndTag;
use html_parser::Tokenizer::Tag;
use html_parser::Tokenizer::Text;
use html_parser::status::Flags;

#[test]
fn scanning_twice_is_identical() {
    let text = b"<a href=\"https://x.org\">ESDoc<span data-ice=\"v\">(0.4.8)</span></a>";
    let mut first = Scanner::new(text);
    let mut second = Scanner::new(text);
    assert_eq!(first.parse().unwrap(), second.parse().unwrap());
}

#[test]
fn esdoc_line_tokenizes_in_order() {
    let text = b"<a href=\"https://x.org\">ESDoc<span data-ice=\"v\">(0.4.8)</span></a>";
    let mut scanner = Scanner::new(text);
    let tokens = scanner.parse().unwrap();
    let expected = vec![
        Token { tokenizer: Tag, value: "a".to_string() },
        Token { tokenizer: Attribute, value: "href=\"https://x.org\"".to_string() },
        Token { tokenizer: Text, value: "ESDoc".to_string() },
        Token { tokenizer: Tag, value: "span".to_string() },
        Token { tokenizer: Attribute, value: "data-ice=\"v\"".to_string() },
        Token { tokenizer: Text, value: "(0.4.8)".to_string() },
        Token { tokenizer: EndTag, value: "span".to_string() },
        Token { tokenizer: EndTag, value: "a".to_string() },
    ];
    assert_eq!(tokens, expected);
}

#[test]
fn invalid_utf8_is_an_error() {
    let text = b"<a>\xffx</a>";
    let mut scanner = Scanner::new(text);
    assert_eq!(scanner.parse(), Err(ScanError::InvalidUtf8));
}

#[test]
fn invalid_bytes_outside_every_slice_are_ignored() {
    // The trailing pending slice is never flushed, so its bytes are
    // never decoded.
    let mut scanner = Scanner::new(b"<a>x\xff");
    let tokens = scanner.parse().unwrap();
    assert_eq!(tokens, vec![Token::new("a", true, false, false, false)]);
}

#[test]
fn trailing_text_is_dropped() {
    let mut scanner = Scanner::new(b"<a>hello");
    let tokens = scanner.parse().unwrap();
    assert_eq!(tokens, vec![Token::new("a", true, false, false, false)]);
}

#[test]
fn truncated_comment_is_dropped() {
    let mut scanner = Scanner::new(b"<a></a><!-- never closed");
    let tokens = scanner.parse().unwrap();
    assert_eq!(
        tokens,
        vec![
            Token::new("a", true, false, false, false),
            Token::new("a", true, true, false, false),
        ]
    );
}

#[test]
fn comment_terminator_inside_opener() {
    // `<!-->`: the terminator fires before the cursor reaches the
    // comment body, so the annotation is empty.
    let mut scanner = Scanner::new(b"<!-->");
    let tokens = scanner.parse().unwrap();
    assert_eq!(tokens, vec![Token::new("", false, false, false, true)]);
}

#[test]
fn empty_input_yields_nothing() {
    let mut scanner = Scanner::new(b"");
    let tokens = scanner.parse().unwrap();
    assert!(tokens.is_empty());
    let (root, diags) = scanner.lexer(tokens);
    assert!(diags.is_empty());
    assert!(root.is_empty());
    assert_eq!(root.depth(), 0);
}

#[test]
fn token_kinds_follow_flags() {
    assert_eq!(Token::new("x", false, false, false, false).tokenizer, Text);
    assert_eq!(Token::new("x", true, false, false, false).tokenizer, Tag);
    assert_eq!(Token::new("x", true, true, true, false).tokenizer, EndTag);
    assert_eq!(Token::new("x", true, false, true, false).tokenizer, Attribute);
    assert_eq!(Token::new("x", false, true, true, true).tokenizer, Annocation);
    assert_eq!(Token::new("x", true, false, false, false).value, "x");
}

#[test]
fn flags_clear_resets_bits() {
    let mut flags = Flags { bits: Flags::IS_TAG | Flags::IS_STRING };
    assert_ne!(flags.bits, Flags::NONE);
    flags.clear();
    assert_eq!(flags.bits, Flags::NONE);
}
