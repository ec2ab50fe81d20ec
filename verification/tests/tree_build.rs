use html_parser::NodeTree;
use html_parser::Scanner;
use html_parser::Token;
use html_parser::Tokenizer::Annocation;

#[test]
fn annotation_between_siblings() {
    let text = b"<b></b><!-- X --><i></i>";
    let mut scanner = Scanner::new(text);
    let tokens = scanner.parse().unwrap();
    assert_eq!(tokens.len(), 5);
    assert_eq!(
        tokens[2],
        Token { tokenizer: Annocation, value: " X ".to_string() }
    );
    let (root, diags) = scanner.lexer(tokens);
    assert!(diags.is_empty());
    assert_eq!(root.child_count(), 2);
    assert_eq!(root.child(0).tag().as_str(), "b");
    assert_eq!(root.child(1).tag().as_str(), "i");
}

#[test]
fn stray_end_tag_is_discarded() {
    let text = b"</b><a>x</a>";
    let mut scanner = Scanner::new(text);
    let tokens = scanner.parse().unwrap();
    let (root, diags) = scanner.lexer(tokens);
    assert_eq!(diags, vec!["b".to_string()]);
    assert_eq!(root.child_count(), 1);
    assert_eq!(root.child(0).tag().as_str(), "a");
    assert_eq!(root.child(0).text().as_str(), "x");
}

#[test]
fn nested_document_gets_wrapper_root() {
    let text = b"<ul><li>x</li></ul>";
    let mut scanner = Scanner::new(text);
    let tokens = scanner.parse().unwrap();
    let (root, diags) = scanner.lexer(tokens);
    assert!(diags.is_empty());
    assert_eq!(root.tag().as_str(), "div");
    assert_eq!(root.depth(), 0);
    assert_eq!(root.child_count(), 1);
    let inner = root.child(0);
    assert_eq!(inner.tag().as_str(), "ul");
    assert_eq!(inner.depth(), 1);
    assert_eq!(inner.child_count(), 1);
    assert_eq!(inner.child(0).tag().as_str(), "li");
    assert_eq!(inner.child(0).text().as_str(), "x");
}

#[test]
fn attribute_value_keeps_first_two_parts() {
    let text = b"<a k=1=2></a>";
    let mut scanner = Scanner::new(text);
    let tokens = scanner.parse().unwrap();
    let (root, diags) = scanner.lexer(tokens);
    assert!(diags.is_empty());
    assert_eq!(root.child_count(), 1);
    assert_eq!(root.child(0).get_attribute("k").unwrap().as_str(), "1");
}

#[test]
fn quoted_attribute_is_kept_verbatim() {
    let text = b"<a href=\"https://x.org/a b\">t</a>";
    let mut scanner = Scanner::new(text);
    let tokens = scanner.parse().unwrap();
    let (root, diags) = scanner.lexer(tokens);
    assert!(diags.is_empty());
    let node = root.child(0);
    assert_eq!(
        node.get_attribute("href").unwrap().as_str(),
        "\"https://x.org/a b\""
    );
}

#[test]
fn attribute_split_and_overwrite() {
    let mut node = NodeTree::new("p", Vec::new(), 1);
    node.set_attributes("k", "v1");
    node.set_attributes("k", "v2");
    node.set_attributes("o", "w");
    assert_eq!(node.get_attribute("k").unwrap().as_str(), "v2");
    assert_eq!(node.get_attribute("o").unwrap().as_str(), "w");
    assert!(node.get_attribute("missing").is_none());
    assert!(!node.is_empty());
}

#[test]
fn later_text_overwrites_earlier_text() {
    let mut node = NodeTree::new("p", Vec::new(), 1);
    node.set_text("first");
    node.set_text("second");
    assert_eq!(node.text().as_str(), "second");
}

#[test]
fn empty_node_is_empty() {
    let node = NodeTree::new("div", Vec::new(), 1);
    assert!(node.is_empty());
    assert_eq!(node.tag().as_str(), "div");
    assert_eq!(node.depth(), 1);
    assert_eq!(node.child_count(), 0);
    let mut with_text = NodeTree::new("div", Vec::new(), 1);
    with_text.set_text("t");
    assert!(!with_text.is_empty());
}
