use html_parser::Token;
use html_parser::Tokenizer::Annocation;
use html_parser::Tokenizer::Attribute;
use html_parser::Tokenizer::EndTag;
use html_parser::Tokenizer::Tag;
use html_parser::Tokenizer::Text;
use html_parser::Scanner;

fn assert_eq_tokens(mut target: Vec<Token>, mut result: Vec<Token>) {
    for _ in 0..target.len() {
        assert_eq!(target.pop().unwrap(), result.pop().unwrap())
    }
}

#[test]
fn single_tag_close() {
    let text = b" <div /> ";
    let mut scanner = Scanner::new(text);
    let tokens = scanner.parse().unwrap();
    assert_eq!(
        *tokens.get(0).unwrap(),
        Token::new("div", true, false, false, false)
    );
    assert_eq!(
        *tokens.get(1).unwrap(),
        Token::new("", true, true, false, false)
    )
}

#[test]
fn loose_tag_close() {
    let text = b" <   div  /    > ";
    let mut scanner = Scanner::new(text);
    let tokens = scanner.parse().unwrap();
    assert_eq!(
        *tokens.get(0).unwrap(),
        Token::new("div", true, false, false, false)
    );
    assert_eq!(
        *tokens.get(1).unwrap(),
        Token::new("", true, true, false, false)
    );
}

#[test]
fn loose_tag() {
    let text = r#"<a href="https://esdoc.org"
        >ESDoc<span data-ice="esdocVersion">(0.4.8)</span></a
    >"#;
    let mut scanner = Scanner::new(text.as_bytes());
    let mut tokens = scanner.parse().unwrap();
    let mut result = [
        Token {
            tokenizer: Tag,
            value: "a".to_string(),
        },
        Token {
            tokenizer: Attribute,
            value: "href=\"https://esdoc.org\"".to_string(),
        },
        Token {
            tokenizer: Text,
            value: "ESDoc".to_string(),
        },
        Token {
            tokenizer: Tag,
            value: "span".to_string(),
        },
        Token {
            tokenizer: Attribute,
            value: "data-ice=\"esdocVersion\"".to_string(),
        },
        Token {
            tokenizer: Text,
            value: "(0.4.8)".to_string(),
        },
        Token {
            tokenizer: EndTag,
            value: "span".to_string(),
        },
        Token {
            tokenizer: EndTag,
            value: "a".to_string(),
        },
    ]
    .to_vec();

    for _ in 0..tokens.len() {
        assert_eq!(tokens.pop().unwrap(), result.pop().unwrap())
    }
}

#[test]
fn tag_annotations() {
    let text = "<li name=\"attr tets\" test=\"sda\">test</li>\n    <!-- \n      <li>test</li>\n     -->\n    <li>test</li>";

    let result = [
        Token {
            tokenizer: Tag,
            value: "li".to_string(),
        },
        Token {
            tokenizer: Attribute,
            value: "name=\"attr tets\"".to_string(),
        },
        Token {
            tokenizer: Attribute,
            value: "test=\"sda\"".to_string(),
        },
        Token {
            tokenizer: Text,
            value: "test".to_string(),
        },
        Token {
            tokenizer: EndTag,
            value: "li".to_string(),
        },
        Token {
            tokenizer: Annocation,
            value: " \n      <li>test</li>\n     ".to_string(),
        },
        Token {
            tokenizer: Tag,
            value: "li".to_string(),
        },
        Token {
            tokenizer: Text,
            value: "test".to_string(),
        },
        Token {
            tokenizer: EndTag,
            value: "li".to_string(),
        },
    ];

    let mut scanner = Scanner::new(text.as_bytes());
    let tokens = scanner.parse().unwrap();
    assert_eq_tokens(tokens, result.to_vec());
}
