//! Tokens: classified slices of the input document.

use vstd::prelude::*;

verus! {

/// The kind of a scanned token.
#[derive(Debug, Copy, Clone, Eq, PartialEq)]
pub enum Tokenizer {
    /// An opening element name.
    Tag,
    /// A closing element name, or an empty value for a self-closing element.
    EndTag,
    /// A text run between tags.
    Text,
    /// A raw `key=value` slice inside a tag.
    Attribute,
    /// The literal inner content of a comment block.
    Annocation,
}

/// The mathematical model of a token: its kind and its value as a
/// sequence of characters.
pub ghost struct TokenModel {
    pub kind: Tokenizer,
    pub value: Seq<char>,
}

/// A classified slice of the input document. Tokens are immutable once
/// produced: the scanner creates them and the tree builder consumes them.
#[derive(Debug, Clone, Eq, PartialEq)]
pub struct Token {
    pub tokenizer: Tokenizer,
    pub value: String,
}

/// How a flushed slice is classified from the scanner's mode flags, in
/// priority order: comment body, then closing tag, then attribute, then
/// tag name, and text otherwise.
pub open spec fn kind_of(is_tag: bool, is_end: bool, is_attribute: bool, is_annotation: bool) -> Tokenizer {
    if is_annotation {
        Tokenizer::Annocation
    } else if is_tag {
        if is_end {
            Tokenizer::EndTag
        } else if is_attribute {
            Tokenizer::Attribute
        } else {
            Tokenizer::Tag
        }
    } else {
        Tokenizer::Text
    }
}

/// The models of a sequence of tokens, in order.
pub open spec fn token_models(tokens: Seq<Token>) -> Seq<TokenModel> {
    tokens.map_values(|t: Token| t@)
}

impl View for Token {
    type V = TokenModel;

    open spec fn view(&self) -> TokenModel {
        TokenModel { kind: self.tokenizer, value: self.value@ }
    }
}

impl Token {
    /// Builds a token from a value slice and the scanner's mode flags at
    /// the moment the slice was flushed.
    pub fn new(
        value: &str,
        is_tag: bool,
        is_end: bool,
        is_attribute: bool,
        is_annotation: bool,
    ) -> (r: Token)
        ensures
            r.tokenizer == kind_of(is_tag, is_end, is_attribute, is_annotation),
            r.value@ == value@,
    {
        let tokenizer = if is_annotation {
            Tokenizer::Annocation
        } else if is_tag {
            if is_end {
                Tokenizer::EndTag
            } else if is_attribute {
                Tokenizer::Attribute
            } else {
                Tokenizer::Tag
            }
        } else {
            Tokenizer::Text
        };
        Token { tokenizer, value: value.to_owned() }
    }
}

} // verus!
