use vstd::prelude::*;

verus! {

/// One lexical unit produced by scanning raw text. Payload-bearing variants
/// own their text; a token keeps no reference into the source.
#[derive(Debug, Clone, PartialEq)]
pub enum JsonToken {
    LeftBrace,
    RightBrace,
    LeftBracket,
    RightBracket,
    Whitespace,
    String(String),
    Colon,
    Comma,
    Number(String),
    Boolean(bool),
    Null,
}

/// The mathematical shape of a token: payloads as character sequences.
pub enum TokenV {
    LeftBrace,
    RightBrace,
    LeftBracket,
    RightBracket,
    Whitespace,
    String(Seq<char>),
    Colon,
    Comma,
    Number(Seq<char>),
    Boolean(bool),
    Null,
}

impl View for JsonToken {
    type V = TokenV;

    open spec fn view(&self) -> TokenV {
        match self {
            JsonToken::LeftBrace => TokenV::LeftBrace,
            JsonToken::RightBrace => TokenV::RightBrace,
            JsonToken::LeftBracket => TokenV::LeftBracket,
            JsonToken::RightBracket => TokenV::RightBracket,
            JsonToken::Whitespace => TokenV::Whitespace,
            JsonToken::String(s) => TokenV::String(s@),
            JsonToken::Colon => TokenV::Colon,
            JsonToken::Comma => TokenV::Comma,
            JsonToken::Number(s) => TokenV::Number(s@),
            JsonToken::Boolean(b) => TokenV::Boolean(*b),
            JsonToken::Null => TokenV::Null,
        }
    }
}

/// The token sequence a vector or slice of tokens stands for.
pub open spec fn tokens_view(ts: Seq<JsonToken>) -> Seq<TokenV> {
    Seq::new(ts.len(), |i: int| ts[i]@)
}

} // verus!
