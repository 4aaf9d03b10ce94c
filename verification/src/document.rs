use vstd::prelude::*;
use crate::lint::Span;

verus! {

/// The lexical category of one token, produced by the external tokenizer.
#[derive(Clone, Copy, PartialEq, Eq, Structural, Debug)]
pub enum TokenKind {
    Word,
    Space,
    Period,
    Quote,
    Punct,
}

/// One token of a document, with its text and its span in the document.
#[derive(Clone, Debug)]
pub struct Token {
    pub kind: TokenKind,
    pub chars: Vec<char>,
    pub span: Span,
}

/// The mathematical value of a token.
#[verifier::ext_equal]
pub struct TokenModel {
    pub kind: TokenKind,
    pub chars: Seq<char>,
    pub start: int,
    pub end: int,
}

impl View for Token {
    type V = TokenModel;

    open spec fn view(&self) -> TokenModel {
        TokenModel {
            kind: self.kind,
            chars: self.chars@,
            start: self.span.start as int,
            end: self.span.end as int,
        }
    }
}

/// A read-only document, seen as the token stream the external tokenizer
/// produced for it.  Linters read tokens and never change them.
#[derive(Debug)]
pub struct Document {
    pub tokens: Vec<Token>,
}

impl View for Document {
    type V = Seq<TokenModel>;

    open spec fn view(&self) -> Seq<TokenModel> {
        self.tokens@.map_values(|t: Token| t@)
    }
}

impl Document {
    /// Wraps an externally tokenized text.
    pub fn new(tokens: Vec<Token>) -> (r: Document)
        ensures
            r@ == tokens@.map_values(|t: Token| t@),
    {
        Document { tokens }
    }

}

} // verus!
