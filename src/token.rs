use vstd::prelude::*;

verus! {

/// The category of a lexical unit.
#[derive(Debug, Clone, Copy, PartialEq, Eq, Structural)]
pub enum TokenKind {
    Error,
    Eof,
    Plus,
    Minus,
    Star,
    Slash,
    Number,
}

/// The textual form of each kind, used for diagnostics.
pub open spec fn kind_text(k: TokenKind) -> Seq<char> {
    match k {
        TokenKind::Error => "Error"@,
        TokenKind::Eof => "Eof"@,
        TokenKind::Plus => "+"@,
        TokenKind::Minus => "-"@,
        TokenKind::Star => "*"@,
        TokenKind::Slash => "/"@,
        TokenKind::Number => "Number"@,
    }
}

impl TokenKind {
    /// The textual form of the kind: the operator's own symbol for operators.
    pub fn as_str(&self) -> (r: &'static str)
        ensures
            r@ == kind_text(*self),
    {
        match self {
            TokenKind::Error => "Error",
            TokenKind::Eof => "Eof",
            TokenKind::Plus => "+",
            TokenKind::Minus => "-",
            TokenKind::Star => "*",
            TokenKind::Slash => "/",
            TokenKind::Number => "Number",
        }
    }
}

/// A half-open range `start..end` of offsets into the source. Only ASCII
/// characters stand in front of a token's end, so the offsets count bytes and
/// characters alike.
#[derive(Debug, Clone, Copy, PartialEq, Eq, Structural)]
pub struct Span {
    pub start: usize,
    pub end: usize,
}

impl Span {
    pub fn new(start: usize, end: usize) -> (r: Span)
        ensures
            r.start == start,
            r.end == end,
    {
        Span { start, end }
    }
}

/// The payload of a token: the raw lexeme of a number.
#[derive(Debug, Clone, PartialEq)]
pub enum TokenValue<'a> {
    String(&'a str),
}

impl<'a> View for TokenValue<'a> {
    type V = Seq<char>;

    open spec fn view(&self) -> Seq<char> {
        match self {
            TokenValue::String(s) => s@,
        }
    }
}

/// A lexical unit: its kind, where it stands in the source, and its payload.
#[derive(Debug, Clone, PartialEq)]
pub struct Token<'a> {
    pub kind: TokenKind,
    pub span: Span,
    pub value: Option<TokenValue<'a>>,
}

/// What a token says: its kind, its span and the text of its payload.
pub type TokenView = (TokenKind, Span, Option<Seq<char>>);

impl<'a> View for Token<'a> {
    type V = TokenView;

    open spec fn view(&self) -> TokenView {
        (
            self.kind,
            self.span,
            match self.value {
                Some(v) => Some(v@),
                None => None,
            },
        )
    }
}

impl<'a> Token<'a> {
    pub fn new(kind: TokenKind, start: usize, end: usize, value: Option<TokenValue<'a>>) -> (r: Self)
        ensures
            r.kind == kind,
            r.span == (Span { start, end }),
            r.value == value,
    {
        Token { kind, span: Span::new(start, end), value }
    }
}

} // verus!
