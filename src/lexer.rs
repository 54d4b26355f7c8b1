use crate::token::{Span, Token, TokenKind, TokenValue, TokenView};
use vstd::prelude::*;
use vstd::string::StrSliceExecFns;

verus! {

broadcast use vstd::string::group_string_axioms;

/// A lexical fault. Offsets count characters from the start of the source.
#[derive(Debug, Clone, Copy, PartialEq, Eq, Structural)]
pub enum LexerError {
    /// A `.` inside a number that no digit follows.
    IllegalCharacterAfterDecimal { offset: usize },
    /// A character that starts no token.
    UnrecognizedCharacter { offset: usize, found: char },
}

pub open spec fn is_digit(c: char) -> bool {
    '0' <= c && c <= '9'
}

/// Where the number whose scan has reached offset `i` ends; `seen` tells whether
/// its decimal point is behind already. A `.` that no digit follows is a fault;
/// a second decimal point ends the number.
pub open spec fn scan_number(s: Seq<char>, i: int, seen: bool) -> Result<int, LexerError>
    decreases s.len() - i,
{
    if i < 0 || s.len() <= i {
        Ok(i)
    } else if is_digit(s[i]) {
        scan_number(s, i + 1, seen)
    } else if s[i] == '.' && !(i + 1 < s.len() && is_digit(s[i + 1])) {
        Err(LexerError::IllegalCharacterAfterDecimal { offset: i as usize })
    } else if s[i] == '.' && !seen {
        scan_number(s, i + 2, true)
    } else {
        Ok(i)
    }
}

/// Where a fault was found.
pub open spec fn error_offset(x: LexerError) -> int {
    match x {
        LexerError::IllegalCharacterAfterDecimal { offset } => offset as int,
        LexerError::UnrecognizedCharacter { offset, .. } => offset as int,
    }
}

/// The kind and the end of the token that starts at offset `i` of `s`, or the
/// fault found there. At the end of the input the token is an empty `Eof`.
pub open spec fn lex_step(s: Seq<char>, i: int) -> Result<(TokenKind, int), LexerError> {
    if i < 0 || s.len() <= i {
        Ok((TokenKind::Eof, i))
    } else if s[i] == '+' {
        Ok((TokenKind::Plus, i + 1))
    } else if s[i] == '-' {
        Ok((TokenKind::Minus, i + 1))
    } else if s[i] == '*' {
        Ok((TokenKind::Star, i + 1))
    } else if s[i] == '/' {
        Ok((TokenKind::Slash, i + 1))
    } else if is_digit(s[i]) {
        match scan_number(s, i + 1, false) {
            Ok(e) => Ok((TokenKind::Number, e)),
            Err(x) => Err(x),
        }
    } else {
        Err(LexerError::UnrecognizedCharacter { offset: i as usize, found: s[i] })
    }
}

/// The token of kind `k` that spans `i..e` of `s`; a number carries its lexeme.
pub open spec fn token_at(s: Seq<char>, k: TokenKind, i: int, e: int) -> TokenView {
    (
        k,
        Span { start: i as usize, end: e as usize },
        if k == TokenKind::Number {
            Some(s.subrange(i, e))
        } else {
            None
        },
    )
}

pub proof fn lemma_scan_number_bounds(s: Seq<char>, i: int, seen: bool)
    requires
        0 <= i <= s.len(),
    ensures
        scan_number(s, i, seen) matches Ok(e) ==> i <= e <= s.len() && forall|j: int|
            i <= j < e ==> #[trigger] is_digit(s[j]) || s[j] == '.',
        s.len() <= usize::MAX ==> (scan_number(s, i, seen) matches Err(x) ==> i <= error_offset(x)
            < s.len()),
    decreases s.len() - i,
{
    if i < s.len() {
        if is_digit(s[i]) {
            lemma_scan_number_bounds(s, i + 1, seen);
        } else if s[i] == '.' && i + 1 < s.len() && is_digit(s[i + 1]) && !seen {
            lemma_scan_number_bounds(s, i + 2, true);
        }
    }
}

/// A character that can stand inside a token.
pub open spec fn is_token_char(c: char) -> bool {
    c == '+' || c == '-' || c == '*' || c == '/' || c == '.' || is_digit(c)
}

/// Every token but `Eof` covers at least one character, inside the source, and
/// those characters can all stand in a token.
pub proof fn lemma_lex_step_bounds(s: Seq<char>, i: int)
    ensures
        lex_step(s, i) matches Ok((k, e)) ==> (k != TokenKind::Eof ==> k != TokenKind::Error
            && forall|j: int| i <= j < e ==> #[trigger] is_token_char(s[j])),
        lex_step(s, i) matches Ok((k, e)) ==> (k == TokenKind::Eof <==> !(0 <= i < s.len()))
            && (k == TokenKind::Eof ==> e == i) && (k != TokenKind::Eof ==> 0 <= i < e
            <= s.len()),
        s.len() <= usize::MAX ==> (lex_step(s, i) matches Err(x) ==> 0 <= i <= error_offset(x)
            < s.len()),
{
    if 0 <= i < s.len() && is_digit(s[i]) {
        lemma_scan_number_bounds(s, i + 1, false);
    }
}

/// The tokens from offset `i` of `s` up to, and without, the `Eof`; or the
/// first fault.
pub open spec fn tokens_from(s: Seq<char>, i: int) -> Result<Seq<TokenView>, LexerError>
    decreases s.len() - i,
{
    match lex_step(s, i) {
        Err(x) => Err(x),
        Ok((k, e)) => {
            if k == TokenKind::Eof {
                Ok(Seq::empty())
            } else {
                proof {
                    lemma_lex_step_bounds(s, i);
                }
                match tokens_from(s, e) {
                    Ok(rest) => Ok(seq![token_at(s, k, i, e)] + rest),
                    Err(x) => Err(x),
                }
            }
        },
    }
}

/// The tokens of the whole source `s`.
pub open spec fn spec_tokenize(s: Seq<char>) -> Result<Seq<TokenView>, LexerError> {
    tokens_from(s, 0)
}

/// `r` with the tokens `a` put in front, where `r` holds tokens.
pub open spec fn prepend(a: Seq<TokenView>, r: Result<Seq<TokenView>, LexerError>) -> Result<
    Seq<TokenView>,
    LexerError,
> {
    match r {
        Ok(ts) => Ok(a + ts),
        Err(x) => Err(x),
    }
}

/// Spans lie inside the source, each one ends where or before the next begins,
/// and no `Eof` or `Error` token is among them.
pub open spec fn spans_ordered(s: Seq<char>, ts: Seq<TokenView>) -> bool {
    &&& forall|i: int|
        0 <= i < ts.len() ==> #[trigger] ts[i].0 != TokenKind::Eof && ts[i].0 != TokenKind::Error
    &&& forall|i: int|
        0 <= i < ts.len() ==> #[trigger] ts[i].1.start <= ts[i].1.end <= s.len()
    &&& forall|i: int| 0 <= i < ts.len() - 1 ==> #[trigger] ts[i].1.end <= ts[i + 1].1.start
}

proof fn lemma_tokens_from_spans(s: Seq<char>, i: int)
    requires
        0 <= i <= s.len(),
        s.len() <= usize::MAX,
    ensures
        tokens_from(s, i) matches Ok(ts) ==> spans_ordered(s, ts) && (ts.len() > 0 ==> i
            <= ts[0].1.start) && ascii_before_tokens(s, i, ts),
    decreases s.len() - i,
{
    lemma_lex_step_bounds(s, i);
    if let Ok((k, e)) = lex_step(s, i) {
        if k != TokenKind::Eof {
            lemma_tokens_from_spans(s, e);
            if let Ok(rest) = tokens_from(s, e) {
                let ts = seq![token_at(s, k, i, e)] + rest;
                assert(forall|j: int| 0 < j < ts.len() ==> ts[j] == rest[j - 1]);
                assert(spans_ordered(s, ts));
                assert forall|k: int, j: int|
                    #![trigger ts[k], s[j]]
                    0 <= k < ts.len() && i <= j < ts[k].1.end implies is_token_char(s[j]) by {
                    if k > 0 && e <= j {
                        assert(ts[k] == rest[k - 1]);
                    }
                }
            }
        }
    }
}

/// Every character in front of a token's end is an ASCII character that can
/// stand in a token, so that the offsets of a span count bytes as well as
/// characters.
pub open spec fn ascii_before_tokens(s: Seq<char>, from: int, ts: Seq<TokenView>) -> bool {
    forall|k: int, j: int|
        #![trigger ts[k], s[j]]
        0 <= k < ts.len() && from <= j < ts[k].1.end ==> is_token_char(s[j])
}

/// Every token of a source lies inside it, and the tokens follow one another
/// without overlap, in the order of their offsets; no `Eof` or `Error` token is
/// among them, and the source holds only ASCII characters up to the last one.
pub proof fn lemma_token_spans(s: Seq<char>)
    requires
        s.len() <= usize::MAX,
    ensures
        spec_tokenize(s) matches Ok(ts) ==> spans_ordered(s, ts) && ascii_before_tokens(s, 0, ts),
{
    lemma_tokens_from_spans(s, 0);
}

pub open spec fn views_of(v: Seq<Token>) -> Seq<TokenView> {
    v.map_values(|t: Token| t@)
}

/// A forward-only cursor over a source string that hands out one token at a time.
#[derive(Debug, Clone)]
pub struct Lexer<'a> {
    src: &'a str,
    chars: Vec<char>,
    pos: usize,
}

/// The tokens of `src`, up to and without the `Eof`, or the first fault.
pub fn tokenize<'a>(src: &'a str) -> (r: Result<Vec<Token<'a>>, LexerError>)
    ensures
        match spec_tokenize(src@) {
            Ok(ts) => r matches Ok(v) && views_of(v@) == ts,
            Err(x) => r == Err::<Vec<Token<'a>>, LexerError>(x),
        },
{
    let mut lexer = Lexer::new(src);
    lexer.tokenize_collect()
}

fn chars_of(s: &str) -> (r: Vec<char>)
    ensures
        r@ == s@,
{
    let mut out: Vec<char> = Vec::new();
    for c in it: s.chars()
        invariant
            it.seq() == s@,
            out@ == it.seq().take(it.index() as int),
    {
        out.push(c);
    }
    out
}

impl<'a> Lexer<'a> {
    /// The characters of the source.
    pub closed spec fn source(&self) -> Seq<char> {
        self.chars@
    }

    /// The offset at which the next token starts.
    pub closed spec fn position(&self) -> int {
        self.pos as int
    }

    pub closed spec fn wf(&self) -> bool {
        &&& self.chars@ == self.src@
        &&& self.pos <= self.chars.len()
    }

    pub fn new(src: &'a str) -> (r: Lexer<'a>)
        ensures
            r.wf(),
            r.source() == src@,
            r.position() == 0,
    {
        Lexer { src, chars: chars_of(src), pos: 0 }
    }

    /// The offset at which the next token starts.
    fn offset(&self) -> (r: usize)
        ensures
            r == self.position(),
    {
        self.pos
    }

    /// The character at offset `i`, if there is one.
    fn char_at(&self, i: usize) -> (r: Option<char>)
        ensures
            r == (if i < self.source().len() {
                Some(self.source()[i as int])
            } else {
                None
            }),
    {
        if i < self.chars.len() {
            Some(self.chars[i])
        } else {
            None
        }
    }

    /// The end of the number whose first digit stands at `start`.
    fn take_number(&self, start: usize) -> (r: Result<usize, LexerError>)
        requires
            self.wf(),
            start < self.source().len(),
        ensures
            match scan_number(self.source(), start + 1, false) {
                Ok(e) => r == Ok::<usize, LexerError>(e as usize),
                Err(x) => r == Err::<usize, LexerError>(x),
            },
    {
        let ghost s = self.source();
        let len = self.chars.len();
        let mut j: usize = start + 1;
        let mut seen = false;
        while j < len
            invariant
                self.wf(),
                s == self.source(),
                len == s.len(),
                start < j <= len,
                scan_number(s, start + 1, false) == scan_number(s, j as int, seen),
            decreases len - j,
        {
            let c = self.chars[j];
            if '0' <= c && c <= '9' {
                j = j + 1;
            } else if c == '.' {
                match self.char_at(j + 1) {
                    Some(d) if '0' <= d && d <= '9' => {
                        if seen {
                            return Ok(j);
                        }
                        seen = true;
                        j = j + 2;
                    },
                    _ => {
                        return Err(LexerError::IllegalCharacterAfterDecimal { offset: j });
                    },
                }
            } else {
                return Ok(j);
            }
        }
        Ok(j)
    }

    /// The token that starts at the cursor, or the fault found there; the
    /// cursor does not move.
    pub fn peek_token(&self) -> (r: Result<Token<'a>, LexerError>)
        requires
            self.wf(),
        ensures
            match lex_step(self.source(), self.position()) {
                Ok((k, e)) => r matches Ok(t) && t@ == token_at(self.source(), k, self.position(), e),
                Err(x) => r == Err::<Token<'a>, LexerError>(x),
            },
    {
        let start = self.offset();
        match self.char_at(start) {
            None => Ok(Token::new(TokenKind::Eof, start, start, None)),
            Some(c) => {
                if c == '+' {
                    Ok(Token::new(TokenKind::Plus, start, start + 1, None))
                } else if c == '-' {
                    Ok(Token::new(TokenKind::Minus, start, start + 1, None))
                } else if c == '*' {
                    Ok(Token::new(TokenKind::Star, start, start + 1, None))
                } else if c == '/' {
                    Ok(Token::new(TokenKind::Slash, start, start + 1, None))
                } else if '0' <= c && c <= '9' {
                    let end = self.take_number(start)?;
                    proof {
                        lemma_scan_number_bounds(self.source(), start + 1, false);
                    }
                    let lexeme = self.src.substring_char(start, end);
                    Ok(Token::new(TokenKind::Number, start, end, Some(TokenValue::String(lexeme))))
                } else {
                    Err(LexerError::UnrecognizedCharacter { offset: start, found: c })
                }
            },
        }
    }

    /// The pull step of iteration: `None` once the input is used up. A fault
    /// gives an `Error` token over the offending character and ends the
    /// stream: the cursor moves to the end of the input.
    pub fn next(&mut self) -> (r: Option<Token<'a>>)
        requires
            old(self).wf(),
        ensures
            final(self).wf(),
            final(self).source() == old(self).source(),
            match lex_step(old(self).source(), old(self).position()) {
                Ok((k, e)) => if k == TokenKind::Eof {
                    r is None && final(self).position() == old(self).position()
                } else {
                    r matches Some(t) && t@ == token_at(old(self).source(), k, old(self).position(), e)
                        && final(self).position() == e
                },
                Err(x) => r matches Some(t) && t@ == (
                    TokenKind::Error,
                    Span { start: error_offset(x) as usize, end: (error_offset(x) + 1) as usize },
                    None::<Seq<char>>,
                ) && final(self).position() == old(self).source().len(),
            },
    {
        proof {
            lemma_lex_step_bounds(self.source(), self.position());
        }
        match self.next_token() {
            Ok(t) => {
                if t.kind == TokenKind::Eof {
                    None
                } else {
                    Some(t)
                }
            },
            Err(x) => {
                let offset = match x {
                    LexerError::IllegalCharacterAfterDecimal { offset } => offset,
                    LexerError::UnrecognizedCharacter { offset, .. } => offset,
                };
                self.pos = self.chars.len();
                Some(Token::new(TokenKind::Error, offset, offset + 1, None))
            },
        }
    }

    /// Every token from the cursor up to, and without, the `Eof`; or the first
    /// fault.
    pub fn tokenize_collect(&mut self) -> (r: Result<Vec<Token<'a>>, LexerError>)
        requires
            old(self).wf(),
        ensures
            final(self).wf(),
            final(self).source() == old(self).source(),
            match tokens_from(old(self).source(), old(self).position()) {
                Ok(ts) => r matches Ok(v) && views_of(v@) == ts,
                Err(x) => r == Err::<Vec<Token<'a>>, LexerError>(x),
            },
    {
        let ghost s = self.source();
        let ghost p0 = self.position();
        let mut out: Vec<Token<'a>> = Vec::new();
        loop
            invariant
                self.wf(),
                self.source() == s,
                s == old(self).source(),
                p0 == old(self).position(),
                prepend(views_of(out@), tokens_from(s, self.position())) == tokens_from(s, p0),
            decreases s.len() - self.position(),
        {
            proof {
                lemma_lex_step_bounds(s, self.position());
                assert(views_of(out@) + Seq::empty() =~= views_of(out@));
            }
            match self.next_token() {
                Err(x) => {
                    return Err(x);
                },
                Ok(t) => {
                    if t.kind == TokenKind::Eof {
                        return Ok(out);
                    }
                    let ghost before = out@;
                    out.push(t);
                    proof {
                        assert(views_of(out@) =~= views_of(before).push(t@));
                        let rest = tokens_from(s, self.position());
                        if let Ok(r) = rest {
                            assert(views_of(out@) + r =~= views_of(before) + (seq![t@] + r));
                        }
                    }
                },
            }
        }
    }

    /// Hands out the token at the cursor and moves past it. On a fault the
    /// cursor stays where it was. At the end of the input every call gives `Eof`.
    pub fn next_token(&mut self) -> (r: Result<Token<'a>, LexerError>)
        requires
            old(self).wf(),
        ensures
            final(self).wf(),
            final(self).source() == old(self).source(),
            match lex_step(old(self).source(), old(self).position()) {
                Ok((k, e)) => r matches Ok(t) && t@ == token_at(
                    old(self).source(),
                    k,
                    old(self).position(),
                    e,
                ) && final(self).position() == e,
                Err(x) => r == Err::<Token<'a>, LexerError>(x) && final(self).position()
                    == old(self).position(),
            },
    {
        proof {
            lemma_lex_step_bounds(self.source(), self.position());
        }
        let r = self.peek_token();
        if let Ok(t) = &r {
            self.pos = t.span.end;
        }
        r
    }
}

} // verus!
