//! The scanning state machine.
use vstd::prelude::*;
use crate::keywords::KeywordTable;
use crate::text::{
    chars_of, is_alnum, is_alphanumeric, is_ascii_digit, is_ascii_letter, is_num, is_numeric,
    is_whitespace, is_ws, lower_of, lowercase, string_from,
};
use crate::token::{Token, TokenType};

verus! {

/// The kinds of lexical fault. Every fault ends the scan.
#[derive(Clone, Copy, PartialEq, Eq, Debug, Structural)]
pub enum LexErrorKind {
    /// The input ended inside a quoted string.
    UnterminatedString,
    /// A character that no lexeme may start with or continue with at that place.
    UnexpectedCharacter,
    /// `!` not followed by `=`.
    InvalidStandaloneOperator,
}

/// A lexical fault: its kind, and the offending character with its index in
/// the source (for an unterminated string, the opening quote).
#[derive(Clone, Copy, PartialEq, Eq, Debug, Structural)]
pub struct LexError {
    pub kind: LexErrorKind,
    pub position: usize,
    pub character: char,
}

/// How a lexeme that starts at a given index ends: the kind its scanning
/// routine proposes and the index just past it, or a fault and where it is.
pub type Lexed = Result<(TokenType, int), (LexErrorKind, int)>;

/// The first index at or after `i` that does not hold whitespace.
pub open spec fn skip_ws(src: Seq<char>, i: int) -> int
    decreases src.len() - i,
{
    if 0 <= i < src.len() && is_ws(src[i]) {
        skip_ws(src, i + 1)
    } else {
        i
    }
}

/// The first index at or after `i` that does not hold an alphanumeric character.
pub open spec fn word_end(src: Seq<char>, i: int) -> int
    decreases src.len() - i,
{
    if 0 <= i < src.len() && is_alnum(src[i]) {
        word_end(src, i + 1)
    } else {
        i
    }
}

/// A word starting at `p`: it ends before a comma, whitespace or the end of
/// input; any other character that ends the run of alphanumerics is a fault.
pub open spec fn scan_word(src: Seq<char>, p: int) -> Lexed {
    let e = word_end(src, p + 1);
    if e >= src.len() || src[e] == ',' || is_ws(src[e]) {
        Ok((TokenType::Identifier, e))
    } else {
        Err((LexErrorKind::UnexpectedCharacter, e))
    }
}

/// The rest of a number from `i` on; `dot` tells whether a decimal point was
/// already taken. It ends before whitespace or at the end of input.
pub open spec fn scan_number(src: Seq<char>, i: int, dot: bool) -> Lexed
    decreases src.len() - i,
{
    if i < 0 || i >= src.len() {
        Ok((TokenType::Number, i))
    } else if is_num(src[i]) {
        scan_number(src, i + 1, dot)
    } else if is_ws(src[i]) {
        Ok((TokenType::Number, i))
    } else if src[i] == '.' && !dot {
        scan_number(src, i + 1, true)
    } else {
        Err((LexErrorKind::UnexpectedCharacter, i))
    }
}

/// The rest of a quoted string from `i` on, up to and including the closing
/// quote; `open` is the index of the opening quote.
pub open spec fn scan_string(src: Seq<char>, open: int, i: int) -> Lexed
    decreases src.len() - i,
{
    if i < 0 || i >= src.len() {
        Err((LexErrorKind::UnterminatedString, open))
    } else if src[i] == '\'' {
        Ok((TokenType::String, i + 1))
    } else {
        scan_string(src, open, i + 1)
    }
}

/// An operator at `p` that takes a following `expected` into `double`; without one
/// it is `single`, which for `!` is a fault.
pub open spec fn scan_pair(
    src: Seq<char>,
    p: int,
    expected: char,
    single: TokenType,
    double: TokenType,
) -> Lexed {
    if p + 1 < src.len() && src[p + 1] == expected {
        Ok((double, p + 2))
    } else if single == TokenType::Bang {
        Err((LexErrorKind::InvalidStandaloneOperator, p))
    } else {
        Ok((single, p + 1))
    }
}

/// Any other character at `p`: its kind is the table's entry for that one
/// character, matched verbatim.
pub open spec fn scan_symbol(src: Seq<char>, p: int, kw: Map<Seq<char>, TokenType>) -> Lexed {
    if kw.contains_key(seq![src[p]]) {
        Ok((kw[seq![src[p]]], p + 1))
    } else {
        Err((LexErrorKind::UnexpectedCharacter, p))
    }
}

/// The lexeme that starts at `p`, chosen by its first character.
pub open spec fn scan_lexeme(src: Seq<char>, p: int, kw: Map<Seq<char>, TokenType>) -> Lexed {
    let c = src[p];
    if is_ascii_letter(c) || c == '_' {
        scan_word(src, p)
    } else if is_ascii_digit(c) {
        scan_number(src, p + 1, false)
    } else if c == '\'' {
        scan_string(src, p, p + 1)
    } else if c == '<' {
        scan_pair(src, p, '=', TokenType::LessThan, TokenType::LessThanEq)
    } else if c == '>' {
        scan_pair(src, p, '=', TokenType::GreaterThan, TokenType::GreaterThanEq)
    } else if c == '!' {
        scan_pair(src, p, '=', TokenType::Bang, TokenType::NotEq)
    } else {
        scan_symbol(src, p, kw)
    }
}

/// The final kind of a lexeme: the table's entry for its lower-cased text,
/// else the kind its scanning routine proposed.
pub open spec fn classify(kw: Map<Seq<char>, TokenType>, text: Seq<char>, proposed: TokenType) -> TokenType {
    if kw.contains_key(lower_of(text)) {
        kw[lower_of(text)]
    } else {
        proposed
    }
}

/// What one request for a token does from index `pos`.
pub enum Step {
    /// Only whitespace is left: the end marker.
    End,
    /// A lexeme of final kind `kind` spanning `start..end`.
    Lexeme { kind: TokenType, start: int, end: int },
    /// A fault of kind `fault` at index `at`.
    Fault { fault: LexErrorKind, at: int },
}

pub open spec fn step(src: Seq<char>, kw: Map<Seq<char>, TokenType>, pos: nat) -> Step {
    let p = skip_ws(src, pos as int);
    if p >= src.len() {
        Step::End
    } else {
        match scan_lexeme(src, p, kw) {
            Ok((k, e)) => Step::Lexeme { kind: classify(kw, src.subrange(p, e), k), start: p, end: e },
            Err((f, q)) => Step::Fault { fault: f, at: q },
        }
    }
}

/// The fault value that reports `kind` at index `at` of `src`.
pub open spec fn fault_at(src: Seq<char>, kind: LexErrorKind, at: int) -> LexError {
    LexError { kind, position: at as usize, character: src[at] }
}

/// The tokens that requests from index `pos` on produce, as (kind, text)
/// pairs, with the fault that stopped them, if any. Without a fault the last
/// one is the end marker.
pub open spec fn tokens_from(src: Seq<char>, kw: Map<Seq<char>, TokenType>, pos: nat) -> (
    Seq<(TokenType, Seq<char>)>,
    Option<(LexErrorKind, int)>,
)
    decreases src.len() - pos,
    via tokens_from_decreases
{
    match step(src, kw, pos) {
        Step::End => (seq![(TokenType::End, Seq::<char>::empty())], None),
        Step::Lexeme { kind, start, end } => {
            let rest = tokens_from(src, kw, end as nat);
            (seq![(kind, src.subrange(start, end))] + rest.0, rest.1)
        },
        Step::Fault { fault, at } => (Seq::empty(), Some((fault, at))),
    }
}

#[via_fn]
proof fn tokens_from_decreases(src: Seq<char>, kw: Map<Seq<char>, TokenType>, pos: nat) {
    lemma_step_bounds(src, kw, pos);
}

pub proof fn lemma_skip_ws_bounds(src: Seq<char>, i: int)
    ensures
        i <= skip_ws(src, i),
        0 <= i <= src.len() ==> skip_ws(src, i) <= src.len(),
        0 <= i ==> skip_ws(src, i) < src.len() ==> !is_ws(src[skip_ws(src, i)]),
        forall|j: int| i <= j < skip_ws(src, i) ==> is_ws(#[trigger] src[j]),
    decreases src.len() - i,
{
    if 0 <= i < src.len() && is_ws(src[i]) {
        lemma_skip_ws_bounds(src, i + 1);
    }
}

proof fn lemma_word_end_bounds(src: Seq<char>, i: int)
    requires
        0 <= i <= src.len(),
    ensures
        i <= word_end(src, i) <= src.len(),
    decreases src.len() - i,
{
    if i < src.len() && is_alnum(src[i]) {
        lemma_word_end_bounds(src, i + 1);
    }
}

proof fn lemma_number_bounds(src: Seq<char>, i: int, dot: bool)
    requires
        0 <= i <= src.len(),
    ensures
        match scan_number(src, i, dot) {
            Ok((_, e)) => i <= e <= src.len(),
            Err((_, q)) => i <= q < src.len(),
        },
    decreases src.len() - i,
{
    if i < src.len() {
        if is_num(src[i]) {
            lemma_number_bounds(src, i + 1, dot);
        } else if src[i] == '.' && !dot {
            lemma_number_bounds(src, i + 1, true);
        }
    }
}

proof fn lemma_string_bounds(src: Seq<char>, open: int, i: int)
    requires
        0 <= open < i <= src.len(),
    ensures
        match scan_string(src, open, i) {
            Ok((_, e)) => i < e <= src.len(),
            Err((_, q)) => q == open,
        },
    decreases src.len() - i,
{
    if i < src.len() && src[i] != '\'' {
        lemma_string_bounds(src, open, i + 1);
    }
}

/// A lexeme starting at `p` ends after `p` and within the input; a fault lies
/// within the input.
pub proof fn lemma_lexeme_bounds(src: Seq<char>, p: int, kw: Map<Seq<char>, TokenType>)
    requires
        0 <= p < src.len(),
    ensures
        match scan_lexeme(src, p, kw) {
            Ok((_, e)) => p < e <= src.len(),
            Err((_, q)) => p <= q < src.len(),
        },
{
    lemma_word_end_bounds(src, p + 1);
    lemma_number_bounds(src, p + 1, false);
    lemma_string_bounds(src, p, p + 1);
}

/// A request from `pos` never moves backwards: a lexeme lies after `pos`
/// and within the input.
pub proof fn lemma_step_bounds(src: Seq<char>, kw: Map<Seq<char>, TokenType>, pos: nat)
    ensures
        match step(src, kw, pos) {
            Step::Lexeme { start, end, .. } => pos <= start < end <= src.len(),
            Step::Fault { at, .. } => 0 <= at < src.len(),
            Step::End => true,
        },
{
    lemma_skip_ws_bounds(src, pos as int);
    let p = skip_ws(src, pos as int);
    if 0 <= p < src.len() {
        lemma_lexeme_bounds(src, p, kw);
    }
}

/// What a caller sees of a scanner: its source, its keyword table, the index
/// of the next unread character, and whether the stream is exhausted.
pub struct ScanState {
    pub source: Seq<char>,
    pub keywords: Map<Seq<char>, TokenType>,
    pub pos: nat,
    pub done: bool,
}

/// One request for a token, taking scanner state `s` to `t` and returning `r`.
/// Once exhausted, nothing more comes; the end marker and a fault both
/// exhaust the stream.
pub open spec fn next_spec(s: ScanState, t: ScanState, r: Option<Result<Token, LexError>>) -> bool {
    &&& t.source == s.source
    &&& t.keywords == s.keywords
    &&& if s.done {
        r is None && t == s
    } else {
        match step(s.source, s.keywords, s.pos) {
            Step::End => {
                &&& t.done
                &&& t.pos == s.source.len()
                &&& r is Some && r->Some_0 is Ok
                &&& r->Some_0->Ok_0@ == (TokenType::End, Seq::<char>::empty())
            },
            Step::Lexeme { kind, start, end } => {
                &&& !t.done
                &&& t.pos == end
                &&& r is Some && r->Some_0 is Ok
                &&& r->Some_0->Ok_0@ == (kind, s.source.subrange(start, end))
            },
            Step::Fault { fault, at } => {
                &&& t.done
                &&& r == Some(Err::<Token, LexError>(fault_at(s.source, fault, at)))
            },
        }
    }
}

/// A cursor over a source text that hands out one token per request.
pub struct Scanner<'a> {
    keywords: &'a KeywordTable,
    source: Vec<char>,
    /// Index of the first character of the lexeme being built.
    start: usize,
    /// Index of the next unread character.
    curr: usize,
    end: usize,
    done: bool,
}

impl<'a> View for Scanner<'a> {
    type V = ScanState;

    closed spec fn view(&self) -> ScanState {
        ScanState {
            source: self.source@,
            keywords: self.keywords@,
            pos: self.curr as nat,
            done: self.done,
        }
    }
}

impl<'a> Scanner<'a> {
    pub closed spec fn wf(&self) -> bool {
        &&& self.end == self.source.len()
        &&& self.start <= self.curr <= self.end
    }

    /// All but the cursor are those of `other`.
    spec fn frame(&self, other: &Self) -> bool {
        &&& self.keywords == other.keywords
        &&& self.source == other.source
        &&& self.start == other.start
        &&& self.end == other.end
        &&& self.done == other.done
    }

    /// `r` and the scanner `after` are what scanning the current lexeme as
    /// `lexed` gives.
    spec fn delivers(&self, after: &Self, lexed: Lexed, r: Result<Token, LexError>) -> bool {
        &&& after.wf()
        &&& after.frame(self)
        &&& match lexed {
            Ok((k, e)) => {
                &&& after.curr == e
                &&& r is Ok
                &&& r->Ok_0@ == (
                    classify(self.keywords@, self.source@.subrange(self.start as int, e), k),
                    self.source@.subrange(self.start as int, e),
                )
            },
            Err((f, q)) => 0 <= q < self.source.len() && r == Err::<Token, LexError>(
                fault_at(self.source@, f, q),
            ),
        }
    }

    pub fn new(source: String, keywords: &'a KeywordTable) -> (r: Self)
        ensures
            r.wf(),
            r@ == (ScanState { source: source@, keywords: keywords@, pos: 0, done: false }),
    {
        let buf = chars_of(source.as_str());
        let end = buf.len();
        Scanner { keywords, source: buf, start: 0, curr: 0, end, done: false }
    }

    /// The next token; after the end marker, or after a fault, `None`.
    ///
    /// Whitespace before a lexeme is skipped. When only whitespace is left the
    /// end marker comes, so it is produced exactly once even after trailing
    /// whitespace.
    pub fn next(&mut self) -> (r: Option<Result<Token, LexError>>)
        requires
            old(self).wf(),
        ensures
            final(self).wf(),
            next_spec(old(self)@, final(self)@, r),
    {
        if self.done {
            return None;
        }
        while self.curr < self.end && is_whitespace(self.source[self.curr])
            invariant
                self.wf(),
                !self.done,
                self.keywords == old(self).keywords,
                self.source == old(self).source,
                old(self).curr <= self.curr,
                skip_ws(self.source@, self.curr as int) == skip_ws(self.source@, old(self).curr as int),
            decreases self.end - self.curr,
        {
            self.curr = self.curr + 1;
        }
        if self.at_end() {
            self.done = true;
            return Some(Ok(Token::new(TokenType::End, String::new())));
        }
        self.start = self.curr;
        let c = self.advance();
        let r = self.process(c);
        if r.is_err() {
            self.done = true;
        }
        Some(r)
    }

    /// All remaining tokens, ending with the end marker, or the first fault.
    pub fn tokenize(&mut self) -> (r: Result<Vec<Token>, LexError>)
        requires
            old(self).wf(),
        ensures
            final(self).wf(),
            old(self)@.done ==> r is Ok && r->Ok_0@.len() == 0,
            !old(self)@.done ==> match tokens_from(old(self)@.source, old(self)@.keywords, old(self)@.pos) {
                (toks, None) => r is Ok && r->Ok_0@.map_values(|t: Token| t@) == toks,
                (_, Some((f, at))) => r == Err::<Vec<Token>, LexError>(fault_at(old(self)@.source, f, at)),
            },
    {
        let mut out: Vec<Token> = Vec::new();
        if self.done {
            return Ok(out);
        }
        let ghost src = self@.source;
        let ghost kw = self@.keywords;
        let ghost all = tokens_from(src, kw, self@.pos);
        loop
            invariant
                self.wf(),
                self@.source == src,
                self@.keywords == kw,
                !old(self)@.done,
                src == old(self)@.source,
                kw == old(self)@.keywords,
                all == tokens_from(src, kw, old(self)@.pos),
                !self@.done ==> out@.map_values(|t: Token| t@) + tokens_from(src, kw, self@.pos).0 == all.0
                    && tokens_from(src, kw, self@.pos).1 == all.1,
                self@.done ==> out@.map_values(|t: Token| t@) == all.0 && all.1 is None,
            decreases 2 * (src.len() - self@.pos) + (if self@.done { 0int } else { 1int }),
        {
            proof {
                lemma_step_bounds(src, kw, self@.pos);
            }
            let ghost before = out@.map_values(|t: Token| t@);
            match self.next() {
                None => {
                    return Ok(out);
                },
                Some(Ok(t)) => {
                    out.push(t);
                    assert(out@.map_values(|t: Token| t@) == before.push(t@));
                },
                Some(Err(e)) => {
                    return Err(e);
                },
            }
        }
    }

    fn at_end(&self) -> (r: bool)
        requires
            self.wf(),
        ensures
            r == (self.curr >= self.end),
    {
        self.curr >= self.end
    }

    fn peek(&self) -> (r: Option<char>)
        requires
            self.wf(),
        ensures
            r == (if self.curr < self.end {
                Some(self.source@[self.curr as int])
            } else {
                None::<char>
            }),
    {
        if self.at_end() {
            return None;
        }
        Some(self.source[self.curr])
    }

    fn advance(&mut self) -> (r: char)
        requires
            old(self).wf(),
            old(self).curr < old(self).end,
        ensures
            final(self).wf(),
            final(self).frame(old(self)),
            final(self).curr == old(self).curr + 1,
            r == old(self).source@[old(self).curr as int],
    {
        let c = self.source[self.curr];
        self.curr = self.curr + 1;
        c
    }

    /// The token for `source[start..curr]`: the table's kind for its
    /// lower-cased text if there is one, else `proposed`.
    fn create_token(&self, proposed: TokenType) -> (r: Token)
        requires
            self.wf(),
        ensures
            r@ == (
                classify(self.keywords@, self.source@.subrange(self.start as int, self.curr as int), proposed),
                self.source@.subrange(self.start as int, self.curr as int),
            ),
    {
        let text = string_from(&self.source.as_slice()[self.start..self.curr]);
        let folded = lowercase(text.as_str());
        match self.keywords.get(&folded) {
            Some(kind) => Token::new(kind, text),
            None => Token::new(proposed, text),
        }
    }

    fn process(&mut self, c: char) -> (r: Result<Token, LexError>)
        requires
            old(self).wf(),
            old(self).curr == old(self).start + 1,
            old(self).source@[old(self).start as int] == c,
        ensures
            old(self).delivers(final(self), scan_lexeme(old(self).source@, old(self).start as int, old(self).keywords@), r),
    {
        if ('A' <= c && c <= 'Z') || ('a' <= c && c <= 'z') || c == '_' {
            self.match_identifier()
        } else if '0' <= c && c <= '9' {
            self.match_number()
        } else if c == '\'' {
            self.match_string()
        } else if c == '<' {
            self.match_two_chars('=', TokenType::LessThan, TokenType::LessThanEq)
        } else if c == '>' {
            self.match_two_chars('=', TokenType::GreaterThan, TokenType::GreaterThanEq)
        } else if c == '!' {
            self.match_two_chars('=', TokenType::Bang, TokenType::NotEq)
        } else {
            self.match_one_char(c)
        }
    }

    fn match_string(&mut self) -> (r: Result<Token, LexError>)
        requires
            old(self).wf(),
            old(self).curr == old(self).start + 1,
        ensures
            old(self).delivers(final(self), scan_string(old(self).source@, old(self).start as int, old(self).curr as int), r),
    {
        loop
            invariant
                self.wf(),
                self.frame(old(self)),
                old(self).wf(),
                old(self).curr == old(self).start + 1,
                old(self).curr <= self.curr,
                scan_string(self.source@, self.start as int, self.curr as int) == scan_string(
                    self.source@,
                    self.start as int,
                    old(self).curr as int,
                ),
            decreases self.end - self.curr,
        {
            match self.peek() {
                Some(c) => {
                    self.advance();
                    if c == '\'' {
                        return Ok(self.create_token(TokenType::String));
                    }
                },
                None => {
                    return Err(
                        LexError {
                            kind: LexErrorKind::UnterminatedString,
                            position: self.start,
                            character: self.source[self.start],
                        },
                    );
                },
            }
        }
    }

    fn match_one_char(&self, c: char) -> (r: Result<Token, LexError>)
        requires
            self.wf(),
            self.curr == self.start + 1,
            self.source@[self.start as int] == c,
        ensures
            self.delivers(self, scan_symbol(self.source@, self.start as int, self.keywords@), r),
    {
        let key = string_from(&self.source.as_slice()[self.start..self.curr]);
        assert(key@ == seq![c]);
        match self.keywords.get(&key) {
            Some(kind) => Ok(self.create_token(kind)),
            None => Err(
                LexError {
                    kind: LexErrorKind::UnexpectedCharacter,
                    position: self.start,
                    character: c,
                },
            ),
        }
    }

    fn match_two_chars(&mut self, expected: char, one_char_var: TokenType, two_char_var: TokenType) -> (r:
        Result<Token, LexError>)
        requires
            old(self).wf(),
            old(self).curr == old(self).start + 1,
        ensures
            old(self).delivers(
                final(self),
                scan_pair(old(self).source@, old(self).start as int, expected, one_char_var, two_char_var),
                r,
            ),
    {
        let next = self.peek();
        if next.is_none() || next.unwrap() != expected {
            match one_char_var {
                TokenType::Bang => Err(
                    LexError {
                        kind: LexErrorKind::InvalidStandaloneOperator,
                        position: self.start,
                        character: self.source[self.start],
                    },
                ),
                _ => Ok(self.create_token(one_char_var)),
            }
        } else {
            self.advance();
            Ok(self.create_token(two_char_var))
        }
    }

    fn match_number(&mut self) -> (r: Result<Token, LexError>)
        requires
            old(self).wf(),
            old(self).curr == old(self).start + 1,
        ensures
            old(self).delivers(final(self), scan_number(old(self).source@, old(self).curr as int, false), r),
    {
        let mut has_decimal = false;
        loop
            invariant
                self.wf(),
                self.frame(old(self)),
                old(self).wf(),
                old(self).curr == old(self).start + 1,
                old(self).curr <= self.curr,
                scan_number(self.source@, self.curr as int, has_decimal) == scan_number(
                    self.source@,
                    old(self).curr as int,
                    false,
                ),
            decreases self.end - self.curr,
        {
            match self.peek() {
                Some(c) => {
                    if is_numeric(c) {
                        self.advance();
                    } else if is_whitespace(c) {
                        return Ok(self.create_token(TokenType::Number));
                    } else if c == '.' && !has_decimal {
                        has_decimal = true;
                        self.advance();
                    } else {
                        return Err(
                            LexError {
                                kind: LexErrorKind::UnexpectedCharacter,
                                position: self.curr,
                                character: c,
                            },
                        );
                    }
                },
                None => {
                    return Ok(self.create_token(TokenType::Number));
                },
            }
        }
    }

    fn match_identifier(&mut self) -> (r: Result<Token, LexError>)
        requires
            old(self).wf(),
            old(self).curr == old(self).start + 1,
        ensures
            old(self).delivers(final(self), scan_word(old(self).source@, old(self).start as int), r),
    {
        loop
            invariant
                self.wf(),
                self.frame(old(self)),
                old(self).wf(),
                old(self).curr == old(self).start + 1,
                old(self).curr <= self.curr,
                word_end(self.source@, self.curr as int) == word_end(self.source@, old(self).curr as int),
            decreases self.end - self.curr,
        {
            match self.peek() {
                Some(c) => {
                    if is_alphanumeric(c) {
                        self.advance();
                    } else if c == ',' || is_whitespace(c) {
                        return Ok(self.create_token(TokenType::Identifier));
                    } else {
                        return Err(
                            LexError {
                                kind: LexErrorKind::UnexpectedCharacter,
                                position: self.curr,
                                character: c,
                            },
                        );
                    }
                },
                None => {
                    return Ok(self.create_token(TokenType::Identifier));
                },
            }
        }
    }
}

} // verus!
