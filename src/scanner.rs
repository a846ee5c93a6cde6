use vstd::prelude::*;

use crate::token::{Token, TokenType};

verus! {

/// Why a lexeme could not be read.
#[derive(Debug, Clone, Copy, PartialEq, Eq, Structural)]
pub enum ScanError {
    UnexpectedCharacter,
    UnterminatedString,
}

/// An ASCII decimal digit.
pub open spec fn is_digit(c: char) -> bool {
    '0' <= c && c <= '9'
}

/// Whether `c` has the Unicode `Alphabetic` property.
pub uninterp spec fn alphabetic(c: char) -> bool;

/// Relies on `char::is_alphabetic`, which tells whether a character has the
/// Unicode `Alphabetic` property; the answer depends on the character alone.
#[verifier::external_body]
fn is_alphabetic(c: char) -> (r: bool)
    ensures
        r == alphabetic(c),
{
    c.is_alphabetic()
}

fn is_ascii_digit(c: char) -> (r: bool)
    ensures
        r == is_digit(c),
{
    '0' <= c && c <= '9'
}

/// Characters skipped between lexemes without starting a new line.
pub open spec fn is_blank(c: char) -> bool {
    c == ' ' || c == '\r' || c == '\t'
}

/// Position and line reached from `i` after skipping blanks, newlines and `//` comments.
pub open spec fn skip_blank(s: Seq<char>, i: int, line: int) -> (int, int)
    decreases s.len() - i, 0int,
{
    if i < 0 || i >= s.len() {
        (i, line)
    } else if is_blank(s[i]) {
        skip_blank(s, i + 1, line)
    } else if s[i] == '\n' {
        skip_blank(s, i + 1, line + 1)
    } else if s[i] == '/' && i + 1 < s.len() && s[i + 1] == '/' {
        skip_comment(s, i + 2, line)
    } else {
        (i, line)
    }
}

/// Skips the rest of a `//` comment (up to, not over, its newline), then goes on as `skip_blank`.
pub open spec fn skip_comment(s: Seq<char>, i: int, line: int) -> (int, int)
    decreases s.len() - i, 1int,
{
    if i < 0 || i >= s.len() {
        (i, line)
    } else if s[i] == '\n' {
        skip_blank(s, i, line)
    } else {
        skip_comment(s, i + 1, line)
    }
}

/// The token kind of a lexeme made of one character, if `c` is one.
pub open spec fn single_token(c: char) -> Option<TokenType> {
    if c == '(' {
        Some(TokenType::LeftParen)
    } else if c == ')' {
        Some(TokenType::RightParen)
    } else if c == '{' {
        Some(TokenType::LeftBrace)
    } else if c == '}' {
        Some(TokenType::RightBrace)
    } else if c == ';' {
        Some(TokenType::Semicolon)
    } else if c == ',' {
        Some(TokenType::Comma)
    } else if c == '.' {
        Some(TokenType::Dot)
    } else if c == '-' {
        Some(TokenType::Minus)
    } else if c == '+' {
        Some(TokenType::Plus)
    } else if c == '/' {
        Some(TokenType::Slash)
    } else if c == '*' {
        Some(TokenType::Star)
    } else {
        None
    }
}

/// The token kind of an operator that may be followed by `=`; `eq` tells whether it is.
pub open spec fn pair_token(c: char, eq: bool) -> Option<TokenType> {
    if c == '!' {
        Some(if eq { TokenType::BangEqual } else { TokenType::Bang })
    } else if c == '=' {
        Some(if eq { TokenType::EqualEqual } else { TokenType::Equal })
    } else if c == '<' {
        Some(if eq { TokenType::LessEqual } else { TokenType::Less })
    } else if c == '>' {
        Some(if eq { TokenType::GreaterEqual } else { TokenType::Greater })
    } else {
        None
    }
}

/// Reads a string body from `i` (just past the opening quote): whether a closing quote
/// was found, the position after it (or the end), and the line reached.
pub open spec fn string_scan(s: Seq<char>, i: int, line: int) -> (bool, int, int)
    decreases s.len() - i,
{
    if i < 0 || i >= s.len() {
        (false, i, line)
    } else if s[i] == '"' {
        (true, i + 1, line)
    } else if s[i] == '\n' {
        string_scan(s, i + 1, line + 1)
    } else {
        string_scan(s, i + 1, line)
    }
}

/// First position at or after `i` that does not hold a digit.
pub open spec fn digits_end(s: Seq<char>, i: int) -> int
    decreases s.len() - i,
{
    if i < 0 || i >= s.len() || !is_digit(s[i]) {
        i
    } else {
        digits_end(s, i + 1)
    }
}

/// End of a number lexeme starting at `p`: digits, then optionally `.` and at least one digit.
pub open spec fn number_end(s: Seq<char>, p: int) -> int {
    let e = digits_end(s, p);
    if e + 1 < s.len() && s[e] == '.' && is_digit(s[e + 1]) {
        digits_end(s, e + 1)
    } else {
        e
    }
}

/// First position at or after `i` that holds neither a digit nor an alphabetic character.
pub open spec fn word_end(s: Seq<char>, i: int) -> int
    decreases s.len() - i,
{
    if i < 0 || i >= s.len() || !(is_digit(s[i]) || alphabetic(s[i])) {
        i
    } else {
        word_end(s, i + 1)
    }
}

/// The kind of a word: a reserved word's own kind, else `Identifier`.
pub open spec fn keyword_type(w: Seq<char>) -> TokenType {
    if w =~= seq!['a', 'n', 'd'] {
        TokenType::And
    } else if w =~= seq!['c', 'l', 'a', 's', 's'] {
        TokenType::Class
    } else if w =~= seq!['e', 'l', 's', 'e'] {
        TokenType::Else
    } else if w =~= seq!['f', 'a', 'l', 's', 'e'] {
        TokenType::False
    } else if w =~= seq!['f', 'o', 'r'] {
        TokenType::For
    } else if w =~= seq!['f', 'u', 'n'] {
        TokenType::Fun
    } else if w =~= seq!['i', 'f'] {
        TokenType::If
    } else if w =~= seq!['n', 'i', 'l'] {
        TokenType::Nil
    } else if w =~= seq!['o', 'r'] {
        TokenType::Or
    } else if w =~= seq!['p', 'r', 'i', 'n', 't'] {
        TokenType::Print
    } else if w =~= seq!['r', 'e', 't', 'u', 'r', 'n'] {
        TokenType::Return
    } else if w =~= seq!['s', 'u', 'p', 'e', 'r'] {
        TokenType::Super
    } else if w =~= seq!['t', 'h', 'i', 's'] {
        TokenType::This
    } else if w =~= seq!['t', 'r', 'u', 'e'] {
        TokenType::True
    } else if w =~= seq!['v', 'a', 'r'] {
        TokenType::Var
    } else if w =~= seq!['w', 'h', 'i', 'l', 'e'] {
        TokenType::While
    } else {
        TokenType::Identifier
    }
}

/// The lexeme that starts at `p` on line `line`: its kind or fault, where it ends,
/// and the line reached at its end.
pub open spec fn scan_at(s: Seq<char>, p: int, line: int) -> (Result<TokenType, ScanError>, int, int) {
    if p >= s.len() {
        (Ok(TokenType::EOF), p, line)
    } else {
        let c = s[p];
        let eq = p + 1 < s.len() && s[p + 1] == '=';
        if single_token(c) is Some {
            (Ok(single_token(c)->0), p + 1, line)
        } else if pair_token(c, eq) is Some {
            (Ok(pair_token(c, eq)->0), if eq { p + 2 } else { p + 1 }, line)
        } else if c == '"' {
            let (closed, e, l) = string_scan(s, p + 1, line);
            (if closed { Ok(TokenType::String) } else { Err(ScanError::UnterminatedString) }, e, l)
        } else if is_digit(c) {
            (Ok(TokenType::Number), number_end(s, p), line)
        } else if alphabetic(c) {
            let e = word_end(s, p + 1);
            (Ok(keyword_type(s.subrange(p, e))), e, line)
        } else {
            (Err(ScanError::UnexpectedCharacter), p + 1, line)
        }
    }
}

/// A word never ends before the position it is looked for from.
pub proof fn lemma_word_end_ge(s: Seq<char>, i: int)
    ensures
        word_end(s, i) >= i,
    decreases s.len() - i,
{
    if !(i < 0 || i >= s.len() || !(is_digit(s[i]) || alphabetic(s[i]))) {
        lemma_word_end_ge(s, i + 1);
    }
}

/// What a scanner holds: the text, where the lexeme being read starts, where reading
/// stands, and the current line.
pub ghost struct ScanState {
    pub source: Seq<char>,
    pub start: int,
    pub current: int,
    pub line: int,
}

/// Reads lexemes one at a time from a source text, addressed by character.
#[derive(Debug)]
pub struct Scanner<'a> {
    source: &'a str,
    len: usize,
    start: usize,
    current: usize,
    line: u32,
}

impl<'a> View for Scanner<'a> {
    type V = ScanState;

    closed spec fn view(&self) -> ScanState {
        ScanState {
            source: self.source@,
            start: self.start as int,
            current: self.current as int,
            line: self.line as int,
        }
    }
}

impl<'a> Scanner<'a> {
    pub closed spec fn wf(&self) -> bool {
        &&& self.len == self.source@.len()
        &&& self.len < u32::MAX
        &&& self.start <= self.current <= self.len
        &&& self.line <= self.current + 1
    }

    /// A scanner at the start of `source`, on line 1.
    pub fn new(source: &'a str) -> (r: Scanner<'a>)
        requires
            source@.len() < u32::MAX,
        ensures
            r.wf(),
            r@ == (ScanState { source: source@, start: 0, current: 0, line: 1 }),
    {
        Scanner { source, len: source.unicode_len(), start: 0, current: 0, line: 1 }
    }

    /// Reads the next lexeme, after any blanks, newlines and comments.
    pub fn scan_token(&mut self) -> (r: Result<Token<'a>, ScanError>)
        requires
            old(self).wf(),
        ensures
            final(self).wf(),
            ({
                let s = old(self)@.source;
                let (p, l) = skip_blank(s, old(self)@.current, old(self)@.line);
                let (res, e, l2) = scan_at(s, p, l);
                &&& final(self)@ == (ScanState { source: s, start: p, current: e, line: l2 })
                &&& match r {
                    Ok(t) => res == Ok::<TokenType, ScanError>(t.token_type) && t.literal@
                        == s.subrange(p, e) && t.line == l2,
                    Err(err) => res == Err::<TokenType, ScanError>(err),
                }
            }),
            final(self)@.current <= final(self)@.source.len(),
            r matches Ok(t) && t.token_type == TokenType::EOF ==> final(self)@.current
                == final(self)@.source.len(),
            !(r matches Ok(t) && t.token_type == TokenType::EOF) ==> final(self)@.current
                > old(self)@.current,
    {
        self.skip_whitespace();
        self.start = self.current;
        if self.is_at_end() {
            return Ok(self.make_token(TokenType::EOF));
        }
        let c = self.advance();
        match c {
            '(' => Ok(self.make_token(TokenType::LeftParen)),
            ')' => Ok(self.make_token(TokenType::RightParen)),
            '{' => Ok(self.make_token(TokenType::LeftBrace)),
            '}' => Ok(self.make_token(TokenType::RightBrace)),
            ';' => Ok(self.make_token(TokenType::Semicolon)),
            ',' => Ok(self.make_token(TokenType::Comma)),
            '.' => Ok(self.make_token(TokenType::Dot)),
            '-' => Ok(self.make_token(TokenType::Minus)),
            '+' => Ok(self.make_token(TokenType::Plus)),
            '/' => Ok(self.make_token(TokenType::Slash)),
            '*' => Ok(self.make_token(TokenType::Star)),
            '!' => {
                let token_type = if self.match_char('=') {
                    TokenType::BangEqual
                } else {
                    TokenType::Bang
                };
                Ok(self.make_token(token_type))
            },
            '=' => {
                let token_type = if self.match_char('=') {
                    TokenType::EqualEqual
                } else {
                    TokenType::Equal
                };
                Ok(self.make_token(token_type))
            },
            '<' => {
                let token_type = if self.match_char('=') {
                    TokenType::LessEqual
                } else {
                    TokenType::Less
                };
                Ok(self.make_token(token_type))
            },
            '>' => {
                let token_type = if self.match_char('=') {
                    TokenType::GreaterEqual
                } else {
                    TokenType::Greater
                };
                Ok(self.make_token(token_type))
            },
            '"' => self.string(),
            _ => {
                if is_ascii_digit(c) {
                    Ok(self.number())
                } else if is_alphabetic(c) {
                    Ok(self.identifier())
                } else {
                    Err(ScanError::UnexpectedCharacter)
                }
            },
        }
    }

    /// A well-formed scanner stands inside its text.
    pub proof fn lemma_within(&self)
        requires
            self.wf(),
        ensures
            0 <= self@.start <= self@.current <= self@.source.len(),
            self@.source.len() < u32::MAX,
    {
    }

    /// The text of the lexeme read last (or being read).
    pub fn lexeme(&self) -> (r: &'a str)
        requires
            self.wf(),
        ensures
            r@ == self@.source.subrange(self@.start, self@.current),
    {
        self.source.substring_char(self.start, self.current)
    }

    /// The line the scanner stands on.
    pub fn line(&self) -> (r: u32)
        ensures
            r == self@.line,
    {
        self.line
    }

    fn is_at_end(&self) -> (r: bool)
        requires
            self.wf(),
        ensures
            r == (self@.current == self@.source.len()),
    {
        self.current == self.len
    }

    fn peek(&self) -> (r: Option<char>)
        requires
            self.wf(),
        ensures
            r == (if self@.current < self@.source.len() {
                Some(self@.source[self@.current])
            } else {
                None
            }),
    {
        if self.current < self.len {
            Some(self.source.get_char(self.current))
        } else {
            None
        }
    }

    fn peek_next(&self) -> (r: Option<char>)
        requires
            self.wf(),
        ensures
            r == (if self@.current + 1 < self@.source.len() {
                Some(self@.source[self@.current + 1])
            } else {
                None
            }),
    {
        if self.current < self.len && self.current + 1 < self.len {
            Some(self.source.get_char(self.current + 1))
        } else {
            None
        }
    }

    fn advance(&mut self) -> (r: char)
        requires
            old(self).wf(),
            old(self)@.current < old(self)@.source.len(),
        ensures
            final(self).wf(),
            final(self)@ == (ScanState { current: old(self)@.current + 1, ..old(self)@ }),
            r == old(self)@.source[old(self)@.current],
    {
        let c = self.source.get_char(self.current);
        self.current = self.current + 1;
        c
    }

    fn match_char(&mut self, expected: char) -> (r: bool)
        requires
            old(self).wf(),
        ensures
            final(self).wf(),
            r == (old(self)@.current < old(self)@.source.len() && old(self)@.source[old(
                self,
            )@.current] == expected),
            final(self)@ == (ScanState {
                current: old(self)@.current + if r { 1int } else { 0int },
                ..old(self)@
            }),
    {
        match self.peek() {
            Some(c) => {
                if c == expected {
                    self.current = self.current + 1;
                    true
                } else {
                    false
                }
            },
            None => false,
        }
    }

    fn skip_whitespace(&mut self)
        requires
            old(self).wf(),
        ensures
            final(self).wf(),
            final(self)@.source == old(self)@.source,
            final(self)@.start == old(self)@.start,
            final(self)@.current >= old(self)@.current,
            (final(self)@.current, final(self)@.line) == skip_blank(
                old(self)@.source,
                old(self)@.current,
                old(self)@.line,
            ),
    {
        let ghost s = self@.source;
        let ghost target = skip_blank(s, self@.current, self@.line);
        loop
            invariant
                self.wf(),
                self@.source == s,
                s == old(self)@.source,
                target == skip_blank(s, old(self)@.current, old(self)@.line),
                self@.start == old(self)@.start,
                self@.current >= old(self)@.current,
                skip_blank(s, self@.current, self@.line) == target,
            decreases s.len() - self@.current,
        {
            match self.peek() {
                Some(c) => {
                    if c == ' ' || c == '\r' || c == '\t' {
                        self.advance();
                    } else if c == '\n' {
                        self.advance();
                        self.line = self.line + 1;
                    } else if c == '/' {
                        if self.peek_next() == Some('/') {
                            let ghost here = self@.current;
                            self.advance();
                            self.advance();
                            while !self.is_at_end() && self.peek() != Some('\n')
                                invariant
                                    self.wf(),
                                    self@.source == s,
                                    s == old(self)@.source,
                                    target == skip_blank(s, old(self)@.current, old(self)@.line),
                                    self@.start == old(self)@.start,
                                    self@.current > here,
                                    here >= old(self)@.current,
                                    skip_comment(s, self@.current, self@.line) == target,
                                decreases s.len() - self@.current,
                            {
                                self.advance();
                            }
                        } else {
                            return ;
                        }
                    } else {
                        return ;
                    }
                },
                None => {
                    return ;
                },
            }
        }
    }

    /// Reads the body of a string after its opening quote, and the closing quote.
    fn string(&mut self) -> (r: Result<Token<'a>, ScanError>)
        requires
            old(self).wf(),
        ensures
            final(self).wf(),
            ({
                let (closed, e, l) = string_scan(
                    old(self)@.source,
                    old(self)@.current,
                    old(self)@.line,
                );
                &&& final(self)@ == (ScanState { current: e, line: l, ..old(self)@ })
                &&& e >= old(self)@.current
                &&& closed ==> (r matches Ok(t) && t.token_type == TokenType::String
                    && t.literal@ == final(self)@.source.subrange(final(self)@.start, e)
                    && t.line == l)
                &&& !closed ==> r == Err::<Token<'a>, ScanError>(ScanError::UnterminatedString)
            }),
    {
        let ghost s = self@.source;
        let ghost target = string_scan(s, self@.current, self@.line);
        while !self.is_at_end() && self.peek() != Some('"')
            invariant
                self.wf(),
                self@.source == s,
                s == old(self)@.source,
                target == string_scan(s, old(self)@.current, old(self)@.line),
                self@.start == old(self)@.start,
                self@.current >= old(self)@.current,
                string_scan(s, self@.current, self@.line) == target,
            decreases s.len() - self@.current,
        {
            if self.advance() == '\n' {
                self.line = self.line + 1;
            }
        }
        if self.is_at_end() {
            return Err(ScanError::UnterminatedString);
        }
        self.advance();
        Ok(self.make_token(TokenType::String))
    }

    fn skip_digits(&mut self)
        requires
            old(self).wf(),
        ensures
            final(self).wf(),
            final(self)@ == (ScanState {
                current: digits_end(old(self)@.source, old(self)@.current),
                ..old(self)@
            }),
            final(self)@.current >= old(self)@.current,
    {
        let ghost s = self@.source;
        loop
            invariant
                self.wf(),
                s == old(self)@.source,
                self@ == (ScanState { current: self@.current, ..old(self)@ }),
                digits_end(s, self@.current) == digits_end(s, old(self)@.current),
                self@.current >= old(self)@.current,
            decreases s.len() - self@.current,
        {
            match self.peek() {
                Some(c) => {
                    if is_ascii_digit(c) {
                        self.advance();
                    } else {
                        return ;
                    }
                },
                None => {
                    return ;
                },
            }
        }
    }

    /// Reads the rest of a number whose first digit was just read.
    fn number(&mut self) -> (r: Token<'a>)
        requires
            old(self).wf(),
            old(self)@.current == old(self)@.start + 1,
            is_digit(old(self)@.source[old(self)@.start]),
        ensures
            final(self).wf(),
            final(self)@ == (ScanState {
                current: number_end(old(self)@.source, old(self)@.start),
                ..old(self)@
            }),
            final(self)@.current >= old(self)@.current,
            r.token_type == TokenType::Number,
            r.literal@ == final(self)@.source.subrange(final(self)@.start, final(self)@.current),
            r.line == final(self)@.line,
    {
        self.skip_digits();
        if self.peek() == Some('.') {
            match self.peek_next() {
                Some(c) => {
                    if is_ascii_digit(c) {
                        self.advance();
                        self.skip_digits();
                    }
                },
                None => {},
            }
        }
        self.make_token(TokenType::Number)
    }

    fn skip_word(&mut self)
        requires
            old(self).wf(),
        ensures
            final(self).wf(),
            final(self)@ == (ScanState {
                current: word_end(old(self)@.source, old(self)@.current),
                ..old(self)@
            }),
    {
        let ghost s = self@.source;
        loop
            invariant
                self.wf(),
                s == old(self)@.source,
                self@ == (ScanState { current: self@.current, ..old(self)@ }),
                word_end(s, self@.current) == word_end(s, old(self)@.current),
                self@.current >= old(self)@.current,
            decreases s.len() - self@.current,
        {
            match self.peek() {
                Some(c) => {
                    if is_ascii_digit(c) || is_alphabetic(c) {
                        self.advance();
                    } else {
                        return ;
                    }
                },
                None => {
                    return ;
                },
            }
        }
    }

    /// Reads the rest of a word whose first character was just read.
    fn identifier(&mut self) -> (r: Token<'a>)
        requires
            old(self).wf(),
            old(self)@.current == old(self)@.start + 1,
        ensures
            final(self).wf(),
            final(self)@ == (ScanState {
                current: word_end(old(self)@.source, old(self)@.current),
                ..old(self)@
            }),
            final(self)@.current >= old(self)@.current,
            r.token_type == keyword_type(
                final(self)@.source.subrange(final(self)@.start, final(self)@.current),
            ),
            r.literal@ == final(self)@.source.subrange(final(self)@.start, final(self)@.current),
            r.line == final(self)@.line,
    {
        self.skip_word();
        proof {
            lemma_word_end_ge(old(self)@.source, old(self)@.current);
        }
        let t = self.identifier_type();
        self.make_token(t)
    }

    /// `token_type` when the word being read is its first `offset` characters followed by
    /// `rest`, else `Identifier`.
    fn check_keyword(&self, offset: usize, rest: &str, token_type: TokenType) -> (r: TokenType)
        requires
            self.wf(),
            self@.start + offset <= self@.current,
        ensures
            r == (if self@.source.subrange(self@.start + offset, self@.current) =~= rest@ {
                token_type
            } else {
                TokenType::Identifier
            }),
    {
        let ghost s = self@.source;
        let n = rest.unicode_len();
        if self.current - self.start - offset != n {
            return TokenType::Identifier;
        }
        let base = self.start + offset;
        let mut j: usize = 0;
        while j < n
            invariant
                self.wf(),
                s == self@.source,
                base == self@.start + offset,
                base + n == self@.current,
                n == rest@.len(),
                j <= n,
                forall|i: int| 0 <= i < j ==> s[base + i] == rest@[i],
            decreases n - j,
        {
            if self.source.get_char(base + j) != rest.get_char(j) {
                assert(s.subrange(base as int, self@.current)[j as int] != rest@[j as int]);
                return TokenType::Identifier;
            }
            j = j + 1;
        }
        assert(s.subrange(base as int, self@.current) =~= rest@);
        token_type
    }

    /// The kind of the word read so far: a reserved word's own kind, else `Identifier`.
    fn identifier_type(&self) -> (r: TokenType)
        requires
            self.wf(),
            self@.start < self@.current,
        ensures
            r == keyword_type(self@.source.subrange(self@.start, self@.current)),
    {
        let ghost w = self@.source.subrange(self@.start, self@.current);
        let ghost tail1 = self@.source.subrange(self@.start + 1, self@.current);
        assert(w =~= seq![w[0]] + tail1);
        match self.source.get_char(self.start) {
            'a' => {
                proof {
                    reveal_strlit("nd");
                }
                self.check_keyword(1, "nd", TokenType::And)
            },
            'c' => {
                proof {
                    reveal_strlit("lass");
                }
                self.check_keyword(1, "lass", TokenType::Class)
            },
            'e' => {
                proof {
                    reveal_strlit("lse");
                }
                self.check_keyword(1, "lse", TokenType::Else)
            },
            'f' => {
                if self.current - self.start > 1 {
                    let ghost tail2 = self@.source.subrange(self@.start + 2, self@.current);
                    assert(tail1 =~= seq![tail1[0]] + tail2);
                    match self.source.get_char(self.start + 1) {
                        'a' => {
                            proof {
                                reveal_strlit("lse");
                            }
                            self.check_keyword(2, "lse", TokenType::False)
                        },
                        'o' => {
                            proof {
                                reveal_strlit("r");
                            }
                            self.check_keyword(2, "r", TokenType::For)
                        },
                        'u' => {
                            proof {
                                reveal_strlit("n");
                            }
                            self.check_keyword(2, "n", TokenType::Fun)
                        },
                        _ => TokenType::Identifier,
                    }
                } else {
                    TokenType::Identifier
                }
            },
            'i' => {
                proof {
                    reveal_strlit("f");
                }
                self.check_keyword(1, "f", TokenType::If)
            },
            'n' => {
                proof {
                    reveal_strlit("il");
                }
                self.check_keyword(1, "il", TokenType::Nil)
            },
            'o' => {
                proof {
                    reveal_strlit("r");
                }
                self.check_keyword(1, "r", TokenType::Or)
            },
            'p' => {
                proof {
                    reveal_strlit("rint");
                }
                self.check_keyword(1, "rint", TokenType::Print)
            },
            'r' => {
                proof {
                    reveal_strlit("eturn");
                }
                self.check_keyword(1, "eturn", TokenType::Return)
            },
            's' => {
                proof {
                    reveal_strlit("uper");
                }
                self.check_keyword(1, "uper", TokenType::Super)
            },
            't' => {
                if self.current - self.start > 1 {
                    let ghost tail2 = self@.source.subrange(self@.start + 2, self@.current);
                    assert(tail1 =~= seq![tail1[0]] + tail2);
                    match self.source.get_char(self.start + 1) {
                        'h' => {
                            proof {
                                reveal_strlit("is");
                            }
                            self.check_keyword(2, "is", TokenType::This)
                        },
                        'r' => {
                            proof {
                                reveal_strlit("ue");
                            }
                            self.check_keyword(2, "ue", TokenType::True)
                        },
                        _ => TokenType::Identifier,
                    }
                } else {
                    TokenType::Identifier
                }
            },
            'v' => {
                proof {
                    reveal_strlit("ar");
                }
                self.check_keyword(1, "ar", TokenType::Var)
            },
            'w' => {
                proof {
                    reveal_strlit("hile");
                }
                self.check_keyword(1, "hile", TokenType::While)
            },
            _ => TokenType::Identifier,
        }
    }

    fn make_token(&self, token_type: TokenType) -> (r: Token<'a>)
        requires
            self.wf(),
        ensures
            r.token_type == token_type,
            r.literal@ == self@.source.subrange(self@.start, self@.current),
            r.line == self@.line,
    {
        Token {
            token_type,
            literal: self.source.substring_char(self.start, self.current),
            line: self.line,
        }
    }
}

} // verus!
