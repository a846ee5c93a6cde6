use vstd::prelude::*;

use crate::chunk::{
    Chunk,
    lemma_rle_extend_concat,
    rle_extend,
    rle_push,
    OpCode,
    lemma_run_depth_concat,
    lemma_run_depth_deeper,
    lemma_run_depth_more_constants,
    long_index,
    op_byte,
    is_program,
    run_depth,
};
use crate::precedence::Precedence;
use vstd::arithmetic::div_mod::{
    lemma_div_denominator,
    lemma_div_is_ordered,
    lemma_div_pos_is_pos,
    lemma_fundamental_div_mod,
};
use crate::scanner::{ScanError, Scanner, scan_at, skip_blank};
use crate::token::{Token, TokenType};
use crate::value::{Number, Value, ValueView, literal_number};

verus! {

/// What went wrong at a point of the source.
#[derive(Debug, Clone, Copy, PartialEq, Eq, Structural)]
pub enum ParseError {
    /// A lexeme could not be read.
    ScanError(ScanError),
    /// A token that cannot start an expression stands where one must.
    ExpectExpression,
    /// A group lacks its closing parenthesis.
    ExpectRightParen,
    /// Tokens follow a complete expression.
    ExpectEnd,
    /// The constant pool is full even for the long form of a constant load.
    TooManyConstants,
    /// A number literal too long or too large to hold.
    NumberTooLarge,
    /// The chunk cannot take another byte.
    ChunkFull,
}

/// An error reported by the compiler: the line, the text of the token it is reported at
/// (`None` at the end of the source), and what went wrong.
#[derive(Debug, Clone, Copy)]
pub struct Diagnostic<'a> {
    pub line: u32,
    pub at: Option<&'a str>,
    pub error: ParseError,
}

/// A production of the grammar, as named in the rule table.
#[derive(Debug, Clone, Copy, PartialEq, Eq, Structural)]
pub enum ParseFn {
    Grouping,
    Unary,
    Binary,
    Number,
    String,
    Literal,
}

/// A row of the rule table: how a token starts an expression, how it continues one, and
/// how tightly it binds as an infix operator.
#[derive(Debug, Clone, Copy)]
pub struct Rule {
    pub prefix: Option<ParseFn>,
    pub infix: Option<ParseFn>,
    pub precedence: Precedence,
}

/// Tokens that are binary operators.
pub open spec fn is_binary_operator(t: TokenType) -> bool {
    t == TokenType::Minus || t == TokenType::Plus || t == TokenType::Slash || t == TokenType::Star
        || t == TokenType::BangEqual || t == TokenType::EqualEqual || t == TokenType::Greater
        || t == TokenType::GreaterEqual || t == TokenType::Less || t == TokenType::LessEqual
}

/// The production a token starts an expression with.
pub open spec fn prefix_rule(t: TokenType) -> Option<ParseFn> {
    match t {
        TokenType::LeftParen => Some(ParseFn::Grouping),
        TokenType::Minus | TokenType::Bang => Some(ParseFn::Unary),
        TokenType::String => Some(ParseFn::String),
        TokenType::Number => Some(ParseFn::Number),
        TokenType::False | TokenType::True | TokenType::Nil => Some(ParseFn::Literal),
        _ => None,
    }
}

/// The production a token continues an expression with.
pub open spec fn infix_rule(t: TokenType) -> Option<ParseFn> {
    if is_binary_operator(t) {
        Some(ParseFn::Binary)
    } else {
        None
    }
}

/// How tightly a token binds as an infix operator.
pub open spec fn rule_precedence(t: TokenType) -> Precedence {
    match t {
        TokenType::Minus | TokenType::Plus => Precedence::Term,
        TokenType::Slash | TokenType::Star => Precedence::Factor,
        TokenType::BangEqual | TokenType::EqualEqual => Precedence::Equality,
        TokenType::Greater | TokenType::GreaterEqual | TokenType::Less
        | TokenType::LessEqual => Precedence::Comparison,
        _ => Precedence::Lowest,
    }
}

/// Only binary operators bind as infix operators.
proof fn lemma_binding_tokens(t: TokenType)
    ensures
        rule_precedence(t).level() >= 1 ==> infix_rule(t) == Some(ParseFn::Binary),
        rule_precedence(t).level() >= 1 ==> t != TokenType::EOF,
{
}

/// The row of the rule table for `token_type`.
pub fn get_rule(token_type: TokenType) -> (r: Rule)
    ensures
        r.prefix == prefix_rule(token_type),
        r.infix == infix_rule(token_type),
        r.precedence == rule_precedence(token_type),
{
    match token_type {
        TokenType::LeftParen => Rule {
            prefix: Some(ParseFn::Grouping),
            infix: None,
            precedence: Precedence::Lowest,
        },
        TokenType::RightParen => Rule { prefix: None, infix: None, precedence: Precedence::Lowest },
        TokenType::LeftBrace => Rule { prefix: None, infix: None, precedence: Precedence::Lowest },
        TokenType::RightBrace => Rule { prefix: None, infix: None, precedence: Precedence::Lowest },
        TokenType::Comma => Rule { prefix: None, infix: None, precedence: Precedence::Lowest },
        TokenType::Dot => Rule { prefix: None, infix: None, precedence: Precedence::Lowest },
        TokenType::Minus => Rule {
            prefix: Some(ParseFn::Unary),
            infix: Some(ParseFn::Binary),
            precedence: Precedence::Term,
        },
        TokenType::Plus => Rule {
            prefix: None,
            infix: Some(ParseFn::Binary),
            precedence: Precedence::Term,
        },
        TokenType::Semicolon => Rule { prefix: None, infix: None, precedence: Precedence::Lowest },
        TokenType::Slash => Rule {
            prefix: None,
            infix: Some(ParseFn::Binary),
            precedence: Precedence::Factor,
        },
        TokenType::Star => Rule {
            prefix: None,
            infix: Some(ParseFn::Binary),
            precedence: Precedence::Factor,
        },
        TokenType::Bang => Rule {
            prefix: Some(ParseFn::Unary),
            infix: None,
            precedence: Precedence::Lowest,
        },
        TokenType::BangEqual => Rule {
            prefix: None,
            infix: Some(ParseFn::Binary),
            precedence: Precedence::Equality,
        },
        TokenType::Equal => Rule { prefix: None, infix: None, precedence: Precedence::Lowest },
        TokenType::EqualEqual => Rule {
            prefix: None,
            infix: Some(ParseFn::Binary),
            precedence: Precedence::Equality,
        },
        TokenType::Greater => Rule {
            prefix: None,
            infix: Some(ParseFn::Binary),
            precedence: Precedence::Comparison,
        },
        TokenType::Less => Rule {
            prefix: None,
            infix: Some(ParseFn::Binary),
            precedence: Precedence::Comparison,
        },
        TokenType::GreaterEqual => Rule {
            prefix: None,
            infix: Some(ParseFn::Binary),
            precedence: Precedence::Comparison,
        },
        TokenType::LessEqual => Rule {
            prefix: None,
            infix: Some(ParseFn::Binary),
            precedence: Precedence::Comparison,
        },
        TokenType::Identifier => Rule { prefix: None, infix: None, precedence: Precedence::Lowest },
        TokenType::String => Rule {
            prefix: Some(ParseFn::String),
            infix: None,
            precedence: Precedence::Lowest,
        },
        TokenType::Number => Rule {
            prefix: Some(ParseFn::Number),
            infix: None,
            precedence: Precedence::Lowest,
        },
        TokenType::And => Rule { prefix: None, infix: None, precedence: Precedence::Lowest },
        TokenType::Class => Rule { prefix: None, infix: None, precedence: Precedence::Lowest },
        TokenType::Else => Rule { prefix: None, infix: None, precedence: Precedence::Lowest },
        TokenType::False => Rule {
            prefix: Some(ParseFn::Literal),
            infix: None,
            precedence: Precedence::Lowest,
        },
        TokenType::For => Rule { prefix: None, infix: None, precedence: Precedence::Lowest },
        TokenType::Fun => Rule { prefix: None, infix: None, precedence: Precedence::Lowest },
        TokenType::If => Rule { prefix: None, infix: None, precedence: Precedence::Lowest },
        TokenType::Nil => Rule {
            prefix: Some(ParseFn::Literal),
            infix: None,
            precedence: Precedence::Lowest,
        },
        TokenType::Or => Rule { prefix: None, infix: None, precedence: Precedence::Lowest },
        TokenType::Print => Rule { prefix: None, infix: None, precedence: Precedence::Lowest },
        TokenType::Return => Rule { prefix: None, infix: None, precedence: Precedence::Lowest },
        TokenType::Super => Rule { prefix: None, infix: None, precedence: Precedence::Lowest },
        TokenType::This => Rule { prefix: None, infix: None, precedence: Precedence::Lowest },
        TokenType::True => Rule {
            prefix: Some(ParseFn::Literal),
            infix: None,
            precedence: Precedence::Lowest,
        },
        TokenType::Var => Rule { prefix: None, infix: None, precedence: Precedence::Lowest },
        TokenType::While => Rule { prefix: None, infix: None, precedence: Precedence::Lowest },
        TokenType::EOF => Rule { prefix: None, infix: None, precedence: Precedence::Lowest },
    }
}

/// The three bytes of a long constant index give the index back.
proof fn lemma_long_index(idx: int)
    requires
        0 <= idx <= 0xFF_FFFF,
    ensures
        long_index((idx / 65536) as u8, ((idx / 256) % 256) as u8, (idx % 256) as u8) == idx,
        0 <= idx / 65536 <= 255,
{
    lemma_fundamental_div_mod(idx, 256);
    lemma_fundamental_div_mod(idx / 256, 256);
    lemma_div_denominator(idx, 256, 256);
    lemma_div_pos_is_pos(idx, 256);
    lemma_div_pos_is_pos(idx, 65536);
    assert(idx / 65536 <= 255) by {
        lemma_div_is_ordered(idx, 0xFF_FFFF, 65536);
    }
}

/// The instruction that loads constant `idx`: the short form while the index fits in a
/// byte, else the long form with three index bytes, most significant first.
pub open spec fn load_code(idx: int) -> Seq<u8> {
    if idx <= 255 {
        seq![op_byte(OpCode::Constant), idx as u8]
    } else {
        seq![
            op_byte(OpCode::ConstantLong),
            (idx / 65536) as u8,
            ((idx / 256) % 256) as u8,
            (idx % 256) as u8,
        ]
    }
}

/// The code a binary operator compiles to, after both operands.
pub open spec fn desugar(t: TokenType) -> Seq<u8> {
    match t {
        TokenType::BangEqual => seq![op_byte(OpCode::Equal), op_byte(OpCode::Not)],
        TokenType::EqualEqual => seq![op_byte(OpCode::Equal)],
        TokenType::Greater => seq![op_byte(OpCode::Greater)],
        TokenType::GreaterEqual => seq![op_byte(OpCode::Less), op_byte(OpCode::Not)],
        TokenType::Less => seq![op_byte(OpCode::Less)],
        TokenType::LessEqual => seq![op_byte(OpCode::Greater), op_byte(OpCode::Not)],
        TokenType::Plus => seq![op_byte(OpCode::Add)],
        TokenType::Minus => seq![op_byte(OpCode::Subtract)],
        TokenType::Star => seq![op_byte(OpCode::Multiply)],
        _ => seq![op_byte(OpCode::Divide)],
    }
}

/// The opcode a prefix operator compiles to, after its operand.
pub open spec fn unary_op(t: TokenType) -> OpCode {
    if t == TokenType::Bang {
        OpCode::Not
    } else {
        OpCode::Negate
    }
}

/// The opcode a literal keyword compiles to.
pub open spec fn literal_op(t: TokenType) -> OpCode {
    if t == TokenType::Nil {
        OpCode::Nil
    } else if t == TokenType::True {
        OpCode::True
    } else {
        OpCode::False
    }
}

// ---- The grammar, as the parser runs it ----

/// A token as the grammar sees it: its kind, its text and its line.
pub ghost struct Tk {
    pub ty: TokenType,
    pub text: Seq<char>,
    pub line: int,
}

/// Where parsing stands: the scanner's position and line, and the last two tokens read.
pub ghost struct PState {
    pub pos: int,
    pub line: int,
    pub prev: Option<Tk>,
    pub cur: Option<Tk>,
}

pub open spec fn tk_of<'a>(t: Option<Token<'a>>) -> Option<Tk> {
    match t {
        Some(t) => Some(Tk { ty: t.token_type, text: t.literal@, line: t.line as int }),
        None => None,
    }
}

/// What is left to read from `st`: twice the characters left, and one more until the
/// end of the text has been read as a token.
pub open spec fn rem(s: Seq<char>, st: PState) -> int {
    2 * (s.len() - st.pos) + if st.cur matches Some(t) && t.ty == TokenType::EOF {
        0int
    } else {
        1int
    }
}

/// The state after reading one more token, or `None` where the lexeme cannot be read.
pub open spec fn next_state(s: Seq<char>, st: PState) -> Option<PState> {
    let (p, l) = skip_blank(s, st.pos, st.line);
    let (res, e, l2) = scan_at(s, p, l);
    match res {
        Ok(ty) => Some(
            PState {
                pos: e,
                line: l2,
                prev: st.cur,
                cur: Some(Tk { ty, text: s.subrange(p, e), line: l2 }),
            },
        ),
        Err(_) => None,
    }
}

/// What a production yields: the state reached, the code emitted, the constants added,
/// and the source line of each byte emitted.
pub type Emitted = (PState, Seq<u8>, Seq<ValueView>, Seq<u32>);

/// One more byte's worth of a line extends the table by that line.
proof fn lemma_extend_lines_of(runs: Seq<(u32, usize)>, n: nat, line: u32)
    ensures
        rle_extend(runs, lines_of(n + 1, line)) == rle_push(rle_extend(runs, lines_of(n, line)), line),
        rle_extend(runs, lines_of(0, line)) == runs,
{
    assert(lines_of(n + 1, line).drop_last() =~= lines_of(n, line));
    assert(lines_of(0, line) =~= Seq::<u32>::empty());
}

/// The lines of what a production yields.
pub open spec fn emitted_lines(g: Option<Emitted>) -> Seq<u32> {
    match g {
        Some((_, _, _, ls)) => ls,
        None => Seq::empty(),
    }
}

/// The line bytes emitted in state `st` are attributed to: that of the token just read.
pub open spec fn prev_line(st: PState) -> u32 {
    match st.prev {
        Some(t) => t.line as u32,
        None => st.line as u32,
    }
}

/// `n` bytes' worth of `line`.
pub open spec fn lines_of(n: nat, line: u32) -> Seq<u32> {
    Seq::new(n, |i: int| line)
}

/// Compiling with a production for the token just read (`st.prev`), with `k` constants in
/// the pool: the state reached, the code emitted and the constants added; `None` where
/// the source is in error.
pub open spec fn g_rule(s: Seq<char>, f: ParseFn, st: PState, k: int) -> Option<Emitted>
    decreases rem(s, st), 3int,
{
    match st.prev {
        None => None,
        Some(t) => match f {
            ParseFn::Grouping => g_grouping(s, st, k),
            ParseFn::Unary => match g_prec(s, st, Precedence::Unary, k) {
                Some((st2, c, v, ls)) => Some(
                    (st2, c.push(op_byte(unary_op(t.ty))), v, ls.push(prev_line(st2))),
                ),
                None => None,
            },
            ParseFn::Binary => match g_prec(s, st, rule_precedence(t.ty).raised(1), k) {
                Some((st2, c, v, ls)) => Some(
                    (st2, c + desugar(t.ty), v, ls + lines_of(desugar(t.ty).len(), prev_line(st2))),
                ),
                None => None,
            },
            ParseFn::Number => match literal_number(t.text) {
                Some(n) => if k <= 0xFF_FFFF {
                    Some(
                        (
                            st,
                            load_code(k),
                            seq![ValueView::Number(n)],
                            lines_of(load_code(k).len(), prev_line(st)),
                        ),
                    )
                } else {
                    None
                },
                None => None,
            },
            ParseFn::String => if t.text.len() >= 2 && k <= 0xFF_FFFF {
                Some(
                    (
                        st,
                        load_code(k),
                        seq![ValueView::Str(t.text.subrange(1, t.text.len() - 1))],
                        lines_of(load_code(k).len(), prev_line(st)),
                    ),
                )
            } else {
                None
            },
            ParseFn::Literal => Some(
                (st, seq![op_byte(literal_op(t.ty))], Seq::empty(), seq![prev_line(st)]),
            ),
        },
    }
}

/// A parenthesised expression whose `(` was just read.
pub open spec fn g_grouping(s: Seq<char>, st: PState, k: int) -> Option<Emitted>
    decreases rem(s, st), 2int,
{
    match g_prec(s, st, Precedence::Assignment, k) {
        Some((st2, c, v, ls)) => if st2.cur matches Some(t) && t.ty == TokenType::RightParen {
            match next_state(s, st2) {
                Some(st3) => Some((st3, c, v, ls)),
                None => None,
            }
        } else {
            None
        },
        None => None,
    }
}

/// An expression of operators binding at least as tightly as `min`: a token with a
/// prefix production, then infix operators while the next token binds that tightly.
pub open spec fn g_prec(s: Seq<char>, st: PState, min: Precedence, k: int) -> Option<Emitted>
    decreases rem(s, st), 0int,
{
    match next_state(s, st) {
        None => None,
        Some(st1) => match st1.prev {
            None => None,
            Some(t) => match prefix_rule(t.ty) {
                None => None,
                Some(f) => if 0 <= rem(s, st1) < rem(s, st) {
                    match g_rule(s, f, st1, k) {
                        Some((st2, c, v, ls)) => if 0 <= rem(s, st2) < rem(s, st) {
                            g_infix(s, st2, min, k, c, v, ls)
                        } else {
                            None
                        },
                        None => None,
                    }
                } else {
                    None
                },
            },
        },
    }
}

/// Goes on after an operand compiled to `c`, adding constants `v`, with infix operators
/// while the next token binds at least as tightly as `min`.
pub open spec fn g_infix(
    s: Seq<char>,
    st: PState,
    min: Precedence,
    k: int,
    c: Seq<u8>,
    v: Seq<ValueView>,
    ls: Seq<u32>,
) -> Option<Emitted>
    decreases rem(s, st), 1int,
{
    match st.cur {
        None => Some((st, c, v, ls)),
        Some(t) => if min.level() <= rule_precedence(t.ty).level() {
            match next_state(s, st) {
                None => None,
                Some(st1) => if 0 <= rem(s, st1) < rem(s, st) {
                    match g_rule(s, ParseFn::Binary, st1, k + v.len()) {
                        Some((st2, c2, v2, ls2)) => if 0 <= rem(s, st2) < rem(s, st) {
                            g_infix(s, st2, min, k, c + c2, v + v2, ls + ls2)
                        } else {
                            None
                        },
                        None => None,
                    }
                } else {
                    None
                },
            }
        } else {
            Some((st, c, v, ls))
        },
    }
}

/// An operator that binds less tightly than `min` ends the expression being read at `min`:
/// nothing more is consumed or emitted.
pub proof fn lemma_weaker_operator_ends(
    s: Seq<char>,
    st: PState,
    min: Precedence,
    k: int,
    c: Seq<u8>,
    v: Seq<ValueView>,
    ls: Seq<u32>,
)
    requires
        st.cur matches Some(t) && rule_precedence(t.ty).level() < min.level(),
    ensures
        g_infix(s, st, min, k, c, v, ls) == Some((st, c, v, ls)),
{
}

/// Left associativity: the right operand of a binary operator is read one level above the
/// operator's own, so an operator of the same level ends it and applies to the result.
pub proof fn lemma_left_associative(op: TokenType, next: TokenType)
    requires
        is_binary_operator(op),
        rule_precedence(next) == rule_precedence(op),
    ensures
        rule_precedence(next).level() < rule_precedence(op).raised(1).level(),
{
}

/// `*` and `/` bind tighter than `+` and `-`: after a `+` or `-`, a `*` or `/` continues its
/// right operand; after a `*` or `/`, a `+` or `-` ends it.
pub proof fn lemma_factor_binds_tighter(term: TokenType, factor: TokenType)
    requires
        term == TokenType::Plus || term == TokenType::Minus,
        factor == TokenType::Star || factor == TokenType::Slash,
    ensures
        rule_precedence(factor).level() >= rule_precedence(term).raised(1).level(),
        rule_precedence(term).level() < rule_precedence(factor).raised(1).level(),
{
}

/// The code, the constants and the line of each byte that compiling `s` adds to a pool of
/// `k` constants: one expression, the end of the text, then `Return`; `None` where the
/// source is in error.
pub open spec fn g_compile(s: Seq<char>, k: int) -> Option<(Seq<u8>, Seq<ValueView>, Seq<u32>)> {
    let st0 = PState { pos: 0, line: 1, prev: None, cur: None };
    match next_state(s, st0) {
        None => None,
        Some(st1) => match g_prec(s, st1, Precedence::Assignment, k) {
            Some((st2, c, v, ls)) => if st2.cur matches Some(t) && t.ty == TokenType::EOF {
                match next_state(s, st2) {
                    Some(st3) => Some(
                        (c.push(op_byte(OpCode::Return)), v, ls.push(prev_line(st3))),
                    ),
                    None => None,
                }
            } else {
                None
            },
            None => None,
        },
    }
}

/// The diagnostic for `error` at `token`: its line and text, or "at end" for the end of
/// the text; with no token, at `line` and at end.
pub open spec fn diagnostic_at<'a>(token: Option<Token<'a>>, error: ParseError, line: u32) -> Diagnostic<'a> {
    match token {
        Some(t) => Diagnostic {
            line: t.line,
            at: if t.token_type == TokenType::EOF {
                None
            } else {
                Some(t.literal)
            },
            error,
        },
        None => Diagnostic { line, at: None, error },
    }
}

/// The bytes from `from` on.
pub open spec fn tail(code: Seq<u8>, from: int) -> Seq<u8> {
    code.subrange(from, code.len() as int)
}

/// A single-pass compiler: reads tokens and emits bytecode into its chunk as it parses.
#[derive(Debug)]
pub struct Parser<'a> {
    scanner: Scanner<'a>,
    chunk: Chunk,
    previous: Option<Token<'a>>,
    current: Option<Token<'a>>,
    had_error: bool,
    panic_mode: bool,
    errors: Vec<Diagnostic<'a>>,
}

impl<'a> Parser<'a> {
    /// The bytecode emitted so far.
    pub closed spec fn code(&self) -> Seq<u8> {
        self.chunk.code_view()
    }

    /// The constant pool so far.
    pub closed spec fn consts(&self) -> Seq<ValueView> {
        self.chunk.constants_view()
    }

    /// Number of constants in the pool so far.
    pub open spec fn nconsts(&self) -> nat {
        self.consts().len()
    }

    /// The errors recorded, in order.
    pub closed spec fn diagnostics(&self) -> Seq<Diagnostic<'a>> {
        self.errors@
    }

    /// The line table of the chunk.
    pub closed spec fn line_runs(&self) -> Seq<(u32, usize)> {
        self.chunk.runs()
    }

    /// The line the scanner stands on.
    pub closed spec fn scanner_line(&self) -> u32 {
        self.scanner@.line as u32
    }

    /// Whether an error has been recorded.
    pub closed spec fn failed(&self) -> bool {
        self.had_error
    }

    /// The token most recently consumed.
    pub closed spec fn previous_token(&self) -> Option<Token<'a>> {
        self.previous
    }

    /// The token that comes next.
    pub closed spec fn current_token(&self) -> Option<Token<'a>> {
        self.current
    }

    /// The text being compiled.
    pub closed spec fn source(&self) -> Seq<char> {
        self.scanner@.source
    }

    closed spec fn at_eof(&self) -> bool {
        self.current matches Some(t) && t.token_type == TokenType::EOF
    }

    /// What is left to read: twice the characters left, and one more while the end has not
    /// been reached.
    pub closed spec fn remaining(&self) -> int {
        2 * (self.scanner@.source.len() - self.scanner@.current) + if self.at_eof() {
            0int
        } else {
            1int
        }
    }

    pub closed spec fn inv(&self) -> bool {
        &&& self.scanner.wf()
        &&& self.chunk.wf()
        &&& self.at_eof() ==> self.scanner@.current == self.scanner@.source.len()
        &&& self.had_error == (self.errors@.len() > 0)
        &&& self.panic_mode == self.had_error
        &&& self.errors@.len() <= 1
    }

    /// `self` follows from `old` by parsing: the same text, bytes and constants only added,
    /// an error never forgotten, and never more left to read.
    pub open spec fn follows(&self, old: &Parser<'a>) -> bool {
        &&& self.inv()
        &&& self.source() == old.source()
        &&& old.code().len() <= self.code().len()
        &&& self.code().subrange(0, old.code().len() as int) == old.code()
        &&& old.nconsts() <= self.nconsts()
        &&& self.consts().subrange(0, old.nconsts() as int) == old.consts()
        &&& old.failed() ==> self.failed()
        &&& self.remaining() <= old.remaining()
        &&& self.remaining() >= 0
        &&& self.code().len() <= usize::MAX
        &&& old.full() ==> self.full()
    }

    /// Where parsing stands.
    pub closed spec fn pstate(&self) -> PState {
        PState {
            pos: self.scanner@.current,
            line: self.scanner@.line,
            prev: tk_of(self.previous),
            cur: tk_of(self.current),
        }
    }

    /// Bytes emitted plus four for each unit left to read: no production emits more than
    /// four bytes for the token it was started by, so this never grows while parsing.
    pub open spec fn budget(&self) -> int {
        self.code().len() + 4 * self.remaining()
    }

    /// The chunk cannot take another byte.
    pub open spec fn full(&self) -> bool {
        self.code().len() == usize::MAX
    }

    /// The state reached since `old`, with the code emitted and the constants added.
    pub open spec fn added(&self, old: &Parser<'a>) -> (PState, Seq<u8>, Seq<ValueView>) {
        (
            self.pstate(),
            tail(self.code(), old.code().len() as int),
            self.consts().subrange(old.nconsts() as int, self.nconsts() as int),
        )
    }

    /// Since `old`, parsing went as `g` says: the state reached, the code emitted and the
    /// constants added are `g`'s, and the line table grew by `g`'s lines.
    pub open spec fn produced(&self, old: &Parser<'a>, g: Option<Emitted>) -> bool {
        match g {
            Some((st, c, v, ls)) => (st, c, v) == self.added(old) && self.line_runs()
                == rle_extend(old.line_runs(), ls),
            None => false,
        }
    }

    /// What is left to read, as the grammar counts it.
    proof fn lemma_remaining(&self)
        ensures
            self.remaining() == rem(self.source(), self.pstate()),
    {
    }

    /// Following is transitive.
    proof fn lemma_follows_trans(a: Parser<'a>, b: Parser<'a>, c: Parser<'a>)
        requires
            b.follows(&a),
            c.follows(&b),
        ensures
            c.follows(&a),
    {
        assert(c.code().subrange(0, a.code().len() as int) =~= c.code().subrange(
            0,
            b.code().len() as int,
        ).subrange(0, a.code().len() as int));
        assert(c.consts().subrange(0, a.nconsts() as int) =~= c.consts().subrange(
            0,
            b.nconsts() as int,
        ).subrange(0, a.nconsts() as int));
    }

    /// A parser at the start of `source`, emitting into `chunk`.
    pub fn new(source: &'a str, chunk: Chunk) -> (r: Parser<'a>)
        requires
            source@.len() < u32::MAX,
            chunk.wf(),
        ensures
            r.inv(),
            r.source() == source@,
            r.code() == chunk.code_view(),
            r.consts() == chunk.constants_view(),
            r.line_runs() == chunk.runs(),
            !r.failed(),
            r.previous_token() is None,
            r.current_token() is None,
            r.pstate() == (PState { pos: 0, line: 1, prev: None, cur: None }),
    {
        Parser {
            scanner: Scanner::new(source),
            chunk,
            previous: None,
            current: None,
            had_error: false,
            panic_mode: false,
            errors: Vec::new(),
        }
    }

    /// The chunk, once parsing is done.
    pub fn into_chunk(self) -> (r: Chunk)
        ensures
            r.code_view() == self.code(),
            r.constants_view() == self.consts(),
            r.runs() == self.line_runs(),
            r.wf() <== self.inv(),
    {
        self.chunk
    }

    /// The errors reported, in order.
    pub fn errors(&self) -> (r: &Vec<Diagnostic<'a>>)
        requires
            self.inv(),
        ensures
            r@ == self.diagnostics(),
            r@.len() > 0 <==> self.failed(),
            r@.len() <= 1,
    {
        &self.errors
    }

    /// The token most recently consumed.
    pub fn previous(&self) -> (r: Option<Token<'a>>)
        ensures
            r == self.previous_token(),
    {
        self.previous
    }

    /// The token that comes next.
    pub fn get_current(&self) -> (r: Option<Token<'a>>)
        ensures
            r == self.current_token(),
    {
        self.current
    }

    /// Records `error` at `token`, unless an earlier error is still being recovered from.
    fn error_at(&mut self, token: Option<Token<'a>>, error: ParseError)
        requires
            old(self).inv(),
        ensures
            final(self).follows(old(self)),
            final(self).code() == old(self).code(),
            final(self).consts() == old(self).consts(),
            final(self).remaining() == old(self).remaining(),
            final(self).failed(),
            final(self).previous_token() == old(self).previous_token(),
            final(self).current_token() == old(self).current_token(),
            final(self).pstate() == old(self).pstate(),
            final(self).budget() <= old(self).budget(),
            final(self).diagnostics() == if old(self).failed() {
                old(self).diagnostics()
            } else {
                old(self).diagnostics().push(diagnostic_at(token, error, old(self).scanner_line()))
            },
            final(self).line_runs() == old(self).line_runs(),
    {
        proof {
            self.scanner.lemma_within();
            assert(self.code().subrange(0, self.code().len() as int) =~= self.code());
            assert(self.consts().subrange(0, self.nconsts() as int) =~= self.consts());
        }
        if self.panic_mode {
            return ;
        }
        self.panic_mode = true;
        let d = match token {
            Some(t) => Diagnostic {
                line: t.line,
                at: if t.token_type == TokenType::EOF {
                    None
                } else {
                    Some(t.literal)
                },
                error,
            },
            None => Diagnostic { line: self.scanner.line(), at: None, error },
        };
        self.errors.push(d);
        self.had_error = true;
        assert(self.code().subrange(0, old(self).code().len() as int) =~= old(self).code());
    }

    /// Records `error` at the token that comes next.
    fn error_at_current(&mut self, error: ParseError)
        requires
            old(self).inv(),
        ensures
            final(self).follows(old(self)),
            final(self).code() == old(self).code(),
            final(self).consts() == old(self).consts(),
            final(self).remaining() == old(self).remaining(),
            final(self).failed(),
            final(self).previous_token() == old(self).previous_token(),
            final(self).current_token() == old(self).current_token(),
            final(self).pstate() == old(self).pstate(),
            final(self).budget() <= old(self).budget(),
            final(self).diagnostics() == if old(self).failed() {
                old(self).diagnostics()
            } else {
                old(self).diagnostics().push(diagnostic_at(old(self).current_token(), error, old(self).scanner_line()))
            },
            final(self).line_runs() == old(self).line_runs(),
    {
        let t = self.current;
        self.error_at(t, error);
    }

    /// Records `error` at the token most recently consumed.
    fn error(&mut self, error: ParseError)
        requires
            old(self).inv(),
        ensures
            final(self).follows(old(self)),
            final(self).code() == old(self).code(),
            final(self).consts() == old(self).consts(),
            final(self).remaining() == old(self).remaining(),
            final(self).failed(),
            final(self).previous_token() == old(self).previous_token(),
            final(self).current_token() == old(self).current_token(),
            final(self).pstate() == old(self).pstate(),
            final(self).budget() <= old(self).budget(),
            final(self).diagnostics() == if old(self).failed() {
                old(self).diagnostics()
            } else {
                old(self).diagnostics().push(diagnostic_at(old(self).previous_token(), error, old(self).scanner_line()))
            },
            final(self).line_runs() == old(self).line_runs(),
    {
        let t = self.previous;
        self.error_at(t, error);
    }

    /// Moves to the next token, reporting (and passing over) lexemes that cannot be read.
    pub fn advance(&mut self)
        requires
            old(self).inv(),
        ensures
            final(self).follows(old(self)),
            final(self).code() == old(self).code(),
            final(self).consts() == old(self).consts(),
            final(self).previous_token() == old(self).current_token(),
            final(self).current_token() is Some,
            !(old(self).current_token() matches Some(t) && t.token_type == TokenType::EOF)
                ==> final(self).remaining() < old(self).remaining(),
            !final(self).failed() ==> next_state(old(self).source(), old(self).pstate()) == Some(final(self).pstate()),
            !old(self).failed() && next_state(old(self).source(), old(self).pstate()) is Some ==> !final(self).failed(),
            final(self).budget() <= old(self).budget(),
            !(old(self).current_token() matches Some(t) && t.token_type == TokenType::EOF)
                ==> final(self).budget() + 4 <= old(self).budget(),
            final(self).line_runs() == old(self).line_runs(),
    {
        self.previous = self.current;
        proof {
            self.scanner.lemma_within();
        }
        loop
            invariant
                self.inv() || self.current is None,
                self.scanner.wf(),
                self.chunk.wf(),
                self.had_error == (self.errors@.len() > 0),
                self.panic_mode == self.had_error,
                self.errors@.len() <= 1,
                self.scanner@.source == old(self).scanner@.source,
                self.scanner@.current >= old(self).scanner@.current,
                self.scanner@.current <= self.scanner@.source.len(),
                self.chunk == old(self).chunk,
                self.previous == old(self).current,
                old(self).failed() ==> self.had_error,
                self.current == old(self).current,
                !self.had_error ==> self.scanner@.current == old(self).scanner@.current
                    && self.scanner@.line == old(self).scanner@.line,
                !old(self).failed() && next_state(old(self).source(), old(self).pstate()) is Some
                    ==> !self.had_error,
            decreases self.scanner@.source.len() - self.scanner@.current,
        {
            match self.scanner.scan_token() {
                Ok(token) => {
                    self.current = Some(token);
                    assert(self.code().subrange(0, old(self).code().len() as int) =~= old(self).code());
                    assert(self.consts().subrange(0, old(self).nconsts() as int) =~= old(self).consts());
                    return ;
                },
                Err(e) => {
                    self.report_scan_error(e);
                },
            }
        }
    }

    /// Moves past the next token if it is of kind `token_type`, else records `error` there.
    pub fn consume(&mut self, token_type: TokenType, error: ParseError)
        requires
            old(self).inv(),
        ensures
            final(self).follows(old(self)),
            final(self).code() == old(self).code(),
            final(self).consts() == old(self).consts(),
            (old(self).current_token() matches Some(t) && t.token_type == token_type)
                || final(self).failed(),
            !final(self).failed() ==> (old(self).pstate().cur matches Some(t) && t.ty == token_type)
                && next_state(old(self).source(), old(self).pstate()) == Some(final(self).pstate()),
            !old(self).failed() && (old(self).pstate().cur matches Some(t) && t.ty == token_type)
                && next_state(old(self).source(), old(self).pstate()) is Some ==> !final(self).failed(),
            final(self).budget() <= old(self).budget(),
            final(self).line_runs() == old(self).line_runs(),
    {
        let matched = match self.current {
            Some(t) => t.token_type == token_type,
            None => false,
        };
        if matched {
            self.advance();
        } else {
            self.error_at_current(error);
        }
    }

    /// Appends one byte, attributed to the line of the token most recently consumed.
    fn emit_byte(&mut self, byte: u8)
        requires
            old(self).inv(),
        ensures
            final(self).follows(old(self)),
            final(self).consts() == old(self).consts(),
            final(self).remaining() == old(self).remaining(),
            final(self).previous_token() == old(self).previous_token(),
            final(self).current_token() == old(self).current_token(),
            !final(self).failed() ==> final(self).code() == old(self).code().push(byte),
            final(self).pstate() == old(self).pstate(),
            !old(self).failed() && !old(self).full() ==> !final(self).failed(),
            final(self).budget() <= old(self).budget() + 1,
            !final(self).failed() ==> final(self).line_runs() == rle_push(
                old(self).line_runs(),
                prev_line(old(self).pstate()),
            ),
    {
        let line = match self.previous {
            Some(t) => t.line,
            None => self.scanner.line(),
        };
        if self.chunk.len() < usize::MAX {
            self.chunk.write(byte, line);
            proof {
                self.scanner.lemma_within();
                assert(self.consts().subrange(0, old(self).nconsts() as int) =~= old(self).consts());
            }
            assert(self.code().subrange(0, old(self).code().len() as int) =~= old(self).code());
        } else {
            self.error(ParseError::ChunkFull);
        }
    }

    /// Appends an opcode.
    fn emit_op(&mut self, op: OpCode)
        requires
            old(self).inv(),
        ensures
            final(self).follows(old(self)),
            final(self).consts() == old(self).consts(),
            final(self).remaining() == old(self).remaining(),
            final(self).previous_token() == old(self).previous_token(),
            final(self).current_token() == old(self).current_token(),
            !final(self).failed() ==> final(self).code() == old(self).code().push(op_byte(op)),
            final(self).pstate() == old(self).pstate(),
            !old(self).failed() && !old(self).full() ==> !final(self).failed(),
            final(self).budget() <= old(self).budget() + 1,
            !final(self).failed() ==> final(self).line_runs() == rle_push(
                old(self).line_runs(),
                prev_line(old(self).pstate()),
            ),
    {
        self.emit_byte(u8::from(op));
    }

    /// Appends `Return`.
    fn emit_return(&mut self)
        requires
            old(self).inv(),
        ensures
            final(self).follows(old(self)),
            final(self).consts() == old(self).consts(),
            !final(self).failed() ==> final(self).code() == old(self).code().push(
                op_byte(OpCode::Return),
            ),
            final(self).pstate() == old(self).pstate(),
            !old(self).failed() && !old(self).full() ==> !final(self).failed(),
            final(self).budget() <= old(self).budget() + 1,
            !final(self).failed() ==> final(self).line_runs() == rle_push(
                old(self).line_runs(),
                prev_line(old(self).pstate()),
            ),
    {
        self.emit_op(OpCode::Return);
    }

    /// Adds `value` to the pool and appends the instruction that loads it: the short form
    /// while its index fits in a byte, else the long form with three index bytes, most
    /// significant first.
    fn emit_constant(&mut self, value: Value)
        requires
            old(self).inv(),
        ensures
            final(self).follows(old(self)),
            final(self).remaining() == old(self).remaining(),
            final(self).previous_token() == old(self).previous_token(),
            final(self).current_token() == old(self).current_token(),
            !final(self).failed() ==> final(self).consts() == old(self).consts().push(value@),
            !final(self).failed() ==> tail(final(self).code(), old(self).code().len() as int)
                == load_code(old(self).nconsts() as int),
            !final(self).failed() ==> run_depth(
                tail(final(self).code(), old(self).code().len() as int),
                final(self).nconsts(),
                0,
            ) == Some(1int),
            final(self).pstate() == old(self).pstate(),
            !old(self).failed() && old(self).nconsts() <= 0xFF_FFFF ==> !final(self).failed()
                || final(self).full(),
            !final(self).failed() ==> old(self).nconsts() <= 0xFF_FFFF,
            final(self).budget() <= old(self).budget() + 4,
            !final(self).failed() ==> final(self).line_runs() == rle_extend(
                old(self).line_runs(),
                lines_of(load_code(old(self).nconsts() as int).len(), prev_line(old(self).pstate())),
            ),
    {
        let idx = self.chunk.add_constant(value);
        assert(self.code().subrange(0, old(self).code().len() as int) =~= old(self).code());
        assert(self.consts().subrange(0, old(self).nconsts() as int) =~= old(self).consts());
        let ghost s0 = *self;
        let ghost c0 = self.code();
        let ghost n = self.nconsts();
        let ghost line = prev_line(old(self).pstate());
        let ghost r0 = old(self).line_runs();
        proof {
            lemma_extend_lines_of(r0, 0, line);
            lemma_extend_lines_of(r0, 1, line);
            lemma_extend_lines_of(r0, 2, line);
            lemma_extend_lines_of(r0, 3, line);
        }
        if idx <= 255 {
            self.emit_op(OpCode::Constant);
            self.emit_byte(idx as u8);
            proof {
                if !self.failed() {
                    let t = tail(self.code(), c0.len() as int);
                    assert(t =~= seq![op_byte(OpCode::Constant), idx as u8]);
                    assert(t.skip(2) =~= Seq::<u8>::empty());
                    assert(run_depth(t.skip(2), self.nconsts(), 1) == Some(1int));
                }
            }
        } else if idx <= 0xFF_FFFF {
            let hi = (idx / 65536) as u8;
            let mid = ((idx / 256) % 256) as u8;
            let lo = (idx % 256) as u8;
            proof {
                lemma_long_index(idx as int);
            }
            self.emit_op(OpCode::ConstantLong);
            self.emit_byte(hi);
            self.emit_byte(mid);
            self.emit_byte(lo);
            proof {
                if !self.failed() {
                    let t = tail(self.code(), c0.len() as int);
                    assert(t =~= seq![op_byte(OpCode::ConstantLong), hi, mid, lo]);
                    assert(t.skip(4) =~= Seq::<u8>::empty());
                    assert(run_depth(t.skip(4), self.nconsts(), 1) == Some(1int));
                }
            }
        } else {
            self.error(ParseError::TooManyConstants);
        }
        assert(self.code().subrange(0, old(self).code().len() as int) =~= old(self).code());
        assert(self.consts().subrange(0, s0.nconsts() as int) =~= s0.consts());
        assert(self.consts().subrange(0, old(self).nconsts() as int) =~= old(self).consts());
    }

    /// Compiles `true`, `false` or `nil`, just consumed.
    pub fn literal(&mut self)
        requires
            old(self).inv(),
            old(self).previous_token() matches Some(t) && prefix_rule(t.token_type) == Some(
                ParseFn::Literal,
            ),
        ensures
            final(self).follows(old(self)),
            final(self).consts() == old(self).consts(),
            !final(self).failed() ==> tail(final(self).code(), old(self).code().len() as int)
                == seq![op_byte(literal_op(old(self).previous_token()->0.token_type))],
            final(self).remaining() == old(self).remaining(),
            final(self).current_token() == old(self).current_token(),
            !final(self).failed() ==> run_depth(
                tail(final(self).code(), old(self).code().len() as int),
                final(self).nconsts(),
                0,
            ) == Some(1int),
            !final(self).failed() ==> final(self).produced(old(self), g_rule(old(self).source(), ParseFn::Literal, old(self).pstate(), old(self).nconsts() as int)),
            !old(self).failed() && g_rule(old(self).source(), ParseFn::Literal, old(self).pstate(), old(self).nconsts() as int) is Some
                ==> !final(self).failed() || final(self).full(),
            final(self).budget() <= old(self).budget() + 4,
    {
        let op = match self.previous {
            Some(t) => match t.token_type {
                TokenType::Nil => OpCode::Nil,
                TokenType::True => OpCode::True,
                _ => OpCode::False,
            },
            None => OpCode::False,
        };
        let ghost c0 = self.code();
        self.emit_op(op);
        proof {
            if !self.failed() {
                assert(seq![prev_line(old(self).pstate())] =~= lines_of(1, prev_line(old(self).pstate())));
                lemma_extend_lines_of(old(self).line_runs(), 0, prev_line(old(self).pstate()));
                assert(self.consts().subrange(old(self).nconsts() as int, self.nconsts() as int) =~= Seq::<ValueView>::empty());
                let t = tail(self.code(), c0.len() as int);
                assert(t =~= seq![op_byte(op)]);
                assert(t.skip(1) =~= Seq::<u8>::empty());
                assert(run_depth(t.skip(1), self.nconsts(), 1) == Some(1int));
            }
        }
    }

    /// Compiles the number literal just consumed.
    pub fn number(&mut self)
        requires
            old(self).inv(),
            old(self).previous_token() is Some,
        ensures
            final(self).follows(old(self)),
            !final(self).failed() ==> (literal_number(old(self).previous_token()->0.literal@) matches Some(
                n,
            ) && final(self).consts() == old(self).consts().push(ValueView::Number(n))),
            !final(self).failed() ==> tail(final(self).code(), old(self).code().len() as int)
                == load_code(old(self).nconsts() as int),
            final(self).remaining() == old(self).remaining(),
            final(self).current_token() == old(self).current_token(),
            !final(self).failed() ==> run_depth(
                tail(final(self).code(), old(self).code().len() as int),
                final(self).nconsts(),
                0,
            ) == Some(1int),
            !final(self).failed() ==> final(self).produced(old(self), g_rule(old(self).source(), ParseFn::Number, old(self).pstate(), old(self).nconsts() as int)),
            !old(self).failed() && g_rule(old(self).source(), ParseFn::Number, old(self).pstate(), old(self).nconsts() as int) is Some
                ==> !final(self).failed() || final(self).full(),
            final(self).budget() <= old(self).budget() + 4,
    {
        let literal = match self.previous {
            Some(t) => t.literal,
            None => "",
        };
        match Number::parse_literal(literal) {
            Some(n) => {
                self.emit_constant(Value::Number(n));
                proof {
                    if !self.failed() {
                        assert(self.consts().subrange(
                            old(self).nconsts() as int,
                            self.nconsts() as int,
                        ) =~= seq![ValueView::Number(n)]);
                    }
                }
            },
            None => self.error(ParseError::NumberTooLarge),
        }
    }

    /// Compiles the string literal just consumed: its text without the quotes.
    pub fn string(&mut self)
        requires
            old(self).inv(),
            old(self).previous_token() is Some,
        ensures
            final(self).follows(old(self)),
            !final(self).failed() ==> ({
                let w = old(self).previous_token()->0.literal@;
                final(self).consts() == old(self).consts().push(
                    ValueView::Str(w.subrange(1, w.len() - 1)),
                )
            }),
            !final(self).failed() ==> tail(final(self).code(), old(self).code().len() as int)
                == load_code(old(self).nconsts() as int),
            final(self).remaining() == old(self).remaining(),
            final(self).current_token() == old(self).current_token(),
            !final(self).failed() ==> run_depth(
                tail(final(self).code(), old(self).code().len() as int),
                final(self).nconsts(),
                0,
            ) == Some(1int),
            !final(self).failed() ==> final(self).produced(old(self), g_rule(old(self).source(), ParseFn::String, old(self).pstate(), old(self).nconsts() as int)),
            !old(self).failed() && g_rule(old(self).source(), ParseFn::String, old(self).pstate(), old(self).nconsts() as int) is Some
                ==> !final(self).failed() || final(self).full(),
            final(self).budget() <= old(self).budget() + 4,
    {
        let literal = match self.previous {
            Some(t) => t.literal,
            None => "",
        };
        let n = literal.unicode_len();
        if n >= 2 {
            let body = literal.substring_char(1, n - 1);
            self.emit_constant(Value::string(body.to_owned()));
            proof {
                if !self.failed() {
                    assert(self.consts().subrange(old(self).nconsts() as int, self.nconsts() as int)
                        =~= seq![ValueView::Str(literal@.subrange(1, n - 1))]);
                }
            }
        } else {
            self.error(ParseError::ScanError(ScanError::UnterminatedString));
        }
    }

    /// Compiles one expression.
    pub fn expression(&mut self)
        requires
            old(self).inv(),
        ensures
            final(self).follows(old(self)),
            !final(self).failed() ==> run_depth(
                tail(final(self).code(), old(self).code().len() as int),
                final(self).nconsts(),
                0,
            ) == Some(1int),
            !final(self).failed() ==> final(self).produced(old(self), g_prec(old(self).source(), old(self).pstate(), Precedence::Assignment, old(self).nconsts() as int)),
            !old(self).failed() && g_prec(old(self).source(), old(self).pstate(), Precedence::Assignment, old(self).nconsts() as int) is Some
                ==> !final(self).failed() || final(self).full(),
            final(self).budget() <= old(self).budget(),
        decreases old(self).remaining(), 1nat,
    {
        self.parse_precedence(Precedence::Assignment);
    }

    /// Compiles a parenthesised expression whose `(` was just consumed.
    pub fn grouping(&mut self)
        requires
            old(self).inv(),
        ensures
            final(self).follows(old(self)),
            !final(self).failed() ==> run_depth(
                tail(final(self).code(), old(self).code().len() as int),
                final(self).nconsts(),
                0,
            ) == Some(1int),
            !final(self).failed() ==> final(self).produced(old(self), g_grouping(old(self).source(), old(self).pstate(), old(self).nconsts() as int)),
            !old(self).failed() && g_grouping(old(self).source(), old(self).pstate(), old(self).nconsts() as int) is Some
                ==> !final(self).failed() || final(self).full(),
            final(self).budget() <= old(self).budget(),
        decreases old(self).remaining(), 2nat,
    {
        self.expression();
        let ghost mid = self.code();
        let ghost s1 = *self;
        self.consume(TokenType::RightParen, ParseError::ExpectRightParen);
        proof {
            Parser::lemma_follows_trans(*old(self), s1, *self);
        }
        assert(tail(self.code(), old(self).code().len() as int) =~= tail(mid, old(self).code().len() as int));
    }

    /// Compiles the operand of the prefix operator just consumed, then the operator.
    pub fn unary(&mut self)
        requires
            old(self).inv(),
            old(self).previous_token() matches Some(t) && prefix_rule(t.token_type) == Some(
                ParseFn::Unary,
            ),
        ensures
            final(self).follows(old(self)),
            !final(self).failed() ==> ({
                let t = tail(final(self).code(), old(self).code().len() as int);
                &&& t.len() >= 1
                &&& t.last() == op_byte(unary_op(old(self).previous_token()->0.token_type))
                &&& run_depth(t.drop_last(), final(self).nconsts(), 0) == Some(1int)
            }),
            !final(self).failed() ==> run_depth(
                tail(final(self).code(), old(self).code().len() as int),
                final(self).nconsts(),
                0,
            ) == Some(1int),
            !final(self).failed() ==> final(self).produced(old(self), g_rule(old(self).source(), ParseFn::Unary, old(self).pstate(), old(self).nconsts() as int)),
            !old(self).failed() && g_rule(old(self).source(), ParseFn::Unary, old(self).pstate(), old(self).nconsts() as int) is Some
                ==> !final(self).failed() || final(self).full(),
            final(self).budget() <= old(self).budget() + 4,
        decreases old(self).remaining(), 1nat,
    {
        let op = match self.previous {
            Some(t) => match t.token_type {
                TokenType::Bang => OpCode::Not,
                _ => OpCode::Negate,
            },
            None => OpCode::Negate,
        };
        let ghost c0 = self.code();
        let ghost s0 = *self;
        self.parse_precedence(Precedence::Unary);
        let ghost c1 = self.code();
        let ghost s1 = *self;
        self.emit_op(op);
        proof {
            Parser::lemma_follows_trans(s0, s1, *self);
            if !self.failed() {
                let n = self.nconsts();
                let operand = tail(c1, c0.len() as int);
                let t = tail(self.code(), c0.len() as int);
                assert(t =~= operand + seq![op_byte(op)]);
                assert(t.drop_last() =~= operand);
                let ls = emitted_lines(g_prec(s0.source(), s0.pstate(), Precedence::Unary, s0.nconsts() as int));
                assert(ls.push(prev_line(s1.pstate())).drop_last() =~= ls);
                assert(rle_extend(s0.line_runs(), ls.push(prev_line(s1.pstate())))
                    == rle_push(rle_extend(s0.line_runs(), ls), prev_line(s1.pstate())));
                assert(operand.push(op_byte(op)) =~= t);
                lemma_run_depth_concat(operand, seq![op_byte(op)], n, 0);
                assert(seq![op_byte(op)].skip(1) =~= Seq::<u8>::empty());
                assert(run_depth(seq![op_byte(op)].skip(1), n, 1) == Some(1int));
            }
        }
    }

    /// Compiles the right operand of the infix operator just consumed, one level tighter
    /// than the operator, then the operator; `>=`, `<=` and `!=` become the opposite test
    /// followed by `Not`.
    #[verifier::rlimit(60)]
    pub fn binary(&mut self)
        requires
            old(self).inv(),
            old(self).previous_token() matches Some(t) && infix_rule(t.token_type) == Some(
                ParseFn::Binary,
            ),
        ensures
            final(self).follows(old(self)),
            !final(self).failed() ==> ({
                let t = tail(final(self).code(), old(self).code().len() as int);
                let d = desugar(old(self).previous_token()->0.token_type);
                &&& t.len() >= d.len()
                &&& t.subrange(t.len() - d.len(), t.len() as int) == d
                &&& run_depth(t.subrange(0, t.len() - d.len()), final(self).nconsts(), 0) == Some(
                    1int,
                )
            }),
            !final(self).failed() ==> run_depth(
                tail(final(self).code(), old(self).code().len() as int),
                final(self).nconsts(),
                1,
            ) == Some(1int),
            !final(self).failed() ==> final(self).produced(old(self), g_rule(old(self).source(), ParseFn::Binary, old(self).pstate(), old(self).nconsts() as int)),
            !old(self).failed() && g_rule(old(self).source(), ParseFn::Binary, old(self).pstate(), old(self).nconsts() as int) is Some
                ==> !final(self).failed() || final(self).full(),
            final(self).budget() <= old(self).budget() + 4,
        decreases old(self).remaining(), 1nat,
    {
        let operator_type = match self.previous {
            Some(t) => t.token_type,
            None => TokenType::Plus,
        };
        let rule = get_rule(operator_type);
        let ghost c0 = self.code();
        let ghost s0 = *self;
        self.parse_precedence(rule.precedence + 1);
        let ghost c1 = self.code();
        let ghost s1 = *self;
        let (first, second) = match operator_type {
            TokenType::BangEqual => (OpCode::Equal, Some(OpCode::Not)),
            TokenType::EqualEqual => (OpCode::Equal, None),
            TokenType::Greater => (OpCode::Greater, None),
            TokenType::GreaterEqual => (OpCode::Less, Some(OpCode::Not)),
            TokenType::Less => (OpCode::Less, None),
            TokenType::LessEqual => (OpCode::Greater, Some(OpCode::Not)),
            TokenType::Plus => (OpCode::Add, None),
            TokenType::Minus => (OpCode::Subtract, None),
            TokenType::Star => (OpCode::Multiply, None),
            _ => (OpCode::Divide, None),
        };
        self.emit_op(first);
        let ghost s2 = *self;
        match second {
            Some(op) => self.emit_op(op),
            None => {},
        }
        proof {
            assert(s2.code().subrange(0, s2.code().len() as int) =~= s2.code());
            Parser::lemma_follows_trans(s0, s1, s2);
            Parser::lemma_follows_trans(s0, s2, *self);
            if !self.failed() {
                let n = self.nconsts();
                let operand = tail(c1, c0.len() as int);
                let ops = tail(self.code(), c1.len() as int);
                let t = tail(self.code(), c0.len() as int);
                assert(t =~= operand + ops);
                match second {
                    Some(op) => {
                        assert(ops =~= seq![op_byte(first), op_byte(op)]);
                    },
                    None => {
                        assert(ops =~= seq![op_byte(first)]);
                    },
                }
                assert(ops =~= desugar(operator_type));
                let ls = emitted_lines(
                    g_prec(s0.source(), s0.pstate(), rule.precedence.raised(1), s0.nconsts() as int),
                );
                let line = prev_line(s1.pstate());
                lemma_rle_extend_concat(s0.line_runs(), ls, lines_of(ops.len(), line));
                lemma_extend_lines_of(s1.line_runs(), 0, line);
                lemma_extend_lines_of(s1.line_runs(), 1, line);
                assert(t.subrange(t.len() - ops.len(), t.len() as int) =~= ops);
                assert(t.subrange(0, t.len() - ops.len()) =~= operand);
                lemma_run_depth_deeper(operand, n, 0, 1);
                lemma_run_depth_concat(operand, ops, n, 1);
                match second {
                    Some(op) => {
                        assert(ops =~= seq![op_byte(first), op_byte(op)]);
                        assert(ops.skip(1) =~= seq![op_byte(op)]);
                        assert(ops.skip(1).skip(1) =~= Seq::<u8>::empty());
                        assert(run_depth(ops.skip(1).skip(1), n, 1) == Some(1int));
                        assert(run_depth(ops.skip(1), n, 1) == Some(1int));
                    },
                    None => {
                        assert(ops =~= seq![op_byte(first)]);
                        assert(ops.skip(1) =~= Seq::<u8>::empty());
                        assert(run_depth(ops.skip(1), n, 1) == Some(1int));
                    },
                }
            }
        }
    }

    /// Runs the production `f` for the token just consumed.
    fn call_rule(&mut self, f: ParseFn)
        requires
            old(self).inv(),
            old(self).previous_token() matches Some(t) && (prefix_rule(t.token_type) == Some(f)
                || infix_rule(t.token_type) == Some(f)),
        ensures
            final(self).follows(old(self)),
            !final(self).failed() ==> run_depth(
                tail(final(self).code(), old(self).code().len() as int),
                final(self).nconsts(),
                if f == ParseFn::Binary {
                    1int
                } else {
                    0int
                },
            ) == Some(1int),
            !final(self).failed() ==> final(self).produced(old(self), g_rule(old(self).source(), f, old(self).pstate(), old(self).nconsts() as int)),
            !old(self).failed() && g_rule(old(self).source(), f, old(self).pstate(), old(self).nconsts() as int) is Some
                ==> !final(self).failed() || final(self).full(),
            final(self).budget() <= old(self).budget() + 4,
        decreases old(self).remaining(), 3nat,
    {
        match f {
            ParseFn::Grouping => self.grouping(),
            ParseFn::Unary => self.unary(),
            ParseFn::Binary => self.binary(),
            ParseFn::Number => self.number(),
            ParseFn::String => self.string(),
            ParseFn::Literal => self.literal(),
        }
    }

    /// Compiles an expression whose operators bind at least as tightly as `precedence`:
    /// a prefix production for the next token, then infix productions while the token
    /// that follows binds at least that tightly.
    fn parse_precedence(&mut self, precedence: Precedence)
        requires
            old(self).inv(),
            precedence.level() >= 1,
        ensures
            final(self).follows(old(self)),
            !final(self).failed() ==> run_depth(
                tail(final(self).code(), old(self).code().len() as int),
                final(self).nconsts(),
                0,
            ) == Some(1int),
            !final(self).failed() ==> final(self).produced(old(self), g_prec(old(self).source(), old(self).pstate(), precedence, old(self).nconsts() as int)),
            !old(self).failed() && g_prec(old(self).source(), old(self).pstate(), precedence, old(self).nconsts() as int) is Some
                ==> !final(self).failed() || final(self).full(),
            final(self).budget() <= old(self).budget(),
            !old(self).failed() && (next_state(old(self).source(), old(self).pstate()) matches Some(
                st1,
            ) && st1.prev matches Some(t) && prefix_rule(t.ty) is None) ==> final(self).code()
                == old(self).code() && final(self).diagnostics() == old(self).diagnostics().push(
                diagnostic_at(final(self).previous_token(), ParseError::ExpectExpression, 0),
            ) && tk_of(final(self).previous_token()) == next_state(
                old(self).source(),
                old(self).pstate(),
            )->0.prev,
        decreases old(self).remaining(), 0nat,
    {
        let ghost c0 = self.code();
        let ghost k0 = self.nconsts() as int;
        let ghost src = self.source();
        self.advance();
        let ghost sa = *self;
        let prefix = match self.previous {
            Some(t) => get_rule(t.token_type).prefix,
            None => None,
        };
        let ghost mut ls: Seq<u32> = Seq::empty();
        match prefix {
            Some(f) => {
                self.call_rule(f);
                proof {
                    if !self.failed() {
                        ls = emitted_lines(g_rule(src, f, sa.pstate(), k0));
                    }
                    old(self).lemma_remaining();
                    sa.lemma_remaining();
                    self.lemma_remaining();
                    Parser::lemma_follows_trans(*old(self), sa, *self);
                    assert(tail(self.code(), sa.code().len() as int) =~= tail(self.code(), c0.len() as int));
                }
            },
            None => {
                self.error(ParseError::ExpectExpression);
                return ;
            },
        }
        loop
            invariant
                self.follows(old(self)),
                precedence.level() >= 1,
                c0 == old(self).code(),
                k0 == old(self).nconsts(),
                src == old(self).source(),
                !self.failed() ==> run_depth(tail(self.code(), c0.len() as int), self.nconsts(), 0)
                    == Some(1int),
                !self.failed() ==> g_prec(src, old(self).pstate(), precedence, k0) == g_infix(
                    src,
                    self.pstate(),
                    precedence,
                    k0,
                    tail(self.code(), c0.len() as int),
                    self.consts().subrange(k0, self.nconsts() as int),
                    ls,
                ),
                !self.failed() ==> self.line_runs() == rle_extend(old(self).line_runs(), ls),
                !old(self).failed() && g_prec(src, old(self).pstate(), precedence, k0) is Some
                    ==> !self.failed() || self.full(),
                self.budget() <= old(self).budget(),
                !old(self).failed() && next_state(src, old(self).pstate()) is Some ==> tk_of(
                    sa.previous_token(),
                ) == next_state(src, old(self).pstate())->0.prev,
                sa.previous_token() matches Some(t) && prefix_rule(t.token_type) is Some,
            decreases self.remaining(),
        {
            let next = match self.current {
                Some(t) => t.token_type,
                None => {
                    return ;
                },
            };
            if !precedence.at_most(get_rule(next).precedence) {
                return ;
            }
            let ghost c1 = self.code();
            let ghost n1 = self.nconsts();
            let ghost s1 = *self;
            proof {
                lemma_binding_tokens(next);
            }
            self.advance();
            let ghost s2 = *self;
            self.call_rule(ParseFn::Binary);
            proof {
                Parser::lemma_follows_trans(*old(self), s1, s2);
                Parser::lemma_follows_trans(*old(self), s2, *self);
                s1.lemma_remaining();
                s2.lemma_remaining();
                self.lemma_remaining();
                if !self.failed() {
                    let n = self.nconsts();
                    let left = tail(c1, c0.len() as int);
                    let right = tail(self.code(), c1.len() as int);
                    assert(tail(self.code(), c0.len() as int) =~= left + right);
                    lemma_run_depth_more_constants(left, n1, n, 0);
                    lemma_run_depth_concat(left, right, n, 0);
                    assert(self.consts().subrange(0, n1 as int) =~= s1.consts());
                    assert(self.consts().subrange(k0, n as int) =~= s1.consts().subrange(
                        k0,
                        n1 as int,
                    ) + self.consts().subrange(n1 as int, n as int));
                    let ls2 = emitted_lines(g_rule(src, ParseFn::Binary, s2.pstate(), n1 as int));
                    lemma_rle_extend_concat(old(self).line_runs(), ls, ls2);
                    ls = ls + ls2;
                }
            }
        }
    }

    /// Records a lexeme that could not be read, at that lexeme.
    fn report_scan_error(&mut self, e: ScanError)
        requires
            old(self).scanner.wf(),
            old(self).had_error == (old(self).errors@.len() > 0),
            old(self).panic_mode == old(self).had_error,
            old(self).errors@.len() <= 1,
        ensures
            final(self).scanner == old(self).scanner,
            final(self).chunk == old(self).chunk,
            final(self).previous == old(self).previous,
            final(self).current == old(self).current,
            final(self).had_error,
            final(self).had_error == (final(self).errors@.len() > 0),
            final(self).panic_mode,
            final(self).errors@.len() <= 1,
    {
        if self.panic_mode {
            return ;
        }
        self.panic_mode = true;
        let d = Diagnostic {
            line: self.scanner.line(),
            at: Some(self.scanner.lexeme()),
            error: ParseError::ScanError(e),
        };
        self.errors.push(d);
        self.had_error = true;
    }
}

/// Compiles `source` into `chunk`, appending to what it holds. On success the bytes added
/// form a program: code that leaves one value on the stack, then `Return`. On failure the
/// error reported (the first; those it causes are not) is handed back, and the chunk must
/// not be run.
pub fn compile<'a>(source: &'a str, chunk: &mut Chunk) -> (r: Result<(), Vec<Diagnostic<'a>>>)
    requires
        source@.len() < u32::MAX,
        old(chunk).wf(),
    ensures
        final(chunk).wf(),
        old(chunk).code_view().len() <= final(chunk).code_view().len(),
        final(chunk).code_view().subrange(0, old(chunk).code_view().len() as int) == old(
            chunk,
        ).code_view(),
        r is Ok ==> is_program(
            tail(final(chunk).code_view(), old(chunk).code_view().len() as int),
            final(chunk).constants_view().len(),
        ),
        final(chunk).constants_view().subrange(0, old(chunk).constants_view().len() as int)
            == old(chunk).constants_view(),
        r matches Err(errors) ==> errors@.len() == 1,
        r is Ok ==> (g_compile(source@, old(chunk).constants_view().len() as int) matches Some(
            (c, v, ls),
        ) && c == tail(final(chunk).code_view(), old(chunk).code_view().len() as int) && v
            == final(chunk).constants_view().subrange(
            old(chunk).constants_view().len() as int,
            final(chunk).constants_view().len() as int,
        ) && final(chunk).runs() == rle_extend(old(chunk).runs(), ls)),
        g_compile(source@, old(chunk).constants_view().len() as int) is Some ==> r is Ok
            || final(chunk).code_view().len() == usize::MAX,
        final(chunk).code_view().len() <= old(chunk).code_view().len() + 8 * source@.len() + 5,
{
    let mut taken = Chunk::new();
    std::mem::swap(chunk, &mut taken);
    let mut p = Parser::new(source, taken);
    let ghost c0 = p.code();
    let ghost k0 = p.nconsts() as int;
    let ghost s0 = p;
    p.advance();
    let ghost s1 = p;
    p.expression();
    let ghost c1 = p.code();
    let ghost s2 = p;
    p.consume(TokenType::EOF, ParseError::ExpectEnd);
    let ghost s3 = p;
    p.emit_return();
    let failed = p.had_error;
    proof {
        Parser::lemma_follows_trans(s1, s2, s3);
        Parser::lemma_follows_trans(s1, s3, p);
        Parser::lemma_follows_trans(s0, s1, p);
        s0.lemma_remaining();
        p.scanner.lemma_within();
        if !failed {
            let body = tail(c1, c0.len() as int);
            let t = tail(p.code(), c0.len() as int);
            assert(t.drop_last() =~= body);
            assert(t =~= body.push(op_byte(OpCode::Return)));
            assert(tail(c1, s1.code().len() as int) =~= body);
            let ls = emitted_lines(
                g_prec(s1.source(), s1.pstate(), Precedence::Assignment, k0),
            );
            assert(ls.push(prev_line(s3.pstate())).drop_last() =~= ls);
        }
    }
    let Parser { chunk: compiled, errors, .. } = p;
    *chunk = compiled;
    if failed {
        Err(errors)
    } else {
        Ok(())
    }
}

} // verus!
