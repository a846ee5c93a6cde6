use vstd::prelude::*;

use crate::error::ChunkError;
use crate::value::{Value, ValueView};

verus! {

/// An instruction of the machine; each is one byte in a chunk.
#[derive(Debug, Clone, Copy, PartialEq, Eq, Structural)]
pub enum OpCode {
    Constant,
    ConstantLong,
    Nil,
    True,
    False,
    Add,
    Subtract,
    Multiply,
    Divide,
    Not,
    Negate,
    Return,
    Equal,
    Greater,
    Less,
}

/// The byte that encodes an opcode.
pub open spec fn op_byte(op: OpCode) -> u8 {
    match op {
        OpCode::Constant => 0x00,
        OpCode::ConstantLong => 0x01,
        OpCode::Nil => 0x02,
        OpCode::True => 0x03,
        OpCode::False => 0x04,
        OpCode::Add => 0x05,
        OpCode::Subtract => 0x06,
        OpCode::Multiply => 0x07,
        OpCode::Divide => 0x08,
        OpCode::Not => 0x09,
        OpCode::Negate => 0x0A,
        OpCode::Return => 0x0B,
        OpCode::Equal => 0x0C,
        OpCode::Greater => 0x0D,
        OpCode::Less => 0x0E,
    }
}

/// The opcode a byte encodes, if any.
pub open spec fn decode_op(b: u8) -> Option<OpCode> {
    if b == 0x00 {
        Some(OpCode::Constant)
    } else if b == 0x01 {
        Some(OpCode::ConstantLong)
    } else if b == 0x02 {
        Some(OpCode::Nil)
    } else if b == 0x03 {
        Some(OpCode::True)
    } else if b == 0x04 {
        Some(OpCode::False)
    } else if b == 0x05 {
        Some(OpCode::Add)
    } else if b == 0x06 {
        Some(OpCode::Subtract)
    } else if b == 0x07 {
        Some(OpCode::Multiply)
    } else if b == 0x08 {
        Some(OpCode::Divide)
    } else if b == 0x09 {
        Some(OpCode::Not)
    } else if b == 0x0A {
        Some(OpCode::Negate)
    } else if b == 0x0B {
        Some(OpCode::Return)
    } else if b == 0x0C {
        Some(OpCode::Equal)
    } else if b == 0x0D {
        Some(OpCode::Greater)
    } else if b == 0x0E {
        Some(OpCode::Less)
    } else {
        None
    }
}

impl TryFrom<u8> for OpCode {
    type Error = ChunkError;

    fn try_from(value: u8) -> (r: Result<OpCode, ChunkError>)
        ensures
            r == (match decode_op(value) {
                Some(op) => Ok(op),
                None => Err(ChunkError::BadOPCodeError(value)),
            }),
    {
        match value {
            0x00 => Ok(OpCode::Constant),
            0x01 => Ok(OpCode::ConstantLong),
            0x02 => Ok(OpCode::Nil),
            0x03 => Ok(OpCode::True),
            0x04 => Ok(OpCode::False),
            0x05 => Ok(OpCode::Add),
            0x06 => Ok(OpCode::Subtract),
            0x07 => Ok(OpCode::Multiply),
            0x08 => Ok(OpCode::Divide),
            0x09 => Ok(OpCode::Not),
            0x0A => Ok(OpCode::Negate),
            0x0B => Ok(OpCode::Return),
            0x0C => Ok(OpCode::Equal),
            0x0D => Ok(OpCode::Greater),
            0x0E => Ok(OpCode::Less),
            _ => Err(ChunkError::BadOPCodeError(value)),
        }
    }
}

impl vstd::std_specs::convert::TryFromSpecImpl<u8> for OpCode {
    open spec fn obeys_try_from_spec() -> bool {
        true
    }

    open spec fn try_from_spec(value: u8) -> Result<OpCode, ChunkError> {
        match decode_op(value) {
            Some(op) => Ok(op),
            None => Err(ChunkError::BadOPCodeError(value)),
        }
    }
}

impl From<OpCode> for u8 {
    fn from(op: OpCode) -> (r: u8)
        ensures
            r == op_byte(op),
    {
        match op {
            OpCode::Constant => 0x00,
            OpCode::ConstantLong => 0x01,
            OpCode::Nil => 0x02,
            OpCode::True => 0x03,
            OpCode::False => 0x04,
            OpCode::Add => 0x05,
            OpCode::Subtract => 0x06,
            OpCode::Multiply => 0x07,
            OpCode::Divide => 0x08,
            OpCode::Not => 0x09,
            OpCode::Negate => 0x0A,
            OpCode::Return => 0x0B,
            OpCode::Equal => 0x0C,
            OpCode::Greater => 0x0D,
            OpCode::Less => 0x0E,
        }
    }
}

impl vstd::std_specs::convert::FromSpecImpl<OpCode> for u8 {
    open spec fn obeys_from_spec() -> bool {
        true
    }

    open spec fn from_spec(op: OpCode) -> u8 {
        op_byte(op)
    }
}

// ---- The run-length line table ----

/// Number of bytes the runs cover.
pub open spec fn total(runs: Seq<(u32, usize)>) -> int
    decreases runs.len(),
{
    if runs.len() == 0 {
        0
    } else {
        total(runs.drop_last()) + runs.last().1
    }
}

/// The runs after one more byte on `line`: the last run grows if it is on that line,
/// else a run of one starts.
pub open spec fn rle_push(runs: Seq<(u32, usize)>, line: u32) -> Seq<(u32, usize)> {
    if runs.len() > 0 && runs.last().0 == line {
        runs.update(runs.len() - 1, (line, (runs.last().1 + 1) as usize))
    } else {
        runs.push((line, 1usize))
    }
}

/// The runs that writing bytes on the given lines, in order, builds from none.
pub open spec fn rle_build(lines: Seq<u32>) -> Seq<(u32, usize)>
    decreases lines.len(),
{
    if lines.len() == 0 {
        Seq::empty()
    } else {
        rle_push(rle_build(lines.drop_last()), lines.last())
    }
}

/// The runs after bytes on the given lines, in order, are written after `runs`.
pub open spec fn rle_extend(runs: Seq<(u32, usize)>, lines: Seq<u32>) -> Seq<(u32, usize)>
    decreases lines.len(),
{
    if lines.len() == 0 {
        runs
    } else {
        rle_push(rle_extend(runs, lines.drop_last()), lines.last())
    }
}

/// Writing two runs of lines one after the other is writing them together.
pub proof fn lemma_rle_extend_concat(runs: Seq<(u32, usize)>, a: Seq<u32>, b: Seq<u32>)
    ensures
        rle_extend(runs, a + b) == rle_extend(rle_extend(runs, a), b),
    decreases b.len(),
{
    if b.len() == 0 {
        assert(a + b =~= a);
    } else {
        assert((a + b).drop_last() =~= a + b.drop_last());
        lemma_rle_extend_concat(runs, a, b.drop_last());
    }
}

/// Building from nothing is extending nothing.
pub proof fn lemma_rle_build_extend(lines: Seq<u32>)
    ensures
        rle_build(lines) == rle_extend(Seq::empty(), lines),
    decreases lines.len(),
{
    if lines.len() > 0 {
        lemma_rle_build_extend(lines.drop_last());
    }
}

/// The line of the byte at `offset`, or `None` past the bytes covered.
pub open spec fn line_at(runs: Seq<(u32, usize)>, offset: int) -> Option<u32>
    decreases runs.len(),
{
    if runs.len() == 0 {
        None
    } else {
        let before = total(runs.drop_last());
        if offset < before {
            line_at(runs.drop_last(), offset)
        } else if offset < before + runs.last().1 {
            Some(runs.last().0)
        } else {
            None
        }
    }
}

/// No run is empty and no two neighbouring runs share a line.
pub open spec fn runs_coalesced(runs: Seq<(u32, usize)>) -> bool {
    &&& forall|i: int| 0 <= i < runs.len() ==> #[trigger] runs[i].1 >= 1
    &&& forall|i: int| 0 < i < runs.len() ==> #[trigger] runs[i - 1].0 != runs[i].0
}

proof fn lemma_total_nonneg(runs: Seq<(u32, usize)>)
    ensures
        total(runs) >= 0,
        runs.len() > 0 ==> total(runs) >= runs.last().1,
    decreases runs.len(),
{
    if runs.len() > 0 {
        lemma_total_nonneg(runs.drop_last());
    }
}

/// Where a prefix of the runs knows the line of an offset, the whole table agrees.
proof fn lemma_line_at_prefix(runs: Seq<(u32, usize)>, j: int, offset: int)
    requires
        0 <= j <= runs.len(),
        line_at(runs.subrange(0, j), offset) is Some,
    ensures
        line_at(runs, offset) == line_at(runs.subrange(0, j), offset),
        offset < total(runs.subrange(0, j)),
    decreases runs.len() - j,
{
    if j == runs.len() {
        assert(runs.subrange(0, j) =~= runs);
        lemma_line_at_below_total(runs, offset);
    } else {
        let v = runs.drop_last();
        assert(v.subrange(0, j) =~= runs.subrange(0, j));
        lemma_line_at_prefix(v, j, offset);
        lemma_total_nonneg(v.subrange(0, j));
        lemma_total_prefix_le(v, j);
    }
}

proof fn lemma_line_at_below_total(runs: Seq<(u32, usize)>, offset: int)
    requires
        line_at(runs, offset) is Some,
    ensures
        offset < total(runs),
    decreases runs.len(),
{
    if runs.len() > 0 {
        let before = total(runs.drop_last());
        if offset < before {
            lemma_line_at_below_total(runs.drop_last(), offset);
        }
    }
}

proof fn lemma_total_prefix_le(runs: Seq<(u32, usize)>, j: int)
    requires
        0 <= j <= runs.len(),
    ensures
        total(runs.subrange(0, j)) <= total(runs),
    decreases runs.len() - j,
{
    if j < runs.len() {
        let v = runs.drop_last();
        assert(v.subrange(0, j) =~= runs.subrange(0, j));
        lemma_total_prefix_le(v, j);
    } else {
        assert(runs.subrange(0, j) =~= runs);
    }
}

/// One more byte on `line` covers one more offset, on that line, and leaves the lines of
/// the others as they were.
pub proof fn lemma_rle_push(runs: Seq<(u32, usize)>, line: u32, offset: int)
    requires
        total(runs) < usize::MAX,
    ensures
        total(rle_push(runs, line)) == total(runs) + 1,
        line_at(rle_push(runs, line), offset) == (if offset < total(runs) {
            line_at(runs, offset)
        } else if offset == total(runs) {
            Some(line)
        } else {
            None
        }),
        runs_coalesced(runs) ==> runs_coalesced(rle_push(runs, line)),
{
    lemma_total_nonneg(runs);
    let r = rle_push(runs, line);
    if runs.len() > 0 && runs.last().0 == line {
        assert(r.drop_last() =~= runs.drop_last());
        lemma_total_nonneg(runs.drop_last());
    } else {
        assert(r.drop_last() =~= runs);
    }
}

/// A line table built by writes reports, for every offset written, the line it was
/// written on, and nothing past them; its neighbouring runs never share a line.
pub proof fn lemma_line_table_round_trip(lines: Seq<u32>)
    requires
        lines.len() < usize::MAX,
    ensures
        total(rle_build(lines)) == lines.len(),
        runs_coalesced(rle_build(lines)),
        forall|i: int| 0 <= i < lines.len() ==> line_at(rle_build(lines), i) == Some(lines[i]),
        forall|i: int| i >= lines.len() ==> line_at(rle_build(lines), i) is None,
    decreases lines.len(),
{
    if lines.len() > 0 {
        let prev = lines.drop_last();
        lemma_line_table_round_trip(prev);
        let runs = rle_build(prev);
        lemma_rle_push(runs, lines.last(), 0);
        assert forall|i: int| 0 <= i < lines.len() implies line_at(rle_build(lines), i) == Some(
            lines[i],
        ) by {
            lemma_rle_push(runs, lines.last(), i);
        }
        assert forall|i: int| i >= lines.len() implies line_at(rle_build(lines), i) is None by {
            lemma_rle_push(runs, lines.last(), i);
        }
    }
}

// ---- Stack discipline of bytecode ----

/// The index that the three operand bytes of a long constant load encode, most
/// significant first.
pub open spec fn long_index(a: u8, b: u8, c: u8) -> int {
    a as int * 65536 + b as int * 256 + c as int
}

/// Depth of the operand stack after running the instructions of `s` from depth `d`, with
/// `ncons` constants in the pool; `None` where an instruction cannot be decoded, names a
/// constant out of range, would pop an empty stack, or is `Return`.
pub open spec fn run_depth(s: Seq<u8>, ncons: nat, d: int) -> Option<int>
    decreases s.len(),
{
    if s.len() == 0 {
        Some(d)
    } else {
        match decode_op(s[0]) {
            None => None,
            Some(op) => match op {
                OpCode::Constant => if s.len() >= 2 && (s[1] as int) < ncons {
                    run_depth(s.skip(2), ncons, d + 1)
                } else {
                    None
                },
                OpCode::ConstantLong => if s.len() >= 4 && long_index(s[1], s[2], s[3]) < ncons {
                    run_depth(s.skip(4), ncons, d + 1)
                } else {
                    None
                },
                OpCode::Nil | OpCode::True | OpCode::False => run_depth(s.skip(1), ncons, d + 1),
                OpCode::Add | OpCode::Subtract | OpCode::Multiply | OpCode::Divide | OpCode::Equal
                | OpCode::Greater | OpCode::Less => if d >= 2 {
                    run_depth(s.skip(1), ncons, d - 1)
                } else {
                    None
                },
                OpCode::Not | OpCode::Negate => if d >= 1 {
                    run_depth(s.skip(1), ncons, d)
                } else {
                    None
                },
                OpCode::Return => None,
            },
        }
    }
}

/// Code that computes one value: run from an empty stack, it leaves exactly one.
pub open spec fn pushes_one(s: Seq<u8>, ncons: nat) -> bool {
    run_depth(s, ncons, 0) == Some(1int)
}

/// A program: code that computes one value, then `Return`.
pub open spec fn is_program(code: Seq<u8>, ncons: nat) -> bool {
    &&& code.len() > 0
    &&& code.last() == op_byte(OpCode::Return)
    &&& pushes_one(code.drop_last(), ncons)
}

/// Running one piece of code after another goes through the depth the first leaves.
pub proof fn lemma_run_depth_concat(s1: Seq<u8>, s2: Seq<u8>, ncons: nat, d: int)
    requires
        run_depth(s1, ncons, d) is Some,
    ensures
        run_depth(s1 + s2, ncons, d) == run_depth(s2, ncons, run_depth(s1, ncons, d)->0),
    decreases s1.len(),
{
    if s1.len() == 0 {
        assert(s1 + s2 =~= s2);
    } else {
        let s = s1 + s2;
        assert(s[0] == s1[0]);
        let op = decode_op(s1[0])->0;
        let k: int = match op {
            OpCode::Constant => 2,
            OpCode::ConstantLong => 4,
            _ => 1,
        };
        assert(s.skip(k) =~= s1.skip(k) + s2);
        if k >= 2 {
            assert(s[1] == s1[1]);
        }
        if k == 4 {
            assert(s[2] == s1[2]);
            assert(s[3] == s1[3]);
        }
        let d2: int = match op {
            OpCode::Constant | OpCode::ConstantLong | OpCode::Nil | OpCode::True
            | OpCode::False => d + 1,
            OpCode::Not | OpCode::Negate => d,
            _ => d - 1,
        };
        lemma_run_depth_concat(s1.skip(k), s2, ncons, d2);
    }
}

/// A deeper stack changes nothing but the depth.
pub proof fn lemma_run_depth_deeper(s: Seq<u8>, ncons: nat, d: int, k: int)
    requires
        run_depth(s, ncons, d) is Some,
        k >= 0,
    ensures
        run_depth(s, ncons, d + k) == Some(run_depth(s, ncons, d)->0 + k),
    decreases s.len(),
{
    if s.len() > 0 {
        let op = decode_op(s[0])->0;
        let j: int = match op {
            OpCode::Constant => 2,
            OpCode::ConstantLong => 4,
            _ => 1,
        };
        let d2: int = match op {
            OpCode::Constant | OpCode::ConstantLong | OpCode::Nil | OpCode::True
            | OpCode::False => d + 1,
            OpCode::Not | OpCode::Negate => d,
            _ => d - 1,
        };
        lemma_run_depth_deeper(s.skip(j), ncons, d2, k);
    }
}

/// A larger constant pool keeps valid code valid.
pub proof fn lemma_run_depth_more_constants(s: Seq<u8>, ncons: nat, more: nat, d: int)
    requires
        run_depth(s, ncons, d) is Some,
        ncons <= more,
    ensures
        run_depth(s, more, d) == run_depth(s, ncons, d),
    decreases s.len(),
{
    if s.len() > 0 {
        let op = decode_op(s[0])->0;
        let j: int = match op {
            OpCode::Constant => 2,
            OpCode::ConstantLong => 4,
            _ => 1,
        };
        let d2: int = match op {
            OpCode::Constant | OpCode::ConstantLong | OpCode::Nil | OpCode::True
            | OpCode::False => d + 1,
            OpCode::Not | OpCode::Negate => d,
            _ => d - 1,
        };
        lemma_run_depth_more_constants(s.skip(j), ncons, more, d2);
    }
}

// ---- Listing ----

/// One instruction of a listing of a chunk.
#[derive(Debug, Clone, Copy, PartialEq, Eq)]
pub struct Instruction {
    /// Offset of the opcode byte.
    pub offset: usize,
    /// Source line of the instruction; `None` where it is that of the byte before.
    pub line: Option<u32>,
    /// The opcode, or the byte that encodes none.
    pub op: Result<OpCode, u8>,
    /// Index of the constant a load names; `None` for other instructions and for a load
    /// whose operand bytes run past the end of the code.
    pub constant: Option<usize>,
    /// Offset of the instruction that follows.
    pub next: usize,
}

/// Number of operand bytes that follow an opcode.
pub open spec fn operand_width(op: OpCode) -> int {
    match op {
        OpCode::Constant => 1,
        OpCode::ConstantLong => 3,
        _ => 0,
    }
}

/// The listing entry of the instruction at `offset`.
#[verifier::opaque]
pub open spec fn instruction_at(code: Seq<u8>, runs: Seq<(u32, usize)>, offset: int) -> Instruction {
    let line = if offset > 0 && line_at(runs, offset) == line_at(runs, offset - 1) {
        None
    } else {
        line_at(runs, offset)
    };
    match decode_op(code[offset]) {
        None => Instruction {
            offset: offset as usize,
            line,
            op: Err(code[offset]),
            constant: None,
            next: (offset + 1) as usize,
        },
        Some(op) => {
            let end = offset + 1 + operand_width(op);
            let fits = end <= code.len();
            Instruction {
                offset: offset as usize,
                line,
                op: Ok(op),
                constant: if !fits {
                    None
                } else if op == OpCode::Constant {
                    Some(code[offset + 1] as usize)
                } else if op == OpCode::ConstantLong {
                    Some(long_index(code[offset + 1], code[offset + 2], code[offset + 3]) as usize)
                } else {
                    None
                },
                next: if fits {
                    end as usize
                } else {
                    code.len() as usize
                },
            }
        },
    }
}

// ---- The chunk ----

/// Compiled code: the bytecode, the constants it loads, and the source line of each byte.
#[derive(Debug)]
pub struct Chunk {
    code: Vec<u8>,
    constants: Vec<Value>,
    lines: Vec<(u32, usize)>,
}

impl Default for Chunk {
    fn default() -> (r: Chunk)
        ensures
            r.wf(),
            r.code_view() == Seq::<u8>::empty(),
            r.constants_view() == Seq::<ValueView>::empty(),
            r.runs() == Seq::<(u32, usize)>::empty(),
    {
        Chunk::new()
    }
}

impl Chunk {
    /// The bytecode.
    pub closed spec fn code_view(&self) -> Seq<u8> {
        self.code@
    }

    /// The constant pool.
    pub closed spec fn constants_view(&self) -> Seq<ValueView> {
        self.constants@.map_values(|v: Value| v@)
    }

    /// The line table, as runs of (line, number of bytes).
    pub closed spec fn runs(&self) -> Seq<(u32, usize)> {
        self.lines@
    }

    /// The line table covers every byte of code, with its runs coalesced.
    pub open spec fn wf(&self) -> bool {
        &&& self.code_view().len() <= usize::MAX
        &&& total(self.runs()) == self.code_view().len()
        &&& runs_coalesced(self.runs())
    }

    /// An empty chunk.
    pub fn new() -> (r: Chunk)
        ensures
            r.wf(),
            r.code_view() == Seq::<u8>::empty(),
            r.constants_view() == Seq::<ValueView>::empty(),
            r.runs() == Seq::<(u32, usize)>::empty(),
    {
        let r = Chunk { code: Vec::new(), constants: Vec::new(), lines: Vec::new() };
        assert(r.constants_view() =~= Seq::<ValueView>::empty());
        r
    }

    /// The bytecode.
    pub fn code(&self) -> (r: &Vec<u8>)
        ensures
            r@ == self.code_view(),
    {
        &self.code
    }

    /// Number of bytes of code.
    pub fn len(&self) -> (r: usize)
        ensures
            r == self.code_view().len(),
    {
        self.code.len()
    }

    /// Number of constants in the pool.
    pub fn constants_len(&self) -> (r: usize)
        ensures
            r == self.constants_view().len(),
    {
        self.constants.len()
    }

    /// The byte at `ip`.
    pub fn read(&self, ip: usize) -> (r: Result<u8, ChunkError>)
        ensures
            r == (if ip < self.code_view().len() {
                Ok(self.code_view()[ip as int])
            } else {
                Err(ChunkError::IPOutOfBoundsError)
            }),
    {
        if ip < self.code.len() {
            Ok(self.code[ip])
        } else {
            Err(ChunkError::IPOutOfBoundsError)
        }
    }

    /// The opcode at `ip`.
    pub fn read_op(&self, ip: usize) -> (r: Result<OpCode, ChunkError>)
        ensures
            r == (if ip < self.code_view().len() {
                match decode_op(self.code_view()[ip as int]) {
                    Some(op) => Ok(op),
                    None => Err(ChunkError::BadOPCodeError(self.code_view()[ip as int])),
                }
            } else {
                Err(ChunkError::IPOutOfBoundsError)
            }),
    {
        let b = self.read(ip)?;
        OpCode::try_from(b)
    }

    /// A copy of the constant at `idx`.
    pub fn read_constant(&self, idx: usize) -> (r: Result<Value, ChunkError>)
        ensures
            idx < self.constants_view().len() ==> (r matches Ok(v) && v@
                == self.constants_view()[idx as int]),
            idx >= self.constants_view().len() ==> r == Err::<Value, ChunkError>(
                ChunkError::IPOutOfBoundsError,
            ),
    {
        if idx < self.constants.len() {
            Ok(self.constants[idx].clone())
        } else {
            Err(ChunkError::IPOutOfBoundsError)
        }
    }

    /// Appends one byte written for source line `line`.
    pub fn write(&mut self, byte: u8, line: u32)
        requires
            old(self).wf(),
            old(self).code_view().len() < usize::MAX,
        ensures
            final(self).wf(),
            final(self).code_view() == old(self).code_view().push(byte),
            final(self).constants_view() == old(self).constants_view(),
            final(self).runs() == rle_push(old(self).runs(), line),
    {
        proof {
            lemma_rle_push(self.lines@, line, 0);
            lemma_total_nonneg(self.lines@);
        }
        self.code.push(byte);
        let n = self.lines.len();
        if n > 0 && self.lines[n - 1].0 == line {
            let count = self.lines[n - 1].1;
            self.lines.set(n - 1, (line, count + 1));
        } else {
            self.lines.push((line, 1));
        }
        assert(self.lines@ =~= rle_push(old(self).lines@, line));
    }

    /// The source line of the byte at `offset`, or `None` past the end of the code.
    pub fn get_line(&self, offset: usize) -> (r: Option<u32>)
        requires
            self.wf(),
        ensures
            r == line_at(self.runs(), offset as int),
            r is Some <==> offset < self.code_view().len(),
    {
        let ghost runs = self.lines@;
        let mut acc: usize = 0;
        let mut k: usize = 0;
        while k < self.lines.len()
            invariant
                runs == self.lines@,
                self.wf(),
                k <= runs.len(),
                acc == total(runs.subrange(0, k as int)),
                acc <= offset,
                line_at(runs.subrange(0, k as int), offset as int) is None,
            decreases runs.len() - k,
        {
            let (line, count) = self.lines[k];
            let ghost pre = runs.subrange(0, k as int);
            let ghost next = runs.subrange(0, k + 1);
            proof {
                assert(next.drop_last() =~= pre);
                lemma_total_prefix_le(runs, k + 1);
            }
            if offset - acc < count {
                proof {
                    lemma_line_at_prefix(runs, k + 1, offset as int);
                    lemma_line_at_below_total(runs, offset as int);
                }
                return Some(line);
            }
            acc = acc + count;
            k = k + 1;
        }
        proof {
            assert(runs.subrange(0, k as int) =~= runs);
        }
        None
    }

    /// Appends a constant to the pool and returns its index.
    pub fn add_constant(&mut self, value: Value) -> (r: usize)
        requires
            old(self).wf(),
        ensures
            final(self).wf(),
            final(self).code_view() == old(self).code_view(),
            final(self).runs() == old(self).runs(),
            final(self).constants_view() == old(self).constants_view().push(value@),
            r == old(self).constants_view().len(),
    {
        self.constants.push(value);
        assert(self.constants_view() =~= old(self).constants_view().push(value@));
        self.constants.len() - 1
    }

    /// The listing entry of the instruction at `offset`.
    pub fn disassemble_instruction(&self, offset: usize) -> (r: Instruction)
        requires
            self.wf(),
            offset < self.code_view().len(),
        ensures
            r == instruction_at(self.code_view(), self.runs(), offset as int),
            r.offset == offset,
            offset < r.next <= self.code_view().len(),
    {
        reveal(instruction_at);
        let here = self.get_line(offset);
        let line = if offset > 0 && here == self.get_line(offset - 1) {
            None
        } else {
            here
        };
        let byte = self.code[offset];
        let len = self.code.len();
        match OpCode::try_from(byte) {
            Err(_) => Instruction { offset, line, op: Err(byte), constant: None, next: offset + 1 },
            Ok(op) => {
                let width: usize = match op {
                    OpCode::Constant => 1,
                    OpCode::ConstantLong => 3,
                    _ => 0,
                };
                if width >= len - offset {
                    return Instruction { offset, line, op: Ok(op), constant: None, next: len };
                }
                let constant = match op {
                    OpCode::Constant => Some(self.code[offset + 1] as usize),
                    OpCode::ConstantLong => Some(
                        (self.code[offset + 1] as usize) * 65536 + (self.code[offset + 2] as usize)
                            * 256 + (self.code[offset + 3] as usize),
                    ),
                    _ => None,
                };
                Instruction { offset, line, op: Ok(op), constant, next: offset + 1 + width }
            },
        }
    }

    /// The listing of the whole chunk, instruction after instruction from offset 0.
    pub fn disassemble(&self) -> (r: Vec<Instruction>)
        requires
            self.wf(),
        ensures
            self.code_view().len() == 0 ==> r@.len() == 0,
            self.code_view().len() > 0 ==> r@.len() > 0 && r@[0].offset == 0 && r@.last().next
                == self.code_view().len(),
            forall|i: int|
                0 <= i < r@.len() ==> #[trigger] r@[i] == instruction_at(
                    self.code_view(),
                    self.runs(),
                    r@[i].offset as int,
                ),
            forall|i: int| 0 < i < r@.len() ==> #[trigger] r@[i].offset == r@[i - 1].next,
    {
        let mut r: Vec<Instruction> = Vec::new();
        let mut offset: usize = 0;
        while offset < self.code.len()
            invariant
                self.wf(),
                offset <= self.code_view().len(),
                r@.len() == 0 <==> offset == 0,
                r@.len() > 0 ==> r@[0].offset == 0 && r@.last().next == offset,
                forall|i: int|
                    0 <= i < r@.len() ==> #[trigger] r@[i] == instruction_at(
                        self.code_view(),
                        self.runs(),
                        r@[i].offset as int,
                    ),
                forall|i: int| 0 < i < r@.len() ==> #[trigger] r@[i].offset == r@[i - 1].next,
            decreases self.code_view().len() - offset,
        {
            let ins = self.disassemble_instruction(offset);
            let ghost before = r@;
            r.push(ins);
            assert(r@ =~= before.push(ins));
            offset = ins.next;
        }
        r
    }
}

} // verus!
