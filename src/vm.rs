use vstd::prelude::*;

use crate::chunk::{
    Chunk,
    OpCode,
    decode_op,
    is_program,
    lemma_rle_build_extend,
    line_at,
    long_index,
    rle_build,
    run_depth,
};

use crate::compiler::{compile, g_compile};
use crate::error::InterpretError;
use crate::value::{
    Value,
    ValueFault,
    ValueView,
    add_spec,
    divide_spec,
    equal_spec,
    greater_spec,
    is_falsey_spec,
    less_spec,
    multiply_spec,
    negate_spec,
    outcome,
    subtract_spec,
};

verus! {

/// What a finished run hands back; the result itself is the value on top of the stack.
#[derive(Debug, Clone, Copy, PartialEq, Eq, Structural)]
pub struct InterpretResult;

/// One step of the machine: go on at an offset with a stack, or stop with an outcome and
/// the stack left.
pub ghost enum Step {
    Continue(int, Seq<ValueView>),
    Stop(Result<(), InterpretError>, Seq<ValueView>),
}

/// The source line of the instruction at `ip`, for reporting a fault.
pub open spec fn line_of(runs: Seq<(u32, usize)>, ip: int) -> u32 {
    match line_at(runs, ip) {
        Some(l) => l,
        None => 0,
    }
}

/// A comparison result as a value.
pub open spec fn as_bool(r: Result<bool, ValueFault>) -> Result<ValueView, ValueFault> {
    match r {
        Ok(b) => Ok(ValueView::Bool(b)),
        Err(e) => Err(e),
    }
}

/// Opcodes that pop two operands and push one result.
pub open spec fn is_binary(op: OpCode) -> bool {
    op == OpCode::Add || op == OpCode::Subtract || op == OpCode::Multiply || op == OpCode::Divide
        || op == OpCode::Equal || op == OpCode::Greater || op == OpCode::Less
}

/// What a binary opcode makes of operands `a` (pushed first) and `b`.
pub open spec fn binary_spec(op: OpCode, a: ValueView, b: ValueView) -> Result<ValueView, ValueFault> {
    match op {
        OpCode::Add => add_spec(a, b),
        OpCode::Subtract => subtract_spec(a, b),
        OpCode::Multiply => multiply_spec(a, b),
        OpCode::Divide => divide_spec(a, b),
        OpCode::Equal => as_bool(equal_spec(a, b)),
        OpCode::Greater => as_bool(greater_spec(a, b)),
        _ => as_bool(less_spec(a, b)),
    }
}

/// The instruction at `ip` run on `stack`. A fault of an operator stops with the line of the
/// instruction and an empty stack; a chunk that cannot be run stops with `RuntimeError`.
pub open spec fn step(
    code: Seq<u8>,
    consts: Seq<ValueView>,
    runs: Seq<(u32, usize)>,
    ip: int,
    stack: Seq<ValueView>,
) -> Step {
    let broken = Step::Stop(Err(InterpretError::RuntimeError), Seq::empty());
    match decode_op(code[ip]) {
        None => broken,
        Some(op) => match op {
            OpCode::Return => Step::Stop(Ok(()), stack),
            OpCode::Constant => if ip + 1 < code.len() && (code[ip + 1] as int) < consts.len() {
                Step::Continue(ip + 2, stack.push(consts[code[ip + 1] as int]))
            } else {
                broken
            },
            OpCode::ConstantLong => if ip + 3 < code.len() && long_index(
                code[ip + 1],
                code[ip + 2],
                code[ip + 3],
            ) < consts.len() {
                Step::Continue(
                    ip + 4,
                    stack.push(consts[long_index(code[ip + 1], code[ip + 2], code[ip + 3])]),
                )
            } else {
                broken
            },
            OpCode::Nil => Step::Continue(ip + 1, stack.push(ValueView::Nil)),
            OpCode::True => Step::Continue(ip + 1, stack.push(ValueView::Bool(true))),
            OpCode::False => Step::Continue(ip + 1, stack.push(ValueView::Bool(false))),
            OpCode::Not => if stack.len() >= 1 {
                Step::Continue(
                    ip + 1,
                    stack.drop_last().push(ValueView::Bool(is_falsey_spec(stack.last()))),
                )
            } else {
                broken
            },
            OpCode::Negate => if stack.len() >= 1 {
                match negate_spec(stack.last()) {
                    Ok(v) => Step::Continue(ip + 1, stack.drop_last().push(v)),
                    Err(f) => Step::Stop(
                        Err(InterpretError::ValueError(f, line_of(runs, ip))),
                        Seq::empty(),
                    ),
                }
            } else {
                broken
            },
            _ => if stack.len() >= 2 {
                match binary_spec(op, stack[stack.len() - 2], stack.last()) {
                    Ok(v) => Step::Continue(ip + 1, stack.subrange(0, stack.len() - 2).push(v)),
                    Err(f) => Step::Stop(
                        Err(InterpretError::ValueError(f, line_of(runs, ip))),
                        Seq::empty(),
                    ),
                }
            } else {
                broken
            },
        },
    }
}

/// The outcome of running the code from `ip` with `stack`, and the stack left at the end.
pub open spec fn execute_spec(
    code: Seq<u8>,
    consts: Seq<ValueView>,
    runs: Seq<(u32, usize)>,
    ip: int,
    stack: Seq<ValueView>,
) -> (Result<(), InterpretError>, Seq<ValueView>)
    decreases code.len() - ip,
{
    if ip < 0 || ip >= code.len() {
        (Err(InterpretError::RuntimeError), Seq::empty())
    } else {
        match step(code, consts, runs, ip, stack) {
            Step::Continue(next, st) => if next > ip {
                execute_spec(code, consts, runs, next, st)
            } else {
                (Err(InterpretError::RuntimeError), Seq::empty())
            },
            Step::Stop(r, st) => (r, st),
        }
    }
}

/// What running a whole chunk from an empty stack gives.
pub open spec fn run_chunk_spec(chunk: Chunk) -> (Result<(), InterpretError>, Seq<ValueView>) {
    execute_spec(chunk.code_view(), chunk.constants_view(), chunk.runs(), 0, Seq::empty())
}

pub open spec fn stack_view(stack: Seq<Value>) -> Seq<ValueView> {
    stack.map_values(|v: Value| v@)
}

/// A run that fails leaves the stack empty, and never fails for want of compiling.
pub proof fn lemma_failed_run_clears(
    code: Seq<u8>,
    consts: Seq<ValueView>,
    runs: Seq<(u32, usize)>,
    ip: int,
    stack: Seq<ValueView>,
)
    ensures
        execute_spec(code, consts, runs, ip, stack).0 is Err ==> execute_spec(
            code,
            consts,
            runs,
            ip,
            stack,
        ).1.len() == 0,
        execute_spec(code, consts, runs, ip, stack).0 != Err::<(), InterpretError>(
            InterpretError::CompileError,
        ),
    decreases code.len() - ip,
{
    if 0 <= ip < code.len() {
        match step(code, consts, runs, ip, stack) {
            Step::Continue(next, st) => {
                if next > ip {
                    lemma_failed_run_clears(code, consts, runs, next, st);
                }
            },
            Step::Stop(r, st) => {},
        }
    }
}

/// A program never trips the machine: running it ends at its `Return` with one value on the
/// stack, or stops on an operator's fault.
pub proof fn lemma_program_runs_clean(
    code: Seq<u8>,
    consts: Seq<ValueView>,
    runs: Seq<(u32, usize)>,
    ip: int,
    stack: Seq<ValueView>,
)
    requires
        is_program(code, consts.len()),
        0 <= ip <= code.len() - 1,
        run_depth(code.subrange(ip, code.len() - 1), consts.len(), stack.len() as int) == Some(
            1int,
        ),
    ensures
        execute_spec(code, consts, runs, ip, stack).0 != Err::<(), InterpretError>(
            InterpretError::RuntimeError,
        ),
        execute_spec(code, consts, runs, ip, stack).0 is Ok ==> execute_spec(
            code,
            consts,
            runs,
            ip,
            stack,
        ).1.len() == 1,
    decreases code.len() - ip,
{
    let body = code.subrange(ip, code.len() - 1);
    if ip == code.len() - 1 {
        assert(body.len() == 0);
    } else {
        assert(body[0] == code[ip]);
        let op = decode_op(code[ip])->0;
        let k: int = match op {
            OpCode::Constant => 2,
            OpCode::ConstantLong => 4,
            _ => 1,
        };
        if k >= 2 {
            assert(body[1] == code[ip + 1]);
        }
        if k == 4 {
            assert(body[2] == code[ip + 2]);
            assert(body[3] == code[ip + 3]);
        }
        assert(body.skip(k) =~= code.subrange(ip + k, code.len() - 1));
        match step(code, consts, runs, ip, stack) {
            Step::Continue(next, st) => {
                lemma_program_runs_clean(code, consts, runs, next, st);
            },
            Step::Stop(r, st) => {},
        }
    }
}

/// Runs bytecode.
#[derive(Debug)]
pub struct VM {
    chunk: Option<Chunk>,
    ip: usize,
    stack: Vec<Value>,
}

fn pop(stack: &mut Vec<Value>) -> (r: Result<Value, InterpretError>)
    ensures
        old(stack)@.len() > 0 ==> (r matches Ok(v) && v == old(stack)@.last() && final(stack)@
            == old(stack)@.drop_last()),
        old(stack)@.len() == 0 ==> r == Err::<Value, InterpretError>(InterpretError::RuntimeError)
            && final(stack)@ == old(stack)@,
{
    match stack.pop() {
        Some(v) => Ok(v),
        None => Err(InterpretError::RuntimeError),
    }
}

fn binary(op: OpCode, a: Value, b: Value) -> (r: Result<Value, ValueFault>)
    requires
        is_binary(op),
    ensures
        outcome(r) == binary_spec(op, a@, b@),
{
    match op {
        OpCode::Add => a.add(b),
        OpCode::Subtract => a.subtract(b),
        OpCode::Multiply => a.multiply(b),
        OpCode::Divide => a.divide(b),
        OpCode::Equal => match a.equals(&b) {
            Ok(x) => Ok(Value::Bool(x)),
            Err(e) => Err(e),
        },
        OpCode::Greater => match a.greater(&b) {
            Ok(x) => Ok(Value::Bool(x)),
            Err(e) => Err(e),
        },
        _ => match a.less(&b) {
            Ok(x) => Ok(Value::Bool(x)),
            Err(e) => Err(e),
        },
    }
}

/// Stops a run on a fault, with the stack emptied.
fn halt(stack: &mut Vec<Value>, e: InterpretError) -> (r: Result<InterpretResult, InterpretError>)
    ensures
        r == Err::<InterpretResult, InterpretError>(e),
        stack_view(final(stack)@) == Seq::<ValueView>::empty(),
{
    stack.clear();
    assert(stack_view(stack@) =~= Seq::<ValueView>::empty());
    Err(e)
}

/// Runs `chunk` from `*ip` on `stack` until `Return` or a fault.
fn execute(chunk: &Chunk, ip: &mut usize, stack: &mut Vec<Value>) -> (r: Result<
    InterpretResult,
    InterpretError,
>)
    requires
        chunk.wf(),
    ensures
        ({
            let (res, st) = execute_spec(
                chunk.code_view(),
                chunk.constants_view(),
                chunk.runs(),
                *old(ip) as int,
                stack_view(old(stack)@),
            );
            &&& r is Ok <==> res is Ok
            &&& r matches Err(e) ==> res == Err::<(), InterpretError>(e)
            &&& stack_view(final(stack)@) == st
        }),
{
    let ghost code = chunk.code_view();
    let ghost consts = chunk.constants_view();
    let ghost runs = chunk.runs();
    let ghost target = execute_spec(code, consts, runs, *ip as int, stack_view(stack@));
    loop
        invariant
            chunk.wf(),
            code == chunk.code_view(),
            consts == chunk.constants_view(),
            runs == chunk.runs(),
            target == execute_spec(code, consts, runs, *old(ip) as int, stack_view(old(stack)@)),
            execute_spec(code, consts, runs, *ip as int, stack_view(stack@)) == target,
        decreases code.len() - *ip,
    {
        let ghost sv = stack_view(stack@);
        let here = *ip;
        let op = match chunk.read_op(here) {
            Ok(op) => op,
            Err(e) => {
                return halt(stack, InterpretError::from(e));
            },
        };
        match op {
            OpCode::Return => {
                *ip = here + 1;
                return Ok(InterpretResult);
            },
            OpCode::Constant => {
                let idx = match chunk.read(here + 1) {
                    Ok(b) => b as usize,
                    Err(e) => {
                        return halt(stack, InterpretError::from(e));
                    },
                };
                let v = match chunk.read_constant(idx) {
                    Ok(v) => v,
                    Err(e) => {
                        return halt(stack, InterpretError::from(e));
                    },
                };
                stack.push(v);
                assert(stack_view(stack@) =~= sv.push(consts[idx as int]));
                *ip = here + 2;
            },
            OpCode::ConstantLong => {
                let b1 = match chunk.read(here + 1) {
                    Ok(b) => b as usize,
                    Err(e) => {
                        return halt(stack, InterpretError::from(e));
                    },
                };
                let b2 = match chunk.read(here + 2) {
                    Ok(b) => b as usize,
                    Err(e) => {
                        return halt(stack, InterpretError::from(e));
                    },
                };
                let b3 = match chunk.read(here + 3) {
                    Ok(b) => b as usize,
                    Err(e) => {
                        return halt(stack, InterpretError::from(e));
                    },
                };
                let idx = b1 * 65536 + b2 * 256 + b3;
                let v = match chunk.read_constant(idx) {
                    Ok(v) => v,
                    Err(e) => {
                        return halt(stack, InterpretError::from(e));
                    },
                };
                stack.push(v);
                assert(stack_view(stack@) =~= sv.push(consts[idx as int]));
                *ip = here + 4;
            },
            OpCode::Nil => {
                stack.push(Value::Nil);
                assert(stack_view(stack@) =~= sv.push(ValueView::Nil));
                *ip = here + 1;
            },
            OpCode::True => {
                stack.push(Value::Bool(true));
                assert(stack_view(stack@) =~= sv.push(ValueView::Bool(true)));
                *ip = here + 1;
            },
            OpCode::False => {
                stack.push(Value::Bool(false));
                assert(stack_view(stack@) =~= sv.push(ValueView::Bool(false)));
                *ip = here + 1;
            },
            OpCode::Not => {
                let v = match pop(stack) {
                    Ok(v) => v,
                    Err(e) => {
                        return halt(stack, e);
                    },
                };
                let f = v.is_falsey();
                stack.push(Value::Bool(f));
                assert(stack_view(stack@) =~= sv.drop_last().push(ValueView::Bool(f)));
                *ip = here + 1;
            },
            OpCode::Negate => {
                let v = match pop(stack) {
                    Ok(v) => v,
                    Err(e) => {
                        return halt(stack, e);
                    },
                };
                match v.negate() {
                    Ok(n) => {
                        stack.push(n);
                        assert(stack_view(stack@) =~= sv.drop_last().push(n@));
                    },
                    Err(f) => {
                        let line = match chunk.get_line(here) {
                            Some(l) => l,
                            None => 0,
                        };
                        return halt(stack, InterpretError::ValueError(f, line));
                    },
                }
                *ip = here + 1;
            },
            _ => {
                let b = match pop(stack) {
                    Ok(v) => v,
                    Err(e) => {
                        return halt(stack, e);
                    },
                };
                let a = match pop(stack) {
                    Ok(v) => v,
                    Err(e) => {
                        return halt(stack, e);
                    },
                };
                match binary(op, a, b) {
                    Ok(v) => {
                        stack.push(v);
                        assert(stack_view(stack@) =~= sv.subrange(0, sv.len() - 2).push(v@));
                    },
                    Err(f) => {
                        let line = match chunk.get_line(here) {
                            Some(l) => l,
                            None => 0,
                        };
                        return halt(stack, InterpretError::ValueError(f, line));
                    },
                }
                *ip = here + 1;
            },
        }
    }
}

impl Default for VM {
    fn default() -> (r: VM)
        ensures
            r.stack_view() == Seq::<ValueView>::empty(),
    {
        VM::new()
    }
}

impl VM {
    /// The chunk most recently run, or compiled.
    pub closed spec fn kept_chunk(&self) -> Option<Chunk> {
        self.chunk
    }

    /// The operand stack, bottom first.
    pub closed spec fn stack_view(&self) -> Seq<ValueView> {
        stack_view(self.stack@)
    }

    /// A machine with no chunk and an empty stack.
    pub fn new() -> (r: VM)
        ensures
            r.stack_view() == Seq::<ValueView>::empty(),
    {
        let r = VM { chunk: None, ip: 0, stack: Vec::new() };
        assert(r.stack_view() =~= Seq::<ValueView>::empty());
        r
    }

    /// Runs `chunk` from its first byte on an empty stack. On `Return` the stack is kept, its
    /// top being the result; on a fault it is left empty.
    pub fn instruct(&mut self, chunk: Chunk) -> (r: Result<InterpretResult, InterpretError>)
        requires
            chunk.wf(),
        ensures
            ({
                let (res, st) = run_chunk_spec(chunk);
                &&& r is Ok <==> res is Ok
                &&& r matches Err(e) ==> res == Err::<(), InterpretError>(e)
                &&& final(self).stack_view() == st
            }),
            is_program(chunk.code_view(), chunk.constants_view().len()) ==> r
                != Err::<InterpretResult, InterpretError>(InterpretError::RuntimeError),
            is_program(chunk.code_view(), chunk.constants_view().len()) && r is Ok
                ==> final(self).stack_view().len() == 1,
            r is Err ==> final(self).stack_view().len() == 0,
            r != Err::<InterpretResult, InterpretError>(InterpretError::CompileError),
            final(self).kept_chunk() == Some(chunk),
    {
        proof {
            lemma_failed_run_clears(
                chunk.code_view(),
                chunk.constants_view(),
                chunk.runs(),
                0,
                Seq::empty(),
            );
        }
        let mut ip: usize = 0;
        let mut stack: Vec<Value> = Vec::new();
        assert(stack_view(stack@) =~= Seq::<ValueView>::empty());
        proof {
            if is_program(chunk.code_view(), chunk.constants_view().len()) {
                assert(chunk.code_view().subrange(0, chunk.code_view().len() - 1)
                    =~= chunk.code_view().drop_last());
                lemma_program_runs_clean(
                    chunk.code_view(),
                    chunk.constants_view(),
                    chunk.runs(),
                    0,
                    Seq::empty(),
                );
            }
        }
        let r = execute(&chunk, &mut ip, &mut stack);
        self.chunk = Some(chunk);
        self.ip = ip;
        self.stack = stack;
        r
    }

    /// Compiles `source` into a fresh chunk, kept by the machine, and, if it compiled, runs
    /// it from an empty stack. The code of a source takes at most eight bytes per character,
    /// which must fit in memory. A compiled program never trips the machine: the run ends
    /// with its one result on the stack, or with the fault of an operator and its line.
    pub fn interpret(&mut self, source: &str) -> (r: Result<InterpretResult, InterpretError>)
        requires
            source@.len() < u32::MAX,
            8 * source@.len() + 8 <= usize::MAX,
        ensures
            match g_compile(source@, 0) {
                None => r == Err::<InterpretResult, InterpretError>(InterpretError::CompileError)
                    && final(self).stack_view().len() == 0,
                Some((code, consts, lines)) => final(self).kept_chunk() matches Some(c) && c.wf()
                    && c.code_view() == code && c.constants_view() == consts && c.runs()
                    == rle_build(lines) && ({
                    let (res, st) = run_chunk_spec(c);
                    &&& r is Ok <==> res is Ok
                    &&& r matches Err(e) ==> res == Err::<(), InterpretError>(e)
                    &&& final(self).stack_view() == st
                }),
            },
            r != Err::<InterpretResult, InterpretError>(InterpretError::RuntimeError),
            r is Ok ==> final(self).stack_view().len() == 1,
            r is Err ==> final(self).stack_view().len() == 0,
    {
        let mut chunk = Chunk::new();
        match compile(source, &mut chunk) {
            Ok(()) => {},
            Err(_) => {
                assert(chunk.code_view().len() < usize::MAX);
                self.chunk = Some(chunk);
                self.ip = 0;
                self.stack = Vec::new();
                assert(self.stack_view() =~= Seq::<ValueView>::empty());
                return Err(InterpretError::CompileError);
            },
        }
        assert(chunk.code_view().subrange(0, chunk.code_view().len() as int) =~= chunk.code_view());
        assert(chunk.constants_view().subrange(0, chunk.constants_view().len() as int)
            =~= chunk.constants_view());
        proof {
            if let Some((code, consts, lines)) = g_compile(source@, 0) {
                lemma_rle_build_extend(lines);
            }
        }
        let r = self.instruct(chunk);
        r
    }

    /// The value `distance` places below the top of the stack.
    pub fn peek(&self, distance: usize) -> (r: Result<Value, InterpretError>)
        ensures
            distance < self.stack_view().len() ==> (r matches Ok(v) && v@ == self.stack_view()[self.stack_view().len() - 1 - distance]),
            distance >= self.stack_view().len() ==> r == Err::<Value, InterpretError>(InterpretError::RuntimeError),
    {
        if distance < self.stack.len() {
            Ok(self.stack[self.stack.len() - 1 - distance].clone())
        } else {
            Err(InterpretError::RuntimeError)
        }
    }
}

} // verus!
