use vstd::prelude::*;

use crate::compile::{OpCode, Program};

verus! {

/// The failures a run can produce: the tape pointer moved past either
/// end of the tape, the input was exhausted, or execution reached a
/// slot that only exists transiently at compile time or lies outside
/// the program.
#[derive(Copy, Clone, Debug, PartialEq, Eq)]
pub enum RuntimeError {
    OutOfBounds,
    StreamError,
    InternalError,
}

/// What a bounded run ended as: the program reached its terminal
/// instruction, or the step budget ran out first and the machine can
/// be run further.
#[derive(Copy, Clone, Debug, PartialEq, Eq)]
pub enum RunStatus {
    Halted,
    Running,
}

/// An injectable source of input bytes: a buffer read from front to
/// back, one byte per read.
pub struct InputStream {
    pub bytes: Vec<u8>,
    pub pos: usize,
}

/// An injectable sink of output bytes: every byte written is appended.
pub struct OutputStream {
    pub bytes: Vec<u8>,
}

impl InputStream {
    pub open spec fn wf(self) -> bool {
        self.pos <= self.bytes@.len()
    }

    /// The bytes not yet consumed.
    pub open spec fn remaining(self) -> Seq<u8> {
        self.bytes@.skip(self.pos as int)
    }

    pub fn new(bytes: Vec<u8>) -> (r: InputStream)
        ensures
            r.wf(),
            r.remaining() == bytes@,
    {
        let r = InputStream { bytes, pos: 0 };
        proof {
            assert(r.remaining() =~= r.bytes@);
        }
        r
    }

    /// Consumes and returns the next byte, or `None` when the stream
    /// is exhausted.
    pub fn read_byte(&mut self) -> (r: Option<u8>)
        requires
            old(self).wf(),
        ensures
            final(self).wf(),
            final(self).bytes == old(self).bytes,
            match r {
                Some(b) => old(self).remaining().len() > 0 && b == old(self).remaining()[0]
                    && final(self).remaining() == old(self).remaining().drop_first(),
                None => old(self).remaining().len() == 0 && *final(self) == *old(self),
            },
    {
        if self.pos < self.bytes.len() {
            let b = self.bytes[self.pos];
            self.pos = self.pos + 1;
            proof {
                assert(self.remaining() =~= old(self).remaining().drop_first());
            }
            Some(b)
        } else {
            None
        }
    }
}

impl OutputStream {
    pub fn new() -> (r: OutputStream)
        ensures
            r.bytes@ == Seq::<u8>::empty(),
    {
        let r = OutputStream { bytes: Vec::new() };
        r
    }

    /// Appends one byte to the sink.
    pub fn write_byte(&mut self, b: u8)
        ensures
            final(self).bytes@ == old(self).bytes@.push(b),
    {
        self.bytes.push(b);
    }
}

/// A machine state as the specification sees it: the tape, the tape
/// pointer, the instruction pointer, the input not yet consumed, and
/// the output produced so far.
#[verifier::ext_equal]
pub ghost struct MState {
    pub tape: Seq<u8>,
    pub idx: int,
    pub ip: int,
    pub input: Seq<u8>,
    pub output: Seq<u8>,
}

/// The outcome of zero or more execution steps: still running, halted
/// at the terminal instruction, or failed with an error.
#[verifier::ext_equal]
pub ghost enum Outcome {
    Running(MState),
    Halted(MState),
    Failed(MState, RuntimeError),
}

/// Incrementing a cell, with 8-bit wraparound: 255 becomes 0.
pub open spec fn wrap_inc(b: u8) -> u8 {
    if b == 255 {
        0
    } else {
        (b + 1) as u8
    }
}

/// Decrementing a cell, with 8-bit wraparound: 0 becomes 255.
pub open spec fn wrap_dec(b: u8) -> u8 {
    if b == 0 {
        255
    } else {
        (b - 1) as u8
    }
}

/// One dispatch step of the machine: fetch the instruction at the
/// instruction pointer, advance the pointer by one slot, and apply the
/// instruction's effect. A fetch outside the program, a displacement
/// that leaves it, or a surviving placeholder is an internal failure;
/// the tape pointer fails at either tape end rather than wrapping; an
/// exhausted input fails the read.
pub open spec fn step(code: Seq<OpCode>, s: MState) -> Outcome {
    if !(0 <= s.ip < code.len()) {
        Outcome::Failed(s, RuntimeError::InternalError)
    } else if !(0 <= s.idx < s.tape.len()) {
        Outcome::Failed(s, RuntimeError::InternalError)
    } else {
        let s1 = MState { ip: s.ip + 1, ..s };
        match code[s.ip] {
            OpCode::Return => Outcome::Halted(s1),
            OpCode::Nop => Outcome::Failed(s1, RuntimeError::InternalError),
            OpCode::Inc => Outcome::Running(
                MState { tape: s.tape.update(s.idx, wrap_inc(s.tape[s.idx])), ..s1 },
            ),
            OpCode::Dec => Outcome::Running(
                MState { tape: s.tape.update(s.idx, wrap_dec(s.tape[s.idx])), ..s1 },
            ),
            OpCode::IncDp => if s.idx + 1 == s.tape.len() {
                Outcome::Failed(s1, RuntimeError::OutOfBounds)
            } else {
                Outcome::Running(MState { idx: s.idx + 1, ..s1 })
            },
            OpCode::DecDp => if s.idx == 0 {
                Outcome::Failed(s1, RuntimeError::OutOfBounds)
            } else {
                Outcome::Running(MState { idx: s.idx - 1, ..s1 })
            },
            OpCode::Output => Outcome::Running(
                MState { output: s.output.push(s.tape[s.idx]), ..s1 },
            ),
            OpCode::Input => if s.input.len() == 0 {
                Outcome::Failed(s1, RuntimeError::StreamError)
            } else {
                Outcome::Running(
                    MState {
                        tape: s.tape.update(s.idx, s.input[0]),
                        input: s.input.drop_first(),
                        ..s1
                    },
                )
            },
            OpCode::Branch(d) => if s.tape[s.idx] == 0 {
                if s.ip + 1 + d > code.len() {
                    Outcome::Failed(s1, RuntimeError::InternalError)
                } else {
                    Outcome::Running(MState { ip: s.ip + 1 + d, ..s })
                }
            } else {
                Outcome::Running(s1)
            },
            OpCode::Jump(j) => if s.ip + 1 + j < 0 || s.ip + 1 + j > code.len() {
                Outcome::Failed(s1, RuntimeError::InternalError)
            } else {
                Outcome::Running(MState { ip: s.ip + 1 + j, ..s })
            },
        }
    }
}

/// `step` lifted to outcomes: a halted or failed outcome stays as it
/// is, a running one takes one more step.
pub open spec fn step_outcome(code: Seq<OpCode>, o: Outcome) -> Outcome {
    match o {
        Outcome::Running(s) => step(code, s),
        _ => o,
    }
}

/// The outcome after `n` steps from state `s`.
pub open spec fn run_n(code: Seq<OpCode>, s: MState, n: nat) -> Outcome
    decreases n,
{
    if n == 0 {
        Outcome::Running(s)
    } else {
        step_outcome(code, run_n(code, s, (n - 1) as nat))
    }
}

/// A halted or failed outcome is final: further steps leave it as it
/// is.
pub proof fn lemma_run_n_stable(code: Seq<OpCode>, s: MState, m: nat, n: nat)
    requires
        m <= n,
        !(run_n(code, s, m) is Running),
    ensures
        run_n(code, s, n) == run_n(code, s, m),
    decreases n,
{
    if n > m {
        lemma_run_n_stable(code, s, m, (n - 1) as nat);
    }
}

/// The number of cells of the tape.
pub const TAPE_LEN: usize = 30000;

/// The virtual machine: a fixed-length byte tape, a tape pointer and
/// an instruction pointer.
pub struct Vm {
    pub array: Vec<u8>,
    pub idx: usize,
    pub ip: usize,
}

impl Vm {
    pub open spec fn wf(self) -> bool {
        &&& self.array@.len() == TAPE_LEN
        &&& self.idx < TAPE_LEN
    }

    /// The machine state this virtual machine and the two streams
    /// stand in.
    pub open spec fn state(self, input: InputStream, output: OutputStream) -> MState {
        MState {
            tape: self.array@,
            idx: self.idx as int,
            ip: self.ip as int,
            input: input.remaining(),
            output: output.bytes@,
        }
    }

    /// A fresh machine: every cell zero, both pointers at 0.
    pub fn new() -> (r: Vm)
        ensures
            r.wf(),
            r.array@ == Seq::new(TAPE_LEN as nat, |i: int| 0u8),
            r.idx == 0,
            r.ip == 0,
    {
        let mut array: Vec<u8> = Vec::new();
        while array.len() < TAPE_LEN
            invariant
                array@.len() <= TAPE_LEN,
                forall|i: int| 0 <= i < array@.len() ==> array@[i] == 0u8,
            decreases TAPE_LEN - array@.len(),
        {
            array.push(0u8);
        }
        proof {
            assert(array@ =~= Seq::new(TAPE_LEN as nat, |i: int| 0u8));
        }
        Vm { array, idx: 0, ip: 0 }
    }

    /// Executes a compiled program against this machine for at most
    /// `fuel` instruction dispatches, reading from `input` and writing
    /// to `output`, starting at the machine's current instruction
    /// pointer (0 on a fresh machine). The run ends when the terminal
    /// instruction halts it, an error aborts it, or the budget runs
    /// out with the program still going; in the last case a further
    /// call picks up exactly where this one stopped. The source
    /// language has no step limit of its own: a program whose branch
    /// logic never reaches the terminal instruction stays `Running`
    /// through every budget.
    ///
    /// The result and the final values of the machine and both streams
    /// are exactly those of the specification machine after `fuel`
    /// steps: `Ok(Halted)` when it halted, `Ok(Running)` when it is
    /// still running, and the same error when it failed.
    pub fn run(
        &mut self,
        program: &Program,
        input: &mut InputStream,
        output: &mut OutputStream,
        fuel: u64,
    ) -> (r: Result<RunStatus, RuntimeError>)
        requires
            old(self).wf(),
            old(input).wf(),
        ensures
            final(self).wf(),
            final(input).wf(),
            final(input).bytes == old(input).bytes,
            old(output).bytes@.is_prefix_of(final(output).bytes@),
            ({
                let init = old(self).state(*old(input), *old(output));
                let fin = final(self).state(*final(input), *final(output));
                match run_n(program.code@, init, fuel as nat) {
                    Outcome::Running(s) => r == Ok::<RunStatus, RuntimeError>(RunStatus::Running)
                        && s == fin,
                    Outcome::Halted(s) => r == Ok::<RunStatus, RuntimeError>(RunStatus::Halted)
                        && s == fin,
                    Outcome::Failed(s, e) => r == Err::<RunStatus, RuntimeError>(e) && s == fin,
                }
            }),
    {
        let ghost init = self.state(*input, *output);
        let ghost code = program.code@;
        let mut left: u64 = fuel;
        let ghost mut n: nat = 0;
        while left > 0
            invariant
                self.wf(),
                input.wf(),
                input.bytes == old(input).bytes,
                old(output).bytes@.is_prefix_of(output.bytes@),
                code == program.code@,
                init == old(self).state(*old(input), *old(output)),
                left <= fuel,
                n == fuel - left,
                run_n(code, init, n) == Outcome::Running(self.state(*input, *output)),
            decreases left,
        {
            left = left - 1;
            let ghost cur = self.state(*input, *output);
            if self.ip >= program.code.len() {
                proof {
                    n = n + 1;
                    assert(run_n(code, init, n) == Outcome::Failed(cur, RuntimeError::InternalError));
                    lemma_run_n_stable(code, init, n, fuel as nat);
                }
                return Err(RuntimeError::InternalError);
            }
            let inst = program.code[self.ip];
            self.ip = self.ip + 1;
            match inst {
                OpCode::Return => {
                    proof {
                        n = n + 1;
                        assert(run_n(code, init, n) == Outcome::Halted(
                            self.state(*input, *output),
                        ));
                        lemma_run_n_stable(code, init, n, fuel as nat);
                    }
                    return Ok(RunStatus::Halted);
                },
                OpCode::Nop => {
                    proof {
                        n = n + 1;
                        assert(run_n(code, init, n) == Outcome::Failed(
                            self.state(*input, *output),
                            RuntimeError::InternalError,
                        ));
                        lemma_run_n_stable(code, init, n, fuel as nat);
                    }
                    return Err(RuntimeError::InternalError);
                },
                OpCode::Inc => {
                    let b = self.array[self.idx];
                    let nb = if b == 255 {
                        0
                    } else {
                        b + 1
                    };
                    self.array[self.idx] = nb;
                    proof {
                        n = n + 1;
                        assert(run_n(code, init, n) == Outcome::Running(
                            self.state(*input, *output),
                        ));
                    }
                },
                OpCode::Dec => {
                    let b = self.array[self.idx];
                    let nb = if b == 0 {
                        255
                    } else {
                        b - 1
                    };
                    self.array[self.idx] = nb;
                    proof {
                        n = n + 1;
                        assert(run_n(code, init, n) == Outcome::Running(
                            self.state(*input, *output),
                        ));
                    }
                },
                OpCode::IncDp => {
                    if self.idx + 1 == self.array.len() {
                        proof {
                            n = n + 1;
                            assert(run_n(code, init, n) == Outcome::Failed(
                                self.state(*input, *output),
                                RuntimeError::OutOfBounds,
                            ));
                            lemma_run_n_stable(code, init, n, fuel as nat);
                        }
                        return Err(RuntimeError::OutOfBounds);
                    }
                    self.idx = self.idx + 1;
                    proof {
                        n = n + 1;
                        assert(run_n(code, init, n) == Outcome::Running(
                            self.state(*input, *output),
                        ));
                    }
                },
                OpCode::DecDp => {
                    if self.idx == 0 {
                        proof {
                            n = n + 1;
                            assert(run_n(code, init, n) == Outcome::Failed(
                                self.state(*input, *output),
                                RuntimeError::OutOfBounds,
                            ));
                            lemma_run_n_stable(code, init, n, fuel as nat);
                        }
                        return Err(RuntimeError::OutOfBounds);
                    }
                    self.idx = self.idx - 1;
                    proof {
                        n = n + 1;
                        assert(run_n(code, init, n) == Outcome::Running(
                            self.state(*input, *output),
                        ));
                    }
                },
                OpCode::Output => {
                    let b = self.array[self.idx];
                    output.write_byte(b);
                    proof {
                        n = n + 1;
                        assert(run_n(code, init, n) == Outcome::Running(
                            self.state(*input, *output),
                        ));
                    }
                },
                OpCode::Input => {
                    match input.read_byte() {
                        Some(b) => {
                            self.array[self.idx] = b;
                            proof {
                                n = n + 1;
                                assert(run_n(code, init, n) == Outcome::Running(
                                    self.state(*input, *output),
                                ));
                            }
                        },
                        None => {
                            proof {
                                n = n + 1;
                                assert(run_n(code, init, n) == Outcome::Failed(
                                    self.state(*input, *output),
                                    RuntimeError::StreamError,
                                ));
                                lemma_run_n_stable(code, init, n, fuel as nat);
                            }
                            return Err(RuntimeError::StreamError);
                        },
                    }
                },
                OpCode::Branch(dist) => {
                    if self.array[self.idx] == 0 {
                        let off = dist as usize;
                        if off > program.code.len() - self.ip {
                            proof {
                                n = n + 1;
                                assert(run_n(code, init, n) == Outcome::Failed(
                                    self.state(*input, *output),
                                    RuntimeError::InternalError,
                                ));
                                lemma_run_n_stable(code, init, n, fuel as nat);
                            }
                            return Err(RuntimeError::InternalError);
                        }
                        self.ip = self.ip + off;
                    }
                    proof {
                        n = n + 1;
                        assert(run_n(code, init, n) == Outcome::Running(
                            self.state(*input, *output),
                        ));
                    }
                },
                OpCode::Jump(dist) => {
                    if dist >= 0 {
                        let off = dist as usize;
                        if off > program.code.len() - self.ip {
                            proof {
                                n = n + 1;
                                assert(run_n(code, init, n) == Outcome::Failed(
                                    self.state(*input, *output),
                                    RuntimeError::InternalError,
                                ));
                                lemma_run_n_stable(code, init, n, fuel as nat);
                            }
                            return Err(RuntimeError::InternalError);
                        }
                        self.ip = self.ip + off;
                    } else {
                        let mag = (-(dist as i32)) as usize;
                        if mag > self.ip {
                            proof {
                                n = n + 1;
                                assert(run_n(code, init, n) == Outcome::Failed(
                                    self.state(*input, *output),
                                    RuntimeError::InternalError,
                                ));
                                lemma_run_n_stable(code, init, n, fuel as nat);
                            }
                            return Err(RuntimeError::InternalError);
                        }
                        self.ip = self.ip - mag;
                    }
                    proof {
                        n = n + 1;
                        assert(run_n(code, init, n) == Outcome::Running(
                            self.state(*input, *output),
                        ));
                    }
                },
            }
        }
        Ok(RunStatus::Running)
    }
}

/// Wraparound: executing a cell increment on a cell holding 255 yields
/// 0, and a cell decrement on a cell holding 0 yields 255.
pub proof fn lemma_cell_wraparound(code: Seq<OpCode>, s: MState)
    requires
        0 <= s.ip < code.len(),
        0 <= s.idx < s.tape.len(),
    ensures
        code[s.ip] == OpCode::Inc && s.tape[s.idx] == 255 ==> (step(code, s) matches
            Outcome::Running(t) && t.tape[s.idx] == 0),
        code[s.ip] == OpCode::Dec && s.tape[s.idx] == 0 ==> (step(code, s) matches
            Outcome::Running(t) && t.tape[s.idx] == 255),
{
}

/// The compiled form of a program that is one input instruction
/// followed by one output instruction.
pub open spec fn io_pair_code() -> Seq<OpCode> {
    seq![OpCode::Input, OpCode::Output, OpCode::Return]
}

/// Input/output round trip: the program of a single input instruction
/// followed by a single output instruction, run on exactly one
/// supplied input byte, halts after three steps having consumed that
/// byte, and its whole output is that byte, whatever the byte was.
pub proof fn lemma_io_round_trip(b: u8, s: MState)
    requires
        s.ip == 0,
        0 <= s.idx < s.tape.len(),
        s.input == seq![b],
        s.output == Seq::<u8>::empty(),
    ensures
        (run_n(io_pair_code(), s, 3) matches Outcome::Halted(t) && t.output == seq![b]
            && t.input == Seq::<u8>::empty()),
        forall|n: nat, t: MState|
            run_n(io_pair_code(), s, n) == Outcome::Halted(t) ==> t.output == seq![b]
                && t.input == Seq::<u8>::empty(),
{
    let code = io_pair_code();
    let u1 = MState {
        tape: s.tape.update(s.idx, b),
        idx: s.idx,
        ip: 1,
        input: s.input.drop_first(),
        output: s.output,
    };
    assert(s.input.drop_first() =~= Seq::<u8>::empty());
    assert(step(code, s) =~= Outcome::Running(u1));
    assert(run_n(code, s, 1) == Outcome::Running(u1));
    let u2 = MState { ip: 2, output: u1.output.push(u1.tape[u1.idx]), ..u1 };
    assert(u1.tape[u1.idx] == b);
    assert(u2.output =~= seq![b]);
    assert(step(code, u1) =~= Outcome::Running(u2));
    assert(run_n(code, s, 2) == Outcome::Running(u2));
    let u3 = MState { ip: 3, ..u2 };
    assert(step(code, u2) =~= Outcome::Halted(u3));
    assert(run_n(code, s, 3) == Outcome::Halted(u3));
    assert forall|n: nat, t: MState|
        run_n(io_pair_code(), s, n) == Outcome::Halted(t) implies t.output == seq![b]
        && t.input == Seq::<u8>::empty() by {
        if n < 3 {
            assert(run_n(code, s, 0) is Running);
            assert(run_n(code, s, 1) is Running);
            assert(run_n(code, s, 2) is Running);
        } else {
            lemma_run_n_stable(code, s, 3, n);
        }
    }
}

/// Bounds enforcement: a pointer increment at the last valid index and
/// a pointer decrement at index 0 always fail with `OutOfBounds`,
/// whatever the rest of the program holds.
pub proof fn lemma_bounds_enforced(code: Seq<OpCode>, s: MState)
    requires
        0 <= s.ip < code.len(),
        0 <= s.idx < s.tape.len(),
    ensures
        code[s.ip] == OpCode::IncDp && s.idx == s.tape.len() - 1 ==> (step(code, s) matches
            Outcome::Failed(t, e) && e == RuntimeError::OutOfBounds),
        code[s.ip] == OpCode::DecDp && s.idx == 0 ==> (step(code, s) matches Outcome::Failed(
            t,
            e,
        ) && e == RuntimeError::OutOfBounds),
{
}

} // verus!
