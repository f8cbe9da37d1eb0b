//! A compiler and virtual machine for a minimal tape-based language.
//!
//! Source text is lexed into tokens, parsed into a nested program tree,
//! linearized by the compiler into a flat instruction sequence with
//! resolved branch/jump offsets, and executed by a virtual machine over
//! a fixed-size byte tape with injectable byte streams for input and
//! output.

pub mod compile;
pub mod lexer;
pub mod parser;
pub mod token;
pub mod vm;

use vstd::prelude::*;

use crate::compile::{program_code, CompileError, Compiler};
use crate::parser::ast_tokens;
use crate::token::{balanced, significant_tokens};
use crate::vm::{
    run_n, InputStream, MState, Outcome, OutputStream, RunStatus, RuntimeError, Vm, TAPE_LEN,
};

verus! {

/// A failure of `run_source`: either the source would not compile, or
/// the run itself failed.
#[derive(Copy, Clone, Debug, PartialEq, Eq)]
pub enum RunError {
    Compile(CompileError),
    Runtime(RuntimeError),
}

/// Compiles a source text and runs it on a fresh machine for at most
/// `fuel` instruction dispatches, reading from `input` and writing to
/// `output`.
///
/// When the source compiles, the result and the streams' final values
/// are exactly those of the specification machine run from the
/// all-zero initial state on the compiled form of a tree that reads
/// back as the source's significant tokens; a compile failure leaves
/// both streams untouched.
pub fn run_source(
    source: &str,
    input: &mut InputStream,
    output: &mut OutputStream,
    fuel: u64,
) -> (r: Result<RunStatus, RunError>)
    requires
        old(input).wf(),
    ensures
        final(input).wf(),
        final(input).bytes == old(input).bytes,
        old(output).bytes@.is_prefix_of(final(output).bytes@),
        r matches Err(RunError::Compile(e)) ==> *final(input) == *old(input) && *final(output)
            == *old(output) && (e == CompileError::UnexpectedToken ==> !balanced(
            significant_tokens(source@),
        )) && (e == CompileError::OffsetOverflow ==> balanced(significant_tokens(source@))),
        !(r matches Err(RunError::Compile(e))) ==> balanced(significant_tokens(source@)),
        !(r matches Err(RunError::Compile(e))) ==> exists|t: compile::Ast|
            {
                &&& (#[trigger] ast_tokens(t)) == significant_tokens(source@)
                &&& compile::canonical_program(t)
                &&& compile::compilable(t)
                &&& ({
                    let init = MState {
                        tape: Seq::new(TAPE_LEN as nat, |i: int| 0u8),
                        idx: 0,
                        ip: 0,
                        input: old(input).remaining(),
                        output: old(output).bytes@,
                    };
                    match run_n(program_code(t), init, fuel as nat) {
                        Outcome::Running(s) => r == Ok::<RunStatus, RunError>(RunStatus::Running)
                            && s.input == final(input).remaining() && s.output
                            == final(output).bytes@,
                        Outcome::Halted(s) => r == Ok::<RunStatus, RunError>(RunStatus::Halted)
                            && s.input == final(input).remaining() && s.output
                            == final(output).bytes@,
                        Outcome::Failed(s, e) => r == Err::<RunStatus, RunError>(
                            RunError::Runtime(e),
                        ) && s.input == final(input).remaining() && s.output
                            == final(output).bytes@,
                    }
                })
            },
{
    let compiler = Compiler::new(source);
    let ghost compiler0 = compiler;
    let program = match compiler.compile() {
        Ok(p) => p,
        Err(e) => {
            return Err(RunError::Compile(e));
        },
    };
    proof {
        let t = choose|t: compile::Ast|
            (#[trigger] ast_tokens(t)) == compiler0.toks() && compile::canonical_program(t)
                && compile::compilable(t) && program.code@ == compiler0.emitted()
                + program_code(t);
        assert(Seq::<compile::OpCode>::empty() + program_code(t) =~= program_code(t));
        assert(program.code@ == program_code(t));
    }
    let mut vm = Vm::new();
    let res = vm.run(&program, input, output, fuel);
    match res {
        Ok(st) => Ok(st),
        Err(e) => Err(RunError::Runtime(e)),
    }
}

} // verus!
