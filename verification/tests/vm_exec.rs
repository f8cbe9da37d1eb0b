use brainf::compile::{Compiler, OpCode, Program};
use brainf::vm::{InputStream, OutputStream, RunStatus, RuntimeError, Vm};

const FUEL: u64 = 1_000_000;

fn run_tape(source: &str, input: Vec<u8>) -> (Vm, Result<RunStatus, RuntimeError>, Vec<u8>) {
    let program = Compiler::new(source).compile().unwrap();
    let mut vm = Vm::new();
    let mut inp = InputStream::new(input);
    let mut out = OutputStream::new();
    let r = vm.run(&program, &mut inp, &mut out, FUEL);
    (vm, r, out.bytes)
}

#[test]
fn test_vm_no_branch() {
    let code = "++++++";
    let compiler = Compiler::new(code);
    let program = compiler.compile().unwrap();

    let mut vm = Vm::new();
    let mut inp = InputStream::new(vec![]);
    let mut out = OutputStream::new();
    vm.run(&program, &mut inp, &mut out, FUEL).unwrap();

    assert_eq!(vm.array[0], 6);
}

#[test]
fn test_vm_simple() {
    let code = "
        ++
        > +++++
        [< + > -]
        ++++ ++++
        [
        < +++ +++
        > -
        ]
        <";

    let compiler = Compiler::new(code);
    let program = compiler.compile().unwrap();

    let mut vm = Vm::new();
    let mut inp = InputStream::new(vec![]);
    let mut out = OutputStream::new();
    vm.run(&program, &mut inp, &mut out, FUEL).unwrap();

    assert_eq!(vm.array[0], 55);
}

#[test]
fn test_vm_wraparound_increment() {
    let source = "+".repeat(256);
    let (vm, r, _) = run_tape(&source, vec![]);
    assert_eq!(r, Ok(RunStatus::Halted));
    assert_eq!(vm.array[0], 0);
}

#[test]
fn test_vm_wraparound_decrement() {
    let (vm, r, _) = run_tape("-", vec![]);
    assert_eq!(r, Ok(RunStatus::Halted));
    assert_eq!(vm.array[0], 255);
}

#[test]
fn test_vm_out_of_bounds_low() {
    let (_, r, _) = run_tape("<", vec![]);
    assert_eq!(r, Err(RuntimeError::OutOfBounds));
}

#[test]
fn test_vm_out_of_bounds_high() {
    let source = ">".repeat(30000);
    let (_, r, _) = run_tape(&source, vec![]);
    assert_eq!(r, Err(RuntimeError::OutOfBounds));
}

#[test]
fn test_vm_last_cell_reachable() {
    let source = ">".repeat(29999);
    let (vm, r, _) = run_tape(&source, vec![]);
    assert_eq!(r, Ok(RunStatus::Halted));
    assert_eq!(vm.idx, 29999);
}

#[test]
fn test_vm_input_exhausted() {
    let (_, r, _) = run_tape(",,", vec![7]);
    assert_eq!(r, Err(RuntimeError::StreamError));
}

#[test]
fn test_vm_surviving_placeholder() {
    let program = Program {
        code: vec![OpCode::Nop, OpCode::Return],
    };
    let mut vm = Vm::new();
    let mut inp = InputStream::new(vec![]);
    let mut out = OutputStream::new();
    let r = vm.run(&program, &mut inp, &mut out, FUEL);
    assert_eq!(r, Err(RuntimeError::InternalError));
}

#[test]
fn test_vm_empty_program_fetch_fails() {
    let program = Program { code: vec![] };
    let mut vm = Vm::new();
    let mut inp = InputStream::new(vec![]);
    let mut out = OutputStream::new();
    let r = vm.run(&program, &mut inp, &mut out, FUEL);
    assert_eq!(r, Err(RuntimeError::InternalError));
}

#[test]
fn test_vm_fuel_runs_out() {
    let (_, r, _) = run_tape("+[]", vec![]);
    assert_eq!(r, Ok(RunStatus::Running));
}

#[test]
fn test_vm_resumes_after_fuel() {
    let program = Compiler::new("++++").compile().unwrap();
    let mut vm = Vm::new();
    let mut inp = InputStream::new(vec![]);
    let mut out = OutputStream::new();
    assert_eq!(
        vm.run(&program, &mut inp, &mut out, 2),
        Ok(RunStatus::Running)
    );
    assert_eq!(vm.array[0], 2);
    assert_eq!(
        vm.run(&program, &mut inp, &mut out, FUEL),
        Ok(RunStatus::Halted)
    );
    assert_eq!(vm.array[0], 4);
}
