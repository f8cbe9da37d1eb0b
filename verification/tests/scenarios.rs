use brainf::compile::Compiler;
use brainf::vm::{InputStream, OutputStream, RunStatus, Vm};
use brainf::{run_source, RunError};

const FUEL: u64 = 1_000_000;

#[test]
fn test_double_increment() {
    let program = Compiler::new("++").compile().unwrap();
    let mut vm = Vm::new();
    let mut inp = InputStream::new(vec![]);
    let mut out = OutputStream::new();
    let r = vm.run(&program, &mut inp, &mut out, FUEL);
    assert_eq!(r, Ok(RunStatus::Halted));
    assert_eq!(vm.array[0], 2);
    assert_eq!(vm.idx, 0);
    assert!(out.bytes.is_empty());
}

#[test]
fn test_loop_moves_value() {
    let program = Compiler::new("+[>+<-]").compile().unwrap();
    let mut vm = Vm::new();
    let mut inp = InputStream::new(vec![]);
    let mut out = OutputStream::new();
    let r = vm.run(&program, &mut inp, &mut out, FUEL);
    assert_eq!(r, Ok(RunStatus::Halted));
    assert_eq!(vm.array[0], 0);
    assert_eq!(vm.array[1], 1);
}

#[test]
fn test_io_round_trip() {
    let mut inp = InputStream::new(vec![42]);
    let mut out = OutputStream::new();
    let r = run_source(",.", &mut inp, &mut out, FUEL);
    assert_eq!(r, Ok(RunStatus::Halted));
    assert_eq!(out.bytes, vec![42]);

    let mut inp = InputStream::new(vec![b'Z']);
    let mut out = OutputStream::new();
    let r = run_source(",.", &mut inp, &mut out, FUEL);
    assert_eq!(r, Ok(RunStatus::Halted));
    assert_eq!(out.bytes, vec![b'Z']);
}

#[test]
fn test_empty_block_on_zero_cell() {
    let program = Compiler::new("[]").compile().unwrap();
    let mut vm = Vm::new();
    let mut inp = InputStream::new(vec![]);
    let mut out = OutputStream::new();
    let r = vm.run(&program, &mut inp, &mut out, FUEL);
    assert_eq!(r, Ok(RunStatus::Halted));
    assert_eq!(vm.array[0], 0);
    assert_eq!(vm.idx, 0);
    assert!(out.bytes.is_empty());
}

#[test]
fn test_run_source_compile_failure_touches_nothing() {
    let mut inp = InputStream::new(vec![1, 2, 3]);
    let mut out = OutputStream::new();
    let r = run_source("]", &mut inp, &mut out, FUEL);
    assert!(matches!(r, Err(RunError::Compile(_))));
    assert_eq!(inp.pos, 0);
    assert!(out.bytes.is_empty());
}

#[test]
fn test_run_source_runtime_error() {
    let mut inp = InputStream::new(vec![]);
    let mut out = OutputStream::new();
    let r = run_source(",", &mut inp, &mut out, FUEL);
    assert_eq!(
        r,
        Err(RunError::Runtime(brainf::vm::RuntimeError::StreamError))
    );
}

#[test]
fn test_run_source_budget_exhausted() {
    let mut inp = InputStream::new(vec![]);
    let mut out = OutputStream::new();
    let r = run_source("+[]", &mut inp, &mut out, 100);
    assert_eq!(r, Ok(RunStatus::Running));
}

#[test]
fn test_run_source_reference_fixture() {
    let code = "
        ++
        > +++++
        [< + > -]
        ++++ ++++
        [
        < +++ +++
        > -
        ]
        < .";
    let mut inp = InputStream::new(vec![]);
    let mut out = OutputStream::new();
    let r = run_source(code, &mut inp, &mut out, FUEL);
    assert_eq!(r, Ok(RunStatus::Halted));
    assert_eq!(out.bytes, vec![55]);
}
