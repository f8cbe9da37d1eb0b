use brainf::compile::{CompileError, Compiler, OpCode};

#[test]
fn test_compiler_simple() {
    let code = "+->><[++.<,]+.";
    let compiler = Compiler::new(code);
    let program = compiler.compile().unwrap();

    let expected = vec![
        OpCode::Inc,
        OpCode::Dec,
        OpCode::IncDp,
        OpCode::IncDp,
        OpCode::DecDp,
        OpCode::Branch(6),
        OpCode::Inc,
        OpCode::Inc,
        OpCode::Output,
        OpCode::DecDp,
        OpCode::Input,
        OpCode::Jump(-7),
        OpCode::Inc,
        OpCode::Output,
        OpCode::Return,
    ];

    assert_eq!(program.code, expected);
}

#[test]
fn test_compiler_empty_block() {
    let compiler = Compiler::new("[]");
    let program = compiler.compile().unwrap();
    let expected = vec![OpCode::Branch(1), OpCode::Jump(-2), OpCode::Return];
    assert_eq!(program.code, expected);
}

#[test]
fn test_compiler_deterministic() {
    let code = "++[<+>-]>[.,][]";
    let first = Compiler::new(code).compile().unwrap();
    let second = Compiler::new(code).compile().unwrap();
    assert_eq!(first.code, second.code);
}

#[test]
fn test_compiler_branch_jump_pairing() {
    let code = "+[>[+[-]]<][.]";
    let program = Compiler::new(code).compile().unwrap();
    for (b, op) in program.code.iter().enumerate() {
        if let OpCode::Branch(d) = op {
            let j = b + *d as usize;
            match program.code[j] {
                OpCode::Jump(o) => {
                    assert_eq!(j as i64 + 1 + o as i64, b as i64);
                }
                other => panic!("expected a jump at {}, found {:?}", j, other),
            }
        }
    }
}

#[test]
fn test_compiler_io_pair() {
    let program = Compiler::new(",.").compile().unwrap();
    assert_eq!(
        program.code,
        vec![OpCode::Input, OpCode::Output, OpCode::Return]
    );
}

#[test]
fn test_compiler_ignores_other_characters() {
    let plain = Compiler::new("+-[.]").compile().unwrap();
    let noisy = Compiler::new("a + b - c [ d . e ] f").compile().unwrap();
    assert_eq!(plain.code, noisy.code);
}

#[test]
fn test_compiler_rejects_unparsable() {
    assert_eq!(
        Compiler::new("][").compile().err(),
        Some(CompileError::UnexpectedToken)
    );
}

#[test]
fn test_compiler_offset_overflow() {
    let body = "+".repeat(32767);
    let source = format!("[{}]", body);
    assert_eq!(
        Compiler::new(&source).compile().err(),
        Some(CompileError::OffsetOverflow)
    );
}

#[test]
fn test_compiler_largest_block() {
    let body = "+".repeat(32766);
    let source = format!("[{}]", body);
    let program = Compiler::new(&source).compile().unwrap();
    assert_eq!(program.code[0], OpCode::Branch(32767));
    assert_eq!(program.code[32767], OpCode::Jump(-32768));
    assert_eq!(program.code[32768], OpCode::Return);
}
