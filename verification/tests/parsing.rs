use brainf::compile::{Ast, CompileError};
use brainf::parser::Parser;

#[test]
fn test_simple_parse() {
    let mut parser = Parser::new("><+[,.[+.-]<.]>>");
    let actual = parser.parse().unwrap();

    let expected = Ast::Code {
        codes: vec![
            Ast::IncDp,
            Ast::DecDp,
            Ast::Inc,
            Ast::Branch {
                inner: vec![
                    Ast::Input,
                    Ast::Output,
                    Ast::Branch {
                        inner: vec![Ast::Inc, Ast::Output, Ast::Dec],
                    },
                    Ast::DecDp,
                    Ast::Output,
                ],
            },
            Ast::IncDp,
            Ast::IncDp,
        ],
    };

    assert_eq!(actual, expected);
}

#[test]
fn test_parse_unmatched_close() {
    let mut parser = Parser::new("]");
    assert_eq!(parser.parse(), Err(CompileError::UnexpectedToken));
}

#[test]
fn test_parse_unmatched_open() {
    let mut parser = Parser::new("[+");
    assert_eq!(parser.parse(), Err(CompileError::UnexpectedToken));
}

#[test]
fn test_parse_empty_source() {
    let mut parser = Parser::new("");
    assert_eq!(parser.parse(), Ok(Ast::Code { codes: vec![] }));
}
