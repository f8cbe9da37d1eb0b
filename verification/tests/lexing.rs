use brainf::lexer::Lexer;
use brainf::token::Token;

#[test]
fn test_lexer() {
    let mut lexer = Lexer::new("asdf  ewrw +-[ ] , ff . >< sdfs");

    assert_eq!(lexer.next_token(), Token::Inc);
    assert_eq!(lexer.next_token(), Token::Dec);
    assert_eq!(lexer.next_token(), Token::Branch);
    assert_eq!(lexer.next_token(), Token::Jump);
    assert_eq!(lexer.next_token(), Token::Input);
    assert_eq!(lexer.next_token(), Token::Output);
    assert_eq!(lexer.next_token(), Token::IncDp);
    assert_eq!(lexer.next_token(), Token::DecDp);
    assert_eq!(lexer.next_token(), Token::Eof);
}

#[test]
fn test_lexer_empty_source() {
    let mut lexer = Lexer::new("");
    assert_eq!(lexer.next_token(), Token::Eof);
    assert_eq!(lexer.next_token(), Token::Eof);
}

#[test]
fn test_lexer_only_insignificant() {
    let mut lexer = Lexer::new("hello world 123");
    assert_eq!(lexer.next_token(), Token::Eof);
}
