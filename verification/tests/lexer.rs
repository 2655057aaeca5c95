use swim_parser::lexer::{Lexer, Token};

#[test]
fn test_basic_tokens() {
    let mut lex = Lexer::new("100");

    assert_eq!(lex.next(), Some(Ok(Token::Number(100))));
    assert_eq!(lex.span(), (0, 3));
    assert_eq!(lex.slice(), "100");

    assert_eq!(lex.next(), None);
}

#[test]
fn test_complex_statements() {
    let mut lex = Lexer::new("100m freestyle @1:30");

    assert_eq!(lex.next(), Some(Ok(Token::Number(100))));
    assert_eq!(lex.span(), (0, 3));
    assert_eq!(lex.slice(), "100");

    assert_eq!(lex.next(), Some(Ok(Token::Meters)));
    assert_eq!(lex.span(), (3, 4));
    assert_eq!(lex.slice(), "m");

    assert_eq!(lex.next(), Some(Ok(Token::Word(String::from("freestyle")))));
    assert_eq!(lex.span(), (5, 14));
    assert_eq!(lex.slice(), "freestyle");

    assert_eq!(lex.next(), Some(Ok(Token::At)));
    assert_eq!(lex.span(), (15, 16));
    assert_eq!(lex.slice(), "@");

    assert_eq!(lex.next(), Some(Ok(Token::Time(String::from("1:30")))));
    assert_eq!(lex.span(), (16, 20));
    assert_eq!(lex.slice(), "1:30");

    assert_eq!(lex.next(), None);
}

#[test]
fn test_modifiers() {
    let mut lex = Lexer::new("butterfly(drill, kick)");

    assert_eq!(lex.next(), Some(Ok(Token::Word(String::from("butterfly")))));
    assert_eq!(lex.span(), (0, 9));
    assert_eq!(lex.slice(), "butterfly");

    assert_eq!(lex.next(), Some(Ok(Token::ParenOpen)));
    assert_eq!(lex.span(), (9, 10));
    assert_eq!(lex.slice(), "(");

    assert_eq!(lex.next(), Some(Ok(Token::Word(String::from("drill")))));
    assert_eq!(lex.span(), (10, 15));
    assert_eq!(lex.slice(), "drill");

    assert_eq!(lex.next(), Some(Ok(Token::Comma)));
    assert_eq!(lex.span(), (15, 16));
    assert_eq!(lex.slice(), ",");

    assert_eq!(lex.next(), Some(Ok(Token::Word(String::from("kick")))));
    assert_eq!(lex.span(), (17, 21));
    assert_eq!(lex.slice(), "kick");

    assert_eq!(lex.next(), Some(Ok(Token::ParenClose)));
    assert_eq!(lex.span(), (21, 22));
    assert_eq!(lex.slice(), ")");

    assert_eq!(lex.next(), None);
}

#[test]
fn test_intervals() {
    let mut lex = Lexer::new("@30s");

    assert_eq!(lex.next(), Some(Ok(Token::At)));
    assert_eq!(lex.span(), (0, 1));
    assert_eq!(lex.slice(), "@");

    assert_eq!(lex.next(), Some(Ok(Token::Number(30))));
    assert_eq!(lex.span(), (1, 3));
    assert_eq!(lex.slice(), "30");
    assert_eq!(lex.next(), Some(Ok(Token::Seconds)));
    assert_eq!(lex.span(), (3, 4));
    assert_eq!(lex.slice(), "s");

    assert_eq!(lex.next(), None);
}

#[test]
fn test_comments() {
    let mut lex = Lexer::new("100m # comment");

    assert_eq!(lex.next(), Some(Ok(Token::Number(100))));
    assert_eq!(lex.span(), (0, 3));
    assert_eq!(lex.slice(), "100");

    assert_eq!(lex.next(), Some(Ok(Token::Meters)));
    assert_eq!(lex.span(), (3, 4));
    assert_eq!(lex.slice(), "m");

    assert_eq!(lex.next(), None);
}

#[test]
fn test_line_and_block_comments() {
    let mut lex = Lexer::new("// intro\n/* note */ 25m\n");

    assert_eq!(lex.next(), Some(Ok(Token::Number(25))));
    assert_eq!(lex.next(), Some(Ok(Token::Meters)));
    assert_eq!(lex.next(), None);
}

#[test]
fn test_keyword_priority() {
    // Bare `x`, `m`, `km`, `s` are keywords; longer runs are words.
    let mut lex = Lexer::new("x m km s xm kms");

    assert_eq!(lex.next(), Some(Ok(Token::Times)));
    assert_eq!(lex.next(), Some(Ok(Token::Meters)));
    assert_eq!(lex.next(), Some(Ok(Token::Kilometers)));
    assert_eq!(lex.next(), Some(Ok(Token::Seconds)));
    assert_eq!(lex.next(), Some(Ok(Token::Word(String::from("xm")))));
    assert_eq!(lex.next(), Some(Ok(Token::Word(String::from("kms")))));
    assert_eq!(lex.next(), None);
}

#[test]
fn test_time_over_number_priority() {
    // `1:30s` is one composite time token, not a number and an `s`.
    let mut lex = Lexer::new("1:30s");

    assert_eq!(lex.next(), Some(Ok(Token::Time(String::from("1:30s")))));
    assert_eq!(lex.span(), (0, 5));
    assert_eq!(lex.next(), None);
}

#[test]
fn test_unrecognized_input() {
    let mut lex = Lexer::new("$");

    assert_eq!(lex.next(), Some(Err(())));
    assert_eq!(lex.next(), None);
}

#[test]
fn test_number_overflow_is_error() {
    // A literal too large for a u32 lexes as an error over the whole run.
    let mut lex = Lexer::new("99999999999999999999");

    assert_eq!(lex.next(), Some(Err(())));
    assert_eq!(lex.span(), (0, 20));
    assert_eq!(lex.next(), None);
}
