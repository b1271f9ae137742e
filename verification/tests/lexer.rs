use lil::lexer::{eof, Lexer, TokenType};

#[test]
fn test_01() {
    let mut l = Lexer::new("");
    assert!(l.peek() == eof());
    assert!(l.next() == eof());
}

#[test]
fn test_02() {
    let mut l = Lexer::new(" ");
    assert!(l.peek() == eof());
    assert!(l.next() == eof());
}

#[test]
fn test_03() {
    let mut l = Lexer::new("  ");
    assert!(l.peek() == eof());
    assert!(l.next() == eof());
}

#[test]
fn test_04() {
    let mut l = Lexer::new("\n");
    assert!(l.peek() == eof());
    assert!(l.next() == eof());
}

#[test]
fn test_05() {
    let mut l = Lexer::new(" \n");
    assert!(l.peek() == eof());
    assert!(l.next() == eof());
}

#[test]
fn test_06() {
    let mut l = Lexer::new("\n ");
    assert!(l.peek() == eof());
    assert!(l.next() == eof());
}

#[test]
fn test_07() {
    let mut l = Lexer::new("\t");
    assert!(l.peek() == eof());
    assert!(l.next() == eof());
}

#[test]
fn test_08() {
    let mut l = Lexer::new("\t ");
    assert!(l.peek() == eof());
    assert!(l.next() == eof());
}

#[test]
fn test_09() {
    let mut l = Lexer::new(" \t");
    assert!(l.peek() == eof());
    assert!(l.next() == eof());
}

// Literals

#[test]
fn test_10() {
    let mut l = Lexer::new("1");
    assert!(l.peek().kind == TokenType::Integer);    
    assert!(l.next().kind == TokenType::Integer);
    assert!(l.next() == eof());
}

#[test]
fn test_11() {
    let mut l = Lexer::new("  1");
    assert!(l.peek().as_int() == 1);    
    assert!(l.next().as_int() == 1);
    assert!(l.next() == eof());
}

#[test]
fn test_12() {
    let mut l = Lexer::new("1234");
    assert!(l.peek().as_int() == 1234);
    assert!(l.next().as_int() == 1234);
    assert!(l.next() == eof());
}

#[test]
fn test_13() {
    let mut l = Lexer::new("1234 ");
    assert!(l.peek().as_int() == 1234);
    assert!(l.next().as_int() == 1234);
    assert!(l.next() == eof());
}

#[test]
fn test_14() {
    let mut l = Lexer::new("1234_");
    assert!(l.peek().kind == TokenType::Integer);    
    assert!(l.next().kind == TokenType::Integer);
    assert!(l.peek().kind == TokenType::Identifier);
    assert!(l.next().kind == TokenType::Identifier);
    assert!(l.peek() == eof());
}

#[test]
fn test_15() {
    let mut l = Lexer::new("1234X");
    assert!(l.peek().as_int() == 1234);
    assert!(l.next().as_int() == 1234);
    assert!(l.peek().kind == TokenType::Identifier);
    assert!(l.next().kind == TokenType::Identifier);
    assert!(l.peek() == eof());
}

#[test]
fn test_16() {
    let mut l = Lexer::new("1234 12");
    assert!(l.peek().as_int() == 1234);
    assert!(l.next().as_int() == 1234);
    assert!(l.peek().as_int() == 12);
    assert!(l.next().as_int() == 12);
}

// Identifiers

#[test]
fn test_20() {
    let mut l = Lexer::new("abc");
    let t = l.next();
    assert!(t.kind == TokenType::Identifier);
    assert!(t.content == "abc");
    assert!(l.next() == eof());
}

#[test]
fn test_21() {
    let mut l = Lexer::new("  abc");
    assert!(l.peek().kind == TokenType::Identifier);
    let t = l.next();
    assert!(t.kind == TokenType::Identifier);
    assert!(t.content == "abc");
    assert!(l.next() == eof());
}

#[test]
fn test_22() {
    let mut l = Lexer::new("_abc");
    assert!(l.peek().kind == TokenType::Identifier);
    let t = l.next();
    assert!(t.kind == TokenType::Identifier);
    assert!(t.content == "_abc");
    assert!(l.next() == eof());
}

#[test]
fn test_23() {
    let mut l = Lexer::new("a_bD12233_");
    assert!(l.peek().kind == TokenType::Identifier);
    let t = l.next();
    assert!(t.kind == TokenType::Identifier);
    assert!(t.content == "a_bD12233_");
    assert!(l.next() == eof());
}

#[test]
fn test_24() {
    let mut l = Lexer::new("_abc cd");
    assert!(l.peek().kind == TokenType::Identifier);
    let t1 = l.next();
    assert!(t1.kind == TokenType::Identifier);
    assert!(t1.content == "_abc");
    assert!(l.peek().kind == TokenType::Identifier);
    let t2 = l.next();    
    assert!(t2.kind == TokenType::Identifier);
    assert!(t2.content == "cd");
    assert!(l.next() == eof());
}

// Keywords

#[test]
fn test_30() {
    let mut l = Lexer::new("if");
    assert!(l.peek().kind == TokenType::If);
    assert!(l.next().kind == TokenType::If);
    assert!(l.next() == eof());
}

#[test]
fn test_31() {
    let mut l = Lexer::new("while");
    assert!(l.peek().kind == TokenType::While);
    assert!(l.next().kind == TokenType::While);
    assert!(l.next() == eof());
}

// Operators

#[test]
fn test_40() {
    let mut l = Lexer::new("(");
    assert!(l.peek().kind == TokenType::LeftBrace);
    assert!(l.next().kind == TokenType::LeftBrace);
    assert!(l.next() == eof());
}

#[test]
fn test_41() {
    let mut l = Lexer::new("((");
    assert!(l.peek().kind == TokenType::LeftBrace);
    assert!(l.next().kind == TokenType::LeftBrace);
    assert!(l.peek().kind == TokenType::LeftBrace);
    assert!(l.next().kind == TokenType::LeftBrace);
    assert!(l.next() == eof());
}

#[test]
fn test_42() {
    let mut l = Lexer::new(")");
    assert!(l.peek().kind == TokenType::RightBrace);
    assert!(l.next().kind == TokenType::RightBrace);
}

#[test]
fn test_43() {
    let mut l = Lexer::new("))");
    assert!(l.peek().kind == TokenType::RightBrace);
    assert!(l.next().kind == TokenType::RightBrace);
    assert!(l.peek().kind == TokenType::RightBrace);
    assert!(l.next().kind == TokenType::RightBrace);
    assert!(l.next() == eof());
}

#[test]
fn test_44() {
    let mut l = Lexer::new("()");
    assert!(l.peek().kind == TokenType::LeftBrace);
    assert!(l.next().kind == TokenType::LeftBrace);
    assert!(l.peek().kind == TokenType::RightBrace);
    assert!(l.next().kind == TokenType::RightBrace);
    assert!(l.next() == eof());
}

// Combinations

#[test]
fn test_60() {
    let mut l = Lexer::new("while(");
    let t1 = l.next();
    assert!(t1.kind == TokenType::While);
    assert!(t1.content == "while");
    let t2 = l.next();
    assert!(t2.kind == TokenType::LeftBrace);
    assert!(t2.content == "(");
    assert!(l.next() == eof());
}

#[test]
fn test_61() {
    let mut l = Lexer::new("12345(");
    let t1 = l.next();
    assert!(t1.kind == TokenType::Integer);
    assert!(t1.as_int() == 12345);
    let t2 = l.next();
    assert!(t2.kind == TokenType::LeftBrace);
    assert!(t2.content == "(");
    assert!(l.next() == eof());
}
