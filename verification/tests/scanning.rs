use lil::lexer::{eof, Lexer, Token, TokenType};

fn kinds(input: &str) -> Vec<TokenType> {
    let mut lexer = Lexer::new(input);
    let mut kinds = Vec::new();
    loop {
        let token = lexer.next();
        if token.kind == TokenType::EOF {
            break;
        }
        kinds.push(token.kind);
    }
    kinds
}

#[test]
fn peek_is_idempotent() {
    let mut l = Lexer::new("type nat");
    let first = l.peek();
    assert!(l.peek() == first);
    assert!(l.peek() == first);
    assert!(l.next() == first);
    assert!(l.peek().kind == TokenType::Identifier);
}

#[test]
fn end_of_input_is_a_token() {
    let token = eof();
    assert!(token.kind == TokenType::EOF);
    assert_eq!(token.start, usize::MAX);
    assert_eq!(token.content, "");
    assert_eq!(token.end(), usize::MAX);
    let mut l = Lexer::new("x");
    l.next();
    assert!(l.next() == eof());
    assert!(l.next() == eof());
    assert!(l.peek() == eof());
}

#[test]
fn every_keyword_has_its_kind() {
    let text = "assert bool break case continue default delete else false for if i8 i16 i32 i64 \
                new null return skip switch true type while u8 u16 u32 u64 void";
    let expected = vec![
        TokenType::Assert,
        TokenType::Bool,
        TokenType::Break,
        TokenType::Case,
        TokenType::Continue,
        TokenType::Default,
        TokenType::Delete,
        TokenType::Else,
        TokenType::False,
        TokenType::For,
        TokenType::If,
        TokenType::I8,
        TokenType::I16,
        TokenType::I32,
        TokenType::I64,
        TokenType::New,
        TokenType::Null,
        TokenType::Return,
        TokenType::Skip,
        TokenType::Switch,
        TokenType::True,
        TokenType::Type,
        TokenType::While,
        TokenType::U8,
        TokenType::U16,
        TokenType::U32,
        TokenType::U64,
        TokenType::Void,
    ];
    assert!(kinds(text) == expected);
}

#[test]
fn words_near_keywords_are_identifiers() {
    let expected = vec![TokenType::Identifier; 7];
    assert!(kinds("Do do iff i128 Type asserts _") == expected);
}

#[test]
fn every_punctuation_mark_has_its_kind() {
    let expected = vec![
        TokenType::Ampersand,
        TokenType::Bar,
        TokenType::Colon,
        TokenType::Comma,
        TokenType::Dot,
        TokenType::Equal,
        TokenType::LeftAngle,
        TokenType::LeftBrace,
        TokenType::LeftCurly,
        TokenType::LeftSquare,
        TokenType::Minus,
        TokenType::Percent,
        TokenType::Plus,
        TokenType::RightAngle,
        TokenType::RightBrace,
        TokenType::RightCurly,
        TokenType::RightSlash,
        TokenType::RightSquare,
        TokenType::SemiColon,
        TokenType::Shreak,
        TokenType::Star,
    ];
    assert!(kinds("&|:,.=<({[-%+>)}/];!*") == expected);
}

#[test]
fn operators_of_two_characters_are_two_tokens() {
    assert!(kinds("==") == vec![TokenType::Equal, TokenType::Equal]);
    assert!(kinds("!=") == vec![TokenType::Shreak, TokenType::Equal]);
    assert!(kinds("<=") == vec![TokenType::LeftAngle, TokenType::Equal]);
    assert!(kinds(">=") == vec![TokenType::RightAngle, TokenType::Equal]);
    assert!(kinds("&&") == vec![TokenType::Ampersand, TokenType::Ampersand]);
    assert!(kinds("||") == vec![TokenType::Bar, TokenType::Bar]);
    assert!(kinds("->") == vec![TokenType::Minus, TokenType::RightAngle]);
    assert!(kinds("//") == vec![TokenType::RightSlash, TokenType::RightSlash]);
}

#[test]
fn unrecognized_character_is_reported() {
    let mut l = Lexer::new("a # b");
    assert!(l.next().kind == TokenType::Identifier);
    let token = l.next();
    assert!(token.kind == TokenType::Unrecognized);
    assert_eq!(token.start, 2);
    assert_eq!(token.content, "#");
    assert_eq!(token.end(), 3);
    let token = l.next();
    assert!(token.kind == TokenType::Identifier);
    assert_eq!(token.content, "b");
    assert!(l.next() == eof());
}

#[test]
fn unrecognized_character_of_several_bytes() {
    let mut l = Lexer::new("\u{e9}x \u{4e2d}");
    let token = l.next();
    assert!(token.kind == TokenType::Unrecognized);
    assert_eq!(token.start, 0);
    assert_eq!(token.content, "\u{e9}");
    assert_eq!(token.end(), 2);
    let token = l.next();
    assert!(token.kind == TokenType::Identifier);
    assert_eq!(token.start, 2);
    assert_eq!(token.content, "x");
    let token = l.next();
    assert!(token.kind == TokenType::Unrecognized);
    assert_eq!(token.start, 4);
    assert_eq!(token.content, "\u{4e2d}");
    assert_eq!(token.end(), 7);
    assert!(l.next() == eof());
}

#[test]
fn white_space_of_every_kind_is_skipped() {
    let text = "a\u{9}\u{a}\u{b}\u{c}\u{d} \u{85}\u{a0}\u{1680}\u{2000}\u{2005}\u{200a}\u{2028}\u{2029}\u{202f}\u{205f}\u{3000}b";
    let mut l = Lexer::new(text);
    let token = l.next();
    assert_eq!(token.content, "a");
    assert_eq!(token.start, 0);
    let token = l.next();
    assert!(token.kind == TokenType::Identifier);
    assert_eq!(token.content, "b");
    assert_eq!(token.start, text.len() - 1);
    assert!(l.next() == eof());
}

#[test]
fn characters_next_to_white_space_are_not_skipped() {
    assert!(kinds("\u{200b}") == vec![TokenType::Unrecognized]);
    assert!(kinds("\u{180e}") == vec![TokenType::Unrecognized]);
    assert!(kinds("\u{8}") == vec![TokenType::Unrecognized]);
    assert!(kinds("\u{e}") == vec![TokenType::Unrecognized]);
    assert!(kinds("\u{1f}") == vec![TokenType::Unrecognized]);
}

#[test]
fn tokens_carry_their_byte_offsets() {
    let mut l = Lexer::new("type  nat=i32[];");
    let expected = [
        (TokenType::Type, 0, "type"),
        (TokenType::Identifier, 6, "nat"),
        (TokenType::Equal, 9, "="),
        (TokenType::I32, 10, "i32"),
        (TokenType::LeftSquare, 13, "["),
        (TokenType::RightSquare, 14, "]"),
        (TokenType::SemiColon, 15, ";"),
    ];
    for (kind, start, content) in expected {
        let token = l.next();
        assert!(token.kind == kind);
        assert_eq!(token.start, start);
        assert_eq!(token.content, content);
        assert_eq!(token.end(), start + content.len());
    }
    assert!(l.next() == eof());
}

#[test]
fn numbers_and_words_are_maximal_runs() {
    let mut l = Lexer::new("12ab34 5");
    let token = l.next();
    assert!(token.kind == TokenType::Integer);
    assert_eq!(token.content, "12");
    let token = l.next();
    assert!(token.kind == TokenType::Identifier);
    assert_eq!(token.content, "ab34");
    let token = l.next();
    assert!(token.kind == TokenType::Integer);
    assert_eq!(token.content, "5");
    assert!(l.next() == eof());
}

#[test]
fn integer_payload() {
    let token = Token { kind: TokenType::Integer, start: 0, content: "2147483647" };
    assert_eq!(token.to_int(), Some(2147483647));
    assert_eq!(token.as_int(), 2147483647);
    let token = Token { kind: TokenType::Integer, start: 0, content: "0042" };
    assert_eq!(token.to_int(), Some(42));
    assert_eq!(token.as_int(), 42);
    let token = Token { kind: TokenType::Integer, start: 0, content: "0" };
    assert_eq!(token.to_int(), Some(0));
}

#[test]
fn integer_payload_out_of_range_or_malformed() {
    let token = Token { kind: TokenType::Integer, start: 0, content: "2147483648" };
    assert_eq!(token.to_int(), None);
    let token = Token { kind: TokenType::Integer, start: 0, content: "99999999999999999999" };
    assert_eq!(token.to_int(), None);
    let token = Token { kind: TokenType::Identifier, start: 0, content: "12a" };
    assert_eq!(token.to_int(), None);
    let token = Token { kind: TokenType::Identifier, start: 0, content: "" };
    assert_eq!(token.to_int(), None);
    let token = Token { kind: TokenType::Identifier, start: 0, content: "-1" };
    assert_eq!(token.to_int(), None);
    let token = Token { kind: TokenType::Identifier, start: 0, content: "\u{665}" };
    assert_eq!(token.to_int(), None);
}

#[test]
fn string_payload_and_end() {
    let token = Token { kind: TokenType::Identifier, start: 7, content: "na\u{ef}ve" };
    assert_eq!(token.as_string(), "na\u{ef}ve".to_string());
    assert_eq!(token.end(), 13);
}

#[test]
fn lexer_keeps_its_input() {
    let l = Lexer::new("void f() {}");
    assert_eq!(l.input, "void f() {}");
}

#[test]
fn white_space_is_what_unicode_says() {
    let mut text = String::new();
    for code in 0..=0x10FFFFu32 {
        if let Some(c) = char::from_u32(code) {
            text.clear();
            text.push(c);
            let mut l = Lexer::new(&text);
            assert_eq!(l.next().kind == TokenType::EOF, c.is_whitespace(), "{:x}", code);
        }
    }
}

#[test]
fn digits_and_letters_are_those_of_ascii() {
    let mut text = String::new();
    for code in 0..=0x10FFFFu32 {
        if let Some(c) = char::from_u32(code) {
            text.clear();
            text.push(c);
            let kind = Lexer::new(&text).next().kind;
            assert_eq!(kind == TokenType::Integer, c.is_digit(10), "{:x}", code);
            assert_eq!(
                kind == TokenType::Identifier,
                c.is_ascii_alphabetic() || c == '_',
                "{:x}",
                code
            );
        }
    }
}
