// Text: the characters which words are written with, and the proof that the
// lexer reads the words back from them.

use crate::ast::{Decl, Expr, Name, NodeView, Stmt, Type};
use crate::lexer::{
    all_digits, identifier_middle, identifier_start, is_name, keyword, punctuation, run_end,
    token_at, tokens_from, whitespace, Acceptor, TokenType,
};
use crate::printing::{
    array_core, array_depth, as_pairs, key, lemma_array_core_below, lemma_reference_core_below,
    named, primitive, printable_block, printable_decl, printable_expr, printable_name,
    printable_pair, printable_stmt, printable_stmts, printable_type, printed_block, printed_decl,
    printed_expr, printed_operand, printed_pairs, printed_stmt, printed_stmts, printed_term,
    printed_type, reads_as, reference_core, reference_depth, repeated, Word,
};
use crate::typing::name_text;
use vstd::prelude::*;

verus! {

// =================================================================
// Text
// =================================================================

/// The characters which a keyword or a punctuation mark is written with.
pub open spec fn spelling(kind: TokenType) -> Seq<char> {
    match kind {
        TokenType::Assert => "assert"@,
        TokenType::Bool => "bool"@,
        TokenType::Break => "break"@,
        TokenType::Case => "case"@,
        TokenType::Continue => "continue"@,
        TokenType::Default => "default"@,
        TokenType::Delete => "delete"@,
        TokenType::Else => "else"@,
        TokenType::False => "false"@,
        TokenType::For => "for"@,
        TokenType::If => "if"@,
        TokenType::I8 => "i8"@,
        TokenType::I16 => "i16"@,
        TokenType::I32 => "i32"@,
        TokenType::I64 => "i64"@,
        TokenType::New => "new"@,
        TokenType::Null => "null"@,
        TokenType::Return => "return"@,
        TokenType::Skip => "skip"@,
        TokenType::Switch => "switch"@,
        TokenType::True => "true"@,
        TokenType::Type => "type"@,
        TokenType::While => "while"@,
        TokenType::U8 => "u8"@,
        TokenType::U16 => "u16"@,
        TokenType::U32 => "u32"@,
        TokenType::U64 => "u64"@,
        TokenType::Void => "void"@,
        TokenType::Ampersand => seq!['&'],
        TokenType::Bar => seq!['|'],
        TokenType::Colon => seq![':'],
        TokenType::Comma => seq![','],
        TokenType::Dot => seq!['.'],
        TokenType::Equal => seq!['='],
        TokenType::LeftAngle => seq!['<'],
        TokenType::LeftBrace => seq!['('],
        TokenType::LeftCurly => seq!['{'],
        TokenType::LeftSquare => seq!['['],
        TokenType::Minus => seq!['-'],
        TokenType::Percent => seq!['%'],
        TokenType::Plus => seq!['+'],
        TokenType::RightAngle => seq!['>'],
        TokenType::RightBrace => seq![')'],
        TokenType::RightCurly => seq!['}'],
        TokenType::RightSlash => seq!['/'],
        TokenType::RightSquare => seq![']'],
        TokenType::SemiColon => seq![';'],
        TokenType::Shreak => seq!['!'],
        TokenType::Star => seq!['*'],
        _ => Seq::empty(),
    }
}

/// The characters which a word is written with.
pub open spec fn written(word: Word) -> Seq<char> {
    if word.kind == TokenType::Identifier || word.kind == TokenType::Integer {
        word.content
    } else {
        spelling(word.kind)
    }
}

/// The text which words are written as: each word, and a space behind it.
pub open spec fn text(words: Seq<Word>) -> Seq<char>
    decreases words.len(),
{
    if words.len() == 0 {
        Seq::empty()
    } else {
        written(words[0]) + seq![' '] + text(words.drop_first())
    }
}

/// A run of characters which make a word: a letter or an underscore, then
/// letters, digits and underscores.
pub open spec fn wordlike(s: Seq<char>) -> bool {
    &&& s.len() > 0
    &&& identifier_start(s[0])
    &&& forall|i: int| 0 <= i < s.len() ==> identifier_middle(#[trigger] s[i])
}

/// A word which the lexer reads as one token of its kind, with the
/// characters it is written with.
pub open spec fn lexable(word: Word) -> bool {
    if word.kind == TokenType::Identifier {
        is_name(word.content)
    } else if word.kind == TokenType::Integer {
        all_digits(word.content)
    } else if spelling(word.kind).len() == 1 && !identifier_start(spelling(word.kind)[0]) {
        punctuation(spelling(word.kind)[0]) == word.kind && word.kind != TokenType::Unrecognized
    } else {
        wordlike(spelling(word.kind)) && keyword(spelling(word.kind)) == word.kind
    }
}

/// Each of the words is one which the lexer reads as one token.
pub open spec fn all_lexable(words: Seq<Word>) -> bool {
    forall|i: int| 0 <= i < words.len() ==> lexable(#[trigger] words[i])
}

/// The keyword `null` is read as one token of its kind.
proof fn lemma_keyword_null()
    ensures
        all_lexable(key(TokenType::Null)),
{
    reveal_strlit("assert");
    reveal_strlit("bool");
    reveal_strlit("break");
    reveal_strlit("case");
    reveal_strlit("continue");
    reveal_strlit("default");
    reveal_strlit("delete");
    reveal_strlit("else");
    reveal_strlit("false");
    reveal_strlit("for");
    reveal_strlit("if");
    reveal_strlit("i8");
    reveal_strlit("i16");
    reveal_strlit("i32");
    reveal_strlit("i64");
    reveal_strlit("new");
    reveal_strlit("null");
    let s = spelling(TokenType::Null);
    assert(wordlike(s));
    assert(s[0] != "bool"@[0]);
    assert(s[0] != "case"@[0]);
    assert(s[0] != "else"@[0]);
    assert(keyword(s) == TokenType::Null);
}

/// The keyword `bool` is read as one token of its kind.
proof fn lemma_keyword_bool()
    ensures
        all_lexable(key(TokenType::Bool)),
{
    reveal_strlit("assert");
    reveal_strlit("bool");
    let s = spelling(TokenType::Bool);
    assert(wordlike(s));
    assert(keyword(s) == TokenType::Bool);
}

/// The keyword `i8` is read as one token of its kind.
proof fn lemma_keyword_i8()
    ensures
        all_lexable(key(TokenType::I8)),
{
    reveal_strlit("assert");
    reveal_strlit("bool");
    reveal_strlit("break");
    reveal_strlit("case");
    reveal_strlit("continue");
    reveal_strlit("default");
    reveal_strlit("delete");
    reveal_strlit("else");
    reveal_strlit("false");
    reveal_strlit("for");
    reveal_strlit("if");
    reveal_strlit("i8");
    let s = spelling(TokenType::I8);
    assert(wordlike(s));
    assert(s[1] != "if"@[1]);
    assert(keyword(s) == TokenType::I8);
}

/// The keyword `i16` is read as one token of its kind.
proof fn lemma_keyword_i16()
    ensures
        all_lexable(key(TokenType::I16)),
{
    reveal_strlit("assert");
    reveal_strlit("bool");
    reveal_strlit("break");
    reveal_strlit("case");
    reveal_strlit("continue");
    reveal_strlit("default");
    reveal_strlit("delete");
    reveal_strlit("else");
    reveal_strlit("false");
    reveal_strlit("for");
    reveal_strlit("if");
    reveal_strlit("i8");
    reveal_strlit("i16");
    let s = spelling(TokenType::I16);
    assert(wordlike(s));
    assert(s[0] != "for"@[0]);
    assert(keyword(s) == TokenType::I16);
}

/// The keyword `i32` is read as one token of its kind.
proof fn lemma_keyword_i32()
    ensures
        all_lexable(key(TokenType::I32)),
{
    reveal_strlit("assert");
    reveal_strlit("bool");
    reveal_strlit("break");
    reveal_strlit("case");
    reveal_strlit("continue");
    reveal_strlit("default");
    reveal_strlit("delete");
    reveal_strlit("else");
    reveal_strlit("false");
    reveal_strlit("for");
    reveal_strlit("if");
    reveal_strlit("i8");
    reveal_strlit("i16");
    reveal_strlit("i32");
    let s = spelling(TokenType::I32);
    assert(wordlike(s));
    assert(s[0] != "for"@[0]);
    assert(s[1] != "i16"@[1]);
    assert(keyword(s) == TokenType::I32);
}

/// The keyword `i64` is read as one token of its kind.
proof fn lemma_keyword_i64()
    ensures
        all_lexable(key(TokenType::I64)),
{
    reveal_strlit("assert");
    reveal_strlit("bool");
    reveal_strlit("break");
    reveal_strlit("case");
    reveal_strlit("continue");
    reveal_strlit("default");
    reveal_strlit("delete");
    reveal_strlit("else");
    reveal_strlit("false");
    reveal_strlit("for");
    reveal_strlit("if");
    reveal_strlit("i8");
    reveal_strlit("i16");
    reveal_strlit("i32");
    reveal_strlit("i64");
    let s = spelling(TokenType::I64);
    assert(wordlike(s));
    assert(s[0] != "for"@[0]);
    assert(s[1] != "i16"@[1]);
    assert(s[1] != "i32"@[1]);
    assert(keyword(s) == TokenType::I64);
}

/// The keyword `u8` is read as one token of its kind.
proof fn lemma_keyword_u8()
    ensures
        all_lexable(key(TokenType::U8)),
{
    reveal_strlit("assert");
    reveal_strlit("bool");
    reveal_strlit("break");
    reveal_strlit("case");
    reveal_strlit("continue");
    reveal_strlit("default");
    reveal_strlit("delete");
    reveal_strlit("else");
    reveal_strlit("false");
    reveal_strlit("for");
    reveal_strlit("if");
    reveal_strlit("i8");
    reveal_strlit("i16");
    reveal_strlit("i32");
    reveal_strlit("i64");
    reveal_strlit("new");
    reveal_strlit("null");
    reveal_strlit("return");
    reveal_strlit("skip");
    reveal_strlit("switch");
    reveal_strlit("true");
    reveal_strlit("type");
    reveal_strlit("while");
    reveal_strlit("u8");
    let s = spelling(TokenType::U8);
    assert(wordlike(s));
    assert(s[0] != "if"@[0]);
    assert(s[0] != "i8"@[0]);
    assert(keyword(s) == TokenType::U8);
}

/// The keyword `u16` is read as one token of its kind.
proof fn lemma_keyword_u16()
    ensures
        all_lexable(key(TokenType::U16)),
{
    reveal_strlit("assert");
    reveal_strlit("bool");
    reveal_strlit("break");
    reveal_strlit("case");
    reveal_strlit("continue");
    reveal_strlit("default");
    reveal_strlit("delete");
    reveal_strlit("else");
    reveal_strlit("false");
    reveal_strlit("for");
    reveal_strlit("if");
    reveal_strlit("i8");
    reveal_strlit("i16");
    reveal_strlit("i32");
    reveal_strlit("i64");
    reveal_strlit("new");
    reveal_strlit("null");
    reveal_strlit("return");
    reveal_strlit("skip");
    reveal_strlit("switch");
    reveal_strlit("true");
    reveal_strlit("type");
    reveal_strlit("while");
    reveal_strlit("u8");
    reveal_strlit("u16");
    let s = spelling(TokenType::U16);
    assert(wordlike(s));
    assert(s[0] != "for"@[0]);
    assert(s[0] != "i16"@[0]);
    assert(s[0] != "i32"@[0]);
    assert(s[0] != "i64"@[0]);
    assert(s[0] != "new"@[0]);
    assert(keyword(s) == TokenType::U16);
}

/// The keyword `u32` is read as one token of its kind.
proof fn lemma_keyword_u32()
    ensures
        all_lexable(key(TokenType::U32)),
{
    reveal_strlit("assert");
    reveal_strlit("bool");
    reveal_strlit("break");
    reveal_strlit("case");
    reveal_strlit("continue");
    reveal_strlit("default");
    reveal_strlit("delete");
    reveal_strlit("else");
    reveal_strlit("false");
    reveal_strlit("for");
    reveal_strlit("if");
    reveal_strlit("i8");
    reveal_strlit("i16");
    reveal_strlit("i32");
    reveal_strlit("i64");
    reveal_strlit("new");
    reveal_strlit("null");
    reveal_strlit("return");
    reveal_strlit("skip");
    reveal_strlit("switch");
    reveal_strlit("true");
    reveal_strlit("type");
    reveal_strlit("while");
    reveal_strlit("u8");
    reveal_strlit("u16");
    reveal_strlit("u32");
    let s = spelling(TokenType::U32);
    assert(wordlike(s));
    assert(s[0] != "for"@[0]);
    assert(s[0] != "i16"@[0]);
    assert(s[0] != "i32"@[0]);
    assert(s[0] != "i64"@[0]);
    assert(s[0] != "new"@[0]);
    assert(s[1] != "u16"@[1]);
    assert(keyword(s) == TokenType::U32);
}

/// The keyword `u64` is read as one token of its kind.
proof fn lemma_keyword_u64()
    ensures
        all_lexable(key(TokenType::U64)),
{
    reveal_strlit("assert");
    reveal_strlit("bool");
    reveal_strlit("break");
    reveal_strlit("case");
    reveal_strlit("continue");
    reveal_strlit("default");
    reveal_strlit("delete");
    reveal_strlit("else");
    reveal_strlit("false");
    reveal_strlit("for");
    reveal_strlit("if");
    reveal_strlit("i8");
    reveal_strlit("i16");
    reveal_strlit("i32");
    reveal_strlit("i64");
    reveal_strlit("new");
    reveal_strlit("null");
    reveal_strlit("return");
    reveal_strlit("skip");
    reveal_strlit("switch");
    reveal_strlit("true");
    reveal_strlit("type");
    reveal_strlit("while");
    reveal_strlit("u8");
    reveal_strlit("u16");
    reveal_strlit("u32");
    reveal_strlit("u64");
    let s = spelling(TokenType::U64);
    assert(wordlike(s));
    assert(s[0] != "for"@[0]);
    assert(s[0] != "i16"@[0]);
    assert(s[0] != "i32"@[0]);
    assert(s[0] != "i64"@[0]);
    assert(s[0] != "new"@[0]);
    assert(s[1] != "u16"@[1]);
    assert(s[1] != "u32"@[1]);
    assert(keyword(s) == TokenType::U64);
}

/// The keyword `void` is read as one token of its kind.
proof fn lemma_keyword_void()
    ensures
        all_lexable(key(TokenType::Void)),
{
    reveal_strlit("assert");
    reveal_strlit("bool");
    reveal_strlit("break");
    reveal_strlit("case");
    reveal_strlit("continue");
    reveal_strlit("default");
    reveal_strlit("delete");
    reveal_strlit("else");
    reveal_strlit("false");
    reveal_strlit("for");
    reveal_strlit("if");
    reveal_strlit("i8");
    reveal_strlit("i16");
    reveal_strlit("i32");
    reveal_strlit("i64");
    reveal_strlit("new");
    reveal_strlit("null");
    reveal_strlit("return");
    reveal_strlit("skip");
    reveal_strlit("switch");
    reveal_strlit("true");
    reveal_strlit("type");
    reveal_strlit("while");
    reveal_strlit("u8");
    reveal_strlit("u16");
    reveal_strlit("u32");
    reveal_strlit("u64");
    reveal_strlit("void");
    let s = spelling(TokenType::Void);
    assert(wordlike(s));
    assert(s[0] != "bool"@[0]);
    assert(s[0] != "case"@[0]);
    assert(s[0] != "else"@[0]);
    assert(s[0] != "null"@[0]);
    assert(s[0] != "skip"@[0]);
    assert(s[0] != "true"@[0]);
    assert(s[0] != "type"@[0]);
    assert(keyword(s) == TokenType::Void);
}

/// The keyword `true` is read as one token of its kind.
proof fn lemma_keyword_true()
    ensures
        all_lexable(key(TokenType::True)),
{
    reveal_strlit("assert");
    reveal_strlit("bool");
    reveal_strlit("break");
    reveal_strlit("case");
    reveal_strlit("continue");
    reveal_strlit("default");
    reveal_strlit("delete");
    reveal_strlit("else");
    reveal_strlit("false");
    reveal_strlit("for");
    reveal_strlit("if");
    reveal_strlit("i8");
    reveal_strlit("i16");
    reveal_strlit("i32");
    reveal_strlit("i64");
    reveal_strlit("new");
    reveal_strlit("null");
    reveal_strlit("return");
    reveal_strlit("skip");
    reveal_strlit("switch");
    reveal_strlit("true");
    let s = spelling(TokenType::True);
    assert(wordlike(s));
    assert(s[0] != "bool"@[0]);
    assert(s[0] != "case"@[0]);
    assert(s[0] != "else"@[0]);
    assert(s[0] != "null"@[0]);
    assert(s[0] != "skip"@[0]);
    assert(keyword(s) == TokenType::True);
}

/// The keyword `false` is read as one token of its kind.
proof fn lemma_keyword_false()
    ensures
        all_lexable(key(TokenType::False)),
{
    reveal_strlit("assert");
    reveal_strlit("bool");
    reveal_strlit("break");
    reveal_strlit("case");
    reveal_strlit("continue");
    reveal_strlit("default");
    reveal_strlit("delete");
    reveal_strlit("else");
    reveal_strlit("false");
    let s = spelling(TokenType::False);
    assert(wordlike(s));
    assert(s[0] != "break"@[0]);
    assert(keyword(s) == TokenType::False);
}

/// The keyword `assert` is read as one token of its kind.
proof fn lemma_keyword_assert()
    ensures
        all_lexable(key(TokenType::Assert)),
{
    reveal_strlit("assert");
    let s = spelling(TokenType::Assert);
    assert(wordlike(s));
    assert(keyword(s) == TokenType::Assert);
}

/// The keyword `skip` is read as one token of its kind.
proof fn lemma_keyword_skip()
    ensures
        all_lexable(key(TokenType::Skip)),
{
    reveal_strlit("assert");
    reveal_strlit("bool");
    reveal_strlit("break");
    reveal_strlit("case");
    reveal_strlit("continue");
    reveal_strlit("default");
    reveal_strlit("delete");
    reveal_strlit("else");
    reveal_strlit("false");
    reveal_strlit("for");
    reveal_strlit("if");
    reveal_strlit("i8");
    reveal_strlit("i16");
    reveal_strlit("i32");
    reveal_strlit("i64");
    reveal_strlit("new");
    reveal_strlit("null");
    reveal_strlit("return");
    reveal_strlit("skip");
    let s = spelling(TokenType::Skip);
    assert(wordlike(s));
    assert(s[0] != "bool"@[0]);
    assert(s[0] != "case"@[0]);
    assert(s[0] != "else"@[0]);
    assert(s[0] != "null"@[0]);
    assert(keyword(s) == TokenType::Skip);
}

/// The keyword `type` is read as one token of its kind.
proof fn lemma_keyword_type()
    ensures
        all_lexable(key(TokenType::Type)),
{
    reveal_strlit("assert");
    reveal_strlit("bool");
    reveal_strlit("break");
    reveal_strlit("case");
    reveal_strlit("continue");
    reveal_strlit("default");
    reveal_strlit("delete");
    reveal_strlit("else");
    reveal_strlit("false");
    reveal_strlit("for");
    reveal_strlit("if");
    reveal_strlit("i8");
    reveal_strlit("i16");
    reveal_strlit("i32");
    reveal_strlit("i64");
    reveal_strlit("new");
    reveal_strlit("null");
    reveal_strlit("return");
    reveal_strlit("skip");
    reveal_strlit("switch");
    reveal_strlit("true");
    reveal_strlit("type");
    let s = spelling(TokenType::Type);
    assert(wordlike(s));
    assert(s[0] != "bool"@[0]);
    assert(s[0] != "case"@[0]);
    assert(s[0] != "else"@[0]);
    assert(s[0] != "null"@[0]);
    assert(s[0] != "skip"@[0]);
    assert(s[1] != "true"@[1]);
    assert(keyword(s) == TokenType::Type);
}

/// The punctuation marks which types, expressions, statements and
/// declarations are written with are read as one token of their kind each.
proof fn lemma_marks()
    ensures
        all_lexable(key(TokenType::Ampersand)),
        all_lexable(key(TokenType::Comma)),
        all_lexable(key(TokenType::Equal)),
        all_lexable(key(TokenType::LeftAngle)),
        all_lexable(key(TokenType::LeftBrace)),
        all_lexable(key(TokenType::LeftCurly)),
        all_lexable(key(TokenType::LeftSquare)),
        all_lexable(key(TokenType::RightBrace)),
        all_lexable(key(TokenType::RightCurly)),
        all_lexable(key(TokenType::RightSquare)),
        all_lexable(key(TokenType::SemiColon)),
{
}

// =================================================================
// Scanning
// =================================================================

/// A run of characters of a class which ends on a character of another,
/// or with the text, is the maximal run.
proof fn lemma_run_exact(s: Seq<char>, class: Acceptor, p: int, n: int)
    requires
        0 <= p,
        0 <= n,
        p + n <= s.len(),
        forall|i: int| p <= i < p + n ==> class.accepts(#[trigger] s[i]),
        p + n < s.len() ==> !class.accepts(s[p + n]),
    ensures
        run_end(s, class, p) == p + n,
    decreases n,
{
    if n > 0 {
        assert(class.accepts(s[p]));
        lemma_run_exact(s, class, p + 1, n - 1);
    }
}

/// Where a text goes on with the characters of a word and a space, the
/// lexer reads one token there, of the kind of the word and made of its
/// characters, and goes on at the space.
proof fn lemma_word_scanned(s: Seq<char>, p: int, word: Word)
    requires
        lexable(word),
        0 <= p,
        p + written(word).len() < s.len(),
        s.subrange(p, p + written(word).len()) == written(word),
        s[p + written(word).len()] == ' ',
    ensures
        token_at(s, p).1 == p + written(word).len(),
        token_at(s, p).0.kind == word.kind,
        token_at(s, p).0.content == written(word),
{
    reveal(is_name);
    let w = written(word);
    let n = w.len() as int;
    assert forall|i: int| 0 <= i < n implies s[p + i] == #[trigger] w[i] by {
        assert(s.subrange(p, p + n)[i] == s[p + i]);
    }
    assert(s[p] == w[0]);
    assert(!whitespace(s[p]));
    lemma_run_exact(s, Acceptor::Whitespace, p, 0);
    if word.kind == TokenType::Integer {
        assert forall|i: int| p + 1 <= i < p + n implies Acceptor::Digit.accepts(
            #[trigger] s[i],
        ) by {
            assert(s[i] == w[i - p]);
        }
        lemma_run_exact(s, Acceptor::Digit, p + 1, n - 1);
    } else if n == 1 && !identifier_start(w[0]) {
        assert(s.subrange(p, p + 1) =~= w);
    } else {
        assert forall|i: int| p + 1 <= i < p + n implies Acceptor::IdentifierMiddle.accepts(
            #[trigger] s[i],
        ) by {
            assert(s[i] == w[i - p]);
        }
        lemma_run_exact(s, Acceptor::IdentifierMiddle, p + 1, n - 1);
    }
}

/// The tokens of a text written from words are as many as the words, each
/// an occurrence of the word of its rank.
pub proof fn lemma_text_scanned(s: Seq<char>, p: int, words: Seq<Word>)
    requires
        0 <= p <= s.len(),
        s.subrange(p, s.len() as int) == text(words),
        all_lexable(words),
    ensures
        tokens_from(s, p).len() == words.len(),
        forall|i: int| 0 <= i < words.len() ==> reads_as(#[trigger] tokens_from(s, p)[i], words[i]),
    decreases words.len(),
{
    let behind = s.subrange(p, s.len() as int);
    if words.len() == 0 {
        assert(behind.len() == 0);
        lemma_run_exact(s, Acceptor::Whitespace, p, 0);
    } else {
        let word = words[0];
        let w = written(word);
        let n = w.len() as int;
        let tail = words.drop_first();
        assert(behind =~= w + seq![' '] + text(tail));
        assert(behind.len() == n + 1 + text(tail).len());
        assert(s.subrange(p, p + n) =~= w) by {
            assert forall|i: int| 0 <= i < n implies s.subrange(p, p + n)[i] == w[i] by {
                assert(behind[i] == s[p + i]);
            }
        }
        assert(s[p + n] == ' ') by {
            assert(behind[n] == s[p + n]);
        }
        assert(lexable(word));
        lemma_word_scanned(s, p, word);
        let q = p + n;
        // The space behind the word is skipped
        assert(whitespace(s[q]));
        assert(token_at(s, q) == token_at(s, q + 1));
        assert(tokens_from(s, q) == tokens_from(s, q + 1));
        assert(s.subrange(q + 1, s.len() as int) =~= text(tail)) by {
            assert forall|i: int| 0 <= i < text(tail).len() implies s.subrange(
                q + 1,
                s.len() as int,
            )[i] == text(tail)[i] by {
                assert(behind[n + 1 + i] == s[p + n + 1 + i]);
            }
        }
        assert forall|i: int| 0 <= i < tail.len() implies lexable(#[trigger] tail[i]) by {
            assert(tail[i] == words[i + 1]);
        }
        lemma_text_scanned(s, q + 1, tail);
        let ts = tokens_from(s, p);
        let t = token_at(s, p).0;
        assert(ts =~= seq![t] + tokens_from(s, q));
        assert forall|i: int| 0 <= i < words.len() implies reads_as(
            #[trigger] ts[i],
            words[i],
        ) by {
            if i > 0 {
                assert(ts[i] == tokens_from(s, q + 1)[i - 1]);
                assert(words[i] == tail[i - 1]);
            }
        }
    }
}

// =================================================================
// Words
// =================================================================

/// Words which the lexer reads as tokens, one after the other, are such
/// words.
proof fn lemma_lexable_joined(front: Seq<Word>, back: Seq<Word>)
    requires
        all_lexable(front),
        all_lexable(back),
    ensures
        all_lexable(front + back),
{
    let words = front + back;
    assert forall|i: int| 0 <= i < words.len() implies lexable(#[trigger] words[i]) by {
        if i < front.len() {
            assert(words[i] == front[i]);
        } else {
            assert(words[i] == back[i - front.len()]);
        }
    }
}

/// Words which the lexer reads as tokens, repeated, are such words.
proof fn lemma_lexable_repeated(words: Seq<Word>, count: nat)
    requires
        all_lexable(words),
    ensures
        all_lexable(repeated(words, count)),
    decreases count,
{
    if count > 0 {
        lemma_lexable_repeated(words, (count - 1) as nat);
        lemma_lexable_joined(words, repeated(words, (count - 1) as nat));
    }
}

/// The keyword of a primitive type is read as one token of its kind.
proof fn lemma_primitive_lexable(node: NodeView)
    requires
        primitive(node) is Some,
    ensures
        all_lexable(key(primitive(node)->Some_0)),
{
    lemma_keyword_null();
    lemma_keyword_bool();
    lemma_keyword_void();
    lemma_keyword_i8();
    lemma_keyword_i16();
    lemma_keyword_i32();
    lemma_keyword_i64();
    lemma_keyword_u8();
    lemma_keyword_u16();
    lemma_keyword_u32();
    lemma_keyword_u64();
}

/// The name of a node which can be written is read as one identifier.
proof fn lemma_name_lexable(a: Seq<NodeView>, name: Name)
    requires
        printable_name(a, name),
    ensures
        all_lexable(named(TokenType::Identifier, name_text(a, name)->Some_0)),
{
}

/// The words which a type that can be written is written with are read
/// as one token each.
pub proof fn lemma_type_lexable(a: Seq<NodeView>, t: Type)
    requires
        printable_type(a, t),
    ensures
        all_lexable(printed_type(a, t)),
    decreases t.0 + 1, 0int, 0int,
{
    lemma_marks();
    match a[t.0 as int] {
        NodeView::ArrayType(_) => {
            crate::roundtrip::lemma_array_core_printable(a, t);
            lemma_array_core_below(a, t);
            lemma_operand_lexable(a, array_core(a, t));
            let pair = key(TokenType::LeftSquare) + key(TokenType::RightSquare);
            lemma_lexable_joined(key(TokenType::LeftSquare), key(TokenType::RightSquare));
            lemma_lexable_repeated(pair, array_depth(a, t));
            lemma_lexable_joined(
                printed_operand(a, array_core(a, t)),
                repeated(pair, array_depth(a, t)),
            );
        },
        NodeView::ReferenceType(_) => {
            crate::roundtrip::lemma_reference_core_printable(a, t);
            lemma_reference_core_below(a, t);
            lemma_operand_lexable(a, reference_core(a, t));
            lemma_lexable_repeated(key(TokenType::Ampersand), reference_depth(a, t));
            lemma_lexable_joined(
                repeated(key(TokenType::Ampersand), reference_depth(a, t)),
                printed_operand(a, reference_core(a, t)),
            );
        },
        NodeView::RecordType(fs) => {
            lemma_pairs_lexable(a, fs, t.0 as int, 0);
            lemma_lexable_joined(key(TokenType::LeftCurly), printed_pairs(a, fs, t.0 as int, 0));
            lemma_lexable_joined(
                key(TokenType::LeftCurly) + printed_pairs(a, fs, t.0 as int, 0),
                key(TokenType::RightCurly),
            );
        },
        node => {
            lemma_primitive_lexable(node);
        },
    }
}

/// See [`lemma_type_lexable`].
proof fn lemma_operand_lexable(a: Seq<NodeView>, t: Type)
    requires
        printable_type(a, t),
    ensures
        all_lexable(printed_operand(a, t)),
    decreases t.0 + 1, 1int, 0int,
{
    lemma_marks();
    lemma_type_lexable(a, t);
    if !(primitive(a[t.0 as int]) is Some) {
        lemma_lexable_joined(key(TokenType::LeftBrace), printed_type(a, t));
        lemma_lexable_joined(
            key(TokenType::LeftBrace) + printed_type(a, t),
            key(TokenType::RightBrace),
        );
    }
}

/// See [`lemma_type_lexable`].
pub proof fn lemma_pairs_lexable(a: Seq<NodeView>, pairs: Seq<(Type, Name)>, bound: int, i: int)
    requires
        0 <= i <= pairs.len(),
        forall|j: int| 0 <= j < pairs.len() ==> printable_pair(a, #[trigger] pairs[j], bound),
    ensures
        all_lexable(printed_pairs(a, pairs, bound, i)),
    decreases bound, 2int, pairs.len() - i,
{
    lemma_marks();
    if i < pairs.len() {
        let p = pairs[i];
        assert(printable_pair(a, p, bound));
        let comma = if i > 0 {
            key(TokenType::Comma)
        } else {
            Seq::empty()
        };
        let typed = printed_type(a, p.0);
        let name_word = named(TokenType::Identifier, name_text(a, p.1)->Some_0);
        let more = printed_pairs(a, pairs, bound, i + 1);
        lemma_type_lexable(a, p.0);
        lemma_name_lexable(a, p.1);
        lemma_pairs_lexable(a, pairs, bound, i + 1);
        lemma_lexable_joined(comma, typed);
        lemma_lexable_joined(comma + typed, name_word);
        lemma_lexable_joined(comma + typed + name_word, more);
    }
}

/// The words which an expression that can be written is written with are
/// read as one token each.
pub proof fn lemma_expr_lexable(a: Seq<NodeView>, e: Expr)
    requires
        printable_expr(a, e),
    ensures
        all_lexable(printed_expr(a, e)),
    decreases e.index + 1, 0int,
{
    lemma_marks();
    match a[e.index as int] {
        NodeView::BoolExpr(_) => {
            lemma_keyword_true();
            lemma_keyword_false();
        },
        NodeView::IntExpr(value) => {
            crate::roundtrip::lemma_numeral(value as nat);
        },
        NodeView::VarExpr(name) => {
            lemma_name_lexable(a, name);
        },
        NodeView::LessThanExpr(lhs, rhs) => {
            lemma_term_lexable(a, lhs);
            lemma_term_lexable(a, rhs);
            lemma_lexable_joined(printed_term(a, lhs), key(TokenType::LeftAngle));
            lemma_lexable_joined(
                printed_term(a, lhs) + key(TokenType::LeftAngle),
                printed_term(a, rhs),
            );
        },
        _ => {},
    }
}

/// See [`lemma_expr_lexable`].
proof fn lemma_term_lexable(a: Seq<NodeView>, e: Expr)
    requires
        printable_expr(a, e),
    ensures
        all_lexable(printed_term(a, e)),
    decreases e.index + 1, 1int,
{
    lemma_marks();
    lemma_expr_lexable(a, e);
    if a[e.index as int] is LessThanExpr {
        lemma_lexable_joined(key(TokenType::LeftBrace), printed_expr(a, e));
        lemma_lexable_joined(
            key(TokenType::LeftBrace) + printed_expr(a, e),
            key(TokenType::RightBrace),
        );
    }
}

/// The words which a statement that can be written is written with are
/// read as one token each.
pub proof fn lemma_stmt_lexable(a: Seq<NodeView>, s: Stmt)
    requires
        printable_stmt(a, s),
    ensures
        all_lexable(printed_stmt(a, s)),
{
    lemma_marks();
    lemma_keyword_assert();
    lemma_keyword_skip();
    match a[s.index as int] {
        NodeView::AssertStmt(condition) => {
            lemma_expr_lexable(a, condition);
            lemma_lexable_joined(key(TokenType::Assert), printed_expr(a, condition));
            lemma_lexable_joined(
                key(TokenType::Assert) + printed_expr(a, condition),
                key(TokenType::SemiColon),
            );
        },
        NodeView::SkipStmt => {
            lemma_lexable_joined(key(TokenType::Skip), key(TokenType::SemiColon));
        },
        _ => {},
    }
}

/// The words which statements that can be written are written with are
/// read as one token each.
pub proof fn lemma_stmts_lexable(a: Seq<NodeView>, stmts: Seq<Stmt>, limit: int, i: int)
    requires
        0 <= i <= stmts.len(),
        printable_stmts(a, stmts, limit),
    ensures
        all_lexable(printed_stmts(a, stmts, i)),
    decreases stmts.len() - i,
{
    if i < stmts.len() {
        assert(printable_stmt(a, stmts[i]));
        lemma_stmt_lexable(a, stmts[i]);
        lemma_stmts_lexable(a, stmts, limit, i + 1);
        lemma_lexable_joined(printed_stmt(a, stmts[i]), printed_stmts(a, stmts, i + 1));
    }
}

/// The words which a block that can be written is written with are read
/// as one token each.
pub proof fn lemma_block_lexable(a: Seq<NodeView>, s: Stmt)
    requires
        printable_block(a, s),
    ensures
        all_lexable(printed_block(a, s)),
{
    lemma_marks();
    let stmts = a[s.index as int]->BlockStmt_0;
    lemma_stmts_lexable(a, stmts, s.index as int, 0);
    lemma_lexable_joined(key(TokenType::LeftCurly), printed_stmts(a, stmts, 0));
    lemma_lexable_joined(
        key(TokenType::LeftCurly) + printed_stmts(a, stmts, 0),
        key(TokenType::RightCurly),
    );
}

/// The words which a declaration that can be written is written with are
/// read as one token each.
pub proof fn lemma_decl_lexable(a: Seq<NodeView>, d: Decl)
    requires
        printable_decl(a, d),
    ensures
        all_lexable(printed_decl(a, d)),
{
    lemma_marks();
    lemma_keyword_type();
    match a[d.index as int] {
        NodeView::TypeDecl(name, aliased) => {
            let w1 = key(TokenType::Type);
            let w2 = named(TokenType::Identifier, name_text(a, name)->Some_0);
            let w3 = key(TokenType::Equal);
            let w4 = printed_type(a, aliased);
            let w5 = key(TokenType::SemiColon);
            lemma_name_lexable(a, name);
            lemma_type_lexable(a, aliased);
            lemma_lexable_joined(w1, w2);
            lemma_lexable_joined(w1 + w2, w3);
            lemma_lexable_joined(w1 + w2 + w3, w4);
            lemma_lexable_joined(w1 + w2 + w3 + w4, w5);
        },
        NodeView::MethodDecl(name, result_type, params, body) => {
            let w1 = printed_type(a, result_type);
            let w2 = named(TokenType::Identifier, name_text(a, name)->Some_0);
            let w3 = key(TokenType::LeftBrace);
            let w4 = printed_pairs(a, as_pairs(params), d.index as int, 0);
            let w5 = key(TokenType::RightBrace);
            let w6 = printed_block(a, body);
            lemma_type_lexable(a, result_type);
            lemma_name_lexable(a, name);
            assert forall|j: int| 0 <= j < as_pairs(params).len() implies printable_pair(
                a,
                #[trigger] as_pairs(params)[j],
                d.index as int,
            ) by {}
            lemma_pairs_lexable(a, as_pairs(params), d.index as int, 0);
            lemma_block_lexable(a, body);
            lemma_lexable_joined(w1, w2);
            lemma_lexable_joined(w1 + w2, w3);
            lemma_lexable_joined(w1 + w2 + w3, w4);
            lemma_lexable_joined(w1 + w2 + w3 + w4, w5);
            lemma_lexable_joined(w1 + w2 + w3 + w4 + w5, w6);
        },
        _ => {},
    }
}

} // verus!
