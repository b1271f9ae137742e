// The lexer: it pulls characters from a source text and yields one token at a
// time, with one token of lookahead.  The rules are stated on the characters
// of the text (`token_at`); the lexer's state is the sequence of tokens which
// have not been taken yet (`Lexer::remaining`).

use vstd::prelude::*;

verus! {

// =================================================================
// Token
// =================================================================

/// The kinds of token.  Some are kept for operators of two characters and
/// for words which the lexer does not yield yet.
#[derive(Clone, Copy, Debug, PartialEq, Eq, Structural)]
pub enum TokenType {
    Ampersand,
    AmpersandAmpersand,
    Assert,
    Bar,
    BarBar,
    Bool,
    Break,
    Case,
    Colon,
    Comma,
    Continue,
    Default,
    Do,
    Dot,
    Delete,
    Else,
    EOF,
    Equal,
    EqualEqual,
    False,
    For,
    Identifier,
    If,
    I8,
    I16,
    I32,
    I64,
    Integer,
    LeftAngle,
    LeftAngleEquals,
    LeftBrace,
    LeftCurly,
    LeftSquare,
    Minus,
    MinusGreater,
    New,
    Null,
    Percent,
    Plus,
    Return,
    RightAngle,
    RightAndleEquals,
    RightBrace,
    RightCurly,
    RightSlash,
    RightSlashSlash,
    RightSquare,
    Shreak,
    ShreakEquals,
    SemiColon,
    Skip,
    Switch,
    Star,
    True,
    Type,
    While,
    U8,
    U16,
    U32,
    U64,
    Void,
    /// A character which begins no token of the language.
    Unrecognized,
}

/// Represents a single token generated from a string slice.  This
/// identifies where the token starts and ends in that slice.
#[derive(Clone, Copy, Debug, PartialEq)]
pub struct Token<'a> {
    /// Type of the token
    pub kind: TokenType,
    /// Identifies the starting point of this token within the string
    /// being tokenized, as a byte offset.
    pub start: usize,
    /// The piece of the string slice which the token is made of.  From
    /// this we can extract useful information.  For example, if its
    /// an identifier we can extract the actual identifier string.
    pub content: &'a str,
}

/// The mathematical value of a [`Token`]: its kind, the byte offset at
/// which it starts and the characters it is made of.
pub struct TokenView {
    pub kind: TokenType,
    pub start: int,
    pub content: Seq<char>,
}

impl<'a> View for Token<'a> {
    type V = TokenView;

    open spec fn view(&self) -> TokenView {
        TokenView { kind: self.kind, start: self.start as int, content: self.content@ }
    }
}

/// The number of bytes which a sequence of characters occupies in UTF-8.
pub open spec fn byte_len(s: Seq<char>) -> nat {
    vstd::utf8::encode_utf8(s).len()
}

/// The byte offset at which the character of index `i` begins.
pub open spec fn byte_offset(s: Seq<char>, i: int) -> nat {
    byte_len(s.subrange(0, i))
}

impl TokenView {
    /// The byte offset just behind the last character of the token.
    pub open spec fn end(self) -> int {
        self.start + byte_len(self.content)
    }

    /// Both ends of the token are offsets a machine word can hold.
    pub open spec fn fits(self) -> bool {
        0 <= self.start && self.end() <= usize::MAX
    }
}

/// What stands for the end of the input.
pub open spec fn eof_view() -> TokenView {
    TokenView { kind: TokenType::EOF, start: usize::MAX as int, content: Seq::empty() }
}

/// The value of a decimal digit.
pub open spec fn digit_value(c: char) -> nat {
    (c as nat - '0' as nat) as nat
}

/// The number which a sequence of decimal digits denotes.
pub open spec fn decimal(s: Seq<char>) -> nat
    decreases s.len(),
{
    if s.len() == 0 {
        0
    } else {
        10 * decimal(s.drop_last()) + digit_value(s.last())
    }
}

/// The sequence is one or more decimal digits.
pub open spec fn all_digits(s: Seq<char>) -> bool {
    s.len() > 0 && forall|i: int| 0 <= i < s.len() ==> digit(#[trigger] s[i])
}

/// The 32-bit signed integer which a piece of text denotes, if it is a run of
/// decimal digits whose value such an integer can hold.
pub open spec fn int_value(s: Seq<char>) -> Option<i32> {
    if all_digits(s) && decimal(s) <= i32::MAX {
        Some(decimal(s) as i32)
    } else {
        None
    }
}

proof fn lemma_decimal_prefix(s: Seq<char>, i: int, j: int)
    requires
        0 <= i <= j <= s.len(),
    ensures
        decimal(s.subrange(0, i)) <= decimal(s.subrange(0, j)),
    decreases j - i,
{
    if i < j {
        lemma_decimal_prefix(s, i, j - 1);
        assert(s.subrange(0, j).drop_last() =~= s.subrange(0, j - 1));
    }
}

impl<'a> Token<'a> {
    /// Get the integer payload associated with this token, if its text is a
    /// run of decimal digits denoting a number that fits.
    pub fn to_int(&self) -> (value: Option<i32>)
        ensures
            value == int_value(self@.content),
    {
        let text = self.content;
        if !text.is_ascii() {
            proof {
                if all_digits(text@) {
                    assert forall|i: int| 0 <= i < text@.len() implies '\0' <= #[trigger] text@[i]
                        <= '\u{7f}' by {
                        assert(digit(text@[i]));
                    }
                }
            }
            return None;
        }
        let bytes = text.as_bytes();
        let n: usize = bytes.len();
        proof {
            vstd::slice::axiom_spec_len(bytes);
            vstd::utf8::is_ascii_chars_encode_utf8(text@);
        }
        if n == 0 {
            return None;
        }
        let mut acc: i32 = 0;
        let mut i: usize = 0;
        while i < n
            invariant
                i <= n,
                n == text@.len(),
                text@ == self@.content,
                vstd::string::is_ascii(text),
                acc == decimal(text@.subrange(0, i as int)),
                forall|j: int| 0 <= j < i ==> digit(#[trigger] text@[j]),
            decreases n - i,
        {
            let b: u8 = text.get_ascii(i);
            if b < 48 || b > 57 {
                assert(!digit(text@[i as int]));
                return None;
            }
            let d: i32 = (b - 48) as i32;
            proof {
                assert(text@.subrange(0, i + 1).drop_last() =~= text@.subrange(0, i as int));
                assert(d == digit_value(text@[i as int]));
                lemma_decimal_prefix(text@, i + 1, n as int);
                assert(text@.subrange(0, n as int) =~= text@);
            }
            if acc > (i32::MAX - d) / 10 {
                return None;
            }
            acc = acc * 10 + d;
            i = i + 1;
        }
        assert(text@.subrange(0, n as int) =~= text@);
        Some(acc)
    }

    /// Get the integer payload associated with this token, assuming
    /// it has Integer kind.
    pub fn as_int(&self) -> (value: i32)
        requires
            self.kind == TokenType::Integer,
            int_value(self@.content) is Some,
        ensures
            Some(value) == int_value(self@.content),
    {
        match self.to_int() {
            Some(v) => v,
            None => 0,
        }
    }

    /// Get the string payload associated with this token.
    pub fn as_string(&self) -> (text: String)
        ensures
            text@ == self@.content,
    {
        self.content.to_owned()
    }

    /// Get offset of the last character of this token.
    pub fn end(&self) -> (offset: usize)
        requires
            self@.end() <= usize::MAX,
        ensures
            offset == self@.end(),
    {
        self.start + self.content.len()
    }
}

/// Represents the end of the input stream.  This is helpful because
/// it allows us to avoid using `Option<>` everywhere.
pub fn eof() -> (token: Token<'static>)
    ensures
        token@ == eof_view(),
{
    let token = Token { kind: TokenType::EOF, start: usize::MAX, content: "" };
    proof {
        reveal_strlit("");
        assert(token@.content =~= Seq::<char>::empty());
    }
    token
}

// =================================================================
// Characters
// =================================================================

/// A character with the Unicode property `White_Space`.
pub open spec fn whitespace(c: char) -> bool {
    ||| '\u{9}' <= c <= '\u{D}'
    ||| c == ' '
    ||| c == '\u{85}'
    ||| c == '\u{A0}'
    ||| c == '\u{1680}'
    ||| '\u{2000}' <= c <= '\u{200A}'
    ||| c == '\u{2028}'
    ||| c == '\u{2029}'
    ||| c == '\u{202F}'
    ||| c == '\u{205F}'
    ||| c == '\u{3000}'
}

/// A decimal digit.
pub open spec fn digit(c: char) -> bool {
    '0' <= c <= '9'
}

/// A character which can begin an identifier: a letter or an underscore.
pub open spec fn identifier_start(c: char) -> bool {
    'a' <= c <= 'z' || 'A' <= c <= 'Z' || c == '_'
}

/// A character which can continue an identifier.
pub open spec fn identifier_middle(c: char) -> bool {
    digit(c) || identifier_start(c)
}

/// The kind of token which a word made of identifier characters is: one of
/// the keywords, or else an identifier.
pub open spec fn keyword(word: Seq<char>) -> TokenType {
    if word == "assert"@ {
        TokenType::Assert
    } else if word == "bool"@ {
        TokenType::Bool
    } else if word == "break"@ {
        TokenType::Break
    } else if word == "case"@ {
        TokenType::Case
    } else if word == "continue"@ {
        TokenType::Continue
    } else if word == "default"@ {
        TokenType::Default
    } else if word == "delete"@ {
        TokenType::Delete
    } else if word == "else"@ {
        TokenType::Else
    } else if word == "false"@ {
        TokenType::False
    } else if word == "for"@ {
        TokenType::For
    } else if word == "if"@ {
        TokenType::If
    } else if word == "i8"@ {
        TokenType::I8
    } else if word == "i16"@ {
        TokenType::I16
    } else if word == "i32"@ {
        TokenType::I32
    } else if word == "i64"@ {
        TokenType::I64
    } else if word == "new"@ {
        TokenType::New
    } else if word == "null"@ {
        TokenType::Null
    } else if word == "return"@ {
        TokenType::Return
    } else if word == "skip"@ {
        TokenType::Skip
    } else if word == "switch"@ {
        TokenType::Switch
    } else if word == "true"@ {
        TokenType::True
    } else if word == "type"@ {
        TokenType::Type
    } else if word == "while"@ {
        TokenType::While
    } else if word == "u8"@ {
        TokenType::U8
    } else if word == "u16"@ {
        TokenType::U16
    } else if word == "u32"@ {
        TokenType::U32
    } else if word == "u64"@ {
        TokenType::U64
    } else if word == "void"@ {
        TokenType::Void
    } else {
        TokenType::Identifier
    }
}

/// The kind of token which a character outside words, numbers and spaces is:
/// one of the punctuation marks, or else unrecognized.
pub open spec fn punctuation(c: char) -> TokenType {
    if c == '&' {
        TokenType::Ampersand
    } else if c == '|' {
        TokenType::Bar
    } else if c == ':' {
        TokenType::Colon
    } else if c == ',' {
        TokenType::Comma
    } else if c == '.' {
        TokenType::Dot
    } else if c == '=' {
        TokenType::Equal
    } else if c == '<' {
        TokenType::LeftAngle
    } else if c == '(' {
        TokenType::LeftBrace
    } else if c == '{' {
        TokenType::LeftCurly
    } else if c == '[' {
        TokenType::LeftSquare
    } else if c == '-' {
        TokenType::Minus
    } else if c == '%' {
        TokenType::Percent
    } else if c == '+' {
        TokenType::Plus
    } else if c == '>' {
        TokenType::RightAngle
    } else if c == ')' {
        TokenType::RightBrace
    } else if c == '}' {
        TokenType::RightCurly
    } else if c == '/' {
        TokenType::RightSlash
    } else if c == ']' {
        TokenType::RightSquare
    } else if c == ';' {
        TokenType::SemiColon
    } else if c == '!' {
        TokenType::Shreak
    } else if c == '*' {
        TokenType::Star
    } else {
        TokenType::Unrecognized
    }
}

/// A class of characters of which a token takes a maximal run.
#[derive(Clone, Copy, Debug, PartialEq, Eq, Structural)]
pub enum Acceptor {
    Whitespace,
    Digit,
    IdentifierMiddle,
}

impl Acceptor {
    /// The class holds the character.
    pub open spec fn accepts(self, c: char) -> bool {
        match self {
            Acceptor::Whitespace => whitespace(c),
            Acceptor::Digit => digit(c),
            Acceptor::IdentifierMiddle => identifier_middle(c),
        }
    }

    fn test(self, c: char) -> (b: bool)
        ensures
            b == self.accepts(c),
    {
        match self {
            Acceptor::Whitespace => is_whitespace(c),
            Acceptor::Digit => is_digit(c),
            Acceptor::IdentifierMiddle => is_identifier_middle(c),
        }
    }
}

// =================================================================
// Scanning rules
// =================================================================

/// Where the maximal run of characters of a class that begins at `i` ends.
pub open spec fn run_end(s: Seq<char>, class: Acceptor, i: int) -> int
    decreases s.len() - i,
{
    if 0 <= i < s.len() && class.accepts(s[i]) {
        run_end(s, class, i + 1)
    } else {
        i
    }
}

/// The first token at or behind the character of index `p`, and the index
/// of the character behind that token.  Spaces in front are skipped; a number
/// is a maximal run of digits; a word is a maximal run of identifier
/// characters; anything else is one character long.
pub open spec fn token_at(s: Seq<char>, p: int) -> (TokenView, int) {
    let i = run_end(s, Acceptor::Whitespace, p);
    if !(0 <= i < s.len()) {
        (eof_view(), i)
    } else if digit(s[i]) {
        let e = run_end(s, Acceptor::Digit, i + 1);
        (
            TokenView {
                kind: TokenType::Integer,
                start: byte_offset(s, i) as int,
                content: s.subrange(i, e),
            },
            e,
        )
    } else if identifier_start(s[i]) {
        let e = run_end(s, Acceptor::IdentifierMiddle, i + 1);
        (
            TokenView {
                kind: keyword(s.subrange(i, e)),
                start: byte_offset(s, i) as int,
                content: s.subrange(i, e),
            },
            e,
        )
    } else {
        (
            TokenView {
                kind: punctuation(s[i]),
                start: byte_offset(s, i) as int,
                content: s.subrange(i, i + 1),
            },
            i + 1,
        )
    }
}

/// The tokens at and behind the character of index `p`, up to the end of
/// the input.
pub open spec fn tokens_from(s: Seq<char>, p: int) -> Seq<TokenView>
    decreases s.len() - p,
{
    let (t, q) = token_at(s, p);
    if t.kind == TokenType::EOF {
        Seq::empty()
    } else {
        proof {
            lemma_run_end(s, Acceptor::Whitespace, p);
            lemma_run_end(s, Acceptor::Digit, run_end(s, Acceptor::Whitespace, p) + 1);
            lemma_run_end(s, Acceptor::IdentifierMiddle, run_end(s, Acceptor::Whitespace, p) + 1);
        }
        seq![t] + tokens_from(s, q)
    }
}

/// The tokens of a source text.
pub open spec fn tokenize(s: Seq<char>) -> Seq<TokenView> {
    tokens_from(s, 0)
}

/// The first of the tokens which remain, or what stands for the end of the
/// input where none does.
pub open spec fn first(tokens: Seq<TokenView>) -> TokenView {
    if tokens.len() > 0 {
        tokens[0]
    } else {
        eof_view()
    }
}

/// The tokens which remain behind the first.
pub open spec fn rest(tokens: Seq<TokenView>) -> Seq<TokenView> {
    if tokens.len() > 0 {
        tokens.drop_first()
    } else {
        tokens
    }
}

/// A run ends at or behind the place it begins, within the text, on a
/// character which the class does not hold.
pub proof fn lemma_run_end(s: Seq<char>, class: Acceptor, i: int)
    ensures
        i <= run_end(s, class, i),
        0 <= i <= s.len() ==> run_end(s, class, i) <= s.len(),
        0 <= i ==> forall|j: int| i <= j < run_end(s, class, i) ==> class.accepts(#[trigger] s[j]),
        0 <= run_end(s, class, i) < s.len() ==> !class.accepts(s[run_end(s, class, i)]),
    decreases s.len() - i,
{
    if 0 <= i < s.len() && class.accepts(s[i]) {
        lemma_run_end(s, class, i + 1);
    }
}

/// The UTF-8 encoding of a concatenation is the concatenation of the encodings.
pub proof fn lemma_encode_concat(a: Seq<char>, b: Seq<char>)
    ensures
        vstd::utf8::encode_utf8(a + b) =~= vstd::utf8::encode_utf8(a) + vstd::utf8::encode_utf8(b),
    decreases a.len(),
{
    if a.len() == 0 {
        assert(a + b =~= b);
    } else {
        assert((a + b).drop_first() =~= a.drop_first() + b);
        lemma_encode_concat(a.drop_first(), b);
    }
}

/// The bytes in front of a piece of text and those of the piece add up to
/// the bytes in front of its end, and no offset lies beyond the text.
pub proof fn lemma_byte_offset(s: Seq<char>, i: int, e: int)
    requires
        0 <= i <= e <= s.len(),
    ensures
        byte_offset(s, i) + byte_len(s.subrange(i, e)) == byte_offset(s, e),
        byte_offset(s, e) <= byte_len(s),
{
    lemma_encode_concat(s.subrange(0, i), s.subrange(i, e));
    assert(s.subrange(0, e) =~= s.subrange(0, i) + s.subrange(i, e));
    lemma_encode_concat(s.subrange(0, e), s.subrange(e, s.len() as int));
    assert(s =~= s.subrange(0, e) + s.subrange(e, s.len() as int));
}

/// The place behind the bytes of some characters is a boundary between
/// characters in the bytes of any text which begins with them.
proof fn lemma_boundary(front: Seq<char>, back: Seq<char>)
    ensures
        vstd::utf8::is_char_boundary(
            vstd::utf8::encode_utf8(front + back),
            vstd::utf8::encode_utf8(front).len() as int,
        ),
    decreases front.len(),
{
    let all = front + back;
    let bytes = vstd::utf8::encode_utf8(all);
    vstd::utf8::encode_utf8_valid_utf8(all);
    if front.len() > 0 {
        let tail = front.drop_first();
        vstd::utf8::encode_utf8_first_scalar(all);
        lemma_encode_concat(front, back);
        assert(all.drop_first() =~= tail + back);
        assert(vstd::utf8::pop_first_scalar(bytes) =~= vstd::utf8::encode_utf8(tail + back));
        assert(all[0] == front[0]);
        lemma_boundary(tail, back);
    }
}

/// Pieces of text with the same bytes are the same.
proof fn lemma_same_bytes(one: Seq<char>, other: Seq<char>)
    requires
        vstd::utf8::encode_utf8(one) == vstd::utf8::encode_utf8(other),
    ensures
        one == other,
{
    vstd::utf8::encode_utf8_decode_utf8(one);
    vstd::utf8::encode_utf8_decode_utf8(other);
}

/// Every token of a text that a machine can address lies within it.
pub proof fn lemma_tokens_fit(s: Seq<char>, p: int)
    requires
        0 <= p,
        byte_len(s) <= usize::MAX,
    ensures
        forall|i: int| 0 <= i < tokens_from(s, p).len() ==> (#[trigger] tokens_from(s, p)[i]).fits(),
    decreases s.len() - p,
{
    let (t, q) = token_at(s, p);
    if t.kind != TokenType::EOF {
        let i = run_end(s, Acceptor::Whitespace, p);
        lemma_run_end(s, Acceptor::Whitespace, p);
        lemma_run_end(s, Acceptor::Digit, i + 1);
        lemma_run_end(s, Acceptor::IdentifierMiddle, i + 1);
        lemma_byte_offset(s, i, q);
        lemma_tokens_fit(s, q);
        let ts = tokens_from(s, p);
        assert forall|k: int| 0 <= k < ts.len() implies (#[trigger] ts[k]).fits() by {
            if k == 0 {
                assert(ts[0] == t);
            } else {
                assert(ts[k] == tokens_from(s, q)[k - 1]);
            }
        }
    }
}

/// A word which is an identifier: a letter or an underscore, then letters,
/// digits and underscores, which do not spell a keyword.
#[verifier::opaque]
pub open spec fn is_name(word: Seq<char>) -> bool {
    &&& word.len() > 0
    &&& identifier_start(word[0])
    &&& forall|i: int| 0 <= i < word.len() ==> identifier_middle(#[trigger] word[i])
    &&& keyword(word) == TokenType::Identifier
}

/// An identifier is made of a name, and a number of digits.
pub open spec fn shaped(token: TokenView) -> bool {
    &&& token.kind == TokenType::Identifier ==> is_name(token.content)
    &&& token.kind == TokenType::Integer ==> all_digits(token.content)
}

/// Every identifier among the tokens of a text is a name, and every number
/// is made of digits.
pub proof fn lemma_tokens_shaped(s: Seq<char>, p: int)
    requires
        0 <= p,
    ensures
        forall|i: int| 0 <= i < tokens_from(s, p).len() ==> shaped(#[trigger] tokens_from(s, p)[i]),
    decreases s.len() - p,
{
    let (t, q) = token_at(s, p);
    if t.kind != TokenType::EOF {
        let i = run_end(s, Acceptor::Whitespace, p);
        lemma_run_end(s, Acceptor::Whitespace, p);
        lemma_run_end(s, Acceptor::Digit, i + 1);
        lemma_run_end(s, Acceptor::IdentifierMiddle, i + 1);
        lemma_tokens_shaped(s, q);
        assert(shaped(t)) by {
            reveal(is_name);
            let word = s.subrange(i, q);
            assert forall|j: int| 0 <= j < word.len() implies (digit(s[i]) ==> digit(
                #[trigger] word[j],
            )) && (!digit(s[i]) && identifier_start(s[i]) ==> identifier_middle(word[j])) by {
                assert(word[j] == s[i + j]);
            }
            assert(word[0] == s[i]);
        }
        let ts = tokens_from(s, p);
        assert forall|k: int| 0 <= k < ts.len() implies shaped(#[trigger] ts[k]) by {
            if k == 0 {
                assert(ts[0] == t);
            } else {
                assert(ts[k] == tokens_from(s, q)[k - 1]);
            }
        }
    }
}

/// There are no more tokens than characters.
pub proof fn lemma_tokens_count(s: Seq<char>, p: int)
    requires
        0 <= p <= s.len(),
    ensures
        tokens_from(s, p).len() <= s.len() - p,
    decreases s.len() - p,
{
    let (t, q) = token_at(s, p);
    if t.kind != TokenType::EOF {
        let i = run_end(s, Acceptor::Whitespace, p);
        lemma_run_end(s, Acceptor::Whitespace, p);
        lemma_run_end(s, Acceptor::Digit, i + 1);
        lemma_run_end(s, Acceptor::IdentifierMiddle, i + 1);
        lemma_tokens_count(s, q);
    }
}

// =================================================================
// Lexer
// =================================================================

/// `str::char_indices`, its items gathered in a vector: one item for each
/// character of the text, in order, made of the byte offset at which the
/// character begins and the character itself.
#[verifier::external_body]
pub(crate) fn char_indices(input: &str) -> (chars: Vec<(usize, char)>)
    ensures
        chars@.len() == input@.len(),
        forall|i: int|
            0 <= i < chars@.len() ==> (#[trigger] chars@[i]).0 == byte_offset(input@, i)
                && chars@[i].1 == input@[i],
{
    input.char_indices().collect()
}

/// Provides machinery for splitting up a string slice into a sequence
/// of tokens.
pub struct Lexer<'a> {
    /// String slice being tokenized
    pub input: &'a str,
    /// The characters of the input, each with the byte offset it begins at
    chars: Vec<(usize, char)>,
    /// Index of the next character to read
    pos: usize,
    /// Lookahead
    lookahead: Option<Token<'a>>,
}

impl<'a> Lexer<'a> {
    /// The text being tokenized.
    pub closed spec fn source(&self) -> Seq<char> {
        self.input@
    }

    /// The lexer's parts agree with one another.
    pub closed spec fn wf(&self) -> bool {
        &&& self.chars@.len() == self.input@.len()
        &&& forall|i: int|
            0 <= i < self.chars@.len() ==> (#[trigger] self.chars@[i]).0 == byte_offset(
                self.input@,
                i,
            ) && self.chars@[i].1 == self.input@[i]
        &&& self.pos <= self.chars@.len() <= usize::MAX
        &&& byte_len(self.input@) <= usize::MAX
        &&& match self.lookahead {
            Some(t) => t@.fits() && (t.kind == TokenType::EOF ==> t@ == eof_view() && self.pos
                == self.chars@.len()) && (t.kind != TokenType::EOF ==> self.pos > 0),
            None => true,
        }
    }

    /// The tokens which have not been taken yet, up to the end of the input.
    pub closed spec fn remaining(&self) -> Seq<TokenView> {
        match self.lookahead {
            Some(t) => if t.kind == TokenType::EOF {
                Seq::empty()
            } else {
                seq![t@] + tokens_from(self.input@, self.pos as int)
            },
            None => tokens_from(self.input@, self.pos as int),
        }
    }

    /// Every token which the lexer will hand out lies within the text.
    pub proof fn lemma_remaining_fit(&self)
        requires
            self.wf(),
        ensures
            forall|i: int| 0 <= i < self.remaining().len() ==> (#[trigger] self.remaining()[i]).fits(),
            first(self.remaining()).fits(),
    {
        lemma_tokens_fit(self.input@, self.pos as int);
    }

    /// The tokens which remain are no more than a machine word can count.
    pub proof fn lemma_remaining_bound(&self)
        requires
            self.wf(),
        ensures
            self.remaining().len() <= usize::MAX,
    {
        lemma_tokens_count(self.input@, self.pos as int);
    }

    /// Construct a new lexer for a given string slice.
    pub fn new(input: &'a str) -> (lexer: Self)
        ensures
            lexer.wf(),
            lexer.source() == input@,
            lexer.remaining() == tokenize(input@),
    {
        let chars = char_indices(input);
        let count: usize = chars.len();
        let bytes: usize = input.as_bytes().len();
        Self { input, chars, pos: 0, lookahead: None }
    }

    /// Peek at the next token in the sequence, or the end-of-input token if
    /// we have reached the end.
    pub fn peek(&mut self) -> (token: Token<'a>)
        requires
            old(self).wf(),
        ensures
            final(self).wf(),
            final(self).source() == old(self).source(),
            final(self).remaining() == old(self).remaining(),
            token@ == first(old(self).remaining()),
            token@.fits(),
    {
        // Check whether lookahead already available
        if self.lookahead.is_none() {
            // Lookahead not initialised, so physically read token.
            let ghost before = self.remaining();
            let token = self.scan_token();
            self.lookahead = Some(token);
            proof {
                if token.kind != TokenType::EOF {
                    assert(before =~= seq![token@] + before.drop_first());
                } else {
                    assert(before =~= Seq::empty());
                }
            }
        }
        self.lookahead.unwrap()
    }

    /// Get the next token in the sequence, or the end-of-input token if we
    /// have reached the end.
    pub fn next(&mut self) -> (token: Token<'a>)
        requires
            old(self).wf(),
        ensures
            final(self).wf(),
            final(self).source() == old(self).source(),
            final(self).remaining() == rest(old(self).remaining()),
            token@ == first(old(self).remaining()),
            token@.fits(),
            token.kind == TokenType::EOF <==> old(self).remaining().len() == 0,
    {
        // Check whether lookahead available
        match self.lookahead {
            Some(t) => {
                // Reset lookahead
                self.lookahead = None;
                proof {
                    if t.kind == TokenType::EOF {
                        lemma_run_end(self.input@, Acceptor::Whitespace, self.pos as int);
                    } else {
                        assert((seq![t@] + tokens_from(self.input@, self.pos as int)).drop_first()
                            =~= tokens_from(self.input@, self.pos as int));
                    }
                }
                // Return it
                t
            },
            None => {
                self.scan_token()
            },
        }
    }

    /// Read a token from the characters, given that none is held back.
    fn scan_token(&mut self) -> (token: Token<'a>)
        requires
            old(self).wf(),
            old(self).lookahead is None,
        ensures
            final(self).wf(),
            final(self).lookahead is None,
            final(self).input == old(self).input,
            final(self).chars == old(self).chars,
            (token@, final(self).pos as int) == token_at(old(self).input@, old(self).pos as int),
            final(self).remaining() == rest(old(self).remaining()),
            token@ == first(old(self).remaining()),
            token@.fits(),
            token.kind == TokenType::EOF <==> old(self).remaining().len() == 0,
            token.kind == TokenType::EOF ==> token@ == eof_view() && final(self).pos
                == final(self).chars@.len(),
            token.kind != TokenType::EOF ==> final(self).pos > old(self).pos,
        decreases old(self).chars@.len() - old(self).pos, 2int,
    {
        proof {
            lemma_run_end(self.input@, Acceptor::Whitespace, self.pos as int);
        }
        // Try and extract next character
        if self.pos < self.chars.len() {
            let (offset, ch) = self.chars[self.pos];
            self.pos = self.pos + 1;
            self.scan(offset, ch)
        } else {
            eof()
        }
    }

    /// Begin process of scanning a token based on its first
    /// character.  The actual work is offloaded to a helper based on
    /// this.
    fn scan(&mut self, start: usize, ch: char) -> (token: Token<'a>)
        requires
            old(self).wf(),
            old(self).lookahead is None,
            0 < old(self).pos,
            old(self).chars@[old(self).pos - 1] == (start, ch),
        ensures
            final(self).wf(),
            final(self).lookahead is None,
            final(self).input == old(self).input,
            final(self).chars == old(self).chars,
            (token@, final(self).pos as int) == token_at(old(self).input@, old(self).pos - 1),
            final(self).remaining() == rest(tokens_from(old(self).input@, old(self).pos - 1)),
            token@ == first(tokens_from(old(self).input@, old(self).pos - 1)),
            token@.fits(),
            token.kind == TokenType::EOF <==> tokens_from(old(self).input@, old(self).pos - 1).len()
                == 0,
            token.kind == TokenType::EOF ==> token@ == eof_view() && final(self).pos
                == final(self).chars@.len(),
            final(self).pos >= old(self).pos,
        decreases old(self).chars@.len() - old(self).pos, 1int,
    {
        let ghost s = self.input@;
        let ghost i = self.pos - 1;
        proof {
            lemma_run_end(s, Acceptor::Whitespace, i);
            lemma_run_end(s, Acceptor::Whitespace, i + 1);
            lemma_run_end(s, Acceptor::Digit, i + 1);
            lemma_run_end(s, Acceptor::IdentifierMiddle, i + 1);
        }
        // Switch on first character of token
        if is_whitespace(ch) {
            self.scan_whitespace()
        } else {
            let token = if is_digit(ch) {
                self.scan_integer(start)
            } else if is_identifier_start(ch) {
                self.scan_identifier_or_keyword(start)
            } else {
                self.scan_operator(start, ch)
            };
            proof {
                let q = self.pos as int;
                lemma_byte_offset(s, i, q);
                assert(tokens_from(s, i) =~= seq![token@] + tokens_from(s, q));
                assert(tokens_from(s, i).drop_first() =~= tokens_from(s, q));
            }
            token
        }
    }

    /// Scan all whitespace from a given starting point, then
    /// recursively scan an actual token.
    fn scan_whitespace(&mut self) -> (token: Token<'a>)
        requires
            old(self).wf(),
            old(self).lookahead is None,
            0 < old(self).pos,
            whitespace(old(self).input@[old(self).pos - 1]),
        ensures
            final(self).wf(),
            final(self).lookahead is None,
            final(self).input == old(self).input,
            final(self).chars == old(self).chars,
            (token@, final(self).pos as int) == token_at(old(self).input@, old(self).pos - 1),
            final(self).remaining() == rest(tokens_from(old(self).input@, old(self).pos - 1)),
            token@ == first(tokens_from(old(self).input@, old(self).pos - 1)),
            token@.fits(),
            token.kind == TokenType::EOF <==> tokens_from(old(self).input@, old(self).pos - 1).len()
                == 0,
            token.kind == TokenType::EOF ==> token@ == eof_view() && final(self).pos
                == final(self).chars@.len(),
            final(self).pos >= old(self).pos,
        decreases old(self).chars@.len() - old(self).pos, 0int,
    {
        let ghost s = self.input@;
        let ghost i = self.pos - 1;
        // Drop all following whitespace
        let behind: usize = self.scan_whilst(Acceptor::Whitespace);
        proof {
            lemma_run_end(s, Acceptor::Whitespace, i + 1);
            lemma_run_end(s, Acceptor::Whitespace, behind as int);
            assert(run_end(s, Acceptor::Whitespace, behind as int) == behind);
            assert(token_at(s, behind as int) == token_at(s, i));
        }
        // Scan an actual token
        if self.pos < self.chars.len() {
            let (offset, ch) = self.chars[self.pos];
            self.pos = self.pos + 1;
            let token = self.scan(offset, ch);
            token
        } else {
            eof()
        }
    }

    /// Scan all digits from a given starting point.
    fn scan_integer(&mut self, start: usize) -> (token: Token<'a>)
        requires
            old(self).wf(),
            old(self).lookahead is None,
            0 < old(self).pos,
            start == old(self).chars@[old(self).pos - 1].0,
        ensures
            final(self).wf(),
            final(self).lookahead is None,
            final(self).input == old(self).input,
            final(self).chars == old(self).chars,
            final(self).pos == run_end(old(self).input@, Acceptor::Digit, old(self).pos as int),
            token@ == (TokenView {
                kind: TokenType::Integer,
                start: start as int,
                content: old(self).input@.subrange(old(self).pos - 1, final(self).pos as int),
            }),
    {
        let kind = TokenType::Integer;
        let from: usize = self.pos - 1;
        let end: usize = self.scan_whilst(Acceptor::Digit);
        let content = self.slice(from, end);
        Token { kind, start, content }
    }

    /// Scan an identifier or keyword.
    fn scan_identifier_or_keyword(&mut self, start: usize) -> (token: Token<'a>)
        requires
            old(self).wf(),
            old(self).lookahead is None,
            0 < old(self).pos,
            start == old(self).chars@[old(self).pos - 1].0,
        ensures
            final(self).wf(),
            final(self).lookahead is None,
            final(self).input == old(self).input,
            final(self).chars == old(self).chars,
            final(self).pos == run_end(
                old(self).input@,
                Acceptor::IdentifierMiddle,
                old(self).pos as int,
            ),
            token@ == (TokenView {
                kind: keyword(
                    old(self).input@.subrange(old(self).pos - 1, final(self).pos as int),
                ),
                start: start as int,
                content: old(self).input@.subrange(old(self).pos - 1, final(self).pos as int),
            }),
    {
        let from: usize = self.pos - 1;
        let end: usize = self.scan_whilst(Acceptor::IdentifierMiddle);
        let content = self.slice(from, end);
        let kind = if self.spells(from, end, "assert") {
            TokenType::Assert
        } else if self.spells(from, end, "bool") {
            TokenType::Bool
        } else if self.spells(from, end, "break") {
            TokenType::Break
        } else if self.spells(from, end, "case") {
            TokenType::Case
        } else if self.spells(from, end, "continue") {
            TokenType::Continue
        } else if self.spells(from, end, "default") {
            TokenType::Default
        } else if self.spells(from, end, "delete") {
            TokenType::Delete
        } else if self.spells(from, end, "else") {
            TokenType::Else
        } else if self.spells(from, end, "false") {
            TokenType::False
        } else if self.spells(from, end, "for") {
            TokenType::For
        } else if self.spells(from, end, "if") {
            TokenType::If
        } else if self.spells(from, end, "i8") {
            TokenType::I8
        } else if self.spells(from, end, "i16") {
            TokenType::I16
        } else if self.spells(from, end, "i32") {
            TokenType::I32
        } else if self.spells(from, end, "i64") {
            TokenType::I64
        } else if self.spells(from, end, "new") {
            TokenType::New
        } else if self.spells(from, end, "null") {
            TokenType::Null
        } else if self.spells(from, end, "return") {
            TokenType::Return
        } else if self.spells(from, end, "skip") {
            TokenType::Skip
        } else if self.spells(from, end, "switch") {
            TokenType::Switch
        } else if self.spells(from, end, "true") {
            TokenType::True
        } else if self.spells(from, end, "type") {
            TokenType::Type
        } else if self.spells(from, end, "while") {
            TokenType::While
        } else if self.spells(from, end, "u8") {
            TokenType::U8
        } else if self.spells(from, end, "u16") {
            TokenType::U16
        } else if self.spells(from, end, "u32") {
            TokenType::U32
        } else if self.spells(from, end, "u64") {
            TokenType::U64
        } else if self.spells(from, end, "void") {
            TokenType::Void
        } else {
            TokenType::Identifier
        };
        Token { kind, start, content }
    }

    /// Scan an operator from a given starting point.
    fn scan_operator(&self, start: usize, ch: char) -> (token: Token<'a>)
        requires
            self.wf(),
            0 < self.pos,
            self.chars@[self.pos - 1] == (start, ch),
        ensures
            token@ == (TokenView {
                kind: punctuation(ch),
                start: start as int,
                content: self.input@.subrange(self.pos - 1, self.pos as int),
            }),
    {
        let kind = if ch == '&' {
            TokenType::Ampersand
        } else if ch == '|' {
            TokenType::Bar
        } else if ch == ':' {
            TokenType::Colon
        } else if ch == ',' {
            TokenType::Comma
        } else if ch == '.' {
            TokenType::Dot
        } else if ch == '=' {
            TokenType::Equal
        } else if ch == '<' {
            TokenType::LeftAngle
        } else if ch == '(' {
            TokenType::LeftBrace
        } else if ch == '{' {
            TokenType::LeftCurly
        } else if ch == '[' {
            TokenType::LeftSquare
        } else if ch == '-' {
            TokenType::Minus
        } else if ch == '%' {
            TokenType::Percent
        } else if ch == '+' {
            TokenType::Plus
        } else if ch == '>' {
            TokenType::RightAngle
        } else if ch == ')' {
            TokenType::RightBrace
        } else if ch == '}' {
            TokenType::RightCurly
        } else if ch == '/' {
            TokenType::RightSlash
        } else if ch == ']' {
            TokenType::RightSquare
        } else if ch == ';' {
            TokenType::SemiColon
        } else if ch == '!' {
            TokenType::Shreak
        } else if ch == '*' {
            TokenType::Star
        } else {
            TokenType::Unrecognized
        };
        let content = self.slice(self.pos - 1, self.pos);
        Token { kind, start, content }
    }

    /// The byte offset at which the character of a given index begins, or
    /// the end of the input for the index behind the last character.
    fn offset(&self, index: usize) -> (bytes: usize)
        requires
            self.wf(),
            index <= self.chars@.len(),
        ensures
            bytes == byte_offset(self.input@, index as int),
    {
        if index < self.chars.len() {
            self.chars[index].0
        } else {
            assert(self.input@.subrange(0, index as int) =~= self.input@);
            self.input.len()
        }
    }

    /// The piece of the input from the character of one index up to the
    /// character of another.
    fn slice(&self, from: usize, to: usize) -> (piece: &'a str)
        requires
            self.wf(),
            from <= to <= self.chars@.len(),
        ensures
            piece@ == self.input@.subrange(from as int, to as int),
    {
        let start = self.offset(from);
        let end = self.offset(to);
        let ghost text = self.input@;
        let ghost front = text.subrange(0, from as int);
        let ghost behind = text.subrange(from as int, text.len() as int);
        let ghost wanted = text.subrange(from as int, to as int);
        proof {
            assert(text =~= front + behind);
            lemma_boundary(front, behind);
            lemma_encode_concat(front, behind);
            lemma_byte_offset(text, from as int, to as int);
        }
        let (_, tail) = self.input.split_at(start);
        proof {
            assert(vstd::utf8::encode_utf8(tail@) =~= vstd::utf8::encode_utf8(behind));
            lemma_same_bytes(tail@, behind);
            let beyond = text.subrange(to as int, text.len() as int);
            assert(behind =~= wanted + beyond);
            lemma_boundary(wanted, beyond);
            lemma_encode_concat(wanted, beyond);
        }
        let (piece, _) = tail.split_at(end - start);
        proof {
            assert(vstd::utf8::encode_utf8(piece@) =~= vstd::utf8::encode_utf8(wanted));
            lemma_same_bytes(piece@, wanted);
        }
        piece
    }

    /// Gobble all characters matched by an acceptor.  For example, we
    /// might want to continue matching digits until we encounter
    /// something which isn't a digit (or is the end of the file).
    fn scan_whilst(&mut self, pred: Acceptor) -> (end: usize)
        requires
            old(self).wf(),
        ensures
            final(self).wf(),
            final(self).input == old(self).input,
            final(self).chars == old(self).chars,
            final(self).lookahead == old(self).lookahead,
            final(self).pos == run_end(old(self).input@, pred, old(self).pos as int),
            end == final(self).pos,
            old(self).pos <= end <= old(self).chars@.len(),
    {
        // Continue reading whilst we're still matching characters
        while self.pos < self.chars.len() && pred.test(self.chars[self.pos].1)
            invariant
                self.wf(),
                self.input == old(self).input,
                self.chars == old(self).chars,
                self.lookahead == old(self).lookahead,
                old(self).pos <= self.pos <= self.chars@.len(),
                run_end(self.input@, pred, self.pos as int) == run_end(
                    old(self).input@,
                    pred,
                    old(self).pos as int,
                ),
            decreases self.chars@.len() - self.pos,
        {
            // Move to next character
            self.pos = self.pos + 1;
        }
        self.pos
    }

    /// The characters from one index to another spell a given word.
    fn spells(&self, from: usize, to: usize, word: &str) -> (b: bool)
        requires
            self.wf(),
            from <= to <= self.chars@.len(),
        ensures
            b == (self.input@.subrange(from as int, to as int) == word@),
    {
        let n: usize = word.unicode_len();
        if to - from != n {
            return false;
        }
        let mut i: usize = 0;
        while i < n
            invariant
                self.wf(),
                from <= to <= self.chars@.len(),
                to - from == n,
                n == word@.len(),
                i <= n,
                forall|j: int| 0 <= j < i ==> self.input@[from + j] == #[trigger] word@[j],
            decreases n - i,
        {
            if self.chars[from + i].1 != word.get_char(i) {
                assert(self.input@.subrange(from as int, to as int)[i as int] != word@[i as int]);
                return false;
            }
            i = i + 1;
        }
        assert(self.input@.subrange(from as int, to as int) =~= word@);
        true
    }
}

/// Determine whether a given character is white space.
fn is_whitespace(c: char) -> (b: bool)
    ensures
        b == whitespace(c),
{
    (c >= '\u{9}' && c <= '\u{D}') || c == ' ' || c == '\u{85}' || c == '\u{A0}' || c
        == '\u{1680}' || (c >= '\u{2000}' && c <= '\u{200A}') || c == '\u{2028}' || c
        == '\u{2029}' || c == '\u{202F}' || c == '\u{205F}' || c == '\u{3000}'
}

/// Determine whether a given character is a decimal digit.
fn is_digit(c: char) -> (b: bool)
    ensures
        b == digit(c),
{
    c >= '0' && c <= '9'
}

/// Determine whether a given character is the start of an identifier.
fn is_identifier_start(c: char) -> (b: bool)
    ensures
        b == identifier_start(c),
{
    (c >= 'a' && c <= 'z') || (c >= 'A' && c <= 'Z') || c == '_'
}

/// Determine whether a given character can occur in the middle of an identifier
fn is_identifier_middle(c: char) -> (b: bool)
    ensures
        b == identifier_middle(c),
{
    is_digit(c) || is_identifier_start(c)
}

} // verus!
