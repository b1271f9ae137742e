// Writing: the words which a type, an expression, a statement or a declaration
// of the arena is written with, which of them can be written at all, and when
// two of them, in two arenas, have the same structure.

use crate::ast::{Decl, Expr, Name, NodeView, Parameter, Stmt, Type};
use crate::lexer::{is_name, TokenType, TokenView};
use crate::typing::name_text;
use vstd::prelude::*;

verus! {

// =================================================================
// Words
// =================================================================

/// A token without its place in a text: its kind, and the characters it is
/// made of where it is an identifier or a number.
pub struct Word {
    pub kind: TokenType,
    pub content: Seq<char>,
}

/// The one word which a keyword or a punctuation mark is.
pub open spec fn key(kind: TokenType) -> Seq<Word> {
    seq![Word { kind, content: Seq::empty() }]
}

/// The one word which an identifier or a number is.
pub open spec fn named(kind: TokenType, content: Seq<char>) -> Seq<Word> {
    seq![Word { kind, content }]
}

/// The same word `count` times.
pub open spec fn repeated(words: Seq<Word>, count: nat) -> Seq<Word>
    decreases count,
{
    if count == 0 {
        Seq::empty()
    } else {
        words + repeated(words, (count - 1) as nat)
    }
}

/// A token is an occurrence of a word.
pub open spec fn reads_as(token: TokenView, word: Word) -> bool {
    token.kind == word.kind && (word.kind == TokenType::Identifier || word.kind
        == TokenType::Integer ==> token.content == word.content)
}

/// The tokens begin with occurrences of the words, one after the other.
pub open spec fn spelled(ts: Seq<TokenView>, words: Seq<Word>) -> bool {
    words.len() <= ts.len() && forall|i: int|
        0 <= i < words.len() ==> reads_as(#[trigger] ts[i], words[i])
}

/// The decimal digit of a value below ten.
pub open spec fn digit_of(value: nat) -> char {
    ('0' as nat + value) as char
}

/// The digits which a number is written with.
pub open spec fn numeral(value: nat) -> Seq<char>
    decreases value,
{
    if value < 10 {
        seq![digit_of(value)]
    } else {
        numeral(value / 10).push(digit_of(value % 10))
    }
}

// =================================================================
// Types
// =================================================================

/// The keyword which names a primitive type, if the node is one.
pub open spec fn primitive(node: NodeView) -> Option<TokenType> {
    match node {
        NodeView::NullType => Some(TokenType::Null),
        NodeView::BoolType => Some(TokenType::Bool),
        NodeView::VoidType => Some(TokenType::Void),
        NodeView::IntType(signed, width) => if signed && width == 8 {
            Some(TokenType::I8)
        } else if signed && width == 16 {
            Some(TokenType::I16)
        } else if signed && width == 32 {
            Some(TokenType::I32)
        } else if signed && width == 64 {
            Some(TokenType::I64)
        } else if !signed && width == 8 {
            Some(TokenType::U8)
        } else if !signed && width == 16 {
            Some(TokenType::U16)
        } else if !signed && width == 32 {
            Some(TokenType::U32)
        } else if !signed && width == 64 {
            Some(TokenType::U64)
        } else {
            None
        },
        _ => None,
    }
}

/// A type of the arena can be written in the language: it is a primitive
/// type with a keyword, or made of such types lying below it, the fields of
/// a record having names.
pub open spec fn printable_type(arena: Seq<NodeView>, t: Type) -> bool
    decreases t.0, 1int,
{
    t.0 < arena.len() && match arena[t.0 as int] {
        NodeView::ArrayType(e) => e.0 < t.0 && printable_type(arena, e),
        NodeView::ReferenceType(e) => e.0 < t.0 && printable_type(arena, e),
        NodeView::RecordType(fs) => forall|i: int|
            0 <= i < fs.len() ==> printable_pair(arena, #[trigger] fs[i], t.0 as int),
        node => primitive(node) is Some,
    }
}

/// A name of the arena can be written in the language: its text is an
/// identifier.
pub open spec fn printable_name(arena: Seq<NodeView>, name: Name) -> bool {
    name_text(arena, name) is Some && is_name(name_text(arena, name)->Some_0)
}

/// A type and a name, both below `bound`, can be written in the language.
pub open spec fn printable_pair(arena: Seq<NodeView>, pair: (Type, Name), bound: int) -> bool
    decreases bound, 0int,
{
    pair.0.0 < bound && printable_type(arena, pair.0) && printable_name(arena, pair.1)
}

/// How many arrays stand around the first type which is none, going from
/// an array to its element.
pub open spec fn array_depth(arena: Seq<NodeView>, t: Type) -> nat
    decreases t.0,
{
    if t.0 < arena.len() && arena[t.0 as int] is ArrayType && arena[t.0 as int]->ArrayType_0.0
        < t.0 {
        1 + array_depth(arena, arena[t.0 as int]->ArrayType_0)
    } else {
        0
    }
}

/// The first type which is no array, going from an array to its element.
pub open spec fn array_core(arena: Seq<NodeView>, t: Type) -> Type
    decreases t.0,
{
    if t.0 < arena.len() && arena[t.0 as int] is ArrayType && arena[t.0 as int]->ArrayType_0.0
        < t.0 {
        array_core(arena, arena[t.0 as int]->ArrayType_0)
    } else {
        t
    }
}

/// How many references stand around the first type which is none, going
/// from a reference to what it refers to.
pub open spec fn reference_depth(arena: Seq<NodeView>, t: Type) -> nat
    decreases t.0,
{
    if t.0 < arena.len() && arena[t.0 as int] is ReferenceType
        && arena[t.0 as int]->ReferenceType_0.0 < t.0 {
        1 + reference_depth(arena, arena[t.0 as int]->ReferenceType_0)
    } else {
        0
    }
}

/// The first type which is no reference, going from a reference to what it
/// refers to.
pub open spec fn reference_core(arena: Seq<NodeView>, t: Type) -> Type
    decreases t.0,
{
    if t.0 < arena.len() && arena[t.0 as int] is ReferenceType
        && arena[t.0 as int]->ReferenceType_0.0 < t.0 {
        reference_core(arena, arena[t.0 as int]->ReferenceType_0)
    } else {
        t
    }
}

/// The core of a chain of arrays lies at or below the chain.
pub proof fn lemma_array_core_below(arena: Seq<NodeView>, t: Type)
    ensures
        array_core(arena, t).0 <= t.0,
        array_depth(arena, t) > 0 ==> array_core(arena, t).0 < t.0,
    decreases t.0,
{
    if t.0 < arena.len() && arena[t.0 as int] is ArrayType && arena[t.0 as int]->ArrayType_0.0
        < t.0 {
        lemma_array_core_below(arena, arena[t.0 as int]->ArrayType_0);
    }
}

/// The core of a chain of references lies at or below the chain.
pub proof fn lemma_reference_core_below(arena: Seq<NodeView>, t: Type)
    ensures
        reference_core(arena, t).0 <= t.0,
        reference_depth(arena, t) > 0 ==> reference_core(arena, t).0 < t.0,
    decreases t.0,
{
    if t.0 < arena.len() && arena[t.0 as int] is ReferenceType
        && arena[t.0 as int]->ReferenceType_0.0 < t.0 {
        lemma_reference_core_below(arena, arena[t.0 as int]->ReferenceType_0);
    }
}

/// The words which a type of the arena is written with: a keyword for a
/// primitive type; for references, as many `&` as there are, then what they
/// refer to in the end; for arrays, the innermost element, then as many
/// `[` `]` as there are arrays; for a record, its fields between `{` and `}`.
pub open spec fn printed_type(arena: Seq<NodeView>, t: Type) -> Seq<Word>
    decreases t.0 + 1, 0int, 0int,
{
    if t.0 >= arena.len() {
        Seq::empty()
    } else {
        match arena[t.0 as int] {
            NodeView::ArrayType(_) => {
                if array_depth(arena, t) > 0 {
                    proof {
                        lemma_array_core_below(arena, t);
                    }
                    printed_operand(arena, array_core(arena, t)) + repeated(
                        key(TokenType::LeftSquare) + key(TokenType::RightSquare),
                        array_depth(arena, t),
                    )
                } else {
                    Seq::empty()
                }
            },
            NodeView::ReferenceType(_) => {
                if reference_depth(arena, t) > 0 {
                    proof {
                        lemma_reference_core_below(arena, t);
                    }
                    repeated(key(TokenType::Ampersand), reference_depth(arena, t))
                        + printed_operand(arena, reference_core(arena, t))
                } else {
                    Seq::empty()
                }
            },
            NodeView::RecordType(fs) => key(TokenType::LeftCurly) + printed_pairs(
                arena,
                fs,
                t.0 as int,
                0,
            ) + key(TokenType::RightCurly),
            node => match primitive(node) {
                Some(kind) => key(kind),
                None => Seq::empty(),
            },
        }
    }
}

/// The words which a type is written with where a primitive type or a type
/// between `(` and `)` is awaited.
pub open spec fn printed_operand(arena: Seq<NodeView>, t: Type) -> Seq<Word>
    decreases t.0 + 1, 1int, 0int,
{
    if t.0 < arena.len() && primitive(arena[t.0 as int]) is Some {
        printed_type(arena, t)
    } else {
        key(TokenType::LeftBrace) + printed_type(arena, t) + key(TokenType::RightBrace)
    }
}

/// The words which the pairs of a type and a name from the one of index `i`
/// on are written with, with `,` between two pairs.
pub open spec fn printed_pairs(
    arena: Seq<NodeView>,
    pairs: Seq<(Type, Name)>,
    bound: int,
    i: int,
) -> Seq<Word>
    decreases bound, 2int, pairs.len() - i,
{
    if i < 0 || i >= pairs.len() {
        Seq::empty()
    } else {
        (if i > 0 {
            key(TokenType::Comma)
        } else {
            Seq::empty()
        }) + (if pairs[i].0.0 < bound {
            printed_type(arena, pairs[i].0)
        } else {
            Seq::empty()
        }) + named(
            TokenType::Identifier,
            match name_text(arena, pairs[i].1) {
                Some(text) => text,
                None => Seq::empty(),
            },
        ) + printed_pairs(arena, pairs, bound, i + 1)
    }
}

/// Two names have the same text.
pub open spec fn alike_names(a: Seq<NodeView>, m: Name, b: Seq<NodeView>, n: Name) -> bool {
    name_text(a, m) is Some && name_text(a, m) == name_text(b, n)
}

/// A type of one arena and a type of another have the same structure,
/// wherever in their arenas their nodes lie.
pub open spec fn alike_types(a: Seq<NodeView>, t: Type, b: Seq<NodeView>, u: Type) -> bool
    decreases t.0, 1int,
{
    t.0 < a.len() && u.0 < b.len() && match (a[t.0 as int], b[u.0 as int]) {
        (NodeView::BoolType, NodeView::BoolType) => true,
        (NodeView::NullType, NodeView::NullType) => true,
        (NodeView::VoidType, NodeView::VoidType) => true,
        (NodeView::IntType(s1, w1), NodeView::IntType(s2, w2)) => s1 == s2 && w1 == w2,
        (NodeView::ArrayType(e1), NodeView::ArrayType(e2)) => e1.0 < t.0 && e2.0 < u.0
            && alike_types(a, e1, b, e2),
        (NodeView::ReferenceType(e1), NodeView::ReferenceType(e2)) => e1.0 < t.0 && e2.0 < u.0
            && alike_types(a, e1, b, e2),
        (NodeView::RecordType(f1), NodeView::RecordType(f2)) => f1.len() == f2.len() && forall|
            i: int,
        |
            0 <= i < f1.len() ==> alike_pairs(a, #[trigger] f1[i], t.0 as int, b, f2[i], u.0 as int),
        _ => false,
    }
}

/// Two pairs of a type and a name, each below a bound in its arena, have
/// the same name and types of the same structure.
pub open spec fn alike_pairs(
    a: Seq<NodeView>,
    p: (Type, Name),
    below_p: int,
    b: Seq<NodeView>,
    q: (Type, Name),
    below_q: int,
) -> bool
    decreases below_p, 0int,
{
    p.0.0 < below_p && q.0.0 < below_q && alike_types(a, p.0, b, q.0) && alike_names(
        a,
        p.1,
        b,
        q.1,
    )
}

// =================================================================
// Expressions
// =================================================================

/// An expression of the arena can be written in the language: it is a
/// boolean, a number which is not negative, a variable with a name, or a
/// comparison of two such expressions lying below it.
pub open spec fn printable_expr(arena: Seq<NodeView>, e: Expr) -> bool
    decreases e.index,
{
    e.index < arena.len() && match arena[e.index as int] {
        NodeView::BoolExpr(_) => true,
        NodeView::IntExpr(value) => value >= 0,
        NodeView::VarExpr(name) => printable_name(arena, name),
        NodeView::LessThanExpr(lhs, rhs) => lhs.index < e.index && rhs.index < e.index
            && printable_expr(arena, lhs) && printable_expr(arena, rhs),
        _ => false,
    }
}

/// The words which an expression of the arena is written with.
pub open spec fn printed_expr(arena: Seq<NodeView>, e: Expr) -> Seq<Word>
    decreases e.index + 1, 0int,
{
    if e.index >= arena.len() {
        Seq::empty()
    } else {
        match arena[e.index as int] {
            NodeView::BoolExpr(value) => key(
                if value {
                    TokenType::True
                } else {
                    TokenType::False
                },
            ),
            NodeView::IntExpr(value) => named(
                TokenType::Integer,
                numeral(
                    if value >= 0 {
                        value as nat
                    } else {
                        0
                    },
                ),
            ),
            NodeView::VarExpr(name) => named(
                TokenType::Identifier,
                match name_text(arena, name) {
                    Some(text) => text,
                    None => Seq::empty(),
                },
            ),
            NodeView::LessThanExpr(lhs, rhs) => (if lhs.index < e.index {
                printed_term(arena, lhs)
            } else {
                Seq::empty()
            }) + key(TokenType::LeftAngle) + (if rhs.index < e.index {
                printed_term(arena, rhs)
            } else {
                Seq::empty()
            }),
            _ => Seq::empty(),
        }
    }
}

/// The words which an expression is written with where a term is awaited:
/// a comparison stands between `(` and `)`.
pub open spec fn printed_term(arena: Seq<NodeView>, e: Expr) -> Seq<Word>
    decreases e.index + 1, 1int,
{
    if e.index < arena.len() && arena[e.index as int] is LessThanExpr {
        key(TokenType::LeftBrace) + printed_expr(arena, e) + key(TokenType::RightBrace)
    } else {
        printed_expr(arena, e)
    }
}

/// An expression of one arena and an expression of another have the same
/// structure.
pub open spec fn alike_exprs(a: Seq<NodeView>, e: Expr, b: Seq<NodeView>, f: Expr) -> bool
    decreases e.index,
{
    e.index < a.len() && f.index < b.len() && match (a[e.index as int], b[f.index as int]) {
        (NodeView::BoolExpr(v), NodeView::BoolExpr(w)) => v == w,
        (NodeView::IntExpr(v), NodeView::IntExpr(w)) => v == w,
        (NodeView::VarExpr(m), NodeView::VarExpr(n)) => alike_names(a, m, b, n),
        (NodeView::LessThanExpr(l1, r1), NodeView::LessThanExpr(l2, r2)) => l1.index < e.index
            && r1.index < e.index && l2.index < f.index && r2.index < f.index && alike_exprs(
            a,
            l1,
            b,
            l2,
        ) && alike_exprs(a, r1, b, r2),
        _ => false,
    }
}

// =================================================================
// Statements
// =================================================================

/// A statement of the arena can be written in the language where one
/// which contains no other is awaited.
pub open spec fn printable_stmt(arena: Seq<NodeView>, s: Stmt) -> bool {
    s.index < arena.len() && match arena[s.index as int] {
        NodeView::AssertStmt(condition) => condition.index < s.index && printable_expr(
            arena,
            condition,
        ),
        NodeView::SkipStmt => true,
        _ => false,
    }
}

/// The words which a statement of the arena is written with.
pub open spec fn printed_stmt(arena: Seq<NodeView>, s: Stmt) -> Seq<Word> {
    if s.index >= arena.len() {
        Seq::empty()
    } else {
        match arena[s.index as int] {
            NodeView::AssertStmt(condition) => key(TokenType::Assert) + printed_expr(
                arena,
                condition,
            ) + key(TokenType::SemiColon),
            NodeView::SkipStmt => key(TokenType::Skip) + key(TokenType::SemiColon),
            _ => Seq::empty(),
        }
    }
}

/// A statement of one arena and a statement of another have the same
/// structure.
pub open spec fn alike_stmts(a: Seq<NodeView>, s: Stmt, b: Seq<NodeView>, r: Stmt) -> bool {
    s.index < a.len() && r.index < b.len() && match (a[s.index as int], b[r.index as int]) {
        (NodeView::AssertStmt(c), NodeView::AssertStmt(d)) => c.index < s.index && d.index
            < r.index && alike_exprs(a, c, b, d),
        (NodeView::SkipStmt, NodeView::SkipStmt) => true,
        _ => false,
    }
}

/// The words which the statements from the one of index `i` on are written
/// with.
pub open spec fn printed_stmts(arena: Seq<NodeView>, stmts: Seq<Stmt>, i: int) -> Seq<Word>
    decreases stmts.len() - i,
{
    if i < 0 || i >= stmts.len() {
        Seq::empty()
    } else {
        printed_stmt(arena, stmts[i]) + printed_stmts(arena, stmts, i + 1)
    }
}

/// Statements of the arena, each below `limit`, can be written in the
/// language one after the other.
pub open spec fn printable_stmts(arena: Seq<NodeView>, stmts: Seq<Stmt>, limit: int) -> bool {
    forall|i: int|
        0 <= i < stmts.len() ==> (#[trigger] stmts[i]).index < limit && printable_stmt(
            arena,
            stmts[i],
        )
}

/// A statement of the arena can be written in the language as the body of
/// a method: it is a block of statements lying below it, none of which
/// contains another.
pub open spec fn printable_block(arena: Seq<NodeView>, s: Stmt) -> bool {
    s.index < arena.len() && arena[s.index as int] is BlockStmt && printable_stmts(
        arena,
        arena[s.index as int]->BlockStmt_0,
        s.index as int,
    )
}

/// The words which a block of the arena is written with.
pub open spec fn printed_block(arena: Seq<NodeView>, s: Stmt) -> Seq<Word> {
    if s.index < arena.len() && arena[s.index as int] is BlockStmt {
        key(TokenType::LeftCurly) + printed_stmts(arena, arena[s.index as int]->BlockStmt_0, 0)
            + key(TokenType::RightCurly)
    } else {
        Seq::empty()
    }
}

/// The first statements of one list, each below a limit in its arena, are
/// alike to the statements of another list, each below a limit in its
/// arena.
pub open spec fn alike_stmt_lists(
    a: Seq<NodeView>,
    stmts: Seq<Stmt>,
    below_a: int,
    b: Seq<NodeView>,
    others: Seq<Stmt>,
    below_b: int,
) -> bool {
    others.len() <= stmts.len() && forall|i: int|
        #![trigger others[i]]
        #![trigger stmts[i]]
        0 <= i < others.len() ==> stmts[i].index < below_a && others[i].index < below_b
            && alike_stmts(a, stmts[i], b, others[i])
}

/// A block of one arena and a block of another hold as many statements,
/// those of the same rank having the same structure.
pub open spec fn alike_blocks(a: Seq<NodeView>, s: Stmt, b: Seq<NodeView>, r: Stmt) -> bool {
    &&& s.index < a.len()
    &&& r.index < b.len()
    &&& a[s.index as int] is BlockStmt
    &&& b[r.index as int] is BlockStmt
    &&& a[s.index as int]->BlockStmt_0.len() == b[r.index as int]->BlockStmt_0.len()
    &&& alike_stmt_lists(
        a,
        a[s.index as int]->BlockStmt_0,
        s.index as int,
        b,
        b[r.index as int]->BlockStmt_0,
        r.index as int,
    )
}

// =================================================================
// Declarations
// =================================================================

/// The pairs of a type and a name which parameters are.
pub open spec fn as_pairs(params: Seq<Parameter>) -> Seq<(Type, Name)> {
    Seq::new(params.len(), |i: int| (params[i].declared, params[i].name))
}

/// A declaration of the arena can be written in the language: what it is
/// made of lies below it and can be written.
pub open spec fn printable_decl(arena: Seq<NodeView>, d: Decl) -> bool {
    d.index < arena.len() && match arena[d.index as int] {
        NodeView::TypeDecl(name, aliased) => printable_pair(
            arena,
            (aliased, name),
            d.index as int,
        ),
        NodeView::MethodDecl(name, result_type, params, body) => {
            &&& printable_pair(arena, (result_type, name), d.index as int)
            &&& forall|i: int|
                0 <= i < params.len() ==> printable_pair(
                    arena,
                    #[trigger] as_pairs(params)[i],
                    d.index as int,
                )
            &&& body.index < d.index
            &&& printable_block(arena, body)
        },
        _ => false,
    }
}

/// The words which a declaration of the arena is written with.
pub open spec fn printed_decl(arena: Seq<NodeView>, d: Decl) -> Seq<Word> {
    if d.index >= arena.len() {
        Seq::empty()
    } else {
        match arena[d.index as int] {
            NodeView::TypeDecl(name, aliased) => key(TokenType::Type) + named(
                TokenType::Identifier,
                name_text(arena, name)->Some_0,
            ) + key(TokenType::Equal) + printed_type(arena, aliased) + key(TokenType::SemiColon),
            NodeView::MethodDecl(name, result_type, params, body) => printed_type(
                arena,
                result_type,
            ) + named(TokenType::Identifier, name_text(arena, name)->Some_0) + key(
                TokenType::LeftBrace,
            ) + printed_pairs(arena, as_pairs(params), d.index as int, 0) + key(
                TokenType::RightBrace,
            ) + printed_block(arena, body),
            _ => Seq::empty(),
        }
    }
}

/// A declaration of one arena and a declaration of another have the same
/// structure, wherever in their arenas their nodes lie: both declare a type
/// of one name for types of the same structure, or both a method of one
/// name, with result types of the same structure, as many parameters, those
/// of the same rank alike, and bodies of the same structure.
pub open spec fn alike_decls(a: Seq<NodeView>, d: Decl, b: Seq<NodeView>, c: Decl) -> bool {
    d.index < a.len() && c.index < b.len() && match (a[d.index as int], b[c.index as int]) {
        (NodeView::TypeDecl(m, t), NodeView::TypeDecl(n, u)) => alike_pairs(
            a,
            (t, m),
            d.index as int,
            b,
            (u, n),
            c.index as int,
        ),
        (NodeView::MethodDecl(m, t, ps, s), NodeView::MethodDecl(n, u, qs, r)) => {
            &&& alike_pairs(a, (t, m), d.index as int, b, (u, n), c.index as int)
            &&& ps.len() == qs.len()
            &&& forall|i: int|
                0 <= i < ps.len() ==> alike_pairs(
                    a,
                    #[trigger] as_pairs(ps)[i],
                    d.index as int,
                    b,
                    as_pairs(qs)[i],
                    c.index as int,
                )
            &&& s.index < d.index
            &&& r.index < c.index
            &&& alike_blocks(a, s, b, r)
        },
        _ => false,
    }
}

} // verus!
