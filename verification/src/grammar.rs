// The grammar, as a function from the tokens in front of a production to the
// nodes it appends, the tokens it leaves and the handle or error it yields.
//
//     decl        := typeDecl | methodDecl
//     typeDecl    := 'type' ident '=' type ';'
//     methodDecl  := type ident '(' params? ')' block
//     params      := type ident (',' type ident)*
//     type        := refType | recordType | arrayType
//     refType     := '&'+ bracketedType
//     recordType  := '{' (type ident (',' type ident)*)? '}'
//     arrayType   := bracketedType ('[' ']')*
//     bracketedType := '(' type ')' | baseType
//     baseType    := 'null'|'bool'|'i8'|'i16'|'i32'|'i64'|'u8'|'u16'|'u32'|'u64'|'void'
//     block       := '{' stmt* '}'
//     stmt        := assertStmt | skipStmt
//     assertStmt  := 'assert' expr ';'
//     skipStmt    := 'skip' ';'
//     expr        := term ('<' term)?
//     term        := 'true' | 'false' | integer | ident | '(' expr ')'
//
// One token of lookahead decides; a production which fails on its first token
// takes none, and the first failure ends the whole attempt.

use crate::ast::{Decl, Expr, Name, NodeView, Parameter, Stmt, Type};
use crate::lexer::{first, int_value, rest, TokenType, TokenView};
use vstd::prelude::*;

verus! {

// =================================================================
// Outcomes
// =================================================================

/// The mathematical value of a parse error: the byte offsets of both ends of
/// the offending token, and a fixed diagnostic.
pub struct ErrorView {
    pub start: int,
    pub end: int,
    pub message: Seq<char>,
}

/// What a production makes of the tokens in front of it: the nodes it appends
/// to the arena (also where it fails: they stay behind, unreachable), the
/// tokens it leaves, and the handle it yields or the error it reports.
pub struct Parsed<T> {
    pub nodes: Seq<NodeView>,
    pub rest: Seq<TokenView>,
    pub result: Result<T, ErrorView>,
}

/// The diagnostic for a token that no alternative of a production begins with.
pub open spec fn unknown_token() -> Seq<char> {
    "unknown token encountered"@
}

/// The diagnostic for a token of another kind than the one awaited.
pub open spec fn expected_other() -> Seq<char> {
    "expected one thing, found another"@
}

/// The diagnostic for a type that the end of the input cuts short.
pub open spec fn unexpected_eof() -> Seq<char> {
    "unexpected end-of-file"@
}

/// The diagnostic for a number that 32 bits with a sign cannot hold.
pub open spec fn out_of_range() -> Seq<char> {
    "integer literal out of range"@
}

/// The error which a diagnostic on a given token makes.
pub open spec fn error_at(token: TokenView, message: Seq<char>) -> ErrorView {
    ErrorView { start: token.start, end: token.end(), message }
}

/// A production which succeeds.
pub open spec fn done<T>(nodes: Seq<NodeView>, rest: Seq<TokenView>, value: T) -> Parsed<T> {
    Parsed { nodes, rest, result: Ok(value) }
}

/// A production which fails.
pub open spec fn fail<T>(nodes: Seq<NodeView>, rest: Seq<TokenView>, error: ErrorView) -> Parsed<
    T,
> {
    Parsed { nodes, rest, result: Err(error) }
}

/// A production which fails on the first of the tokens, having done nothing.
pub open spec fn reject<T>(ts: Seq<TokenView>, message: Seq<char>) -> Parsed<T> {
    fail(Seq::empty(), ts, error_at(first(ts), message))
}

/// What a production yields after others have appended `nodes` in front of it.
pub open spec fn after<T>(nodes: Seq<NodeView>, out: Parsed<T>) -> Parsed<T> {
    Parsed { nodes: nodes + out.nodes, rest: out.rest, result: out.result }
}

// =================================================================
// Tokens and names
// =================================================================

/// Match one token of a given kind: it is taken if the first token has that
/// kind, and left where it is otherwise.
pub open spec fn snap(ts: Seq<TokenView>, kind: TokenType) -> Parsed<TokenView> {
    if first(ts).kind == kind {
        done(Seq::empty(), rest(ts), first(ts))
    } else {
        reject(ts, expected_other())
    }
}

/// `ident`: an identifier, kept as a node of its own.
#[verifier::opaque]
pub open spec fn parse_identifier(ts: Seq<TokenView>, base: nat) -> Parsed<Name> {
    if first(ts).kind == TokenType::Identifier {
        done(seq![NodeView::Utf8(first(ts).content)], rest(ts), Name(base as usize))
    } else {
        reject(ts, expected_other())
    }
}

// =================================================================
// Types
// =================================================================

/// The node of the primitive type which a keyword names.
pub open spec fn base_type(kind: TokenType) -> Option<NodeView> {
    match kind {
        TokenType::Null => Some(NodeView::NullType),
        TokenType::Bool => Some(NodeView::BoolType),
        TokenType::I8 => Some(NodeView::IntType(true, 8)),
        TokenType::I16 => Some(NodeView::IntType(true, 16)),
        TokenType::I32 => Some(NodeView::IntType(true, 32)),
        TokenType::I64 => Some(NodeView::IntType(true, 64)),
        TokenType::U8 => Some(NodeView::IntType(false, 8)),
        TokenType::U16 => Some(NodeView::IntType(false, 16)),
        TokenType::U32 => Some(NodeView::IntType(false, 32)),
        TokenType::U64 => Some(NodeView::IntType(false, 64)),
        TokenType::Void => Some(NodeView::VoidType),
        _ => None,
    }
}

/// `baseType`: one keyword naming a primitive type.
#[verifier::opaque]
pub open spec fn parse_type_base(ts: Seq<TokenView>, base: nat) -> Parsed<Type> {
    match base_type(first(ts).kind) {
        Some(node) => done(seq![node], rest(ts), Type(base as usize)),
        None => reject(ts, unknown_token()),
    }
}

/// How many `&` stand at the front of the tokens.
pub open spec fn count_ampersands(ts: Seq<TokenView>) -> nat
    decreases ts.len(),
{
    if ts.len() > 0 && ts[0].kind == TokenType::Ampersand {
        1 + count_ampersands(ts.drop_first())
    } else {
        0
    }
}

/// What the wrapper of index `k` in a chain appended at `base` wraps: the
/// first wraps `target`, each of the others wraps the one in front of it.
/// For `k` the length of the chain, this is its outermost wrapper.
pub open spec fn link(k: int, target: Type, base: nat) -> Type {
    if k <= 0 {
        target
    } else {
        Type((base + k - 1) as usize)
    }
}

/// A chain of `count` references appended at `base` around `target`.
pub open spec fn references(count: nat, target: Type, base: nat) -> Seq<NodeView> {
    Seq::new(count, |k: int| NodeView::ReferenceType(link(k, target, base)))
}

/// A chain of `count` arrays appended at `base` around `target`.
pub open spec fn arrays(count: nat, target: Type, base: nat) -> Seq<NodeView> {
    Seq::new(count, |k: int| NodeView::ArrayType(link(k, target, base)))
}

/// The leading `&` are tokens of the sequence, and the token behind them is
/// none.
pub proof fn lemma_count_ampersands(ts: Seq<TokenView>)
    ensures
        count_ampersands(ts) <= ts.len(),
        forall|k: int| 0 <= k < count_ampersands(ts) ==> (#[trigger] ts[k]).kind == TokenType::Ampersand,
        first(ts.skip(count_ampersands(ts) as int)).kind != TokenType::Ampersand,
    decreases ts.len(),
{
    if ts.len() > 0 && ts[0].kind == TokenType::Ampersand {
        let tail = ts.drop_first();
        lemma_count_ampersands(tail);
        assert(ts.skip(count_ampersands(ts) as int) =~= tail.skip(count_ampersands(tail) as int));
        assert forall|k: int| 0 <= k < count_ampersands(ts) implies (#[trigger] ts[k]).kind
            == TokenType::Ampersand by {
            if k > 0 {
                assert(ts[k] == tail[k - 1]);
            }
        }
    } else {
        assert(ts.skip(0) =~= ts);
    }
}

/// The tokens begin with exactly `n` `&`.
pub open spec fn leading_ampersands(ts: Seq<TokenView>, n: nat) -> bool {
    &&& n <= ts.len()
    &&& forall|k: int| 0 <= k < n ==> (#[trigger] ts[k]).kind == TokenType::Ampersand
    &&& first(ts.skip(n as int)).kind != TokenType::Ampersand
}

/// Tokens which begin with exactly `n` `&` have `n` leading `&`.
pub proof fn lemma_leading_ampersands(ts: Seq<TokenView>, n: nat)
    requires
        leading_ampersands(ts, n),
    ensures
        count_ampersands(ts) == n,
    decreases n,
{
    if n == 0 {
        assert(ts.skip(0) =~= ts);
    } else {
        let tail = ts.drop_first();
        assert(ts[0].kind == TokenType::Ampersand);
        assert(tail.skip(n - 1) =~= ts.skip(n as int));
        assert forall|k: int| 0 <= k < n - 1 implies (#[trigger] tail[k]).kind
            == TokenType::Ampersand by {
            assert(tail[k] == ts[k + 1]);
        }
        lemma_leading_ampersands(tail, (n - 1) as nat);
    }
}

/// How many pairs `[` `]` stand at the front of the tokens.
pub open spec fn count_brackets(ts: Seq<TokenView>) -> nat
    decreases ts.len(),
{
    if ts.len() > 1 && ts[0].kind == TokenType::LeftSquare && ts[1].kind
        == TokenType::RightSquare {
        1 + count_brackets(ts.skip(2))
    } else {
        0
    }
}

/// The pairs `[` `]` at the front of the tokens are tokens of the sequence.
pub proof fn lemma_count_brackets(ts: Seq<TokenView>)
    ensures
        2 * count_brackets(ts) <= ts.len(),
    decreases ts.len(),
{
    if ts.len() > 1 && ts[0].kind == TokenType::LeftSquare && ts[1].kind
        == TokenType::RightSquare {
        lemma_count_brackets(ts.skip(2));
    }
}

/// The tokens begin with exactly `n` pairs `[` `]`, and no `[` follows them.
pub open spec fn leading_brackets(ts: Seq<TokenView>, n: nat) -> bool {
    &&& 2 * n <= ts.len()
    &&& forall|k: int|
        0 <= k < n ==> (#[trigger] ts[2 * k]).kind == TokenType::LeftSquare && ts[2 * k + 1].kind
            == TokenType::RightSquare
    &&& first(ts.skip(2 * n as int)).kind != TokenType::LeftSquare
}

/// Tokens which begin with exactly `n` pairs `[` `]` have `n` leading pairs.
pub proof fn lemma_leading_brackets(ts: Seq<TokenView>, n: nat)
    requires
        leading_brackets(ts, n),
    ensures
        count_brackets(ts) == n,
    decreases n,
{
    if n == 0 {
        assert(ts.skip(0) =~= ts);
        if ts.len() > 0 {
            assert(first(ts) == ts[0]);
        }
    } else {
        let tail = ts.skip(2);
        assert(ts[2 * 0int].kind == TokenType::LeftSquare);
        assert(tail.skip(2 * (n - 1)) =~= ts.skip(2 * n as int));
        assert forall|k: int| 0 <= k < n - 1 implies (#[trigger] tail[2 * k]).kind
            == TokenType::LeftSquare && tail[2 * k + 1].kind == TokenType::RightSquare by {
            assert(tail[2 * k] == ts[2 * (k + 1)]);
            assert(tail[2 * k + 1] == ts[2 * (k + 1) + 1]);
        }
        lemma_leading_brackets(tail, (n - 1) as nat);
    }
}

/// `('[' ']')*` behind a type already read: each pair wraps what stands in
/// front of it in an array, so that the leftmost pair is innermost.  A `[`
/// without its `]` is an error, and is taken.
#[verifier::opaque]
pub open spec fn array_suffix(ts: Seq<TokenView>, base: nat, element: Type) -> Parsed<Type> {
    let count = count_brackets(ts);
    let behind = ts.skip(2 * count as int);
    let nodes = arrays(count, element, base);
    if first(behind).kind == TokenType::LeftSquare {
        fail(nodes, rest(behind), error_at(first(rest(behind)), expected_other()))
    } else {
        done(nodes, behind, link(count as int, element, base))
    }
}

/// `type`: a reference, a record, or an array or primitive type.
pub open spec fn parse_type(ts: Seq<TokenView>, base: nat) -> Parsed<Type>
    decreases ts.len(), 6int,
{
    parse_type_compound(ts, base)
}

/// The three alternatives of `type`, told apart by the first token.
pub open spec fn parse_type_compound(ts: Seq<TokenView>, base: nat) -> Parsed<Type>
    decreases ts.len(), 5int,
{
    let kind = first(ts).kind;
    if kind == TokenType::EOF {
        reject(ts, unexpected_eof())
    } else if kind == TokenType::Ampersand {
        parse_type_ref(ts, base)
    } else if kind == TokenType::LeftCurly {
        parse_type_record(ts, base)
    } else {
        parse_type_array(ts, base)
    }
}

/// `refType`: a maximal run of `&`, then one bracketed or primitive type,
/// around which as many references are wrapped as there were `&`.
pub open spec fn parse_type_ref(ts: Seq<TokenView>, base: nat) -> Parsed<Type>
    decreases ts.len(), 4int,
{
    let count = count_ampersands(ts);
    if count == 0 {
        reject(ts, expected_other())
    } else {
        proof {
            lemma_count_ampersands(ts);
        }
        let inner = parse_type_bracketed(ts.skip(count as int), base);
        match inner.result {
            Err(e) => fail(inner.nodes, inner.rest, e),
            Ok(target) => {
                let at = base + inner.nodes.len();
                done(
                    inner.nodes + references(count, target, at),
                    inner.rest,
                    link(count as int, target, at),
                )
            },
        }
    }
}

/// The record which the fields read between `{` and `}` make: its node goes
/// behind those of the fields.
pub open spec fn record_of(fields: Parsed<Seq<(Type, Name)>>, base: nat) -> Parsed<Type> {
    match fields.result {
        Err(e) => fail(fields.nodes, fields.rest, e),
        Ok(fs) => done(
            fields.nodes.push(NodeView::RecordType(fs)),
            fields.rest,
            Type((base + fields.nodes.len()) as usize),
        ),
    }
}

/// `recordType`: the fields between `{` and `}`, in the order they are written.
pub open spec fn parse_type_record(ts: Seq<TokenView>, base: nat) -> Parsed<Type>
    decreases ts.len(), 4int,
{
    if first(ts).kind != TokenType::LeftCurly {
        reject(ts, expected_other())
    } else {
        record_of(typed_names(rest(ts), base, TokenType::RightCurly, Seq::empty()), base)
    }
}

/// `(type ident (',' type ident)*)?` up to and including the closing token:
/// the pairs already read are `read`, and each further pair goes behind them.
/// (A pair takes at least one token, so the test on the lengths always
/// succeeds; it is there for the recursion to be well founded.)
pub open spec fn typed_names(
    ts: Seq<TokenView>,
    base: nat,
    closer: TokenType,
    read: Seq<(Type, Name)>,
) -> Parsed<Seq<(Type, Name)>>
    decreases ts.len(), 7int,
{
    if first(ts).kind == closer {
        done(Seq::empty(), rest(ts), read)
    } else if read.len() > 0 && first(ts).kind != TokenType::Comma {
        reject(ts, expected_other())
    } else {
        let begin = if read.len() > 0 {
            rest(ts)
        } else {
            ts
        };
        let declared = parse_type(begin, base);
        match declared.result {
            Err(e) => fail(declared.nodes, declared.rest, e),
            Ok(t) => {
                let name = after(
                    declared.nodes,
                    parse_identifier(declared.rest, base + declared.nodes.len()),
                );
                match name.result {
                    Err(e) => fail(name.nodes, name.rest, e),
                    Ok(n) => if name.rest.len() < ts.len() {
                        after(
                            name.nodes,
                            typed_names(
                                name.rest,
                                base + name.nodes.len(),
                                closer,
                                read.push((t, n)),
                            ),
                        )
                    } else {
                        fail(name.nodes, name.rest, error_at(first(name.rest), expected_other()))
                    },
                }
            },
        }
    }
}

/// `arrayType`: one bracketed or primitive type, then any number of `[` `]`.
pub open spec fn parse_type_array(ts: Seq<TokenView>, base: nat) -> Parsed<Type>
    decreases ts.len(), 4int,
{
    let inner = parse_type_bracketed(ts, base);
    match inner.result {
        Err(e) => fail(inner.nodes, inner.rest, e),
        Ok(element) => after(
            inner.nodes,
            array_suffix(inner.rest, base + inner.nodes.len(), element),
        ),
    }
}

/// `bracketedType`: a type between `(` and `)`, or a primitive type.
pub open spec fn parse_type_bracketed(ts: Seq<TokenView>, base: nat) -> Parsed<Type>
    decreases ts.len(), 3int,
{
    if first(ts).kind == TokenType::LeftBrace {
        let inner = parse_type(rest(ts), base);
        match inner.result {
            Err(e) => fail(inner.nodes, inner.rest, e),
            Ok(t) => if first(inner.rest).kind == TokenType::RightBrace {
                done(inner.nodes, rest(inner.rest), t)
            } else {
                fail(inner.nodes, inner.rest, error_at(first(inner.rest), expected_other()))
            },
        }
    } else {
        parse_type_base(ts, base)
    }
}

// =================================================================
// Expressions
// =================================================================

/// `expr`: a term, or two terms with `<` between them.  (The test on the
/// lengths always succeeds: a term takes at least one token.)
pub open spec fn parse_expr(ts: Seq<TokenView>, base: nat) -> Parsed<Expr>
    decreases ts.len(), 3int,
{
    let lhs = parse_expr_term(ts, base);
    match lhs.result {
        Err(e) => fail(lhs.nodes, lhs.rest, e),
        Ok(l) => if first(lhs.rest).kind == TokenType::LeftAngle && lhs.rest.len() <= ts.len() {
            let rhs = after(lhs.nodes, parse_expr_term(rest(lhs.rest), base + lhs.nodes.len()));
            match rhs.result {
                Err(e) => fail(rhs.nodes, rhs.rest, e),
                Ok(r) => done(
                    rhs.nodes.push(NodeView::LessThanExpr(l, r)),
                    rhs.rest,
                    Expr { index: (base + rhs.nodes.len()) as usize },
                ),
            }
        } else {
            lhs
        },
    }
}

/// `term`: a literal, a variable, or an expression between `(` and `)`.
pub open spec fn parse_expr_term(ts: Seq<TokenView>, base: nat) -> Parsed<Expr>
    decreases ts.len(), 2int,
{
    let token = first(ts);
    let here = Expr { index: base as usize };
    match token.kind {
        TokenType::False => done(seq![NodeView::BoolExpr(false)], rest(ts), here),
        TokenType::True => done(seq![NodeView::BoolExpr(true)], rest(ts), here),
        TokenType::Identifier => done(
            seq![NodeView::Utf8(token.content), NodeView::VarExpr(Name(base as usize))],
            rest(ts),
            Expr { index: (base + 1) as usize },
        ),
        TokenType::Integer => match int_value(token.content) {
            Some(value) => done(seq![NodeView::IntExpr(value)], rest(ts), here),
            None => reject(ts, out_of_range()),
        },
        TokenType::LeftBrace => parse_expr_bracketed(ts, base),
        _ => reject(ts, unknown_token()),
    }
}

/// An expression between `(` and `)`.
pub open spec fn parse_expr_bracketed(ts: Seq<TokenView>, base: nat) -> Parsed<Expr>
    decreases ts.len(), 1int,
{
    if first(ts).kind != TokenType::LeftBrace {
        reject(ts, expected_other())
    } else {
        let inner = parse_expr(rest(ts), base);
        match inner.result {
            Err(e) => fail(inner.nodes, inner.rest, e),
            Ok(e) => if first(inner.rest).kind == TokenType::RightBrace {
                done(inner.nodes, rest(inner.rest), e)
            } else {
                fail(inner.nodes, inner.rest, error_at(first(inner.rest), expected_other()))
            },
        }
    }
}

// =================================================================
// Statements
// =================================================================

/// `'assert' expr`, without the `;`.
#[verifier::opaque]
pub open spec fn parse_stmt_assert(ts: Seq<TokenView>, base: nat) -> Parsed<Stmt> {
    if first(ts).kind != TokenType::Assert {
        reject(ts, expected_other())
    } else {
        let condition = parse_expr(rest(ts), base);
        match condition.result {
            Err(e) => fail(condition.nodes, condition.rest, e),
            Ok(c) => done(
                condition.nodes.push(NodeView::AssertStmt(c)),
                condition.rest,
                Stmt { index: (base + condition.nodes.len()) as usize },
            ),
        }
    }
}

/// `'skip'`, without the `;`.
#[verifier::opaque]
pub open spec fn parse_stmt_skip(ts: Seq<TokenView>, base: nat) -> Parsed<Stmt> {
    if first(ts).kind != TokenType::Skip {
        reject(ts, expected_other())
    } else {
        done(seq![NodeView::SkipStmt], rest(ts), Stmt { index: base as usize })
    }
}

/// A statement which contains no other, and the `;` which ends it.
#[verifier::opaque]
pub open spec fn parse_unit_stmt(ts: Seq<TokenView>, base: nat) -> Parsed<Stmt> {
    let kind = first(ts).kind;
    if kind != TokenType::Assert && kind != TokenType::Skip {
        reject(ts, unknown_token())
    } else {
        let stmt = if kind == TokenType::Assert {
            parse_stmt_assert(ts, base)
        } else {
            parse_stmt_skip(ts, base)
        };
        match stmt.result {
            Err(e) => stmt,
            Ok(s) => if first(stmt.rest).kind == TokenType::SemiColon {
                done(stmt.nodes, rest(stmt.rest), s)
            } else {
                fail(stmt.nodes, stmt.rest, error_at(first(stmt.rest), expected_other()))
            },
        }
    }
}

/// `stmt`.
#[verifier::opaque]
pub open spec fn parse_stmt(ts: Seq<TokenView>, base: nat) -> Parsed<Stmt> {
    parse_unit_stmt(ts, base)
}

/// `stmt*` up to and including the closing `}`: the statements already read
/// are `read`, and each further one goes behind them.  (The test on the
/// lengths always succeeds: a statement takes at least one token.)
pub open spec fn statements(ts: Seq<TokenView>, base: nat, read: Seq<Stmt>) -> Parsed<Seq<Stmt>>
    decreases ts.len(),
{
    if first(ts).kind == TokenType::RightCurly {
        done(Seq::empty(), rest(ts), read)
    } else {
        let stmt = parse_stmt(ts, base);
        match stmt.result {
            Err(e) => fail(stmt.nodes, stmt.rest, e),
            Ok(s) => if stmt.rest.len() < ts.len() {
                after(stmt.nodes, statements(stmt.rest, base + stmt.nodes.len(), read.push(s)))
            } else {
                fail(stmt.nodes, stmt.rest, error_at(first(stmt.rest), expected_other()))
            },
        }
    }
}

/// The block which the statements read between `{` and `}` make: its node
/// goes behind those of the statements.
pub open spec fn block_of(body: Parsed<Seq<Stmt>>, base: nat) -> Parsed<Stmt> {
    match body.result {
        Err(e) => fail(body.nodes, body.rest, e),
        Ok(ss) => done(
            body.nodes.push(NodeView::BlockStmt(ss)),
            body.rest,
            Stmt { index: (base + body.nodes.len()) as usize },
        ),
    }
}

/// `block`: the statements between `{` and `}`, in the order they are written.
#[verifier::opaque]
pub open spec fn parse_stmt_block(ts: Seq<TokenView>, base: nat) -> Parsed<Stmt> {
    if first(ts).kind != TokenType::LeftCurly {
        reject(ts, expected_other())
    } else {
        block_of(statements(rest(ts), base, Seq::empty()), base)
    }
}

// =================================================================
// Declarations
// =================================================================

/// The parameters which pairs of a type and a name declare.
pub open spec fn as_parameters(pairs: Seq<(Type, Name)>) -> Seq<Parameter> {
    Seq::new(pairs.len(), |i: int| Parameter { declared: pairs[i].0, name: pairs[i].1 })
}

/// The parameter list which the pairs read between `(` and `)` make.
pub open spec fn parameters_of(pairs: Parsed<Seq<(Type, Name)>>) -> Parsed<Seq<Parameter>> {
    match pairs.result {
        Err(e) => fail(pairs.nodes, pairs.rest, e),
        Ok(ps) => done(pairs.nodes, pairs.rest, as_parameters(ps)),
    }
}

/// `'(' params? ')'`: the parameters in the order they are written.
#[verifier::opaque]
pub open spec fn parse_decl_parameters(ts: Seq<TokenView>, base: nat) -> Parsed<Seq<Parameter>> {
    if first(ts).kind != TokenType::LeftBrace {
        reject(ts, expected_other())
    } else {
        parameters_of(typed_names(rest(ts), base, TokenType::RightBrace, Seq::empty()))
    }
}

/// `typeDecl`: `'type' ident '=' type ';'`.
#[verifier::opaque]
pub open spec fn parse_decl_type(ts: Seq<TokenView>, base: nat) -> Parsed<Decl> {
    if first(ts).kind != TokenType::Type {
        reject(ts, expected_other())
    } else {
        let name = parse_identifier(rest(ts), base);
        match name.result {
            Err(e) => fail(name.nodes, name.rest, e),
            Ok(n) => if first(name.rest).kind != TokenType::Equal {
                fail(name.nodes, name.rest, error_at(first(name.rest), expected_other()))
            } else {
                let aliased = after(
                    name.nodes,
                    parse_type(rest(name.rest), base + name.nodes.len()),
                );
                match aliased.result {
                    Err(e) => fail(aliased.nodes, aliased.rest, e),
                    Ok(t) => if first(aliased.rest).kind != TokenType::SemiColon {
                        fail(
                            aliased.nodes,
                            aliased.rest,
                            error_at(first(aliased.rest), expected_other()),
                        )
                    } else {
                        done(
                            aliased.nodes.push(NodeView::TypeDecl(n, t)),
                            rest(aliased.rest),
                            Decl { index: (base + aliased.nodes.len()) as usize },
                        )
                    },
                }
            },
        }
    }
}

/// `methodDecl`: `type ident '(' params? ')' block`.
#[verifier::opaque]
pub open spec fn parse_decl_method(ts: Seq<TokenView>, base: nat) -> Parsed<Decl> {
    let result_type = parse_type(ts, base);
    match result_type.result {
        Err(e) => fail(result_type.nodes, result_type.rest, e),
        Ok(t) => {
            let name = after(
                result_type.nodes,
                parse_identifier(result_type.rest, base + result_type.nodes.len()),
            );
            match name.result {
                Err(e) => fail(name.nodes, name.rest, e),
                Ok(n) => {
                    let params = after(
                        name.nodes,
                        parse_decl_parameters(name.rest, base + name.nodes.len()),
                    );
                    match params.result {
                        Err(e) => fail(params.nodes, params.rest, e),
                        Ok(ps) => {
                            let body = after(
                                params.nodes,
                                parse_stmt_block(params.rest, base + params.nodes.len()),
                            );
                            match body.result {
                                Err(e) => fail(body.nodes, body.rest, e),
                                Ok(b) => done(
                                    body.nodes.push(NodeView::MethodDecl(n, t, ps, b)),
                                    body.rest,
                                    Decl { index: (base + body.nodes.len()) as usize },
                                ),
                            }
                        },
                    }
                },
            }
        },
    }
}

/// `decl`: a type declaration where the first token is `type`, a method
/// declaration otherwise.
#[verifier::opaque]
pub open spec fn parse_decl(ts: Seq<TokenView>, base: nat) -> Parsed<Decl> {
    if first(ts).kind == TokenType::Type {
        parse_decl_type(ts, base)
    } else {
        parse_decl_method(ts, base)
    }
}

} // verus!
