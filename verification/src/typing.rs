// The typing rules, as functions of the nodes of an arena and of the names in
// scope: what each check yields, for every handle, whether or not it leads to
// a node of its category.

use crate::ast::{type_at, Decl, Expr, Name, NodeView, Parameter, Stmt, Type};
use crate::error::{
    expected_subtype_at, internal_failure_at, variable_not_found_at, SyntaxErrorView,
};
use vstd::prelude::*;

verus! {

/// The type which an expression has: that of a literal, or one written in
/// the source and found in the arena.
#[derive(Clone, Copy, Debug, PartialEq, Eq, Structural)]
pub enum ExprType {
    /// The type of `true`, `false` and of a comparison.
    Bool,
    /// An integer type, signed or not, of a width in bits.  Every integer
    /// literal has 32 bits and a sign, whatever its value or its context.
    Int(bool, u8),
    /// The type which a variable was declared with.
    Declared(Type),
}

/// What a name is bound to while a declaration is checked: the text of each
/// name in scope, with the type it was declared with.
pub type Scope = Map<Seq<char>, Type>;

// =================================================================
// Diagnostics
// =================================================================

/// The message for a declaration handle which leads to no declaration.
pub open spec fn unknown_declaration() -> Seq<char> {
    "unknown declaration"@
}

/// The message for a statement handle which leads to no statement.
pub open spec fn unknown_statement() -> Seq<char> {
    "unknown statement"@
}

/// The message for an expression handle which leads to no expression that
/// has a typing rule.
pub open spec fn unknown_expression() -> Seq<char> {
    "unknown expression"@
}

/// The message for a type handle which leads to no well-formed type.
pub open spec fn unknown_type() -> Seq<char> {
    "unknown type"@
}

/// The message for a name handle which leads to no identifier.
pub open spec fn unknown_name() -> Seq<char> {
    "unknown name"@
}

// =================================================================
// Types
// =================================================================

/// The text of an identifier, where the handle leads to one.
pub open spec fn name_text(arena: Seq<NodeView>, name: Name) -> Option<Seq<char>> {
    if name.0 < arena.len() && arena[name.0 as int] is Utf8 {
        Some(arena[name.0 as int]->Utf8_0)
    } else {
        None
    }
}

/// Two types of the arena have the same structure: the same primitive, with
/// the same sign and width where it is an integer; or both arrays, or both
/// references, of types with the same structure; or both records with as
/// many fields, the fields of the same rank having the same name and types
/// with the same structure.  What a type is made of lies below it.
pub open spec fn types_match(arena: Seq<NodeView>, a: Type, b: Type) -> bool
    decreases a.0, 2int,
{
    a.0 < arena.len() && b.0 < arena.len() && nodes_match(
        arena,
        arena[a.0 as int],
        arena[b.0 as int],
        a.0 as int,
        b.0 as int,
    )
}

/// Two nodes are types with the same structure, what the first is made of
/// lying below `below_x` and what the second is made of below `below_y`.
pub open spec fn nodes_match(
    arena: Seq<NodeView>,
    x: NodeView,
    y: NodeView,
    below_x: int,
    below_y: int,
) -> bool
    decreases below_x, 1int,
{
    match (x, y) {
        (NodeView::BoolType, NodeView::BoolType) => true,
        (NodeView::NullType, NodeView::NullType) => true,
        (NodeView::VoidType, NodeView::VoidType) => true,
        (NodeView::IntType(s1, w1), NodeView::IntType(s2, w2)) => s1 == s2 && w1 == w2,
        (NodeView::ArrayType(e1), NodeView::ArrayType(e2)) => e1.0 < below_x && e2.0 < below_y
            && types_match(arena, e1, e2),
        (NodeView::ReferenceType(e1), NodeView::ReferenceType(e2)) => e1.0 < below_x && e2.0
            < below_y && types_match(arena, e1, e2),
        (NodeView::RecordType(f1), NodeView::RecordType(f2)) => f1.len() == f2.len() && forall|
            i: int,
        |
            0 <= i < f1.len() ==> fields_match(arena, #[trigger] f1[i], f2[i], below_x, below_y),
        _ => false,
    }
}

/// Two fields have the same name and types with the same structure.
pub open spec fn fields_match(
    arena: Seq<NodeView>,
    f: (Type, Name),
    g: (Type, Name),
    below_f: int,
    below_g: int,
) -> bool
    decreases below_f, 0int,
{
    f.0.0 < below_f && g.0.0 < below_g && types_match(arena, f.0, g.0) && name_text(arena, f.1)
        is Some && name_text(arena, f.1) == name_text(arena, g.1)
}

/// The node which stands at the root of the type of an expression.
pub open spec fn root(arena: Seq<NodeView>, t: ExprType) -> Option<NodeView> {
    match t {
        ExprType::Bool => Some(NodeView::BoolType),
        ExprType::Int(signed, width) => Some(NodeView::IntType(signed, width)),
        ExprType::Declared(h) => if h.0 < arena.len() {
            Some(arena[h.0 as int])
        } else {
            None
        },
    }
}

/// Below which index the components of the type of an expression lie.
pub open spec fn ceiling(t: ExprType) -> int {
    match t {
        ExprType::Declared(h) => h.0 as int,
        _ => 0,
    }
}

/// The type of an expression is the boolean type.
pub open spec fn is_bool(arena: Seq<NodeView>, t: ExprType) -> bool {
    root(arena, t) == Some(NodeView::BoolType)
}

/// The type of an expression is an integer type.
pub open spec fn is_int(arena: Seq<NodeView>, t: ExprType) -> bool {
    root(arena, t) is Some && root(arena, t)->Some_0 is IntType
}

/// The types of two expressions have the same structure.
pub open spec fn same_type(arena: Seq<NodeView>, a: ExprType, b: ExprType) -> bool {
    root(arena, a) is Some && root(arena, b) is Some && nodes_match(
        arena,
        root(arena, a)->Some_0,
        root(arena, b)->Some_0,
        ceiling(a),
        ceiling(b),
    )
}

/// What checking a declared type yields: success where the handle leads to
/// a type all of whose components are types, an internal failure on the
/// handle otherwise.
pub open spec fn check_type(arena: Seq<NodeView>, t: Type) -> Result<(), SyntaxErrorView> {
    if type_at(arena, t.0 as int) {
        Ok(())
    } else {
        Err(internal_failure_at(t.0, unknown_type()))
    }
}

/// What checking that a type is boolean yields.
pub open spec fn check_bool_type(arena: Seq<NodeView>, t: Type) -> Result<(), SyntaxErrorView> {
    if is_bool(arena, ExprType::Declared(t)) {
        Ok(())
    } else {
        Err(expected_subtype_at(t.0))
    }
}

/// What checking that a type is an integer type yields.
pub open spec fn check_int_type(arena: Seq<NodeView>, t: Type) -> Result<(), SyntaxErrorView> {
    if is_int(arena, ExprType::Declared(t)) {
        Ok(())
    } else {
        Err(expected_subtype_at(t.0))
    }
}

/// What checking that two types have the same structure yields: the error is
/// reported on the second.
pub open spec fn check_matching_types(arena: Seq<NodeView>, a: Type, b: Type) -> Result<
    (),
    SyntaxErrorView,
> {
    if types_match(arena, a, b) {
        Ok(())
    } else {
        Err(expected_subtype_at(b.0))
    }
}

// =================================================================
// Expressions
// =================================================================

/// The type of the variable which a name refers to, looked up by its text;
/// an unbound name is an error on the node `at`.
pub open spec fn check_variable_access(
    arena: Seq<NodeView>,
    scope: Scope,
    at: usize,
    name: Name,
) -> Result<Type, SyntaxErrorView> {
    match name_text(arena, name) {
        None => Err(internal_failure_at(name.0, unknown_name())),
        Some(text) => if scope.contains_key(text) {
            Ok(scope[text])
        } else {
            Err(variable_not_found_at(at))
        },
    }
}

/// The type of an expression.  A literal has the type of its kind; a
/// variable has the type it is bound to; a comparison is boolean, its
/// operands being checked first.  Operands lie below the comparison.
pub open spec fn check_expr(arena: Seq<NodeView>, scope: Scope, e: Expr) -> Result<
    ExprType,
    SyntaxErrorView,
>
    decreases e.index, 0int,
{
    if e.index >= arena.len() {
        Err(internal_failure_at(e.index, unknown_expression()))
    } else {
        match arena[e.index as int] {
            NodeView::BoolExpr(_) => Ok(ExprType::Bool),
            NodeView::IntExpr(_) => Ok(ExprType::Int(true, 32)),
            NodeView::LessThanExpr(lhs, rhs) => if lhs.index < e.index && rhs.index < e.index {
                check_lessthan_comparator(arena, scope, lhs, rhs)
            } else {
                Err(internal_failure_at(e.index, unknown_expression()))
            },
            NodeView::VarExpr(name) => match check_variable_access(arena, scope, e.index, name) {
                Ok(t) => Ok(ExprType::Declared(t)),
                Err(error) => Err(error),
            },
            _ => Err(internal_failure_at(e.index, unknown_expression())),
        }
    }
}

/// The larger of the indices of two expressions.
pub open spec fn higher(lhs: Expr, rhs: Expr) -> int {
    if lhs.index > rhs.index {
        lhs.index as int
    } else {
        rhs.index as int
    }
}

/// The type of `lhs < rhs`: boolean, where the left operand has an integer
/// type and the right operand a type of the same structure.  The error of
/// an operand comes first, the left before the right; a left operand which
/// is no integer is an error on it, and a right operand of another type an
/// error on that one.
pub open spec fn check_lessthan_comparator(
    arena: Seq<NodeView>,
    scope: Scope,
    lhs: Expr,
    rhs: Expr,
) -> Result<ExprType, SyntaxErrorView>
    decreases higher(lhs, rhs), 1int,
{
    match check_expr(arena, scope, lhs) {
        Err(error) => Err(error),
        Ok(left) => match check_expr(arena, scope, rhs) {
            Err(error) => Err(error),
            Ok(right) => if !is_int(arena, left) {
                Err(expected_subtype_at(lhs.index))
            } else if !same_type(arena, left, right) {
                Err(expected_subtype_at(rhs.index))
            } else {
                Ok(ExprType::Bool)
            },
        },
    }
}

// =================================================================
// Statements
// =================================================================

/// What checking `assert` yields: its condition must have a type, and that
/// type must be boolean, or else the error is on the condition.
pub open spec fn check_assert(arena: Seq<NodeView>, scope: Scope, condition: Expr) -> Result<
    (),
    SyntaxErrorView,
> {
    match check_expr(arena, scope, condition) {
        Err(error) => Err(error),
        Ok(t) => if is_bool(arena, t) {
            Ok(())
        } else {
            Err(expected_subtype_at(condition.index))
        },
    }
}

/// What checking a statement yields.  `skip` is always well typed; a block
/// is, where each of its statements is.
pub open spec fn check_stmt(arena: Seq<NodeView>, scope: Scope, s: Stmt) -> Result<
    (),
    SyntaxErrorView,
>
    decreases s.index + 1, 0int,
{
    if s.index >= arena.len() {
        Err(internal_failure_at(s.index, unknown_statement()))
    } else {
        match arena[s.index as int] {
            NodeView::AssertStmt(condition) => check_assert(arena, scope, condition),
            NodeView::BlockStmt(stmts) => check_block(arena, scope, stmts, s.index as int),
            NodeView::SkipStmt => Ok(()),
            _ => Err(internal_failure_at(s.index, unknown_statement())),
        }
    }
}

/// What checking statements one after the other yields: the error of the
/// first which fails, if any does.  A statement must lie below `limit`.
pub open spec fn check_block(
    arena: Seq<NodeView>,
    scope: Scope,
    stmts: Seq<Stmt>,
    limit: int,
) -> Result<(), SyntaxErrorView>
    decreases limit, 1 + stmts.len(),
{
    if stmts.len() == 0 {
        Ok(())
    } else if stmts[0].index >= limit {
        Err(internal_failure_at(stmts[0].index, unknown_statement()))
    } else {
        match check_stmt(arena, scope, stmts[0]) {
            Err(error) => Err(error),
            Ok(_) => check_block(arena, scope, stmts.drop_first(), limit),
        }
    }
}

// =================================================================
// Declarations
// =================================================================

/// The scope in which a method's body is checked: the enclosing one, with
/// each parameter bound in turn to its declared type, so that a later
/// parameter hides an earlier one, or a global, of the same name.
pub open spec fn bind(arena: Seq<NodeView>, scope: Scope, params: Seq<Parameter>) -> Result<
    Scope,
    SyntaxErrorView,
>
    decreases params.len(),
{
    if params.len() == 0 {
        Ok(scope)
    } else {
        match name_text(arena, params[0].name) {
            None => Err(internal_failure_at(params[0].name.0, unknown_name())),
            Some(text) => bind(
                arena,
                scope.insert(text, params[0].declared),
                params.drop_first(),
            ),
        }
    }
}

/// What checking a method yields: its body is checked with the parameters
/// in scope.
pub open spec fn check_method(
    arena: Seq<NodeView>,
    globals: Scope,
    params: Seq<Parameter>,
    body: Stmt,
) -> Result<(), SyntaxErrorView> {
    match bind(arena, globals, params) {
        Err(error) => Err(error),
        Ok(scope) => check_stmt(arena, scope, body),
    }
}

/// What checking a type declaration yields: the aliased type must be well
/// formed.
pub open spec fn check_type_alias(arena: Seq<NodeView>, alias: Type) -> Result<
    (),
    SyntaxErrorView,
> {
    check_type(arena, alias)
}

/// What checking a declaration yields.
pub open spec fn check(arena: Seq<NodeView>, globals: Scope, d: Decl) -> Result<
    (),
    SyntaxErrorView,
> {
    if d.index >= arena.len() {
        Err(internal_failure_at(d.index, unknown_declaration()))
    } else {
        match arena[d.index as int] {
            NodeView::TypeDecl(_, alias) => check_type_alias(arena, alias),
            NodeView::MethodDecl(_, _, params, body) => check_method(
                arena,
                globals,
                params,
                body,
            ),
            _ => Err(internal_failure_at(d.index, unknown_declaration())),
        }
    }
}

} // verus!
