// The syntax arena: an append-only store of syntax nodes, addressed by the
// order in which they were pushed, and typed handles into it.  A handle wraps
// the index of a node of its category; what a node is made of always lies
// below it, since trees are built bottom-up.

use syntactic_heap::{Ref, SyntacticHeap};
use vstd::prelude::*;

verus! {

// =============================================================================
// Abstract Syntax Tree
// =============================================================================

/// The arena of the `syntactic_heap` crate.  Verus sees nothing inside it: what
/// it holds is named by [`nodes`].
#[verifier::external_type_specification]
#[verifier::external_body]
#[verifier::reject_recursive_types(T)]
pub struct ExSyntacticHeap<T>(SyntacticHeap<T>);

/// A reference into an arena of the `syntactic_heap` crate, which identifies
/// a node of it.  Verus sees nothing inside it: the index of the node is
/// named by [`raw_index`].
#[verifier::external_type_specification]
#[verifier::external_body]
#[verifier::reject_recursive_types(T)]
pub struct ExRef<'a, T>(Ref<'a, T>);

/// An append-only store of syntax nodes, addressed by the order of insertion.
pub type AbstractSyntaxTree = SyntacticHeap<Node>;

/// The nodes which an arena holds, in the order they were pushed.
pub uninterp spec fn nodes(ast: SyntacticHeap<Node>) -> Seq<NodeView>;

/// `SyntacticHeap::push`: the node is appended behind those already there,
/// and the reference handed back identifies it by the position it now
/// occupies (the length beforehand).
#[verifier::external_body]
pub(crate) fn heap_push<'a>(ast: &'a mut AbstractSyntaxTree, node: Node) -> (r: Ref<'a, Node>)
    ensures
        nodes(*final(ast)) == nodes(*old(ast)).push(node@),
        raw_index(r) == nodes(*old(ast)).len(),
{
    ast.push(node)
}

/// `SyntacticHeap::get`: borrows the node at a position.  The outside function
/// panics on a position beyond the end, which `requires` leaves out.
#[verifier::external_body]
pub(crate) fn heap_get(ast: &AbstractSyntaxTree, index: usize) -> (node: &Node)
    requires
        index < nodes(*ast).len(),
    ensures
        node@ == nodes(*ast)[index as int],
{
    ast.get(index)
}

/// The index of the node which a reference into an arena refers to.
pub uninterp spec fn raw_index(r: Ref<Node>) -> usize;

/// `Ref::raw_index`: the index of the node which the reference refers to.
#[verifier::external_body]
pub(crate) fn index_of(r: &Ref<Node>) -> (index: usize)
    ensures
        index == raw_index(*r),
{
    r.raw_index()
}

/// `SyntacticHeap::len`: the number of nodes pushed so far.
#[verifier::external_body]
pub(crate) fn heap_len(ast: &AbstractSyntaxTree) -> (len: usize)
    ensures
        len == nodes(*ast).len(),
{
    ast.len()
}

// =============================================================================
// Terms
// =============================================================================

/// A node of the syntax tree: the text of a name, a declaration, a
/// statement, an expression or a type.  What a node is made of is held by
/// handle, never by value.
#[derive(Clone, Debug, PartialEq)]
pub enum Node {
    // Base
    Utf8(String),
    // Declarations
    TypeDecl(Name, Type),
    MethodDecl(Name, Type, Vec<Parameter>, Stmt),
    // Statements
    AssertStmt(Expr),
    BlockStmt(Vec<Stmt>),
    SkipStmt,
    // Expressions
    BoolExpr(bool),
    EqualsExpr(Expr, Expr),
    NotEqualsExpr(Expr, Expr),
    LessThanExpr(Expr, Expr),
    IntExpr(i32),
    VarExpr(Name),
    // Types
    ArrayType(Type),
    BoolType,
    IntType(bool, u8),
    NullType,
    RecordType(Vec<(Type, Name)>),
    ReferenceType(Type),
    VoidType,
}

/// The mathematical value of a [`Node`]: text as a sequence of characters,
/// lists as sequences.
pub enum NodeView {
    Utf8(Seq<char>),
    TypeDecl(Name, Type),
    MethodDecl(Name, Type, Seq<Parameter>, Stmt),
    AssertStmt(Expr),
    BlockStmt(Seq<Stmt>),
    SkipStmt,
    BoolExpr(bool),
    EqualsExpr(Expr, Expr),
    NotEqualsExpr(Expr, Expr),
    LessThanExpr(Expr, Expr),
    IntExpr(i32),
    VarExpr(Name),
    ArrayType(Type),
    BoolType,
    IntType(bool, u8),
    NullType,
    RecordType(Seq<(Type, Name)>),
    ReferenceType(Type),
    VoidType,
}

impl View for Node {
    type V = NodeView;

    open spec fn view(&self) -> NodeView {
        match self {
            Node::Utf8(s) => NodeView::Utf8(s@),
            Node::TypeDecl(n, t) => NodeView::TypeDecl(*n, *t),
            Node::MethodDecl(n, r, ps, b) => NodeView::MethodDecl(*n, *r, ps@, *b),
            Node::AssertStmt(e) => NodeView::AssertStmt(*e),
            Node::BlockStmt(ss) => NodeView::BlockStmt(ss@),
            Node::SkipStmt => NodeView::SkipStmt,
            Node::BoolExpr(b) => NodeView::BoolExpr(*b),
            Node::EqualsExpr(l, r) => NodeView::EqualsExpr(*l, *r),
            Node::NotEqualsExpr(l, r) => NodeView::NotEqualsExpr(*l, *r),
            Node::LessThanExpr(l, r) => NodeView::LessThanExpr(*l, *r),
            Node::IntExpr(i) => NodeView::IntExpr(*i),
            Node::VarExpr(n) => NodeView::VarExpr(*n),
            Node::ArrayType(t) => NodeView::ArrayType(*t),
            Node::BoolType => NodeView::BoolType,
            Node::IntType(s, w) => NodeView::IntType(*s, *w),
            Node::NullType => NodeView::NullType,
            Node::RecordType(fs) => NodeView::RecordType(fs@),
            Node::ReferenceType(t) => NodeView::ReferenceType(*t),
            Node::VoidType => NodeView::VoidType,
        }
    }
}

/// A node is a declaration.
pub open spec fn is_decl(n: NodeView) -> bool {
    n is TypeDecl || n is MethodDecl
}

/// A node is a statement.
pub open spec fn is_stmt(n: NodeView) -> bool {
    n is AssertStmt || n is BlockStmt || n is SkipStmt
}

/// A node is an expression.
pub open spec fn is_expr(n: NodeView) -> bool {
    n is BoolExpr || n is EqualsExpr || n is LessThanExpr || n is NotEqualsExpr || n is IntExpr
        || n is VarExpr
}

/// A node is a type all of whose components lie below `bound` in the arena
/// and are themselves types: a primitive, an array or reference of a type, or
/// a record every field of which has a type.
pub open spec fn is_type(arena: Seq<NodeView>, n: NodeView, bound: int) -> bool
    decreases bound, 0int,
{
    match n {
        NodeView::BoolType => true,
        NodeView::IntType(_, _) => true,
        NodeView::NullType => true,
        NodeView::VoidType => true,
        NodeView::ArrayType(t) => t.0 < bound && type_at(arena, t.0 as int),
        NodeView::ReferenceType(t) => t.0 < bound && type_at(arena, t.0 as int),
        NodeView::RecordType(fs) => forall|i: int|
            0 <= i < fs.len() ==> (#[trigger] fs[i]).0.0 < bound && type_at(
                arena,
                fs[i].0.0 as int,
            ),
        _ => false,
    }
}

/// The node at `index` of the arena is a type (see [`is_type`]).
pub open spec fn type_at(arena: Seq<NodeView>, index: int) -> bool
    decreases index, 1int,
{
    0 <= index < arena.len() && is_type(arena, arena[index], index)
}

/// A node made of types of an arena is made of types of any arena which
/// begins with that one.
pub proof fn lemma_is_type_grows(
    arena: Seq<NodeView>,
    more: Seq<NodeView>,
    node: NodeView,
    bound: int,
)
    requires
        is_type(arena, node, bound),
    ensures
        is_type(arena + more, node, bound),
    decreases bound, 0int,
{
    let grown = arena + more;
    match node {
        NodeView::ArrayType(t) => {
            lemma_type_at_grows(arena, more, t.0 as int);
        },
        NodeView::ReferenceType(t) => {
            lemma_type_at_grows(arena, more, t.0 as int);
        },
        NodeView::RecordType(fs) => {
            assert forall|i: int| 0 <= i < fs.len() implies (#[trigger] fs[i]).0.0 < bound
                && type_at(grown, fs[i].0.0 as int) by {
                lemma_type_at_grows(arena, more, fs[i].0.0 as int);
            }
        },
        _ => {},
    }
}

/// A type stays a type when further nodes are appended to the arena.
pub proof fn lemma_type_at_grows(arena: Seq<NodeView>, more: Seq<NodeView>, index: int)
    requires
        type_at(arena, index),
    ensures
        type_at(arena + more, index),
    decreases index, 1int,
{
    assert((arena + more)[index] == arena[index]);
    lemma_is_type_grows(arena, more, arena[index], index);
}

/// Every type of an arena is a type of any arena which begins with it.
pub proof fn lemma_types_grow(arena: Seq<NodeView>, more: Seq<NodeView>)
    ensures
        forall|i: int| type_at(arena, i) ==> #[trigger] type_at(arena + more, i),
{
    assert forall|i: int| type_at(arena, i) implies #[trigger] type_at(arena + more, i) by {
        lemma_type_at_grows(arena, more, i);
    }
}

/// Every type of an arena is a type of any arena which that one is the
/// beginning of.
pub proof fn lemma_types_kept(before: Seq<NodeView>, later: Seq<NodeView>)
    requires
        before.len() <= later.len(),
        later.subrange(0, before.len() as int) =~= before,
    ensures
        forall|i: int| #[trigger] type_at(before, i) ==> type_at(later, i),
{
    let more = later.subrange(before.len() as int, later.len() as int);
    assert(later =~= before + more);
    lemma_types_grow(before, more);
}

/// Every field of a list has a type of the arena.
#[verifier::opaque]
pub open spec fn fields_typed(arena: Seq<NodeView>, fields: Seq<(Type, Name)>) -> bool {
    forall|k: int| 0 <= k < fields.len() ==> type_at(arena, (#[trigger] fields[k]).0.0 as int)
}

/// The fields stay typed when the arena has grown, and so does the list
/// with one more field, whose type was read while the arena grew.
pub proof fn lemma_field_added(
    before: Seq<NodeView>,
    typed: Seq<NodeView>,
    later: Seq<NodeView>,
    fields: Seq<(Type, Name)>,
    t: Type,
    n: Name,
)
    requires
        fields_typed(before, fields),
        type_at(typed, t.0 as int),
        before.len() <= later.len(),
        later.subrange(0, before.len() as int) =~= before,
        typed.len() <= later.len(),
        later.subrange(0, typed.len() as int) =~= typed,
    ensures
        fields_typed(later, fields.push((t, n))),
{
    reveal(fields_typed);
    lemma_types_kept(before, later);
    lemma_types_kept(typed, later);
    let all = fields.push((t, n));
    assert forall|k: int| 0 <= k < all.len() implies type_at(
        later,
        (#[trigger] all[k]).0.0 as int,
    ) by {
        if k < fields.len() {
            assert(all[k] == fields[k]);
            assert(type_at(before, fields[k].0.0 as int));
        }
    }
}

/// A record whose fields have types of the arena can be appended to it as a
/// type.
pub proof fn lemma_record_is_type(arena: Seq<NodeView>, fields: Seq<(Type, Name)>)
    requires
        fields_typed(arena, fields),
    ensures
        is_type(arena, NodeView::RecordType(fields), arena.len() as int),
{
    reveal(fields_typed);
}

// =============================================================================
// Declarations
// =============================================================================

/// The handle of a declaration.
#[derive(Clone, Copy, Debug, PartialEq, Eq, Structural)]
pub struct Decl {
    pub index: usize,
}

/// Represents a parameter declaration in the source of a given method.
#[derive(Clone, Copy, Debug, PartialEq, Eq, Structural)]
pub struct Parameter {
    pub declared: Type,
    pub name: Name,
}

impl Decl {
    /// Append a declaration to the arena and hand back its handle.
    pub fn new(ast: &mut AbstractSyntaxTree, t: Node) -> (d: Self)
        requires
            is_decl(t@),
        ensures
            nodes(*final(ast)) == nodes(*old(ast)).push(t@),
            d.index == nodes(*old(ast)).len(),
    {
        Decl::from(heap_push(ast, t))
    }

    /// Determine whether a given term is a declaration or not.
    pub fn is(t: &Node) -> (b: bool)
        ensures
            b == is_decl(t@),
    {
        match t {
            Node::MethodDecl(_, _, _, _) => true,
            Node::TypeDecl(_, _) => true,
            _ => false,
        }
    }
}

// =============================================================================
// Statements
// =============================================================================

/// The handle of a statement.
#[derive(Clone, Copy, Debug, PartialEq, Eq, Structural)]
pub struct Stmt {
    pub index: usize,
}

impl Stmt {
    /// Append a statement to the arena and hand back its handle.
    pub fn new(ast: &mut AbstractSyntaxTree, t: Node) -> (s: Self)
        requires
            is_stmt(t@),
        ensures
            nodes(*final(ast)) == nodes(*old(ast)).push(t@),
            s.index == nodes(*old(ast)).len(),
    {
        Stmt::from(heap_push(ast, t))
    }

    /// Determine whether a given term is a statement or not.
    pub fn is(t: &Node) -> (b: bool)
        ensures
            b == is_stmt(t@),
    {
        match t {
            Node::AssertStmt(_) => true,
            Node::BlockStmt(_) => true,
            Node::SkipStmt => true,
            _ => false,
        }
    }
}

// =============================================================================
// Expressions
// =============================================================================

/// The handle of an expression.
#[derive(Clone, Copy, Debug, PartialEq, Eq, Structural)]
pub struct Expr {
    pub index: usize,
}

impl Expr {
    /// Append an expression to the arena and hand back its handle.
    pub fn new(ast: &mut AbstractSyntaxTree, t: Node) -> (e: Self)
        requires
            is_expr(t@),
        ensures
            nodes(*final(ast)) == nodes(*old(ast)).push(t@),
            e.index == nodes(*old(ast)).len(),
    {
        let index: usize = index_of(&heap_push(ast, t));
        Expr { index }
    }

    /// Determine whether a given term is an expression or not.
    pub fn is(t: &Node) -> (b: bool)
        ensures
            b == is_expr(t@),
    {
        match t {
            Node::BoolExpr(_) => true,
            Node::EqualsExpr(_, _) => true,
            Node::LessThanExpr(_, _) => true,
            Node::NotEqualsExpr(_, _) => true,
            Node::IntExpr(_) => true,
            Node::VarExpr(_) => true,
            _ => false,
        }
    }
}

// =============================================================================
// Types
// =============================================================================

/// The handle of a type.
#[derive(Clone, Copy, Debug, PartialEq, Eq, Structural)]
pub struct Type(pub usize);

impl Type {
    /// Append a type to the arena and hand back its handle.
    pub fn new(ast: &mut AbstractSyntaxTree, t: Node) -> (r: Self)
        requires
            is_type(nodes(*old(ast)), t@, nodes(*old(ast)).len() as int),
        ensures
            nodes(*final(ast)) == nodes(*old(ast)).push(t@),
            r.0 == nodes(*old(ast)).len(),
            type_at(nodes(*final(ast)), r.0 as int),
    {
        let ghost before = nodes(*ast);
        let ghost node = t@;
        let r = Type::from(heap_push(ast, t));
        proof {
            lemma_is_type_grows(before, seq![node], node, before.len() as int);
            assert(before + seq![node] =~= before.push(node));
        }
        r
    }

    /// Determine whether a given term is a type (or not), looking through the
    /// arena at what an array, a reference or a record is made of.
    pub fn is(ast: &AbstractSyntaxTree, t: &Node) -> (b: bool)
        ensures
            b == is_type(nodes(*ast), t@, nodes(*ast).len() as int),
    {
        let bound: usize = heap_len(ast);
        Type::is_below(ast, t, bound)
    }

    fn is_below(ast: &AbstractSyntaxTree, t: &Node, bound: usize) -> (b: bool)
        requires
            bound <= nodes(*ast).len(),
        ensures
            b == is_type(nodes(*ast), t@, bound as int),
        decreases bound, 0int,
    {
        match t {
            Node::BoolType => true,
            Node::IntType(_, _) => true,
            Node::NullType => true,
            Node::VoidType => true,
            Node::ArrayType(t) => t.0 < bound && Type::is_at(ast, t.0),
            Node::ReferenceType(t) => t.0 < bound && Type::is_at(ast, t.0),
            Node::RecordType(fs) => {
                let mut i: usize = 0;
                while i < fs.len()
                    invariant
                        i <= fs.len(),
                        bound <= nodes(*ast).len(),
                        t@ == NodeView::RecordType(fs@),
                        forall|j: int|
                            0 <= j < i ==> (#[trigger] fs@[j]).0.0 < bound && type_at(
                                nodes(*ast),
                                fs@[j].0.0 as int,
                            ),
                    decreases fs.len() - i,
                {
                    let field: Type = fs[i].0;
                    if !(field.0 < bound && Type::is_at(ast, field.0)) {
                        assert(t@->RecordType_0[i as int].0 == field);
                        return false;
                    }
                    i = i + 1;
                }
                true
            },
            _ => false,
        }
    }

    /// Determine whether the node at a given index is a type (or not).
    pub(crate) fn is_at(ast: &AbstractSyntaxTree, index: usize) -> (b: bool)
        requires
            index < nodes(*ast).len(),
        ensures
            b == type_at(nodes(*ast), index as int),
        decreases index, 1int,
    {
        Type::is_below(ast, heap_get(ast, index), index)
    }
}

// =============================================================================
// Names
// =============================================================================

/// The handle of a name.
#[derive(Clone, Copy, Debug, Hash, PartialEq, Eq, Structural)]
pub struct Name(pub usize);

impl Name {
    /// Append an identifier to the arena, as a node of its own, and hand back
    /// its handle.
    pub fn new(ast: &mut AbstractSyntaxTree, s: &str) -> (n: Self)
        ensures
            nodes(*final(ast)) == nodes(*old(ast)).push(NodeView::Utf8(s@)),
            n.0 == nodes(*old(ast)).len(),
    {
        let node = Node::Utf8(s.to_owned());
        Name::from(heap_push(ast, node))
    }
}

// =============================================================================
// Conversions
// =============================================================================

impl From<Ref<'_, Node>> for Decl {
    /// The handle of a declaration, for a reference into the arena.  Which
    /// category the node has is not looked at.
    fn from(r: Ref<'_, Node>) -> (d: Decl) {
        Decl { index: index_of(&r) }
    }
}

impl vstd::std_specs::convert::FromSpecImpl<Ref<'_, Node>> for Decl {
    open spec fn obeys_from_spec() -> bool {
        true
    }

    open spec fn from_spec(r: Ref<'_, Node>) -> Decl {
        Decl { index: raw_index(r) }
    }
}

impl From<Ref<'_, Node>> for Stmt {
    /// The handle of a statement, for a reference into the arena.  Which
    /// category the node has is not looked at.
    fn from(r: Ref<'_, Node>) -> (s: Stmt) {
        Stmt { index: index_of(&r) }
    }
}

impl vstd::std_specs::convert::FromSpecImpl<Ref<'_, Node>> for Stmt {
    open spec fn obeys_from_spec() -> bool {
        true
    }

    open spec fn from_spec(r: Ref<'_, Node>) -> Stmt {
        Stmt { index: raw_index(r) }
    }
}

impl From<Ref<'_, Node>> for Type {
    /// The handle of a type, for a reference into the arena.  Which
    /// category the node has is not looked at.
    fn from(r: Ref<'_, Node>) -> (t: Type) {
        Type(index_of(&r))
    }
}

impl vstd::std_specs::convert::FromSpecImpl<Ref<'_, Node>> for Type {
    open spec fn obeys_from_spec() -> bool {
        true
    }

    open spec fn from_spec(r: Ref<'_, Node>) -> Type {
        Type(raw_index(r))
    }
}

impl From<Ref<'_, Node>> for Name {
    /// The handle of a name, for a reference into the arena.  Which
    /// category the node has is not looked at.
    fn from(r: Ref<'_, Node>) -> (n: Name) {
        Name(index_of(&r))
    }
}

impl vstd::std_specs::convert::FromSpecImpl<Ref<'_, Node>> for Name {
    open spec fn obeys_from_spec() -> bool {
        true
    }

    open spec fn from_spec(r: Ref<'_, Node>) -> Name {
        Name(raw_index(r))
    }
}

} // verus!
