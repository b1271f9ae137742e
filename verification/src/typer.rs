// The type checker: one depth-first walk over a declaration, which reads the
// arena and never changes it.  The names in scope are kept in an environment
// which is copied, then extended, where a method's body is entered.

use crate::ast::{
    heap_get, heap_len, nodes, AbstractSyntaxTree, Decl, Expr, Name, Node, NodeView, Parameter,
    Stmt, Type,
};
use crate::error::{
    expected_subtype, internal_failure, variable_not_found, SyntaxError, SyntaxErrorView,
};
use crate::typing;
use crate::typing::{ExprType, Scope};
use vstd::prelude::*;

verus! {

// =================================================================
// Error
// =================================================================

/// What a check hands back.
pub type Result<T> = std::result::Result<T, SyntaxError>;

/// What a check handed back, as a mathematical value.
pub open spec fn verdict<T>(r: Result<T>) -> std::result::Result<T, SyntaxErrorView> {
    match r {
        Ok(value) => Ok(value),
        Err(e) => Err(e@),
    }
}

// =================================================================
// Environment
// =================================================================

/// The scope which bindings made one after the other amount to: a later
/// binding of a name hides an earlier one.
pub open spec fn bindings(entries: Seq<(String, Type)>) -> Scope
    decreases entries.len(),
{
    if entries.len() == 0 {
        Map::empty()
    } else {
        bindings(entries.drop_last()).insert(entries.last().0@, entries.last().1)
    }
}

proof fn lemma_bound(entries: Seq<(String, Type)>, name: Seq<char>, i: int)
    requires
        0 <= i < entries.len(),
        entries[i].0@ == name,
        forall|j: int| i < j < entries.len() ==> (#[trigger] entries[j]).0@ != name,
    ensures
        bindings(entries).contains_key(name),
        bindings(entries)[name] == entries[i].1,
    decreases entries.len(),
{
    if i < entries.len() - 1 {
        let front = entries.drop_last();
        assert(entries.last() == entries[entries.len() - 1]);
        assert forall|j: int| i < j < front.len() implies (#[trigger] front[j]).0@ != name by {
            assert(front[j] == entries[j]);
        }
        lemma_bound(front, name, i);
    }
}

proof fn lemma_unbound(entries: Seq<(String, Type)>, name: Seq<char>)
    requires
        forall|j: int| 0 <= j < entries.len() ==> (#[trigger] entries[j]).0@ != name,
    ensures
        !bindings(entries).contains_key(name),
    decreases entries.len(),
{
    if entries.len() > 0 {
        let front = entries.drop_last();
        assert(entries.last() == entries[entries.len() - 1]);
        assert forall|j: int| 0 <= j < front.len() implies (#[trigger] front[j]).0@ != name by {
            assert(front[j] == entries[j]);
        }
        lemma_unbound(front, name);
    }
}

/// The typing environment maps the names in scope to their types.
pub struct Env {
    entries: Vec<(String, Type)>,
}

impl Env {
    /// The names in scope, each with its type.
    pub closed spec fn view(&self) -> Scope {
        bindings(self.entries@)
    }

    /// An environment in which no name is bound.
    pub fn new() -> (env: Self)
        ensures
            env@ == Map::<Seq<char>, Type>::empty(),
    {
        Env { entries: Vec::new() }
    }

    /// Bind a name to a type, in place of what it was bound to before.
    pub fn insert(&mut self, name: String, t: Type)
        ensures
            final(self)@ == old(self)@.insert(name@, t),
    {
        let ghost before = self.entries@;
        self.entries.push((name, t));
        assert(self.entries@.drop_last() =~= before);
    }

    /// The type which a name is bound to, if it is bound.
    pub fn get(&self, name: &String) -> (t: Option<Type>)
        ensures
            t == (if self@.contains_key(name@) {
                Some(self@[name@])
            } else {
                None
            }),
    {
        let mut i: usize = self.entries.len();
        while i > 0
            invariant
                i <= self.entries@.len(),
                forall|j: int|
                    i <= j < self.entries@.len() ==> (#[trigger] self.entries@[j]).0@ != name@,
            decreases i,
        {
            i = i - 1;
            if self.entries[i].0 == *name {
                proof {
                    lemma_bound(self.entries@, name@, i as int);
                }
                return Some(self.entries[i].1);
            }
        }
        proof {
            lemma_unbound(self.entries@, name@);
        }
        None
    }

    /// A copy of the environment, which can be extended on its own.
    pub fn clone(&self) -> (env: Self)
        ensures
            env@ == self@,
    {
        let mut entries: Vec<(String, Type)> = Vec::new();
        let mut i: usize = 0;
        while i < self.entries.len()
            invariant
                i <= self.entries@.len(),
                entries@ =~= self.entries@.subrange(0, i as int),
            decreases self.entries@.len() - i,
        {
            entries.push((self.entries[i].0.clone(), self.entries[i].1));
            i = i + 1;
        }
        assert(self.entries@.subrange(0, i as int) =~= self.entries@);
        Env { entries }
    }
}

// =================================================================
// Type Checker
// =================================================================

/// Responsible for determine appropriate types for all statements and
/// expressions used within a given AST.
pub struct TypeChecker<'a, F> where F: FnMut(usize, Type) {
    ast: &'a AbstractSyntaxTree,
    globals: Env,
    mapper: F,
}

impl<'a, F> TypeChecker<'a, F> where F: FnMut(usize, Type) {
    /// The nodes of the arena which are read.
    pub closed spec fn arena(&self) -> Seq<NodeView> {
        nodes(*self.ast)
    }

    /// The names bound outside every method.
    pub closed spec fn globals(&self) -> Scope {
        self.globals@
    }

    /// A type checker over an arena, with no name bound.
    pub fn new(ast: &'a AbstractSyntaxTree, mapper: F) -> (checker: Self)
        ensures
            checker.arena() == nodes(*ast),
            checker.globals() == Map::<Seq<char>, Type>::empty(),
    {
        let globals = Env::new();
        TypeChecker { ast, globals, mapper }
    }

    // Declarations
    // -----------------------------------------------------------------
    /// Check a declaration.
    pub fn check(&self, d: Decl) -> (r: Result<()>)
        ensures
            verdict(r) == typing::check(self.arena(), self.globals(), d),
    {
        if d.index >= heap_len(self.ast) {
            return Err(internal_failure(d.index, "unknown declaration"));
        }
        let n = heap_get(self.ast, d.index);
        //
        match n {
            Node::TypeDecl(name, alias) => self.check_type_alias(*name, *alias),
            Node::MethodDecl(name, ret, params, body) => self.check_method_with(params, *body),
            _ => Err(internal_failure(d.index, "unknown declaration")),
        }
    }

    /// Check a type declaration: the type it gives a name to must make sense.
    pub fn check_type_alias(&self, name: Name, alias: Type) -> (r: Result<()>)
        ensures
            verdict(r) == typing::check_type_alias(self.arena(), alias),
    {
        // Sanity check alias type
        self.check_type(&alias)?;
        // Done!
        Ok(())
    }

    /// Check a method declaration: its body is checked with its parameters
    /// bound, in that order, to their declared types.
    pub fn check_method(&self, name: Name, ret: Type, params: Vec<Parameter>, body: Stmt) -> (r:
        Result<()>)
        ensures
            verdict(r) == typing::check_method(self.arena(), self.globals(), params@, body),
    {
        self.check_method_with(&params, body)
    }

    /// See [`TypeChecker::check_method`].
    fn check_method_with(&self, params: &Vec<Parameter>, body: Stmt) -> (r: Result<()>)
        ensures
            verdict(r) == typing::check_method(self.arena(), self.globals(), params@, body),
    {
        // Clone environment, since we're going to update it.
        let mut env = self.globals.clone();
        let ghost goal = typing::bind(self.arena(), self.globals(), params@);
        // Allocate parameters into environment
        let mut i: usize = 0;
        assert(params@.skip(0) =~= params@);
        while i < params.len()
            invariant
                i <= params@.len(),
                goal == typing::bind(self.arena(), self.globals(), params@),
                goal == typing::bind(self.arena(), env@, params@.skip(i as int)),
            decreases params@.len() - i,
        {
            let p = params[i];
            proof {
                assert(params@.skip(i as int)[0] == p);
                assert(params@.skip(i as int).drop_first() =~= params@.skip(i + 1));
            }
            match self.name_of(p.name) {
                Some(text) => {
                    env.insert(text.clone(), p.declared);
                },
                None => {
                    return Err(internal_failure(p.name.0, "unknown name"));
                },
            }
            i = i + 1;
        }
        // Check the body
        self.check_stmt(&env, body)?;
        // Done
        Ok(())
    }

    // Statements
    // -----------------------------------------------------------------
    /// Check a given statement makes sense.  More specifically, that
    /// all expressions are used in a type-safe fashion.  For example,
    /// a statement `assert 1;` is not type safe.
    pub fn check_stmt(&self, env: &Env, stmt: Stmt) -> (r: Result<()>)
        ensures
            verdict(r) == typing::check_stmt(self.arena(), env@, stmt),
        decreases stmt.index + 1, 0int,
    {
        if stmt.index >= heap_len(self.ast) {
            return Err(internal_failure(stmt.index, "unknown statement"));
        }
        let n = heap_get(self.ast, stmt.index);
        //
        match n {
            Node::AssertStmt(cond) => self.check_assert(env, *cond),
            Node::BlockStmt(stmts) => self.check_block_below(env, stmts, stmt.index),
            Node::SkipStmt => self.check_skip(env),
            _ => Err(internal_failure(stmt.index, "unknown statement")),
        }
    }

    /// Check `assert`: its condition must be boolean.
    pub fn check_assert(&self, env: &Env, cond: Expr) -> (r: Result<()>)
        ensures
            verdict(r) == typing::check_assert(self.arena(), env@, cond),
    {
        let t = self.check_expr(env, cond)?;
        // Ensure boolean condition
        if self.is_bool(t) {
            Ok(())
        } else {
            Err(expected_subtype(cond.index))
        }
    }

    /// Check statements one after the other, up to the first which fails.
    pub fn check_block(&self, env: &Env, stmts: Vec<Stmt>) -> (r: Result<()>)
        ensures
            verdict(r) == typing::check_block(
                self.arena(),
                env@,
                stmts@,
                self.arena().len() as int,
            ),
    {
        let limit: usize = heap_len(self.ast);
        self.check_block_below(env, &stmts, limit)
    }

    /// Check statements one after the other, each of which must lie below
    /// `limit` in the arena.
    fn check_block_below(&self, env: &Env, stmts: &Vec<Stmt>, limit: usize) -> (r: Result<()>)
        ensures
            verdict(r) == typing::check_block(self.arena(), env@, stmts@, limit as int),
        decreases limit, 1int,
    {
        let ghost goal = typing::check_block(self.arena(), env@, stmts@, limit as int);
        let mut i: usize = 0;
        assert(stmts@.skip(0) =~= stmts@);
        while i < stmts.len()
            invariant
                i <= stmts@.len(),
                goal == typing::check_block(self.arena(), env@, stmts@, limit as int),
                goal == typing::check_block(
                    self.arena(),
                    env@,
                    stmts@.skip(i as int),
                    limit as int,
                ),
            decreases stmts@.len() - i,
        {
            let stmt = stmts[i];
            proof {
                assert(stmts@.skip(i as int)[0] == stmt);
                assert(stmts@.skip(i as int).drop_first() =~= stmts@.skip(i + 1));
            }
            if stmt.index >= limit {
                return Err(internal_failure(stmt.index, "unknown statement"));
            }
            self.check_stmt(env, stmt)?;
            i = i + 1;
        }
        Ok(())
    }

    /// Check `skip`, which is always well typed.
    pub fn check_skip(&self, env: &Env) -> (r: Result<()>)
        ensures
            r is Ok,
    {
        Ok(())
    }

    // Expressions
    // -----------------------------------------------------------------
    /// Determine the type of an expression.
    pub fn check_expr(&self, env: &Env, expr: Expr) -> (r: Result<ExprType>)
        ensures
            verdict(r) == typing::check_expr(self.arena(), env@, expr),
        decreases expr.index, 0int,
    {
        if expr.index >= heap_len(self.ast) {
            return Err(internal_failure(expr.index, "unknown expression"));
        }
        let n = heap_get(self.ast, expr.index);
        //
        match n {
            Node::BoolExpr(lit) => self.check_boolean_literal(env, *lit),
            Node::IntExpr(lit) => self.check_integer_literal(env, *lit),
            Node::LessThanExpr(lhs, rhs) => {
                if lhs.index < expr.index && rhs.index < expr.index {
                    self.check_lessthan_comparator(env, *lhs, *rhs)
                } else {
                    Err(internal_failure(expr.index, "unknown expression"))
                }
            },
            Node::VarExpr(name) => {
                let t = self.check_variable_access(env, expr.index, *name)?;
                Ok(ExprType::Declared(t))
            },
            _ => Err(internal_failure(expr.index, "unknown expression")),
        }
    }

    /// Determine the type of `true` and `false`.
    pub fn check_boolean_literal(&self, env: &Env, literal: bool) -> (r: Result<ExprType>)
        ensures
            r == Ok::<ExprType, SyntaxError>(ExprType::Bool),
    {
        Ok(ExprType::Bool)
    }

    /// Determine the type of a number: every integer literal has 32 bits and
    /// a sign, whatever its value and wherever it stands.
    pub fn check_integer_literal(&self, env: &Env, literal: i32) -> (r: Result<ExprType>)
        ensures
            r == Ok::<ExprType, SyntaxError>(ExprType::Int(true, 32)),
    {
        // Every integer literal is a signed integer of 32 bits.
        Ok(ExprType::Int(true, 32))
    }

    /// Determine the type of `lhs < rhs`: the left operand must have an
    /// integer type and the right operand a type of the same structure.
    pub fn check_lessthan_comparator(&self, env: &Env, lhs: Expr, rhs: Expr) -> (r: Result<
        ExprType,
    >)
        ensures
            verdict(r) == typing::check_lessthan_comparator(self.arena(), env@, lhs, rhs),
        decreases typing::higher(lhs, rhs), 1int,
    {
        let lhs_t = self.check_expr(env, lhs)?;
        let rhs_t = self.check_expr(env, rhs)?;
        // Check lhs is integer (of some kind)
        match self.int_of(lhs_t) {
            None => Err(expected_subtype(lhs.index)),
            Some((signed, width)) => {
                // Check rhs has matching type
                match self.int_of(rhs_t) {
                    None => Err(expected_subtype(rhs.index)),
                    Some((s, w)) => {
                        if s == signed && w == width {
                            Ok(ExprType::Bool)
                        } else {
                            Err(expected_subtype(rhs.index))
                        }
                    },
                }
            },
        }
    }

    /// Determine the type of a variable, looked up by the text of its name;
    /// a name which is not bound is an error on the node `at`.
    pub fn check_variable_access(&self, env: &Env, at: usize, name: Name) -> (r: Result<Type>)
        ensures
            verdict(r) == typing::check_variable_access(self.arena(), env@, at, name),
    {
        match self.name_of(name) {
            None => Err(internal_failure(name.0, "unknown name")),
            Some(text) => {
                let r = env.get(text);
                //
                match r {
                    Some(t) => Ok(t),
                    None => Err(variable_not_found(at)),
                }
            },
        }
    }

    // Types
    // -----------------------------------------------------------------
    /// Check a declared type makes sense: that every primitive it is made
    /// of is one, and that the components of every compound are types.
    pub fn check_type(&self, t: &Type) -> (r: Result<()>)
        ensures
            verdict(r) == typing::check_type(self.arena(), *t),
    {
        if t.0 < heap_len(self.ast) && Type::is_at(self.ast, t.0) {
            Ok(())
        } else {
            Err(internal_failure(t.0, "unknown type"))
        }
    }

    /// Check two types have identical structure.
    pub fn check_matching_types(&self, t1: &Type, t2: &Type) -> (r: Result<()>)
        ensures
            verdict(r) == typing::check_matching_types(self.arena(), *t1, *t2),
    {
        if self.matching(*t1, *t2) {
            Ok(())
        } else {
            Err(expected_subtype(t2.0))
        }
    }

    /// Check a given type is a boolean type.
    pub fn check_bool_type(&self, t: Type) -> (r: Result<()>)
        ensures
            verdict(r) == typing::check_bool_type(self.arena(), t),
    {
        if self.is_bool(ExprType::Declared(t)) {
            Ok(())
        } else {
            Err(expected_subtype(t.0))
        }
    }

    /// Check a given type is an integer type.
    pub fn check_int_type(&self, t: Type) -> (r: Result<()>)
        ensures
            verdict(r) == typing::check_int_type(self.arena(), t),
    {
        match self.int_of(ExprType::Declared(t)) {
            Some(_) => Ok(()),
            None => Err(expected_subtype(t.0)),
        }
    }

    // Helpers
    // -----------------------------------------------------------------
    /// The text of an identifier, where the handle leads to one.
    fn name_of(&self, name: Name) -> (text: Option<&String>)
        ensures
            match text {
                Some(s) => typing::name_text(self.arena(), name) == Some(s@),
                None => typing::name_text(self.arena(), name) is None,
            },
    {
        if name.0 >= heap_len(self.ast) {
            return None;
        }
        match heap_get(self.ast, name.0) {
            Node::Utf8(s) => Some(s),
            _ => None,
        }
    }

    /// Whether the type of an expression is the boolean type.
    fn is_bool(&self, t: ExprType) -> (b: bool)
        ensures
            b == typing::is_bool(self.arena(), t),
    {
        match t {
            ExprType::Bool => true,
            ExprType::Int(_, _) => false,
            ExprType::Declared(h) => {
                if h.0 >= heap_len(self.ast) {
                    return false;
                }
                match heap_get(self.ast, h.0) {
                    Node::BoolType => true,
                    _ => false,
                }
            },
        }
    }

    /// The sign and width of the type of an expression, where that is an
    /// integer type.
    fn int_of(&self, t: ExprType) -> (r: Option<(bool, u8)>)
        ensures
            match r {
                Some((signed, width)) => typing::root(self.arena(), t) == Some(
                    NodeView::IntType(signed, width),
                ),
                None => !typing::is_int(self.arena(), t),
            },
    {
        match t {
            ExprType::Bool => None,
            ExprType::Int(signed, width) => Some((signed, width)),
            ExprType::Declared(h) => {
                if h.0 >= heap_len(self.ast) {
                    return None;
                }
                match heap_get(self.ast, h.0) {
                    Node::IntType(signed, width) => Some((*signed, *width)),
                    _ => None,
                }
            },
        }
    }

    /// Whether two names have the same text.
    fn same_name(&self, a: Name, b: Name) -> (same: bool)
        ensures
            same == (typing::name_text(self.arena(), a) is Some && typing::name_text(
                self.arena(),
                a,
            ) == typing::name_text(self.arena(), b)),
    {
        match self.name_of(a) {
            None => false,
            Some(s) => match self.name_of(b) {
                None => false,
                Some(t) => *s == *t,
            },
        }
    }

    /// Whether two types have the same structure.
    fn matching(&self, a: Type, b: Type) -> (same: bool)
        ensures
            same == typing::types_match(self.arena(), a, b),
        decreases a.0,
    {
        let len: usize = heap_len(self.ast);
        if a.0 >= len || b.0 >= len {
            return false;
        }
        let n1: &Node = heap_get(self.ast, a.0);
        let n2: &Node = heap_get(self.ast, b.0);
        //
        match (n1, n2) {
            // Primitives all fine
            (Node::BoolType, Node::BoolType) => true,
            (Node::NullType, Node::NullType) => true,
            (Node::IntType(b1, w1), Node::IntType(b2, w2)) => *b1 == *b2 && *w1 == *w2,
            (Node::VoidType, Node::VoidType) => true,
            // Compounds depend on elements
            (Node::ArrayType(e1), Node::ArrayType(e2)) => e1.0 < a.0 && e2.0 < b.0
                && self.matching(*e1, *e2),
            (Node::ReferenceType(e1), Node::ReferenceType(e2)) => e1.0 < a.0 && e2.0 < b.0
                && self.matching(*e1, *e2),
            (Node::RecordType(f1), Node::RecordType(f2)) => {
                if f1.len() != f2.len() {
                    return false;
                }
                let mut i: usize = 0;
                while i < f1.len()
                    invariant
                        i <= f1@.len(),
                        f1@.len() == f2@.len(),
                        a.0 < self.arena().len(),
                        b.0 < self.arena().len(),
                        self.arena()[a.0 as int] == NodeView::RecordType(f1@),
                        self.arena()[b.0 as int] == NodeView::RecordType(f2@),
                        forall|j: int|
                            0 <= j < i ==> typing::fields_match(
                                self.arena(),
                                #[trigger] f1@[j],
                                f2@[j],
                                a.0 as int,
                                b.0 as int,
                            ),
                    decreases f1@.len() - i,
                {
                    let f = f1[i];
                    let g = f2[i];
                    if !(f.0.0 < a.0 && g.0.0 < b.0 && self.matching(f.0, g.0) && self.same_name(
                        f.1,
                        g.1,
                    )) {
                        assert(!typing::fields_match(
                            self.arena(),
                            f1@[i as int],
                            f2@[i as int],
                            a.0 as int,
                            b.0 as int,
                        ));
                        return false;
                    }
                    i = i + 1;
                }
                true
            },
            _ => false,
        }
    }
}

} // verus!
