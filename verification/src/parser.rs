// The parser: recursive descent over the tokens of the lexer, one procedure for
// each production of the grammar, which appends the nodes of what it reads to
// the arena.

use crate::ast::{
    fields_typed, lemma_field_added, lemma_record_is_type, nodes, type_at, AbstractSyntaxTree,
    Decl, Expr, Name, Node, NodeView, Parameter, Stmt, Type,
};
use crate::grammar;
use crate::grammar::{ErrorView, Parsed};
use crate::lexer::{first, rest, tokenize, Lexer, Token, TokenType, TokenView};
use vstd::prelude::*;

verus! {

// =================================================================
// Error
// =================================================================

/// Identifies possible errors stemming from the parser.
#[derive(Debug)]
pub struct Error {
    pub start: usize,
    pub end: usize,
    pub message: &'static str,
}

/// What a production hands back: a handle, or the error which ended it.
pub type Result<T> = std::result::Result<T, Error>;

impl View for Error {
    type V = ErrorView;

    open spec fn view(&self) -> ErrorView {
        ErrorView { start: self.start as int, end: self.end as int, message: self.message@ }
    }
}

impl Error {
    /// The error which a diagnostic on a given token makes.
    pub fn new<'a>(tok: Token<'a>, message: &'static str) -> (e: Error)
        requires
            tok@.end() <= usize::MAX,
        ensures
            e@ == grammar::error_at(tok@, message@),
    {
        let start = tok.start;
        let end = tok.end();
        Error { start, end, message }
    }
}

/// What a production handed back is what the grammar yields.
pub open spec fn yields<T>(r: Result<T>, out: Parsed<T>) -> bool {
    match r {
        Ok(value) => out.result == Ok::<T, ErrorView>(value),
        Err(e) => out.result == Err::<T, ErrorView>(e@),
    }
}

// =================================================================
// Parser
// =================================================================

/// Response for turning a stream of tokens into an Abstract Syntax
/// Tree and/or producing error messages along the way.
///
/// Every production says what the grammar of [`crate::grammar`] makes of
/// the tokens in front of it: which nodes are appended to the arena, which
/// tokens are left, and which handle or error comes back.  Its last clause
/// says that the arena lent to the parser is still the one being filled, so
/// that the lender finds there, in the end, what the productions appended.
pub struct Parser<'a, F> where F: FnMut(usize, &'a str) {
    /// Provides access to our token stream.
    pub lexer: Lexer<'a>,
    /// Provides access to the ast
    pub ast: &'a mut AbstractSyntaxTree,
    /// Provides mechanism for source maps
    pub mapper: F,
}

impl<'a, F> Parser<'a, F> where F: FnMut(usize, &'a str) {
    /// The parser's token stream is in order.
    pub open spec fn wf(&self) -> bool {
        self.lexer.wf()
    }

    /// The tokens which have not been taken yet.
    pub open spec fn tokens(&self) -> Seq<TokenView> {
        self.lexer.remaining()
    }

    /// The nodes of the arena which the parser fills.
    pub open spec fn arena(&self) -> Seq<NodeView> {
        nodes(*self.ast)
    }

    /// The parser has gone from the state `before` to this one as the
    /// grammar says: the tokens left are those the production leaves, and the
    /// arena holds what it held, then the nodes of the production.
    pub open spec fn advanced<T>(&self, before: Self, out: Parsed<T>) -> bool {
        &&& self.wf()
        &&& self.tokens() == out.rest
        &&& self.arena() =~= before.arena() + out.nodes
        &&& self.tokens().len() <= before.tokens().len()
    }

    /// A parser at the front of the tokens of a text, which appends to a
    /// given arena.
    pub fn new(input: &'a str, ast: &'a mut AbstractSyntaxTree, mapper: F) -> (parser: Self)
        ensures
            parser.wf(),
            parser.tokens() == tokenize(input@),
            parser.arena() == nodes(*old(ast)),
            *final(parser.ast) == *final(ast),
    {
        Self { lexer: Lexer::new(input), ast, mapper }
    }

    // =========================================================================
    // Declarations
    // =========================================================================

    /// Parse an arbitrary declaration
    pub fn parse_decl(&mut self) -> (r: Result<Decl>)
        requires
            old(self).wf(),
        ensures
            final(self).advanced(
                *old(self),
                grammar::parse_decl(old(self).tokens(), old(self).arena().len()),
            ),
            yields(
                r,
                grammar::parse_decl(old(self).tokens(), old(self).arena().len()),
            ),
            r is Ok ==> final(self).tokens().len() < old(self).tokens().len(),
            *final(final(self).ast) == *final(old(self).ast),
    {
        proof {
            reveal(grammar::parse_decl);
        }
        let lookahead = self.lexer.peek();
        // Attempt to parse declaration
        match lookahead.kind {
            TokenType::Type => self.parse_decl_type(),
            _ => self.parse_decl_method(),
        }
    }

    /// Parse a type declaration of the from `type name = type;`.
    pub fn parse_decl_type(&mut self) -> (r: Result<Decl>)
        requires
            old(self).wf(),
        ensures
            final(self).advanced(
                *old(self),
                grammar::parse_decl_type(old(self).tokens(), old(self).arena().len()),
            ),
            yields(
                r,
                grammar::parse_decl_type(old(self).tokens(), old(self).arena().len()),
            ),
            r is Ok ==> final(self).tokens().len() < old(self).tokens().len(),
            *final(final(self).ast) == *final(old(self).ast),
    {
        proof {
            reveal(grammar::parse_decl_type);
        }
        // "type"
        self.snap(TokenType::Type)?;
        // Identifier
        let name = self.parse_identifier()?;
        // "="
        self.snap(TokenType::Equal)?;
        // Type
        let typ_e = self.parse_type()?;
        // Semi-colon
        self.snap(TokenType::SemiColon)?;
        // Done
        Ok(Decl::new(self.ast, Node::TypeDecl(name, typ_e)))
    }

    /// Parse a method declaration of the form `Type name([Type
    /// Identifier]*) Stmt.Block`.
    pub fn parse_decl_method(&mut self) -> (r: Result<Decl>)
        requires
            old(self).wf(),
        ensures
            final(self).advanced(
                *old(self),
                grammar::parse_decl_method(old(self).tokens(), old(self).arena().len()),
            ),
            yields(
                r,
                grammar::parse_decl_method(old(self).tokens(), old(self).arena().len()),
            ),
            r is Ok ==> final(self).tokens().len() < old(self).tokens().len(),
            *final(final(self).ast) == *final(old(self).ast),
    {
        proof {
            reveal(grammar::parse_decl_method);
        }
        // Type
        let ret_type = self.parse_type()?;
        // Identifier
        let name = self.parse_identifier()?;
        // "(" [Type Identifier]+ ")"
        let params = self.parse_decl_parameters()?;
        // "{" [Stmt]* "}"
        let body = self.parse_stmt_block()?;
        //
        Ok(Decl::new(self.ast, Node::MethodDecl(name, ret_type, params, body)))
    }

    /// Parse a list of parameter declarations
    pub fn parse_decl_parameters(&mut self) -> (r: Result<Vec<Parameter>>)
        requires
            old(self).wf(),
        ensures
            final(self).advanced(
                *old(self),
                grammar::parse_decl_parameters(old(self).tokens(), old(self).arena().len()),
            ),
            match r {
                Ok(ps) => grammar::parse_decl_parameters(
                    old(self).tokens(),
                    old(self).arena().len(),
                ).result == Ok::<Seq<Parameter>, ErrorView>(ps@),
                Err(e) => grammar::parse_decl_parameters(
                    old(self).tokens(),
                    old(self).arena().len(),
                ).result == Err::<Seq<Parameter>, ErrorView>(e@),
            },
            r is Ok ==> final(self).tokens().len() < old(self).tokens().len(),
            *final(final(self).ast) == *final(old(self).ast),
    {
        let mut params: Vec<Parameter> = Vec::new();
        let ghost ts = self.tokens();
        let ghost base = self.arena().len();
        let ghost goal = grammar::parse_decl_parameters(ts, base);
        proof {
            reveal(grammar::parse_decl_parameters);
        }
        // "("
        self.snap(TokenType::LeftBrace)?;
        let ghost begin = self.tokens();
        let ghost total = grammar::typed_names(begin, base, TokenType::RightBrace, Seq::empty());
        let ghost mut here = begin;
        let ghost mut pushed: Seq<NodeView> = Seq::empty();
        let ghost mut read: Seq<(Type, Name)> = Seq::empty();
        // Keep going until a right brace
        let mut closed: bool = self.accept(TokenType::RightBrace);
        while !closed
            invariant
                self.wf(),
                *final(self.ast) == *final(old(self).ast),
                ts == old(self).tokens(),
                base == old(self).arena().len(),
                self.arena() =~= old(self).arena() + pushed,
                here.len() <= begin.len() < ts.len(),
                closed ==> first(here).kind == TokenType::RightBrace && self.tokens() == rest(here),
                !closed ==> first(here).kind != TokenType::RightBrace && self.tokens() == here,
                params@ =~= grammar::as_parameters(read),
                total.nodes =~= pushed + grammar::typed_names(
                    here,
                    base + pushed.len(),
                    TokenType::RightBrace,
                    read,
                ).nodes,
                total.rest == grammar::typed_names(
                    here,
                    base + pushed.len(),
                    TokenType::RightBrace,
                    read,
                ).rest,
                total.result == grammar::typed_names(
                    here,
                    base + pushed.len(),
                    TokenType::RightBrace,
                    read,
                ).result,
                goal == grammar::parse_decl_parameters(ts, base),
                goal == grammar::parameters_of(total),
            decreases here.len(),
        {
            proof {
                reveal(grammar::parse_identifier);
            }
            // Check if first time or not
            if !params.is_empty() {
                // Not first time, so match comma
                self.snap(TokenType::Comma)?;
            }
            // Type
            let f_type = self.parse_type()?;
            // Identifier
            let f_name = self.parse_identifier()?;
            //
            params.push(Parameter { declared: f_type, name: f_name });
            proof {
                read = read.push((f_type, f_name));
                pushed = self.arena().subrange(base as int, self.arena().len() as int);
                here = self.tokens();
            }
            closed = self.accept(TokenType::RightBrace);
        }
        // Done
        Ok(params)
    }

    // =========================================================================
    // Statements
    // =========================================================================

    /// Parse a block of zero or more statements surrounded by curly
    /// braces.  For example, `{ skip; assert x < 1; }`.
    pub fn parse_stmt_block(&mut self) -> (r: Result<Stmt>)
        requires
            old(self).wf(),
        ensures
            final(self).advanced(
                *old(self),
                grammar::parse_stmt_block(old(self).tokens(), old(self).arena().len()),
            ),
            yields(
                r,
                grammar::parse_stmt_block(old(self).tokens(), old(self).arena().len()),
            ),
            r is Ok ==> final(self).tokens().len() < old(self).tokens().len(),
            *final(final(self).ast) == *final(old(self).ast),
    {
        let mut stmts: Vec<Stmt> = Vec::new();
        let ghost ts = self.tokens();
        let ghost base = self.arena().len();
        let ghost goal = grammar::parse_stmt_block(ts, base);
        proof {
            reveal(grammar::parse_stmt_block);
        }
        // "{"
        self.snap(TokenType::LeftCurly)?;
        let ghost begin = self.tokens();
        let ghost total = grammar::statements(begin, base, Seq::empty());
        let ghost mut here = begin;
        let ghost mut pushed: Seq<NodeView> = Seq::empty();
        // Keep going until a right curly
        let mut closed: bool = self.accept(TokenType::RightCurly);
        while !closed
            invariant
                self.wf(),
                *final(self.ast) == *final(old(self).ast),
                ts == old(self).tokens(),
                base == old(self).arena().len(),
                self.arena() =~= old(self).arena() + pushed,
                here.len() <= begin.len() < ts.len(),
                closed ==> first(here).kind == TokenType::RightCurly && self.tokens() == rest(here),
                !closed ==> first(here).kind != TokenType::RightCurly && self.tokens() == here,
                total.nodes =~= pushed + grammar::statements(here, base + pushed.len(), stmts@).nodes,
                total.rest == grammar::statements(here, base + pushed.len(), stmts@).rest,
                total.result == grammar::statements(here, base + pushed.len(), stmts@).result,
                goal == grammar::parse_stmt_block(ts, base),
                goal == grammar::block_of(total, base),
            decreases here.len(),
        {
            let stmt = self.parse_stmt()?;
            stmts.push(stmt);
            proof {
                pushed = self.arena().subrange(base as int, self.arena().len() as int);
                here = self.tokens();
            }
            closed = self.accept(TokenType::RightCurly);
        }
        // Done
        Ok(Stmt::new(self.ast, Node::BlockStmt(stmts)))
    }

    /// Parse an arbitrary statement.
    pub fn parse_stmt(&mut self) -> (r: Result<Stmt>)
        requires
            old(self).wf(),
        ensures
            final(self).advanced(
                *old(self),
                grammar::parse_stmt(old(self).tokens(), old(self).arena().len()),
            ),
            yields(
                r,
                grammar::parse_stmt(old(self).tokens(), old(self).arena().len()),
            ),
            r is Ok ==> final(self).tokens().len() < old(self).tokens().len(),
            *final(final(self).ast) == *final(old(self).ast),
    {
        proof {
            reveal(grammar::parse_stmt);
        }
        self.parse_unit_stmt()
    }

    /// Parse a unit statement.  This one which does not contain other
    /// statements, and is terminated with a ";".
    pub fn parse_unit_stmt(&mut self) -> (r: Result<Stmt>)
        requires
            old(self).wf(),
        ensures
            final(self).advanced(
                *old(self),
                grammar::parse_unit_stmt(old(self).tokens(), old(self).arena().len()),
            ),
            yields(
                r,
                grammar::parse_unit_stmt(old(self).tokens(), old(self).arena().len()),
            ),
            r is Ok ==> final(self).tokens().len() < old(self).tokens().len(),
            *final(final(self).ast) == *final(old(self).ast),
    {
        proof {
            reveal(grammar::parse_unit_stmt);
        }
        let lookahead = self.lexer.peek();
        //
        let stmt = match lookahead.kind {
            TokenType::Assert => self.parse_stmt_assert()?,
            TokenType::Skip => self.parse_stmt_skip()?,
            _ => {
                return Err(Error::new(lookahead, "unknown token encountered"));
            },
        };
        // ";"
        self.snap(TokenType::SemiColon)?;
        // Done
        Ok(stmt)
    }

    /// Parse `assert` and its condition, without the `;` behind them.
    pub fn parse_stmt_assert(&mut self) -> (r: Result<Stmt>)
        requires
            old(self).wf(),
        ensures
            final(self).advanced(
                *old(self),
                grammar::parse_stmt_assert(old(self).tokens(), old(self).arena().len()),
            ),
            yields(
                r,
                grammar::parse_stmt_assert(old(self).tokens(), old(self).arena().len()),
            ),
            r is Ok ==> final(self).tokens().len() < old(self).tokens().len(),
            *final(final(self).ast) == *final(old(self).ast),
    {
        proof {
            reveal(grammar::parse_stmt_assert);
        }
        // "assert"
        self.snap(TokenType::Assert)?;
        // Expr
        let expr = self.parse_expr()?;
        // Done
        Ok(Stmt::new(self.ast, Node::AssertStmt(expr)))
    }

    /// Parse `skip`, without the `;` behind it.
    pub fn parse_stmt_skip(&mut self) -> (r: Result<Stmt>)
        requires
            old(self).wf(),
        ensures
            final(self).advanced(
                *old(self),
                grammar::parse_stmt_skip(old(self).tokens(), old(self).arena().len()),
            ),
            yields(
                r,
                grammar::parse_stmt_skip(old(self).tokens(), old(self).arena().len()),
            ),
            r is Ok ==> final(self).tokens().len() < old(self).tokens().len(),
            *final(final(self).ast) == *final(old(self).ast),
    {
        proof {
            reveal(grammar::parse_stmt_skip);
        }
        // "skip"
        self.snap(TokenType::Skip)?;
        // Done
        Ok(Stmt::new(self.ast, Node::SkipStmt))
    }

    // =========================================================================
    // Expressions
    // =========================================================================

    /// Parse an expression: a term, or a comparison of two terms.
    pub fn parse_expr(&mut self) -> (r: Result<Expr>)
        requires
            old(self).wf(),
        ensures
            final(self).advanced(
                *old(self),
                grammar::parse_expr(old(self).tokens(), old(self).arena().len()),
            ),
            yields(
                r,
                grammar::parse_expr(old(self).tokens(), old(self).arena().len()),
            ),
            r is Ok ==> final(self).tokens().len() < old(self).tokens().len(),
            *final(final(self).ast) == *final(old(self).ast),
        decreases old(self).tokens().len(), 3int,
    {
        let lhs = self.parse_expr_term()?;
        // Check for binary expression
        let lookahead = self.lexer.peek();
        //
        match lookahead.kind {
            TokenType::LeftAngle => {
                self.lexer.next();
                let rhs = self.parse_expr_term()?;
                Ok(Expr::new(self.ast, Node::LessThanExpr(lhs, rhs)))
            },
            _ => Ok(lhs),
        }
    }

    /// Parse a term: a literal, a variable or a bracketed expression.
    pub fn parse_expr_term(&mut self) -> (r: Result<Expr>)
        requires
            old(self).wf(),
        ensures
            final(self).advanced(
                *old(self),
                grammar::parse_expr_term(old(self).tokens(), old(self).arena().len()),
            ),
            yields(
                r,
                grammar::parse_expr_term(old(self).tokens(), old(self).arena().len()),
            ),
            r is Ok ==> final(self).tokens().len() < old(self).tokens().len(),
            *final(final(self).ast) == *final(old(self).ast),
        decreases old(self).tokens().len(), 2int,
    {
        proof {
            reveal(grammar::parse_identifier);
        }
        let lookahead = self.lexer.peek();
        //
        let expr = match lookahead.kind {
            TokenType::False => {
                self.lexer.next();
                Expr::new(self.ast, Node::BoolExpr(false))
            },
            TokenType::Identifier => {
                let n = self.parse_identifier();
                Expr::new(self.ast, Node::VarExpr(n.unwrap()))
            },
            TokenType::Integer => {
                match lookahead.to_int() {
                    Some(value) => {
                        self.lexer.next();
                        Expr::new(self.ast, Node::IntExpr(value))
                    },
                    None => {
                        return Err(Error::new(lookahead, "integer literal out of range"));
                    },
                }
            },
            TokenType::LeftBrace => {
                return self.parse_expr_bracketed();
            },
            TokenType::True => {
                self.lexer.next();
                Expr::new(self.ast, Node::BoolExpr(true))
            },
            _ => {
                return Err(Error::new(lookahead, "unknown token encountered"));
            },
        };
        //
        Ok(expr)
    }

    /// Parse an expression between `(` and `)`.
    pub fn parse_expr_bracketed(&mut self) -> (r: Result<Expr>)
        requires
            old(self).wf(),
        ensures
            final(self).advanced(
                *old(self),
                grammar::parse_expr_bracketed(old(self).tokens(), old(self).arena().len()),
            ),
            yields(
                r,
                grammar::parse_expr_bracketed(old(self).tokens(), old(self).arena().len()),
            ),
            r is Ok ==> final(self).tokens().len() < old(self).tokens().len(),
            *final(final(self).ast) == *final(old(self).ast),
        decreases old(self).tokens().len(), 1int,
    {
        // "("
        self.snap(TokenType::LeftBrace)?;
        // Expr
        let expr = self.parse_expr()?;
        // ")"
        self.snap(TokenType::RightBrace)?;
        //
        Ok(expr)
    }

    // =========================================================================
    // Types
    // =========================================================================

    /// Parse a type.
    pub fn parse_type(&mut self) -> (r: Result<Type>)
        requires
            old(self).wf(),
        ensures
            final(self).advanced(
                *old(self),
                grammar::parse_type(old(self).tokens(), old(self).arena().len()),
            ),
            yields(
                r,
                grammar::parse_type(old(self).tokens(), old(self).arena().len()),
            ),
            r matches Ok(t) ==> type_at(final(self).arena(), t.0 as int)
                && final(self).tokens().len() < old(self).tokens().len(),
            *final(final(self).ast) == *final(old(self).ast),
        decreases old(self).tokens().len(), 6int,
    {
        self.parse_type_compound()
    }

    /// Parse a reference, a record, or an array or primitive type, as the
    /// first token tells.
    pub fn parse_type_compound(&mut self) -> (r: Result<Type>)
        requires
            old(self).wf(),
        ensures
            final(self).advanced(
                *old(self),
                grammar::parse_type_compound(old(self).tokens(), old(self).arena().len()),
            ),
            yields(
                r,
                grammar::parse_type_compound(old(self).tokens(), old(self).arena().len()),
            ),
            r matches Ok(t) ==> type_at(final(self).arena(), t.0 as int)
                && final(self).tokens().len() < old(self).tokens().len(),
            *final(final(self).ast) == *final(old(self).ast),
        decreases old(self).tokens().len(), 5int,
    {
        let lookahead = self.lexer.peek();
        // Attemp to distinguish
        match lookahead.kind {
            TokenType::EOF => {
                // Something went wrong
                Err(Error::new(lookahead, "unexpected end-of-file"))
            },
            TokenType::Ampersand => {
                // Looks like a reference type
                self.parse_type_ref()
            },
            TokenType::LeftCurly => {
                // Looks like a record type
                self.parse_type_record()
            },
            _ => {
                // Could be an array type
                self.parse_type_array()
            },
        }
    }

    /// Parse a reference type, such as `&i32`, `&(i32[])`, `&&u16`,
    /// etc.
    pub fn parse_type_ref(&mut self) -> (r: Result<Type>)
        requires
            old(self).wf(),
        ensures
            final(self).advanced(
                *old(self),
                grammar::parse_type_ref(old(self).tokens(), old(self).arena().len()),
            ),
            yields(
                r,
                grammar::parse_type_ref(old(self).tokens(), old(self).arena().len()),
            ),
            r matches Ok(t) ==> type_at(final(self).arena(), t.0 as int)
                && final(self).tokens().len() < old(self).tokens().len(),
            *final(final(self).ast) == *final(old(self).ast),
        decreases old(self).tokens().len(), 4int,
    {
        let ghost ts = self.tokens();
        let ghost base = self.arena().len();
        let ghost count = grammar::count_ampersands(ts);
        proof {
            self.lexer.lemma_remaining_bound();
            grammar::lemma_count_ampersands(ts);
        }
        let mut n: usize = 1;
        // "&"
        self.snap(TokenType::Ampersand)?;
        assert(ts.skip(1) =~= rest(ts));
        // Check for nested references
        let mut more: bool = self.accept(TokenType::Ampersand);
        while more
            invariant
                self.wf(),
                *final(self.ast) == *final(old(self).ast),
                self.arena() == old(self).arena(),
                ts == old(self).tokens(),
                count == grammar::count_ampersands(ts),
                count <= ts.len() <= usize::MAX,
                forall|k: int| 0 <= k < count ==> (#[trigger] ts[k]).kind == TokenType::Ampersand,
                first(ts.skip(count as int)).kind != TokenType::Ampersand,
                1 <= n <= count,
                more ==> n < count && self.tokens() == rest(ts.skip(n as int)),
                !more ==> self.tokens() == ts.skip(n as int),
                first(ts.skip(n as int)).kind == TokenType::Ampersand <==> more,
            decreases count - n,
        {
            proof {
                assert(rest(ts.skip(n as int)) =~= ts.skip(n + 1));
            }
            n = n + 1;
            more = self.accept(TokenType::Ampersand);
            proof {
                if n < count {
                    assert(first(ts.skip(n as int)) == ts[n as int]);
                }
            }
        }
        assert(n == count) by {
            if n < count {
                assert(first(ts.skip(n as int)) == ts[n as int]);
            }
        }
        // Type
        let mut t = self.parse_type_bracketed()?;
        // Unwind references
        let ghost target = t;
        let ghost filled = self.arena();
        let ghost at = filled.len();
        let mut i: usize = 0;
        while i < n
            invariant
                self.wf(),
                *final(self.ast) == *final(old(self).ast),
                i <= n,
                at == filled.len(),
                self.arena() =~= filled + grammar::references(i as nat, target, at),
                t == grammar::link(i as int, target, at),
                type_at(self.arena(), t.0 as int),
                self.tokens() == grammar::parse_type_bracketed(ts.skip(n as int), base).rest,
            decreases n - i,
        {
            assert(self.arena().len() == at + i);
            t = Type::new(self.ast, Node::ReferenceType(t));
            i = i + 1;
        }
        // Done
        Ok(t)
    }

    /// Parse a record type, such as `{ i32 f }`, `{ bool f, u64 f }`,
    /// `{ &bool f, u64[] f }`, etc.
    pub fn parse_type_record(&mut self) -> (r: Result<Type>)
        requires
            old(self).wf(),
        ensures
            final(self).advanced(
                *old(self),
                grammar::parse_type_record(old(self).tokens(), old(self).arena().len()),
            ),
            yields(
                r,
                grammar::parse_type_record(old(self).tokens(), old(self).arena().len()),
            ),
            r matches Ok(t) ==> type_at(final(self).arena(), t.0 as int)
                && final(self).tokens().len() < old(self).tokens().len(),
            *final(final(self).ast) == *final(old(self).ast),
        decreases old(self).tokens().len(), 4int,
    {
        let mut fields: Vec<(Type, Name)> = Vec::new();
        let ghost ts = self.tokens();
        let ghost base = self.arena().len();
        let ghost goal = grammar::parse_type_record(ts, base);
        // "{"
        self.snap(TokenType::LeftCurly)?;
        let ghost begin = self.tokens();
        let ghost total = grammar::typed_names(begin, base, TokenType::RightCurly, Seq::empty());
        let ghost mut here = begin;
        let ghost mut pushed: Seq<NodeView> = Seq::empty();
        proof {
            reveal(fields_typed);
        }
        // Keep going until a right brace
        let mut closed: bool = self.accept(TokenType::RightCurly);
        while !closed
            invariant
                self.wf(),
                *final(self.ast) == *final(old(self).ast),
                ts == old(self).tokens(),
                base == old(self).arena().len(),
                self.arena() =~= old(self).arena() + pushed,
                here.len() <= begin.len() < ts.len(),
                closed ==> first(here).kind == TokenType::RightCurly && self.tokens() == rest(here),
                !closed ==> first(here).kind != TokenType::RightCurly && self.tokens() == here,
                total.nodes =~= pushed + grammar::typed_names(
                    here,
                    base + pushed.len(),
                    TokenType::RightCurly,
                    fields@,
                ).nodes,
                total.rest == grammar::typed_names(
                    here,
                    base + pushed.len(),
                    TokenType::RightCurly,
                    fields@,
                ).rest,
                total.result == grammar::typed_names(
                    here,
                    base + pushed.len(),
                    TokenType::RightCurly,
                    fields@,
                ).result,
                goal == grammar::parse_type_record(ts, base),
                goal == grammar::record_of(total, base),
                fields_typed(self.arena(), fields@),
            decreases here.len(),
        {
            proof {
                reveal(grammar::parse_identifier);
            }
            let ghost entry = self.arena();
            let ghost known = fields@;
            // Check if first time or not
            if !fields.is_empty() {
                // Not first time, so match comma
                self.snap(TokenType::Comma)?;
            }
            // Type
            let f_type = self.parse_type()?;
            let ghost typed = self.arena();
            // Identifier
            let f_name = self.parse_identifier()?;
            //
            fields.push((f_type, f_name));
            proof {
                lemma_field_added(entry, typed, self.arena(), known, f_type, f_name);
                pushed = self.arena().subrange(base as int, self.arena().len() as int);
                here = self.tokens();
            }
            closed = self.accept(TokenType::RightCurly);
        }
        proof {
            lemma_record_is_type(self.arena(), fields@);
        }
        // Done
        Ok(Type::new(self.ast, Node::RecordType(fields)))
    }

    /// Parse an array type, such as `i32[]`, `bool[][]`, etc.
    pub fn parse_type_array(&mut self) -> (r: Result<Type>)
        requires
            old(self).wf(),
        ensures
            final(self).advanced(
                *old(self),
                grammar::parse_type_array(old(self).tokens(), old(self).arena().len()),
            ),
            yields(
                r,
                grammar::parse_type_array(old(self).tokens(), old(self).arena().len()),
            ),
            r matches Ok(t) ==> type_at(final(self).arena(), t.0 as int)
                && final(self).tokens().len() < old(self).tokens().len(),
            *final(final(self).ast) == *final(old(self).ast),
        decreases old(self).tokens().len(), 4int,
    {
        let ghost ts = self.tokens();
        let ghost base = self.arena().len();
        let ghost goal = grammar::parse_type_array(ts, base);
        proof {
            reveal(grammar::array_suffix);
        }
        // Type
        let mut t = self.parse_type_bracketed()?;
        let ghost element = t;
        let ghost filled = self.arena();
        let ghost at = filled.len();
        let ghost mid = self.tokens();
        let ghost count = grammar::count_brackets(mid);
        let ghost mut k: nat = 0;
        let ghost mut here = mid;
        assert(mid.skip(0) =~= mid);
        assert(filled.subrange(base as int, filled.len() as int) =~= grammar::parse_type_bracketed(
            ts,
            base,
        ).nodes);
        // ([])*
        let mut more: bool = self.accept(TokenType::LeftSquare);
        while more
            invariant
                self.wf(),
                *final(self.ast) == *final(old(self).ast),
                ts == old(self).tokens(),
                base == old(self).arena().len(),
                at == filled.len(),
                filled.len() >= base,
                filled.subrange(0, base as int) =~= old(self).arena(),
                mid.len() < ts.len(),
                here == mid.skip(2 * k as int),
                2 * k <= mid.len(),
                count == grammar::count_brackets(mid),
                count == k + grammar::count_brackets(here),
                more ==> first(here).kind == TokenType::LeftSquare && self.tokens() == rest(here),
                !more ==> first(here).kind != TokenType::LeftSquare && self.tokens() == here,
                self.arena() =~= filled + grammar::arrays(k, element, at),
                t == grammar::link(k as int, element, at),
                type_at(self.arena(), t.0 as int),
                goal == grammar::parse_type_array(ts, base),
                goal == grammar::after(
                    filled.subrange(base as int, filled.len() as int),
                    grammar::array_suffix(mid, at, element),
                ),
            decreases here.len(),
        {
            proof {
                reveal(grammar::array_suffix);
            }
            assert(self.arena().len() == at + k);
            let closing = self.snap(TokenType::RightSquare);
            match closing {
                Err(e) => {
                    proof {
                        if here.len() > 1 {
                            assert(first(rest(here)) == here[1]);
                        }
                        assert(grammar::count_brackets(here) == 0);
                    }
                    return Err(e);
                },
                Ok(_) => {},
            }
            proof {
                assert(first(rest(here)) == here[1]);
                assert(grammar::count_brackets(here) == 1 + grammar::count_brackets(here.skip(2)));
            }
            t = Type::new(self.ast, Node::ArrayType(t));
            proof {
                assert(rest(rest(here)) =~= here.skip(2));
                assert(here.skip(2) =~= mid.skip(2 * (k + 1) as int));
                k = k + 1;
                here = here.skip(2);
            }
            more = self.accept(TokenType::LeftSquare);
        }
        proof {
            if here.len() > 1 {
                assert(first(here) == here[0]);
            }
            assert(grammar::count_brackets(here) == 0);
        }
        //
        Ok(t)
    }

    /// Parse a type which may (or may not) be bracketed.  For
    /// example, in `(&int)[]` the type `&int` is bracketed.
    pub fn parse_type_bracketed(&mut self) -> (r: Result<Type>)
        requires
            old(self).wf(),
        ensures
            final(self).advanced(
                *old(self),
                grammar::parse_type_bracketed(old(self).tokens(), old(self).arena().len()),
            ),
            yields(
                r,
                grammar::parse_type_bracketed(old(self).tokens(), old(self).arena().len()),
            ),
            r matches Ok(t) ==> type_at(final(self).arena(), t.0 as int)
                && final(self).tokens().len() < old(self).tokens().len(),
            *final(final(self).ast) == *final(old(self).ast),
        decreases old(self).tokens().len(), 3int,
    {
        // Try and match bracket!
        if self.accept(TokenType::LeftBrace) {
            // Bingo!
            let typ_e = self.parse_type()?;
            // Must match closing brace
            self.snap(TokenType::RightBrace)?;
            // Done
            Ok(typ_e)
        } else {
            self.parse_type_base()
        }
    }

    /// Parse a primitive type, such as `bool`, `u8`, `void`, etc.
    pub fn parse_type_base(&mut self) -> (r: Result<Type>)
        requires
            old(self).wf(),
        ensures
            final(self).advanced(
                *old(self),
                grammar::parse_type_base(old(self).tokens(), old(self).arena().len()),
            ),
            yields(
                r,
                grammar::parse_type_base(old(self).tokens(), old(self).arena().len()),
            ),
            r matches Ok(t) ==> type_at(final(self).arena(), t.0 as int)
                && final(self).tokens().len() < old(self).tokens().len(),
            *final(final(self).ast) == *final(old(self).ast),
    {
        proof {
            reveal(grammar::parse_type_base);
        }
        let lookahead = self.lexer.peek();
        // Look at what we've got!
        let typ_e: Type = match lookahead.kind {
            TokenType::Null => Type::new(self.ast, Node::NullType),
            //
            TokenType::Bool => Type::new(self.ast, Node::BoolType),
            //
            TokenType::I8 => Type::new(self.ast, Node::IntType(true, 8)),
            TokenType::I16 => Type::new(self.ast, Node::IntType(true, 16)),
            TokenType::I32 => Type::new(self.ast, Node::IntType(true, 32)),
            TokenType::I64 => Type::new(self.ast, Node::IntType(true, 64)),
            //
            TokenType::U8 => Type::new(self.ast, Node::IntType(false, 8)),
            TokenType::U16 => Type::new(self.ast, Node::IntType(false, 16)),
            TokenType::U32 => Type::new(self.ast, Node::IntType(false, 32)),
            TokenType::U64 => Type::new(self.ast, Node::IntType(false, 64)),
            //
            TokenType::Void => Type::new(self.ast, Node::VoidType),
            _ => {
                return Err(Error::new(lookahead, "unknown token encountered"));
            },
        };
        // Move over it
        self.lexer.next();
        //
        Ok(typ_e)
    }

    // =========================================================================
    // Misc
    // =========================================================================

    /// Parse an identifier.
    pub fn parse_identifier(&mut self) -> (r: Result<Name>)
        requires
            old(self).wf(),
        ensures
            final(self).advanced(
                *old(self),
                grammar::parse_identifier(old(self).tokens(), old(self).arena().len()),
            ),
            yields(
                r,
                grammar::parse_identifier(old(self).tokens(), old(self).arena().len()),
            ),
            r is Ok ==> final(self).tokens().len() < old(self).tokens().len(),
            *final(final(self).ast) == *final(old(self).ast),
    {
        proof {
            reveal(grammar::parse_identifier);
        }
        let tok = self.snap(TokenType::Identifier)?;
        // Every occurrence of an identifier gets a node of its own
        Ok(Name::new(self.ast, tok.content))
    }

    // =========================================================================
    // Helpers
    // =========================================================================

    /// Match a given token type in the current stream.  If the kind
    /// matches, then the token stream advances.  Otherwise, it
    /// remains at the same position and an error is returned.
    fn snap(&mut self, kind: TokenType) -> (r: Result<Token<'a>>)
        requires
            old(self).wf(),
        ensures
            final(self).wf(),
            final(self).arena() == old(self).arena(),
            *final(final(self).ast) == *final(old(self).ast),
            final(self).tokens() == grammar::snap(old(self).tokens(), kind).rest,
            match r {
                Ok(token) => first(old(self).tokens()).kind == kind && token@ == first(
                    old(self).tokens(),
                ),
                Err(e) => first(old(self).tokens()).kind != kind && e@ == grammar::error_at(
                    first(old(self).tokens()),
                    grammar::expected_other(),
                ),
            },
            r is Ok && kind != TokenType::EOF ==> final(self).tokens().len() < old(
                self,
            ).tokens().len(),
            final(self).tokens().len() <= old(self).tokens().len(),
    {
        // Peek at the next token
        let lookahead = self.lexer.peek();
        // Check it!
        if lookahead.kind == kind {
            // Accept it
            self.lexer.next();
            //
            Ok(lookahead)
        } else {
            // Reject
            proof {
                self.lexer.lemma_remaining_fit();
            }
            Err(Error::new(lookahead, "expected one thing, found another"))
        }
    }

    /// Take the next token if it has a given kind, and say whether it had.
    fn accept(&mut self, kind: TokenType) -> (taken: bool)
        requires
            old(self).wf(),
        ensures
            final(self).wf(),
            final(self).arena() == old(self).arena(),
            *final(final(self).ast) == *final(old(self).ast),
            taken == (first(old(self).tokens()).kind == kind),
            final(self).tokens() == if taken {
                rest(old(self).tokens())
            } else {
                old(self).tokens()
            },
            taken && kind != TokenType::EOF ==> final(self).tokens().len() < old(
                self,
            ).tokens().len(),
    {
        self.snap(kind).is_ok()
    }
}

} // verus!
