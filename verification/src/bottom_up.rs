// Trees are built bottom-up: whatever the parser appends to the arena, also
// where it fails, is made of nodes which lie below it.

use crate::ast::{Name, NodeView, Stmt, Type};
use crate::grammar::{
    array_suffix, arrays, as_parameters, count_ampersands, count_brackets, lemma_count_ampersands,
    lemma_count_brackets, parse_decl, parse_decl_method, parse_decl_parameters, parse_decl_type,
    parse_expr, parse_expr_term, parse_identifier, parse_stmt, parse_stmt_assert, parse_stmt_block,
    parse_stmt_skip, parse_type, parse_type_array, parse_type_base, parse_type_bracketed,
    parse_type_record, parse_type_ref, parse_unit_stmt, references, statements, typed_names,
    Parsed,
};
use crate::lexer::{first, rest, TokenType, TokenView};
use vstd::prelude::*;

verus! {

/// What a node is made of lies below `index`.
pub open spec fn below(node: NodeView, index: int) -> bool {
    match node {
        NodeView::TypeDecl(n, t) => n.0 < index && t.0 < index,
        NodeView::MethodDecl(n, t, ps, b) => n.0 < index && t.0 < index && b.index < index
            && forall|i: int|
            0 <= i < ps.len() ==> (#[trigger] ps[i]).declared.0 < index && ps[i].name.0 < index,
        NodeView::AssertStmt(e) => e.index < index,
        NodeView::BlockStmt(ss) => forall|i: int|
            0 <= i < ss.len() ==> (#[trigger] ss[i]).index < index,
        NodeView::EqualsExpr(l, r) => l.index < index && r.index < index,
        NodeView::NotEqualsExpr(l, r) => l.index < index && r.index < index,
        NodeView::LessThanExpr(l, r) => l.index < index && r.index < index,
        NodeView::VarExpr(n) => n.0 < index,
        NodeView::ArrayType(t) => t.0 < index,
        NodeView::ReferenceType(t) => t.0 < index,
        NodeView::RecordType(fs) => forall|i: int|
            0 <= i < fs.len() ==> (#[trigger] fs[i]).0.0 < index && fs[i].1.0 < index,
        _ => true,
    }
}

/// Every node of the arena is made of nodes which lie below it: the arena
/// holds trees built bottom-up, without cycles or references ahead.
pub open spec fn bottom_up(arena: Seq<NodeView>) -> bool {
    forall|i: int| 0 <= i < arena.len() ==> below(#[trigger] arena[i], i)
}

/// Nodes appended at `base` are each made of nodes which lie below them.
pub open spec fn built(nodes: Seq<NodeView>, base: nat) -> bool {
    forall|k: int| 0 <= k < nodes.len() ==> below(#[trigger] nodes[k], base + k)
}

/// An arena built bottom-up, with nodes appended which are, is built
/// bottom-up.
pub proof fn lemma_bottom_up_grows(arena: Seq<NodeView>, more: Seq<NodeView>)
    requires
        bottom_up(arena),
        built(more, arena.len()),
    ensures
        bottom_up(arena + more),
{
    let grown = arena + more;
    assert forall|i: int| 0 <= i < grown.len() implies below(#[trigger] grown[i], i) by {
        if i < arena.len() {
            assert(grown[i] == arena[i]);
        } else {
            assert(grown[i] == more[i - arena.len()]);
        }
    }
}

/// Nodes built at `base`, with nodes built behind them, are built.
proof fn lemma_built_joined(front: Seq<NodeView>, back: Seq<NodeView>, base: nat)
    requires
        built(front, base),
        built(back, base + front.len()),
    ensures
        built(front + back, base),
{
    let all = front + back;
    assert forall|k: int| 0 <= k < all.len() implies below(#[trigger] all[k], base + k) by {
        if k < front.len() {
            assert(all[k] == front[k]);
        } else {
            assert(all[k] == back[k - front.len()]);
        }
    }
}

/// Nodes built at `base`, with one more node behind them which is made of
/// nodes below it, are built.
proof fn lemma_built_pushed(front: Seq<NodeView>, node: NodeView, base: nat)
    requires
        built(front, base),
        below(node, base as int + front.len()),
    ensures
        built(front.push(node), base),
{
    assert(built(seq![node], base + front.len()));
    lemma_built_joined(front, seq![node], base);
    assert(front.push(node) =~= front + seq![node]);
}

/// What a production appends is built bottom-up, no more than two nodes
/// for a token taken; the handle it yields lies among the nodes of the
/// arena after it.
pub open spec fn orderly<T>(out: Parsed<T>, ts: Seq<TokenView>, base: nat) -> bool {
    &&& built(out.nodes, base)
    &&& out.nodes.len() + 2 * out.rest.len() <= 2 * ts.len()
}

// =================================================================
// Types
// =================================================================

/// Whatever a type appends to the arena is built bottom-up.
pub proof fn lemma_type_built(ts: Seq<TokenView>, base: nat)
    requires
        base + 2 * ts.len() <= usize::MAX,
    ensures
        orderly(parse_type(ts, base), ts, base),
        parse_type(ts, base).result matches Ok(t) ==> t.0 < base + parse_type(
            ts,
            base,
        ).nodes.len(),
    decreases ts.len(), 6int,
{
    let kind = first(ts).kind;
    if kind == TokenType::EOF {
    } else if kind == TokenType::Ampersand {
        lemma_reference_built(ts, base);
    } else if kind == TokenType::LeftCurly {
        lemma_record_built(ts, base);
    } else {
        lemma_array_built(ts, base);
    }
}

/// See [`lemma_type_built`].
proof fn lemma_reference_built(ts: Seq<TokenView>, base: nat)
    requires
        base + 2 * ts.len() <= usize::MAX,
    ensures
        orderly(parse_type_ref(ts, base), ts, base),
        parse_type_ref(ts, base).result matches Ok(t) ==> t.0 < base + parse_type_ref(
            ts,
            base,
        ).nodes.len(),
    decreases ts.len(), 4int,
{
    let n = count_ampersands(ts);
    if n > 0 {
        lemma_count_ampersands(ts);
        let tail = ts.skip(n as int);
        lemma_bracketed_built(tail, base);
        let inner = parse_type_bracketed(tail, base);
        if inner.result is Ok {
            let target = inner.result->Ok_0;
            let at = base + inner.nodes.len();
            let chain = references(n, target, at);
            assert forall|k: int| 0 <= k < chain.len() implies below(
                #[trigger] chain[k],
                at + k,
            ) by {}
            lemma_built_joined(inner.nodes, chain, base);
        }
    }
}

/// See [`lemma_type_built`].
proof fn lemma_array_built(ts: Seq<TokenView>, base: nat)
    requires
        base + 2 * ts.len() <= usize::MAX,
    ensures
        orderly(parse_type_array(ts, base), ts, base),
        parse_type_array(ts, base).result matches Ok(t) ==> t.0 < base + parse_type_array(
            ts,
            base,
        ).nodes.len(),
    decreases ts.len(), 4int,
{
    reveal(array_suffix);
    lemma_bracketed_built(ts, base);
    let inner = parse_type_bracketed(ts, base);
    if inner.result is Ok {
        let target = inner.result->Ok_0;
        let at = base + inner.nodes.len();
        let n = count_brackets(inner.rest);
        lemma_count_brackets(inner.rest);
        let chain = arrays(n, target, at);
        assert forall|k: int| 0 <= k < chain.len() implies below(#[trigger] chain[k], at + k) by {}
        lemma_built_joined(inner.nodes, chain, base);
    }
}

/// See [`lemma_type_built`].
proof fn lemma_bracketed_built(ts: Seq<TokenView>, base: nat)
    requires
        base + 2 * ts.len() <= usize::MAX,
    ensures
        orderly(parse_type_bracketed(ts, base), ts, base),
        parse_type_bracketed(ts, base).result matches Ok(t) ==> t.0 < base
            + parse_type_bracketed(ts, base).nodes.len() && parse_type_bracketed(
            ts,
            base,
        ).rest.len() < ts.len(),
    decreases ts.len(), 3int,
{
    reveal(parse_type_base);
    if first(ts).kind == TokenType::LeftBrace {
        lemma_type_built(rest(ts), base);
    }
}

/// See [`lemma_type_built`].
proof fn lemma_record_built(ts: Seq<TokenView>, base: nat)
    requires
        base + 2 * ts.len() <= usize::MAX,
    ensures
        orderly(parse_type_record(ts, base), ts, base),
        parse_type_record(ts, base).result matches Ok(t) ==> t.0 < base + parse_type_record(
            ts,
            base,
        ).nodes.len(),
    decreases ts.len(), 4int,
{
    if first(ts).kind == TokenType::LeftCurly {
        lemma_pairs_built(rest(ts), base, TokenType::RightCurly, Seq::empty());
        let fields = typed_names(rest(ts), base, TokenType::RightCurly, Seq::empty());
        if fields.result is Ok {
            lemma_built_pushed(
                fields.nodes,
                NodeView::RecordType(fields.result->Ok_0),
                base,
            );
        }
    }
}

/// Whatever a list of pairs of a type and a name appends to the arena is
/// built bottom-up, and the pairs it yields lie among the nodes of the arena
/// after it, where those read before lie in the arena before it.
pub proof fn lemma_pairs_built(
    ts: Seq<TokenView>,
    base: nat,
    closer: TokenType,
    read: Seq<(Type, Name)>,
)
    requires
        base + 2 * ts.len() <= usize::MAX,
        forall|j: int| 0 <= j < read.len() ==> (#[trigger] read[j]).0.0 < base && read[j].1.0 < base,
    ensures
        orderly(typed_names(ts, base, closer, read), ts, base),
        typed_names(ts, base, closer, read).result matches Ok(all) ==> forall|j: int|
            0 <= j < all.len() ==> (#[trigger] all[j]).0.0 < base + typed_names(
                ts,
                base,
                closer,
                read,
            ).nodes.len() && all[j].1.0 < base + typed_names(ts, base, closer, read).nodes.len(),
    decreases ts.len(), 7int,
{
    reveal(parse_identifier);
    let out = typed_names(ts, base, closer, read);
    if first(ts).kind == closer {
    } else if read.len() > 0 && first(ts).kind != TokenType::Comma {
    } else {
        let begin = if read.len() > 0 {
            rest(ts)
        } else {
            ts
        };
        lemma_type_built(begin, base);
        let declared = parse_type(begin, base);
        if declared.result is Ok {
            let name = parse_identifier(declared.rest, base + declared.nodes.len());
            if name.result is Ok {
                let pushed = declared.nodes + name.nodes;
                lemma_built_joined(declared.nodes, name.nodes, base);
                let pair = (declared.result->Ok_0, name.result->Ok_0);
                let read2 = read.push(pair);
                assert forall|j: int| 0 <= j < read2.len() implies (#[trigger] read2[j]).0.0
                    < base + pushed.len() && read2[j].1.0 < base + pushed.len() by {
                    if j < read.len() {
                        assert(read2[j] == read[j]);
                    }
                }
                lemma_pairs_built(name.rest, base + pushed.len(), closer, read2);
                let tail = typed_names(name.rest, base + pushed.len(), closer, read2);
                lemma_built_joined(pushed, tail.nodes, base);
            }
        }
    }
}

// =================================================================
// Expressions
// =================================================================

/// Whatever an expression appends to the arena is built bottom-up.
pub proof fn lemma_expr_built(ts: Seq<TokenView>, base: nat)
    requires
        base + 2 * ts.len() <= usize::MAX,
    ensures
        orderly(parse_expr(ts, base), ts, base),
        parse_expr(ts, base).result matches Ok(e) ==> e.index < base + parse_expr(
            ts,
            base,
        ).nodes.len(),
    decreases ts.len(), 3int,
{
    lemma_term_built(ts, base);
    let lhs = parse_expr_term(ts, base);
    if lhs.result is Ok && first(lhs.rest).kind == TokenType::LeftAngle {
        let at = base + lhs.nodes.len();
        lemma_term_built(rest(lhs.rest), at);
        let rhs = parse_expr_term(rest(lhs.rest), at);
        lemma_built_joined(lhs.nodes, rhs.nodes, base);
        if rhs.result is Ok {
            lemma_built_pushed(
                lhs.nodes + rhs.nodes,
                NodeView::LessThanExpr(lhs.result->Ok_0, rhs.result->Ok_0),
                base,
            );
        }
    }
}

/// See [`lemma_expr_built`].
proof fn lemma_term_built(ts: Seq<TokenView>, base: nat)
    requires
        base + 2 * ts.len() <= usize::MAX,
    ensures
        orderly(parse_expr_term(ts, base), ts, base),
        parse_expr_term(ts, base).result matches Ok(e) ==> e.index < base + parse_expr_term(
            ts,
            base,
        ).nodes.len() && parse_expr_term(ts, base).rest.len() < ts.len(),
    decreases ts.len(), 2int,
{
    if first(ts).kind == TokenType::LeftBrace {
        lemma_expr_built(rest(ts), base);
    }
}

// =================================================================
// Statements
// =================================================================

/// Whatever a statement appends to the arena is built bottom-up.
pub proof fn lemma_stmt_built(ts: Seq<TokenView>, base: nat)
    requires
        base + 2 * ts.len() <= usize::MAX,
    ensures
        orderly(parse_stmt(ts, base), ts, base),
        parse_stmt(ts, base).result matches Ok(s) ==> s.index < base + parse_stmt(
            ts,
            base,
        ).nodes.len() && parse_stmt(ts, base).rest.len() < ts.len(),
{
    reveal(parse_stmt);
    reveal(parse_unit_stmt);
    reveal(parse_stmt_assert);
    reveal(parse_stmt_skip);
    if first(ts).kind == TokenType::Assert {
        lemma_expr_built(rest(ts), base);
        let condition = parse_expr(rest(ts), base);
        if condition.result is Ok {
            lemma_built_pushed(
                condition.nodes,
                NodeView::AssertStmt(condition.result->Ok_0),
                base,
            );
        }
    }
}

/// Whatever statements append to the arena is built bottom-up, and the
/// statements they yield lie among the nodes of the arena after them, where
/// those read before lie in the arena before them.
pub proof fn lemma_stmts_built(ts: Seq<TokenView>, base: nat, read: Seq<Stmt>)
    requires
        base + 2 * ts.len() <= usize::MAX,
        forall|j: int| 0 <= j < read.len() ==> (#[trigger] read[j]).index < base,
    ensures
        orderly(statements(ts, base, read), ts, base),
        statements(ts, base, read).result matches Ok(all) ==> forall|j: int|
            0 <= j < all.len() ==> (#[trigger] all[j]).index < base + statements(
                ts,
                base,
                read,
            ).nodes.len(),
    decreases ts.len(),
{
    if first(ts).kind != TokenType::RightCurly {
        lemma_stmt_built(ts, base);
        let stmt = parse_stmt(ts, base);
        if stmt.result is Ok {
            let read2 = read.push(stmt.result->Ok_0);
            assert forall|j: int| 0 <= j < read2.len() implies (#[trigger] read2[j]).index < base
                + stmt.nodes.len() by {
                if j < read.len() {
                    assert(read2[j] == read[j]);
                }
            }
            lemma_stmts_built(stmt.rest, base + stmt.nodes.len(), read2);
            let tail = statements(stmt.rest, base + stmt.nodes.len(), read2);
            lemma_built_joined(stmt.nodes, tail.nodes, base);
        }
    }
}

/// Whatever a block appends to the arena is built bottom-up.
pub proof fn lemma_block_built(ts: Seq<TokenView>, base: nat)
    requires
        base + 2 * ts.len() <= usize::MAX,
    ensures
        orderly(parse_stmt_block(ts, base), ts, base),
        parse_stmt_block(ts, base).result matches Ok(s) ==> s.index < base + parse_stmt_block(
            ts,
            base,
        ).nodes.len(),
{
    reveal(parse_stmt_block);
    if first(ts).kind == TokenType::LeftCurly {
        lemma_stmts_built(rest(ts), base, Seq::empty());
        let body = statements(rest(ts), base, Seq::empty());
        if body.result is Ok {
            lemma_built_pushed(body.nodes, NodeView::BlockStmt(body.result->Ok_0), base);
        }
    }
}

// =================================================================
// Declarations
// =================================================================

/// Whatever a declaration of a type appends to the arena is built
/// bottom-up.
proof fn lemma_type_decl_built(ts: Seq<TokenView>, base: nat)
    requires
        base + 2 * ts.len() <= usize::MAX,
    ensures
        built(parse_decl_type(ts, base).nodes, base),
{
    reveal(parse_decl_type);
    reveal(parse_identifier);
    if first(ts).kind == TokenType::Type {
        let name = parse_identifier(rest(ts), base);
        if name.result is Ok && first(name.rest).kind == TokenType::Equal {
            let begin = rest(name.rest);
            lemma_type_built(begin, base + 1);
            let aliased = parse_type(begin, base + 1);
            lemma_built_joined(name.nodes, aliased.nodes, base);
            if aliased.result is Ok {
                lemma_built_pushed(
                    name.nodes + aliased.nodes,
                    NodeView::TypeDecl(name.result->Ok_0, aliased.result->Ok_0),
                    base,
                );
            }
        }
    }
}

/// Whatever a declaration of a method appends to the arena is built
/// bottom-up.
proof fn lemma_method_decl_built(ts: Seq<TokenView>, base: nat)
    requires
        base + 2 * ts.len() <= usize::MAX,
    ensures
        built(parse_decl_method(ts, base).nodes, base),
{
    reveal(parse_decl_method);
    reveal(parse_decl_parameters);
    reveal(parse_identifier);
    lemma_type_built(ts, base);
    let returned = parse_type(ts, base);
    if returned.result is Ok {
        let at1 = base + returned.nodes.len();
        let name = parse_identifier(returned.rest, at1);
        if name.result is Ok {
            let n1 = returned.nodes + name.nodes;
            lemma_built_joined(returned.nodes, name.nodes, base);
            let at2 = base + n1.len();
            if first(name.rest).kind == TokenType::LeftBrace {
                lemma_pairs_built(rest(name.rest), at2, TokenType::RightBrace, Seq::empty());
                let listing = typed_names(
                    rest(name.rest),
                    at2,
                    TokenType::RightBrace,
                    Seq::empty(),
                );
                let n2 = n1 + listing.nodes;
                lemma_built_joined(n1, listing.nodes, base);
                if listing.result is Ok {
                    let at3 = base + n2.len();
                    lemma_block_built(listing.rest, at3);
                    let block = parse_stmt_block(listing.rest, at3);
                    let n3 = n2 + block.nodes;
                    lemma_built_joined(n2, block.nodes, base);
                    if block.result is Ok {
                        let params = as_parameters(listing.result->Ok_0);
                        let node = NodeView::MethodDecl(
                            name.result->Ok_0,
                            returned.result->Ok_0,
                            params,
                            block.result->Ok_0,
                        );
                        assert forall|i: int| 0 <= i < params.len() implies (
                        #[trigger] params[i]).declared.0 < base + n3.len() && params[i].name.0
                            < base + n3.len() by {
                            assert(params[i].declared == listing.result->Ok_0[i].0);
                        }
                        lemma_built_pushed(n3, node, base);
                    }
                }
            }
        }
    }
}

/// Whatever a declaration appends to an arena built bottom-up, also where
/// it fails, leaves the arena built bottom-up.
pub proof fn lemma_decl_built(ts: Seq<TokenView>, arena: Seq<NodeView>)
    requires
        bottom_up(arena),
        arena.len() + 2 * ts.len() <= usize::MAX,
    ensures
        bottom_up(arena + parse_decl(ts, arena.len()).nodes),
{
    reveal(parse_decl);
    lemma_type_decl_built(ts, arena.len());
    lemma_method_decl_built(ts, arena.len());
    lemma_bottom_up_grows(arena, parse_decl(ts, arena.len()).nodes);
}

} // verus!
