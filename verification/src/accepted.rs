// What the parser reads with success can be written: the nodes it appends make
// a type, an expression, a statement or a declaration of the language.

use crate::ast::{Expr, Name, NodeView, Stmt, Type};
use crate::grammar::{
    array_suffix, arrays, as_parameters, count_ampersands, count_brackets, lemma_count_ampersands,
    lemma_count_brackets, link, parse_decl, parse_decl_method, parse_decl_parameters,
    parse_decl_type, parse_expr, parse_expr_term, parse_identifier, parse_stmt, parse_stmt_assert,
    parse_stmt_block, parse_stmt_skip, parse_type, parse_type_array, parse_type_base,
    parse_type_bracketed, parse_type_record, parse_type_ref, parse_unit_stmt, references,
    statements, typed_names,
};
use crate::lexer::{first, rest, shaped, TokenType, TokenView};
use crate::printing::{
    as_pairs, printable_block, printable_decl, printable_expr, printable_pair, printable_stmt,
    printable_stmts, printable_type,
};
use vstd::prelude::*;

verus! {

// =================================================================
// Tokens
// =================================================================

/// Every identifier among the tokens is a name, and every number is made
/// of digits.
pub open spec fn all_shaped(ts: Seq<TokenView>) -> bool {
    forall|i: int| 0 <= i < ts.len() ==> shaped(#[trigger] ts[i])
}

/// What holds of all the tokens holds of the first and of those behind
/// some of them.
pub proof fn lemma_shaped_behind(ts: Seq<TokenView>, n: int)
    requires
        all_shaped(ts),
        0 <= n <= ts.len(),
    ensures
        all_shaped(ts.skip(n)),
        all_shaped(rest(ts)),
        shaped(first(ts)),
{
    assert forall|i: int| 0 <= i < ts.skip(n).len() implies shaped(#[trigger] ts.skip(n)[i]) by {
        assert(ts.skip(n)[i] == ts[i + n]);
    }
    if ts.len() > 0 {
        assert forall|i: int| 0 <= i < rest(ts).len() implies shaped(#[trigger] rest(ts)[i]) by {
            assert(rest(ts)[i] == ts[i + 1]);
        }
        assert(shaped(ts[0]));
    }
}

// =================================================================
// Growth
// =================================================================

/// A type which can be written still can when nodes are appended to the
/// arena.
pub proof fn lemma_printable_type_grows(b: Seq<NodeView>, t: Type, more: Seq<NodeView>)
    requires
        printable_type(b, t),
    ensures
        printable_type(b + more, t),
    decreases t.0,
{
    let grown = b + more;
    assert(grown[t.0 as int] == b[t.0 as int]);
    match b[t.0 as int] {
        NodeView::ArrayType(e) => {
            lemma_printable_type_grows(b, e, more);
        },
        NodeView::ReferenceType(e) => {
            lemma_printable_type_grows(b, e, more);
        },
        NodeView::RecordType(fs) => {
            assert forall|i: int| 0 <= i < fs.len() implies printable_pair(
                grown,
                #[trigger] fs[i],
                t.0 as int,
            ) by {
                assert(printable_pair(b, fs[i], t.0 as int));
                lemma_printable_type_grows(b, fs[i].0, more);
                assert(grown[fs[i].1.0 as int] == b[fs[i].1.0 as int]);
            }
        },
        _ => {},
    }
}

/// Pairs which can be written still can when nodes are appended to the
/// arena and the limit below which they lie is raised.
pub proof fn lemma_printable_pairs_grow(
    b: Seq<NodeView>,
    pairs: Seq<(Type, Name)>,
    below: int,
    more: Seq<NodeView>,
    raised: int,
)
    requires
        below <= raised,
        forall|j: int| 0 <= j < pairs.len() ==> printable_pair(b, #[trigger] pairs[j], below),
    ensures
        forall|j: int|
            0 <= j < pairs.len() ==> printable_pair(b + more, #[trigger] pairs[j], raised),
{
    assert forall|j: int| 0 <= j < pairs.len() implies printable_pair(
        b + more,
        #[trigger] pairs[j],
        raised,
    ) by {
        assert(printable_pair(b, pairs[j], below));
        lemma_printable_type_grows(b, pairs[j].0, more);
        assert((b + more)[pairs[j].1.0 as int] == b[pairs[j].1.0 as int]);
    }
}

/// An expression which can be written still can when nodes are appended to
/// the arena.
pub proof fn lemma_printable_expr_grows(b: Seq<NodeView>, e: Expr, more: Seq<NodeView>)
    requires
        printable_expr(b, e),
    ensures
        printable_expr(b + more, e),
    decreases e.index,
{
    let grown = b + more;
    assert(grown[e.index as int] == b[e.index as int]);
    match b[e.index as int] {
        NodeView::VarExpr(name) => {
            assert(grown[name.0 as int] == b[name.0 as int]);
        },
        NodeView::LessThanExpr(lhs, rhs) => {
            lemma_printable_expr_grows(b, lhs, more);
            lemma_printable_expr_grows(b, rhs, more);
        },
        _ => {},
    }
}

/// Statements which can be written still can when nodes are appended to
/// the arena and the limit below which they lie is raised.
pub proof fn lemma_printable_stmts_grow(
    b: Seq<NodeView>,
    stmts: Seq<Stmt>,
    below: int,
    more: Seq<NodeView>,
    raised: int,
)
    requires
        below <= raised,
        printable_stmts(b, stmts, below),
    ensures
        printable_stmts(b + more, stmts, raised),
{
    let grown = b + more;
    assert forall|i: int| 0 <= i < stmts.len() implies (#[trigger] stmts[i]).index < raised
        && printable_stmt(grown, stmts[i]) by {
        let s = stmts[i];
        assert(printable_stmt(b, s));
        assert(grown[s.index as int] == b[s.index as int]);
        match b[s.index as int] {
            NodeView::AssertStmt(condition) => {
                lemma_printable_expr_grows(b, condition, more);
            },
            _ => {},
        }
    }
}

/// A chain of references around a type which can be written can be written.
proof fn lemma_printable_references(b: Seq<NodeView>, target: Type, at: nat, n: nat, k: nat)
    requires
        k <= n,
        printable_type(b, target),
        target.0 < at,
        at + n <= b.len() <= usize::MAX,
        forall|j: int| 0 <= j < n ==> #[trigger] b[at + j] == NodeView::ReferenceType(
            link(j, target, at),
        ),
    ensures
        printable_type(b, link(k as int, target, at)),
    decreases k,
{
    if k > 0 {
        lemma_printable_references(b, target, at, n, (k - 1) as nat);
        assert(b[at + (k - 1)] == NodeView::ReferenceType(link(k - 1, target, at)));
    }
}

/// A chain of arrays around a type which can be written can be written.
proof fn lemma_printable_arrays(b: Seq<NodeView>, target: Type, at: nat, n: nat, k: nat)
    requires
        k <= n,
        printable_type(b, target),
        target.0 < at,
        at + n <= b.len() <= usize::MAX,
        forall|j: int| 0 <= j < n ==> #[trigger] b[at + j] == NodeView::ArrayType(
            link(j, target, at),
        ),
    ensures
        printable_type(b, link(k as int, target, at)),
    decreases k,
{
    if k > 0 {
        lemma_printable_arrays(b, target, at, n, (k - 1) as nat);
        assert(b[at + (k - 1)] == NodeView::ArrayType(link(k - 1, target, at)));
    }
}

// =================================================================
// Types
// =================================================================

/// A type which is read with success can be written: its nodes are
/// appended behind those of the arena, no more than two for a token taken,
/// and make a type of the language.
pub proof fn lemma_read_type(ts: Seq<TokenView>, b: Seq<NodeView>)
    requires
        parse_type(ts, b.len()).result is Ok,
        b.len() + 2 * ts.len() <= usize::MAX,
        all_shaped(ts),
    ensures
        ({
            let out = parse_type(ts, b.len());
            &&& all_shaped(out.rest)
            &&& out.nodes.len() + 2 * out.rest.len() <= 2 * ts.len()
            &&& b.len() <= out.result->Ok_0.0 < b.len() + out.nodes.len()
            &&& printable_type(b + out.nodes, out.result->Ok_0)
        }),
    decreases ts.len(), 6int,
{
    let kind = first(ts).kind;
    if kind == TokenType::Ampersand {
        lemma_read_reference(ts, b);
    } else if kind == TokenType::LeftCurly {
        lemma_read_record(ts, b);
    } else {
        lemma_read_array(ts, b);
    }
}

/// See [`lemma_read_type`].
proof fn lemma_read_reference(ts: Seq<TokenView>, b: Seq<NodeView>)
    requires
        parse_type_ref(ts, b.len()).result is Ok,
        b.len() + 2 * ts.len() <= usize::MAX,
        all_shaped(ts),
    ensures
        ({
            let out = parse_type_ref(ts, b.len());
            &&& all_shaped(out.rest)
            &&& out.nodes.len() + 2 * out.rest.len() <= 2 * ts.len()
            &&& b.len() <= out.result->Ok_0.0 < b.len() + out.nodes.len()
            &&& printable_type(b + out.nodes, out.result->Ok_0)
        }),
    decreases ts.len(), 4int,
{
    let base = b.len();
    let out = parse_type_ref(ts, base);
    let n = count_ampersands(ts);
    lemma_count_ampersands(ts);
    let tail = ts.skip(n as int);
    lemma_shaped_behind(ts, n as int);
    lemma_read_bracketed(tail, b);
    let inner = parse_type_bracketed(tail, base);
    let target = inner.result->Ok_0;
    let at = base + inner.nodes.len();
    let grown = b + out.nodes;
    assert(grown =~= (b + inner.nodes) + references(n, target, at));
    lemma_printable_type_grows(b + inner.nodes, target, references(n, target, at));
    assert forall|j: int| 0 <= j < n implies #[trigger] grown[at + j] == NodeView::ReferenceType(
        link(j, target, at),
    ) by {
        assert(grown[at + j] == references(n, target, at)[j]);
    }
    lemma_printable_references(grown, target, at, n, n);
}

/// See [`lemma_read_type`].
proof fn lemma_read_array(ts: Seq<TokenView>, b: Seq<NodeView>)
    requires
        parse_type_array(ts, b.len()).result is Ok,
        b.len() + 2 * ts.len() <= usize::MAX,
        all_shaped(ts),
    ensures
        ({
            let out = parse_type_array(ts, b.len());
            &&& all_shaped(out.rest)
            &&& out.nodes.len() + 2 * out.rest.len() <= 2 * ts.len()
            &&& b.len() <= out.result->Ok_0.0 < b.len() + out.nodes.len()
            &&& printable_type(b + out.nodes, out.result->Ok_0)
        }),
    decreases ts.len(), 4int,
{
    reveal(array_suffix);
    let base = b.len();
    let out = parse_type_array(ts, base);
    lemma_read_bracketed(ts, b);
    let inner = parse_type_bracketed(ts, base);
    let target = inner.result->Ok_0;
    let at = base + inner.nodes.len();
    let n = count_brackets(inner.rest);
    lemma_count_brackets(inner.rest);
    lemma_shaped_behind(inner.rest, 2 * n as int);
    lemma_shaped_behind(inner.rest.skip(2 * n as int), 0);
    let grown = b + out.nodes;
    assert(grown =~= (b + inner.nodes) + arrays(n, target, at));
    lemma_printable_type_grows(b + inner.nodes, target, arrays(n, target, at));
    assert forall|j: int| 0 <= j < n implies #[trigger] grown[at + j] == NodeView::ArrayType(
        link(j, target, at),
    ) by {
        assert(grown[at + j] == arrays(n, target, at)[j]);
    }
    lemma_printable_arrays(grown, target, at, n, n);
}

/// See [`lemma_read_type`].
proof fn lemma_read_bracketed(ts: Seq<TokenView>, b: Seq<NodeView>)
    requires
        parse_type_bracketed(ts, b.len()).result is Ok,
        b.len() + 2 * ts.len() <= usize::MAX,
        all_shaped(ts),
    ensures
        ({
            let out = parse_type_bracketed(ts, b.len());
            &&& all_shaped(out.rest)
            &&& out.nodes.len() + 2 * out.rest.len() <= 2 * ts.len()
            &&& b.len() <= out.result->Ok_0.0 < b.len() + out.nodes.len()
            &&& printable_type(b + out.nodes, out.result->Ok_0)
            &&& out.rest.len() < ts.len()
        }),
    decreases ts.len(), 3int,
{
    reveal(parse_type_base);
    let base = b.len();
    let out = parse_type_bracketed(ts, base);
    lemma_shaped_behind(ts, 0);
    if first(ts).kind == TokenType::LeftBrace {
        lemma_read_type(rest(ts), b);
        lemma_shaped_behind(parse_type(rest(ts), base).rest, 0);
    } else {
        assert((b + out.nodes)[base as int] == out.nodes[0]);
    }
}

/// See [`lemma_read_type`].
proof fn lemma_read_record(ts: Seq<TokenView>, b: Seq<NodeView>)
    requires
        parse_type_record(ts, b.len()).result is Ok,
        b.len() + 2 * ts.len() <= usize::MAX,
        all_shaped(ts),
    ensures
        ({
            let out = parse_type_record(ts, b.len());
            &&& all_shaped(out.rest)
            &&& out.nodes.len() + 2 * out.rest.len() <= 2 * ts.len()
            &&& b.len() <= out.result->Ok_0.0 < b.len() + out.nodes.len()
            &&& printable_type(b + out.nodes, out.result->Ok_0)
        }),
    decreases ts.len(), 4int,
{
    let base = b.len();
    let out = parse_type_record(ts, base);
    lemma_shaped_behind(ts, 0);
    lemma_read_pairs(rest(ts), b, TokenType::RightCurly, Seq::empty());
    let fields = typed_names(rest(ts), base, TokenType::RightCurly, Seq::empty());
    let all = fields.result->Ok_0;
    let node = NodeView::RecordType(all);
    let filled = b + fields.nodes;
    let grown = b + out.nodes;
    assert(grown =~= filled + seq![node]);
    lemma_printable_pairs_grow(filled, all, filled.len() as int, seq![node], filled.len() as int);
    assert(grown[filled.len() as int] == node);
}

/// The pairs of a type and a name which are read with success can be
/// written, where those read before them can.
pub proof fn lemma_read_pairs(
    ts: Seq<TokenView>,
    b: Seq<NodeView>,
    closer: TokenType,
    read: Seq<(Type, Name)>,
)
    requires
        typed_names(ts, b.len(), closer, read).result is Ok,
        closer != TokenType::EOF,
        b.len() + 2 * ts.len() <= usize::MAX,
        all_shaped(ts),
        forall|j: int|
            0 <= j < read.len() ==> printable_pair(b, #[trigger] read[j], b.len() as int),
    ensures
        ({
            let out = typed_names(ts, b.len(), closer, read);
            &&& all_shaped(out.rest)
            &&& out.nodes.len() + 2 * out.rest.len() + 2 <= 2 * ts.len()
            &&& forall|j: int|
                0 <= j < out.result->Ok_0.len() ==> printable_pair(
                    b + out.nodes,
                    #[trigger] out.result->Ok_0[j],
                    (b + out.nodes).len() as int,
                )
        }),
    decreases ts.len(), 7int,
{
    reveal(parse_identifier);
    let base = b.len();
    let out = typed_names(ts, base, closer, read);
    lemma_shaped_behind(ts, 0);
    if first(ts).kind == closer {
        assert(b + out.nodes =~= b);
    } else {
        let begin = if read.len() > 0 {
            rest(ts)
        } else {
            ts
        };
        lemma_read_type(begin, b);
        let declared = parse_type(begin, base);
        lemma_shaped_behind(declared.rest, 0);
        let t = declared.result->Ok_0;
        let text = first(declared.rest).content;
        let node = NodeView::Utf8(text);
        let n = Name((base + declared.nodes.len()) as usize);
        let pushed = declared.nodes + seq![node];
        let behind = rest(declared.rest);
        let b2 = b + pushed;
        let read2 = read.push((t, n));
        assert(b2 =~= (b + declared.nodes) + seq![node]);
        lemma_printable_type_grows(b + declared.nodes, t, seq![node]);
        lemma_printable_pairs_grow(b, read, base as int, pushed, b2.len() as int);
        assert(b2[n.0 as int] == node);
        assert forall|j: int| 0 <= j < read2.len() implies printable_pair(
            b2,
            #[trigger] read2[j],
            b2.len() as int,
        ) by {
            if j < read.len() {
                assert(read2[j] == read[j]);
            }
        }
        lemma_read_pairs(behind, b2, closer, read2);
        let tail = typed_names(behind, b2.len(), closer, read2);
        assert(b + out.nodes =~= b2 + tail.nodes);
    }
}

// =================================================================
// Expressions
// =================================================================

/// An expression which is read with success can be written.
pub proof fn lemma_read_expr(ts: Seq<TokenView>, b: Seq<NodeView>)
    requires
        parse_expr(ts, b.len()).result is Ok,
        b.len() + 2 * ts.len() <= usize::MAX,
        all_shaped(ts),
    ensures
        ({
            let out = parse_expr(ts, b.len());
            &&& all_shaped(out.rest)
            &&& out.nodes.len() + 2 * out.rest.len() <= 2 * ts.len()
            &&& b.len() <= out.result->Ok_0.index < b.len() + out.nodes.len()
            &&& printable_expr(b + out.nodes, out.result->Ok_0)
        }),
    decreases ts.len(), 3int,
{
    let base = b.len();
    let out = parse_expr(ts, base);
    lemma_read_term(ts, b);
    let lhs = parse_expr_term(ts, base);
    if first(lhs.rest).kind == TokenType::LeftAngle {
        let filled = b + lhs.nodes;
        lemma_shaped_behind(lhs.rest, 0);
        lemma_read_term(rest(lhs.rest), filled);
        let rhs = parse_expr_term(rest(lhs.rest), filled.len());
        let l = lhs.result->Ok_0;
        let r = rhs.result->Ok_0;
        let node = NodeView::LessThanExpr(l, r);
        let grown = b + out.nodes;
        assert(out.nodes =~= (lhs.nodes + rhs.nodes).push(node));
        assert(grown =~= (filled + rhs.nodes) + seq![node]);
        lemma_printable_expr_grows(filled, l, rhs.nodes);
        lemma_printable_expr_grows(filled + rhs.nodes, l, seq![node]);
        lemma_printable_expr_grows(filled + rhs.nodes, r, seq![node]);
        assert(grown[out.result->Ok_0.index as int] == node);
    }
}

/// See [`lemma_read_expr`].
proof fn lemma_read_term(ts: Seq<TokenView>, b: Seq<NodeView>)
    requires
        parse_expr_term(ts, b.len()).result is Ok,
        b.len() + 2 * ts.len() <= usize::MAX,
        all_shaped(ts),
    ensures
        ({
            let out = parse_expr_term(ts, b.len());
            &&& all_shaped(out.rest)
            &&& out.nodes.len() + 2 * out.rest.len() <= 2 * ts.len()
            &&& b.len() <= out.result->Ok_0.index < b.len() + out.nodes.len()
            &&& printable_expr(b + out.nodes, out.result->Ok_0)
            &&& out.rest.len() < ts.len()
        }),
    decreases ts.len(), 2int,
{
    let base = b.len();
    let out = parse_expr_term(ts, base);
    let grown = b + out.nodes;
    lemma_shaped_behind(ts, 0);
    match first(ts).kind {
        TokenType::LeftBrace => {
            lemma_read_expr(rest(ts), b);
            lemma_shaped_behind(parse_expr(rest(ts), base).rest, 0);
        },
        TokenType::Identifier => {
            assert(grown[base as int] == out.nodes[0]);
            assert(grown[base as int + 1] == out.nodes[1]);
        },
        _ => {
            assert(grown[base as int] == out.nodes[0]);
        },
    }
}

// =================================================================
// Statements
// =================================================================

/// A statement which is read with success can be written.
pub proof fn lemma_read_stmt(ts: Seq<TokenView>, b: Seq<NodeView>)
    requires
        parse_stmt(ts, b.len()).result is Ok,
        b.len() + 2 * ts.len() <= usize::MAX,
        all_shaped(ts),
    ensures
        ({
            let out = parse_stmt(ts, b.len());
            &&& all_shaped(out.rest)
            &&& out.nodes.len() + 2 * out.rest.len() <= 2 * ts.len()
            &&& b.len() <= out.result->Ok_0.index < b.len() + out.nodes.len()
            &&& printable_stmt(b + out.nodes, out.result->Ok_0)
            &&& out.rest.len() < ts.len()
        }),
{
    reveal(parse_stmt);
    reveal(parse_unit_stmt);
    reveal(parse_stmt_assert);
    reveal(parse_stmt_skip);
    let base = b.len();
    let out = parse_stmt(ts, base);
    let grown = b + out.nodes;
    lemma_shaped_behind(ts, 0);
    lemma_shaped_behind(rest(ts), 0);
    if first(ts).kind == TokenType::Assert {
        lemma_read_expr(rest(ts), b);
        let condition = parse_expr(rest(ts), base);
        lemma_shaped_behind(condition.rest, 0);
        let node = NodeView::AssertStmt(condition.result->Ok_0);
        assert(out.nodes =~= condition.nodes.push(node));
        assert(grown =~= (b + condition.nodes) + seq![node]);
        lemma_printable_expr_grows(b + condition.nodes, condition.result->Ok_0, seq![node]);
        assert(grown[out.result->Ok_0.index as int] == node);
    } else {
        assert(grown[base as int] == out.nodes[0]);
    }
}

/// The statements which are read with success can be written, where those
/// read before them can.
pub proof fn lemma_read_stmts(ts: Seq<TokenView>, b: Seq<NodeView>, read: Seq<Stmt>)
    requires
        statements(ts, b.len(), read).result is Ok,
        b.len() + 2 * ts.len() <= usize::MAX,
        all_shaped(ts),
        printable_stmts(b, read, b.len() as int),
    ensures
        ({
            let out = statements(ts, b.len(), read);
            &&& all_shaped(out.rest)
            &&& out.nodes.len() + 2 * out.rest.len() + 2 <= 2 * ts.len()
            &&& printable_stmts(b + out.nodes, out.result->Ok_0, (b + out.nodes).len() as int)
        }),
    decreases ts.len(),
{
    let base = b.len();
    let out = statements(ts, base, read);
    lemma_shaped_behind(ts, 0);
    if first(ts).kind == TokenType::RightCurly {
        assert(b + out.nodes =~= b);
    } else {
        lemma_read_stmt(ts, b);
        let stmt = parse_stmt(ts, base);
        let s = stmt.result->Ok_0;
        let b2 = b + stmt.nodes;
        let read2 = read.push(s);
        lemma_printable_stmts_grow(b, read, base as int, stmt.nodes, b2.len() as int);
        assert forall|i: int| 0 <= i < read2.len() implies (#[trigger] read2[i]).index
            < b2.len() && printable_stmt(b2, read2[i]) by {
            if i < read.len() {
                assert(read2[i] == read[i]);
            }
        }
        lemma_read_stmts(stmt.rest, b2, read2);
        let tail = statements(stmt.rest, b2.len(), read2);
        assert(b + out.nodes =~= b2 + tail.nodes);
    }
}

/// A block which is read with success can be written.
pub proof fn lemma_read_block(ts: Seq<TokenView>, b: Seq<NodeView>)
    requires
        parse_stmt_block(ts, b.len()).result is Ok,
        b.len() + 2 * ts.len() <= usize::MAX,
        all_shaped(ts),
    ensures
        ({
            let out = parse_stmt_block(ts, b.len());
            &&& all_shaped(out.rest)
            &&& out.nodes.len() + 2 * out.rest.len() <= 2 * ts.len()
            &&& b.len() <= out.result->Ok_0.index < b.len() + out.nodes.len()
            &&& printable_block(b + out.nodes, out.result->Ok_0)
        }),
{
    reveal(parse_stmt_block);
    let base = b.len();
    let out = parse_stmt_block(ts, base);
    lemma_shaped_behind(ts, 0);
    lemma_read_stmts(rest(ts), b, Seq::empty());
    let body = statements(rest(ts), base, Seq::empty());
    let all = body.result->Ok_0;
    let node = NodeView::BlockStmt(all);
    let filled = b + body.nodes;
    let grown = b + out.nodes;
    assert(out.nodes =~= body.nodes.push(node));
    assert(grown =~= filled + seq![node]);
    lemma_printable_stmts_grow(filled, all, filled.len() as int, seq![node], filled.len() as int);
    assert(grown[filled.len() as int] == node);
}

// =================================================================
// Declarations
// =================================================================

/// A declaration of a type which is read with success can be written.
proof fn lemma_read_type_decl(ts: Seq<TokenView>, b: Seq<NodeView>)
    requires
        parse_decl_type(ts, b.len()).result is Ok,
        b.len() + 2 * ts.len() <= usize::MAX,
        all_shaped(ts),
    ensures
        ({
            let out = parse_decl_type(ts, b.len());
            &&& all_shaped(out.rest)
            &&& b.len() <= out.result->Ok_0.index < b.len() + out.nodes.len()
            &&& printable_decl(b + out.nodes, out.result->Ok_0)
        }),
{
    reveal(parse_decl_type);
    reveal(parse_identifier);
    let base = b.len();
    let out = parse_decl_type(ts, base);
    let named = NodeView::Utf8(first(rest(ts)).content);
    let b1 = b + seq![named];
    let begin = rest(rest(rest(ts)));
    lemma_shaped_behind(ts, 0);
    lemma_shaped_behind(rest(ts), 0);
    lemma_shaped_behind(rest(rest(ts)), 0);
    lemma_read_type(begin, b1);
    lemma_shaped_behind(parse_type(begin, b1.len()).rest, 0);
    let aliased = parse_type(begin, b1.len());
    let t = aliased.result->Ok_0;
    let node = NodeView::TypeDecl(Name(base as usize), t);
    let grown = b + out.nodes;
    assert(out.nodes =~= (seq![named] + aliased.nodes).push(node));
    assert(grown =~= (b1 + aliased.nodes) + seq![node]);
    lemma_printable_type_grows(b1 + aliased.nodes, t, seq![node]);
    assert(grown[base as int] == named);
    assert(grown[out.result->Ok_0.index as int] == node);
}

/// A declaration of a method which is read with success can be written.
#[verifier::rlimit(50)]
proof fn lemma_read_method_decl(ts: Seq<TokenView>, b: Seq<NodeView>)
    requires
        parse_decl_method(ts, b.len()).result is Ok,
        b.len() + 2 * ts.len() <= usize::MAX,
        all_shaped(ts),
    ensures
        ({
            let out = parse_decl_method(ts, b.len());
            &&& all_shaped(out.rest)
            &&& b.len() <= out.result->Ok_0.index < b.len() + out.nodes.len()
            &&& printable_decl(b + out.nodes, out.result->Ok_0)
        }),
{
    reveal(parse_decl_method);
    reveal(parse_decl_parameters);
    reveal(parse_identifier);
    let base = b.len();
    let out = parse_decl_method(ts, base);
    // The type of the result
    lemma_read_type(ts, b);
    let returned = parse_type(ts, base);
    let t = returned.result->Ok_0;
    let b1 = b + returned.nodes;
    // The name
    let named = NodeView::Utf8(first(returned.rest).content);
    let n = Name(b1.len() as usize);
    let b2 = b1 + seq![named];
    let ts2 = rest(returned.rest);
    lemma_shaped_behind(returned.rest, 0);
    lemma_shaped_behind(ts2, 0);
    // The parameters
    lemma_read_pairs(rest(ts2), b2, TokenType::RightBrace, Seq::empty());
    let listing = typed_names(rest(ts2), b2.len(), TokenType::RightBrace, Seq::empty());
    let all = listing.result->Ok_0;
    let b3 = b2 + listing.nodes;
    // The body
    lemma_read_block(listing.rest, b3);
    let block = parse_stmt_block(listing.rest, b3.len());
    let s = block.result->Ok_0;
    let b4 = b3 + block.nodes;
    let params = as_parameters(all);
    let node = NodeView::MethodDecl(n, t, params, s);
    assert(out.nodes =~= (((returned.nodes + seq![named]) + listing.nodes) + block.nodes).push(
        node,
    ));
    let grown = b + out.nodes;
    assert(grown =~= b4 + seq![node]);
    let d = out.result->Ok_0;
    assert(d.index == b4.len());
    assert(grown[d.index as int] == node);
    assert(printable_pair(grown, (t, n), d.index as int)) by {
        assert(grown =~= b1 + (((seq![named] + listing.nodes) + block.nodes) + seq![node]));
        lemma_printable_type_grows(
            b1,
            t,
            ((seq![named] + listing.nodes) + block.nodes) + seq![node],
        );
        assert(grown[n.0 as int] == named);
    }
    assert(as_pairs(params) =~= all);
    assert forall|i: int| 0 <= i < params.len() implies printable_pair(
        grown,
        #[trigger] as_pairs(params)[i],
        d.index as int,
    ) by {
        assert(grown =~= b3 + (block.nodes + seq![node]));
        lemma_printable_pairs_grow(
            b3,
            all,
            b3.len() as int,
            block.nodes + seq![node],
            d.index as int,
        );
    }
    assert(printable_block(grown, s)) by {
        assert(grown[s.index as int] == b4[s.index as int]);
        lemma_printable_stmts_grow(
            b4,
            b4[s.index as int]->BlockStmt_0,
            s.index as int,
            seq![node],
            s.index as int,
        );
    }
}

/// A declaration which is read with success can be written: its nodes are
/// appended behind those of the arena, and make a declaration of the
/// language.
pub proof fn lemma_read_decl(ts: Seq<TokenView>, b: Seq<NodeView>)
    requires
        parse_decl(ts, b.len()).result is Ok,
        b.len() + 2 * ts.len() <= usize::MAX,
        all_shaped(ts),
    ensures
        ({
            let out = parse_decl(ts, b.len());
            &&& all_shaped(out.rest)
            &&& b.len() <= out.result->Ok_0.index < b.len() + out.nodes.len()
            &&& printable_decl(b + out.nodes, out.result->Ok_0)
        }),
{
    reveal(parse_decl);
    if first(ts).kind == TokenType::Type {
        lemma_read_type_decl(ts, b);
    } else {
        lemma_read_method_decl(ts, b);
    }
}

} // verus!
