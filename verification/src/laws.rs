// What holds of the grammar for all inputs: that productions make progress, how
// references and arrays nest, that lists keep their order, and that what is
// read can be written and read again.

use crate::accepted::{all_shaped, lemma_read_decl};
use crate::ast::{type_at, Expr, Name, NodeView, Parameter, Stmt, Type};
use crate::error::SyntaxErrorView;
use crate::grammar::{
    array_suffix, arrays, base_type, count_ampersands, leading_ampersands, leading_brackets,
    lemma_count_ampersands, lemma_count_brackets, lemma_leading_ampersands, lemma_leading_brackets,
    link, parse_decl, parse_expr, parse_expr_term, parse_identifier, parse_stmt, parse_stmt_assert,
    parse_stmt_skip, parse_type, parse_type_array, parse_type_base, parse_type_bracketed,
    parse_type_compound, parse_type_record, parse_type_ref, parse_unit_stmt, references,
    typed_names, ErrorView,
};
use crate::lexer::{first, lemma_tokens_shaped, rest, tokenize, TokenType, TokenView};
use crate::printing::{
    alike_decls, as_pairs, printable_decl, printable_expr, printable_pair, printable_stmt,
    printable_stmts, printable_type, printed_decl, spelled,
};
use crate::rendering::{lemma_decl_lexable, lemma_text_scanned, text};
use crate::roundtrip::lemma_decl_round_trip;
use crate::typing::{
    bind, check, check_assert, check_block, check_expr, check_stmt, name_text, Scope,
};
use vstd::prelude::*;

verus! {

// =================================================================
// Progress
// =================================================================

/// The suffix of an array type leaves no more tokens than it finds.
pub proof fn lemma_array_suffix_progress(ts: Seq<TokenView>, base: nat, element: Type)
    ensures
        array_suffix(ts, base, element).rest.len() <= ts.len(),
{
    reveal(array_suffix);
    lemma_count_brackets(ts);
}

/// A type leaves no more tokens than it finds, and fewer where it is read
/// with success.
pub proof fn lemma_type_progress(ts: Seq<TokenView>, base: nat)
    ensures
        parse_type(ts, base).rest.len() <= ts.len(),
        parse_type(ts, base).result is Ok ==> parse_type(ts, base).rest.len() < ts.len(),
    decreases ts.len(), 6int,
{
    lemma_compound_progress(ts, base);
}

/// See [`lemma_type_progress`].
pub proof fn lemma_compound_progress(ts: Seq<TokenView>, base: nat)
    ensures
        parse_type_compound(ts, base).rest.len() <= ts.len(),
        parse_type_compound(ts, base).result is Ok ==> parse_type_compound(ts, base).rest.len()
            < ts.len(),
    decreases ts.len(), 5int,
{
    let kind = first(ts).kind;
    if kind == TokenType::EOF {
    } else if kind == TokenType::Ampersand {
        lemma_ref_progress(ts, base);
    } else if kind == TokenType::LeftCurly {
        lemma_record_progress(ts, base);
    } else {
        lemma_array_progress(ts, base);
    }
}

/// See [`lemma_type_progress`].
pub proof fn lemma_ref_progress(ts: Seq<TokenView>, base: nat)
    ensures
        parse_type_ref(ts, base).rest.len() <= ts.len(),
        parse_type_ref(ts, base).result is Ok ==> parse_type_ref(ts, base).rest.len() < ts.len(),
    decreases ts.len(), 4int,
{
    let count = count_ampersands(ts);
    if count > 0 {
        lemma_count_ampersands(ts);
        lemma_bracketed_progress(ts.skip(count as int), base);
    }
}

/// See [`lemma_type_progress`].
pub proof fn lemma_record_progress(ts: Seq<TokenView>, base: nat)
    ensures
        parse_type_record(ts, base).rest.len() <= ts.len(),
        parse_type_record(ts, base).result is Ok ==> parse_type_record(ts, base).rest.len()
            < ts.len(),
    decreases ts.len(), 4int,
{
    if first(ts).kind == TokenType::LeftCurly {
        lemma_typed_names_progress(rest(ts), base, TokenType::RightCurly, Seq::empty());
    }
}

/// A list of pairs of a type and a name leaves no more tokens than it
/// finds.  Where a pair is read with success, fewer tokens are left behind
/// it than the list found: the test on the lengths, which the list makes
/// before it goes on, always succeeds.
pub proof fn lemma_typed_names_progress(
    ts: Seq<TokenView>,
    base: nat,
    closer: TokenType,
    read: Seq<(Type, Name)>,
)
    ensures
        typed_names(ts, base, closer, read).rest.len() <= ts.len(),
        ({
            let begin = if read.len() > 0 {
                rest(ts)
            } else {
                ts
            };
            let declared = parse_type(begin, base);
            let name = parse_identifier(declared.rest, base + declared.nodes.len());
            declared.result is Ok && name.result is Ok ==> name.rest.len() < ts.len()
        }),
    decreases ts.len(), 7int,
{
    reveal(parse_identifier);
    let begin = if read.len() > 0 {
        rest(ts)
    } else {
        ts
    };
    lemma_type_progress(begin, base);
    if first(ts).kind == closer {
    } else if read.len() > 0 && first(ts).kind != TokenType::Comma {
    } else {
        let declared = parse_type(begin, base);
        if declared.result is Ok {
            let name = parse_identifier(declared.rest, base + declared.nodes.len());
            if name.result is Ok {
                lemma_typed_names_progress(
                    name.rest,
                    base + (declared.nodes + name.nodes).len(),
                    closer,
                    read.push((declared.result->Ok_0, name.result->Ok_0)),
                );
            }
        }
    }
}

/// See [`lemma_type_progress`].
pub proof fn lemma_array_progress(ts: Seq<TokenView>, base: nat)
    ensures
        parse_type_array(ts, base).rest.len() <= ts.len(),
        parse_type_array(ts, base).result is Ok ==> parse_type_array(ts, base).rest.len()
            < ts.len(),
    decreases ts.len(), 4int,
{
    lemma_bracketed_progress(ts, base);
    let inner = parse_type_bracketed(ts, base);
    if inner.result is Ok {
        lemma_array_suffix_progress(
            inner.rest,
            base + inner.nodes.len(),
            inner.result->Ok_0,
        );
    }
}

/// See [`lemma_type_progress`].
pub proof fn lemma_bracketed_progress(ts: Seq<TokenView>, base: nat)
    ensures
        parse_type_bracketed(ts, base).rest.len() <= ts.len(),
        parse_type_bracketed(ts, base).result is Ok ==> parse_type_bracketed(
            ts,
            base,
        ).rest.len() < ts.len(),
    decreases ts.len(), 3int,
{
    reveal(parse_type_base);
    if first(ts).kind == TokenType::LeftBrace {
        lemma_type_progress(rest(ts), base);
    }
}

/// An expression leaves no more tokens than it finds, and fewer where it
/// is read with success.
pub proof fn lemma_expr_progress(ts: Seq<TokenView>, base: nat)
    ensures
        parse_expr(ts, base).rest.len() <= ts.len(),
        parse_expr(ts, base).result is Ok ==> parse_expr(ts, base).rest.len() < ts.len(),
    decreases ts.len(), 3int,
{
    lemma_term_progress(ts, base);
    let lhs = parse_expr_term(ts, base);
    if lhs.result is Ok && first(lhs.rest).kind == TokenType::LeftAngle {
        lemma_term_progress(rest(lhs.rest), base + lhs.nodes.len());
    }
}

/// A term leaves no more tokens than it finds, and fewer where it is read
/// with success: the test on the lengths, which an expression makes behind
/// its first term, always succeeds.
pub proof fn lemma_term_progress(ts: Seq<TokenView>, base: nat)
    ensures
        parse_expr_term(ts, base).rest.len() <= ts.len(),
        parse_expr_term(ts, base).result is Ok ==> parse_expr_term(ts, base).rest.len()
            < ts.len(),
    decreases ts.len(), 2int,
{
    if first(ts).kind == TokenType::LeftBrace {
        lemma_expr_progress(rest(ts), base);
    }
}

/// A statement which is read with success leaves fewer tokens than it
/// finds: the test on the lengths, which a block makes behind each of its
/// statements, always succeeds.
pub proof fn lemma_stmt_progress(ts: Seq<TokenView>, base: nat)
    ensures
        parse_stmt(ts, base).rest.len() <= ts.len(),
        parse_stmt(ts, base).result is Ok ==> parse_stmt(ts, base).rest.len() < ts.len(),
{
    reveal(parse_stmt);
    reveal(parse_unit_stmt);
    reveal(parse_stmt_assert);
    reveal(parse_stmt_skip);
    if first(ts).kind == TokenType::Assert {
        lemma_expr_progress(rest(ts), base);
    }
}

// =================================================================
// References
// =================================================================

/// The type found by following a reference `depth` times, if the type is a
/// reference so deep.
pub open spec fn dereferenced(arena: Seq<NodeView>, t: Type, depth: nat) -> Option<Type>
    decreases depth,
{
    if depth == 0 {
        Some(t)
    } else if t.0 < arena.len() && arena[t.0 as int] is ReferenceType {
        dereferenced(arena, arena[t.0 as int]->ReferenceType_0, (depth - 1) as nat)
    } else {
        None
    }
}

proof fn lemma_reference_chain(arena: Seq<NodeView>, target: Type, at: nat, n: nat, k: nat)
    requires
        k <= n,
        at + n <= arena.len() <= usize::MAX,
        forall|j: int| 0 <= j < n ==> #[trigger] arena[at + j] == NodeView::ReferenceType(
            link(j, target, at),
        ),
    ensures
        dereferenced(arena, link(k as int, target, at), k) == Some(target),
    decreases k,
{
    if k > 0 {
        assert(arena[at + (k - 1)] == NodeView::ReferenceType(link(k - 1, target, at)));
        lemma_reference_chain(arena, target, at, n, (k - 1) as nat);
    }
}

/// A type written as `n` `&`, one at least, in front of a type which is
/// primitive or stands between `(` and `)` is read as that type wrapped `n`
/// times in a reference: the nodes are those of the inner type with `n`
/// references behind them, and following the references of the result `n`
/// times leads to the inner type.  Where the inner type is primitive, that
/// is the primitive type which its keyword names.
pub proof fn law_reference_nesting(arena: Seq<NodeView>, ts: Seq<TokenView>, n: nat)
    requires
        n >= 1,
        leading_ampersands(ts, n),
        parse_type_bracketed(ts.skip(n as int), arena.len()).result is Ok,
        arena.len() + parse_type_bracketed(ts.skip(n as int), arena.len()).nodes.len() + n
            <= usize::MAX,
    ensures
        ({
            let inner = parse_type_bracketed(ts.skip(n as int), arena.len());
            let out = parse_type(ts, arena.len());
            &&& out.result is Ok
            &&& out.rest == inner.rest
            &&& out.nodes == inner.nodes + references(
                n,
                inner.result->Ok_0,
                arena.len() + inner.nodes.len(),
            )
            &&& dereferenced(arena + out.nodes, out.result->Ok_0, n) == Some(inner.result->Ok_0)
            &&& base_type(first(ts.skip(n as int)).kind) matches Some(node) ==> {
                &&& inner.result->Ok_0.0 == arena.len()
                &&& (arena + out.nodes)[arena.len() as int] == node
            }
        }),
{
    reveal(parse_type_base);
    lemma_leading_ampersands(ts, n);
    let base = arena.len();
    let inner = parse_type_bracketed(ts.skip(n as int), base);
    let out = parse_type(ts, base);
    let target = inner.result->Ok_0;
    let at = base + inner.nodes.len();
    assert(first(ts) == ts[0]);
    assert(out == parse_type_ref(ts, base));
    let grown = arena + out.nodes;
    assert forall|j: int| 0 <= j < n implies #[trigger] grown[at + j] == NodeView::ReferenceType(
        link(j, target, at),
    ) by {
        assert(grown[at + j] == references(n, target, at)[j]);
    }
    lemma_reference_chain(grown, target, at, n, n);
}

// =================================================================
// Arrays
// =================================================================

/// The type found by going from an array to its element `depth` times, if
/// the type is an array so deep.
pub open spec fn element_of(arena: Seq<NodeView>, t: Type, depth: nat) -> Option<Type>
    decreases depth,
{
    if depth == 0 {
        Some(t)
    } else if t.0 < arena.len() && arena[t.0 as int] is ArrayType {
        element_of(arena, arena[t.0 as int]->ArrayType_0, (depth - 1) as nat)
    } else {
        None
    }
}

proof fn lemma_array_chain(arena: Seq<NodeView>, target: Type, at: nat, n: nat, k: nat)
    requires
        k <= n,
        at + n <= arena.len() <= usize::MAX,
        forall|j: int| 0 <= j < n ==> #[trigger] arena[at + j] == NodeView::ArrayType(
            link(j, target, at),
        ),
    ensures
        element_of(arena, link(k as int, target, at), k) == Some(target),
    decreases k,
{
    if k > 0 {
        assert(arena[at + (k - 1)] == NodeView::ArrayType(link(k - 1, target, at)));
        lemma_array_chain(arena, target, at, n, (k - 1) as nat);
    }
}

/// A type which is primitive or stands between `(` and `)`, with `n` pairs
/// `[` `]` behind it, is read as that type wrapped `n` times in an array,
/// the leftmost pair innermost: the nodes are those of the inner type with
/// `n` arrays behind them, and going from the result to its element `n`
/// times leads to the inner type.
pub proof fn law_array_nesting(arena: Seq<NodeView>, ts: Seq<TokenView>, n: nat)
    requires
        first(ts).kind != TokenType::Ampersand,
        first(ts).kind != TokenType::LeftCurly,
        first(ts).kind != TokenType::EOF,
        parse_type_bracketed(ts, arena.len()).result is Ok,
        leading_brackets(parse_type_bracketed(ts, arena.len()).rest, n),
        arena.len() + parse_type_bracketed(ts, arena.len()).nodes.len() + n <= usize::MAX,
    ensures
        ({
            let inner = parse_type_bracketed(ts, arena.len());
            let out = parse_type(ts, arena.len());
            &&& out.result is Ok
            &&& out.rest == inner.rest.skip(2 * n as int)
            &&& out.nodes == inner.nodes + arrays(
                n,
                inner.result->Ok_0,
                arena.len() + inner.nodes.len(),
            )
            &&& element_of(arena + out.nodes, out.result->Ok_0, n) == Some(inner.result->Ok_0)
        }),
{
    reveal(array_suffix);
    let base = arena.len();
    let inner = parse_type_bracketed(ts, base);
    let out = parse_type(ts, base);
    let target = inner.result->Ok_0;
    let at = base + inner.nodes.len();
    lemma_leading_brackets(inner.rest, n);
    assert(out == parse_type_array(ts, base));
    let grown = arena + out.nodes;
    assert forall|j: int| 0 <= j < n implies #[trigger] grown[at + j] == NodeView::ArrayType(
        link(j, target, at),
    ) by {
        assert(grown[at + j] == arrays(n, target, at)[j]);
    }
    lemma_array_chain(grown, target, at, n, n);
}

/// A type which begins with `&` is read as a reference, whatever follows:
/// pairs `[` `]` behind it are left where they are, so that an array of
/// references can only be written with the reference between `(` and `)`.
/// Likewise a type which begins with `{` is read as a record.
pub proof fn law_brackets_are_needed(arena: Seq<NodeView>, ts: Seq<TokenView>)
    requires
        first(ts).kind == TokenType::Ampersand || first(ts).kind == TokenType::LeftCurly,
        parse_type(ts, arena.len()).result is Ok,
        arena.len() + parse_type(ts, arena.len()).nodes.len() <= usize::MAX,
    ensures
        ({
            let out = parse_type(ts, arena.len());
            let node = (arena + out.nodes)[out.result->Ok_0.0 as int];
            &&& arena.len() <= out.result->Ok_0.0 < arena.len() + out.nodes.len()
            &&& first(ts).kind == TokenType::Ampersand ==> node is ReferenceType && out.rest
                == parse_type_bracketed(
                ts.skip(count_ampersands(ts) as int),
                arena.len(),
            ).rest
            &&& first(ts).kind == TokenType::LeftCurly ==> node is RecordType
        }),
{
    let base = arena.len();
    let out = parse_type(ts, base);
    if first(ts).kind == TokenType::Ampersand {
        let n = count_ampersands(ts);
        let inner = parse_type_bracketed(ts.skip(n as int), base);
        let at = base + inner.nodes.len();
        let target = inner.result->Ok_0;
        assert(first(ts) == ts[0]);
        assert(out == parse_type_ref(ts, base));
        assert((arena + out.nodes)[at + (n - 1)] == references(n, target, at)[n - 1]);
    } else {
        let fields = typed_names(rest(ts), base, TokenType::RightCurly, Seq::empty());
        assert(out == parse_type_record(ts, base));
        assert((arena + out.nodes)[base as int + fields.nodes.len()]
            == out.nodes[fields.nodes.len() as int]);
    }
}

// =================================================================
// Records
// =================================================================

/// The pairs read so far stay at the front of the list, in their order.
pub proof fn lemma_typed_names_keeps(
    ts: Seq<TokenView>,
    base: nat,
    closer: TokenType,
    read: Seq<(Type, Name)>,
)
    requires
        typed_names(ts, base, closer, read).result is Ok,
    ensures
        read.len() <= typed_names(ts, base, closer, read).result->Ok_0.len(),
        typed_names(ts, base, closer, read).result->Ok_0.subrange(0, read.len() as int) == read,
    decreases ts.len(),
{
    reveal(parse_identifier);
    let fields = typed_names(ts, base, closer, read).result->Ok_0;
    if first(ts).kind == closer {
        assert(fields.subrange(0, read.len() as int) =~= read);
    } else {
        let begin = if read.len() > 0 {
            rest(ts)
        } else {
            ts
        };
        let declared = parse_type(begin, base);
        let name = parse_identifier(declared.rest, base + declared.nodes.len());
        let pair = (declared.result->Ok_0, name.result->Ok_0);
        lemma_typed_names_keeps(
            name.rest,
            base + (declared.nodes + name.nodes).len(),
            closer,
            read.push(pair),
        );
        assert(fields.subrange(0, read.len() as int) =~= fields.subrange(
            0,
            read.len() as int + 1,
        ).subrange(0, read.len() as int));
        assert(read.push(pair).subrange(0, read.len() as int) =~= read);
    }
}

/// The fields of a record, and the parameters of a method, are listed in
/// the order in which they are written: where the list goes on with a type
/// and a name, that pair is listed right behind the pairs read before it,
/// which stay in front in their order.
pub proof fn law_fields_in_order(
    ts: Seq<TokenView>,
    base: nat,
    closer: TokenType,
    read: Seq<(Type, Name)>,
)
    requires
        typed_names(ts, base, closer, read).result is Ok,
    ensures
        ({
            let fields = typed_names(ts, base, closer, read).result->Ok_0;
            let begin = if read.len() > 0 {
                rest(ts)
            } else {
                ts
            };
            let declared = parse_type(begin, base);
            let name = parse_identifier(declared.rest, base + declared.nodes.len());
            &&& read.len() <= fields.len()
            &&& fields.subrange(0, read.len() as int) == read
            &&& first(ts).kind == closer ==> fields == read
            &&& first(ts).kind != closer ==> {
                &&& declared.result is Ok
                &&& name.result is Ok
                &&& read.len() < fields.len()
                &&& fields[read.len() as int] == (declared.result->Ok_0, name.result->Ok_0)
            }
        }),
{
    reveal(parse_identifier);
    lemma_typed_names_keeps(ts, base, closer, read);
    if first(ts).kind != closer {
        let fields = typed_names(ts, base, closer, read).result->Ok_0;
        let begin = if read.len() > 0 {
            rest(ts)
        } else {
            ts
        };
        let declared = parse_type(begin, base);
        let name = parse_identifier(declared.rest, base + declared.nodes.len());
        let pair = (declared.result->Ok_0, name.result->Ok_0);
        lemma_typed_names_keeps(
            name.rest,
            base + (declared.nodes + name.nodes).len(),
            closer,
            read.push(pair),
        );
        assert(fields.subrange(0, read.len() as int + 1)[read.len() as int]
            == fields[read.len() as int]);
    }
}

/// A record type which is read with success ends in a record node, which
/// lists the pairs written between `{` and `}` as [`law_fields_in_order`]
/// says.
pub proof fn law_record_lists_fields(ts: Seq<TokenView>, base: nat)
    requires
        parse_type_record(ts, base).result is Ok,
    ensures
        ({
            let out = parse_type_record(ts, base);
            let fields = typed_names(rest(ts), base, TokenType::RightCurly, Seq::empty());
            &&& first(ts).kind == TokenType::LeftCurly
            &&& fields.result is Ok
            &&& out.nodes == fields.nodes.push(NodeView::RecordType(fields.result->Ok_0))
            &&& out.result == Ok::<Type, ErrorView>(
                Type((base + fields.nodes.len()) as usize),
            )
        }),
{
}

// =================================================================
// Writing and reading again
// =================================================================

/// A declaration which is read with success, from tokens such as the lexer
/// yields, can be written, and is read back from the words it is written
/// with: reading tokens which spell those words, into any arena, succeeds,
/// takes just those tokens, and yields a declaration of the same structure,
/// wherever in the second arena its nodes lie.
pub proof fn law_written_declaration_reads_back(
    ts: Seq<TokenView>,
    b: Seq<NodeView>,
    us: Seq<TokenView>,
    c: Seq<NodeView>,
)
    requires
        all_shaped(ts),
        parse_decl(ts, b.len()).result is Ok,
        b.len() + 2 * ts.len() <= usize::MAX,
        spelled(
            us,
            printed_decl(b + parse_decl(ts, b.len()).nodes, parse_decl(ts, b.len()).result->Ok_0),
        ),
        c.len() + 2 * printed_decl(
            b + parse_decl(ts, b.len()).nodes,
            parse_decl(ts, b.len()).result->Ok_0,
        ).len() <= usize::MAX,
    ensures
        ({
            let read = parse_decl(ts, b.len());
            let written = printed_decl(b + read.nodes, read.result->Ok_0);
            let again = parse_decl(us, c.len());
            &&& printable_decl(b + read.nodes, read.result->Ok_0)
            &&& again.result is Ok
            &&& again.rest == us.skip(written.len() as int)
            &&& alike_decls(b + read.nodes, read.result->Ok_0, c + again.nodes, again.result->Ok_0)
        }),
{
    let read = parse_decl(ts, b.len());
    lemma_read_decl(ts, b);
    lemma_decl_round_trip(b + read.nodes, read.result->Ok_0, us, c);
}

/// Writing a declaration which was read with success as source text and
/// reading that text again yields a declaration of the same structure:
/// the text which the declaration is written as is read to its end, with
/// success, and what is read is alike to the declaration, wherever in the
/// second arena its nodes lie.
pub proof fn law_source_round_trip(source: Seq<char>, b: Seq<NodeView>, c: Seq<NodeView>)
    requires
        parse_decl(tokenize(source), b.len()).result is Ok,
        b.len() + 2 * tokenize(source).len() <= usize::MAX,
        c.len() + 2 * printed_decl(
            b + parse_decl(tokenize(source), b.len()).nodes,
            parse_decl(tokenize(source), b.len()).result->Ok_0,
        ).len() <= usize::MAX,
    ensures
        ({
            let read = parse_decl(tokenize(source), b.len());
            let written = text(printed_decl(b + read.nodes, read.result->Ok_0));
            let again = parse_decl(tokenize(written), c.len());
            &&& again.result is Ok
            &&& again.rest.len() == 0
            &&& alike_decls(b + read.nodes, read.result->Ok_0, c + again.nodes, again.result->Ok_0)
        }),
{
    let ts = tokenize(source);
    let read = parse_decl(ts, b.len());
    let a = b + read.nodes;
    let d = read.result->Ok_0;
    lemma_tokens_shaped(source, 0);
    lemma_read_decl(ts, b);
    let words = printed_decl(a, d);
    lemma_decl_lexable(a, d);
    let written = text(words);
    assert(written.subrange(0, written.len() as int) =~= written);
    lemma_text_scanned(written, 0, words);
    lemma_decl_round_trip(a, d, tokenize(written), c);
}

// =================================================================
// Reading and checking
// =================================================================

/// A check fails for a reason of the program checked, not of the arena.
pub open spec fn sound<T>(r: Result<T, SyntaxErrorView>) -> bool {
    r matches Err(e) ==> !(e.errno is InternalFailure)
}

/// A type which can be written is a type.
proof fn lemma_printable_is_type(a: Seq<NodeView>, t: Type)
    requires
        printable_type(a, t),
    ensures
        type_at(a, t.0 as int),
    decreases t.0,
{
    match a[t.0 as int] {
        NodeView::ArrayType(e) => {
            lemma_printable_is_type(a, e);
        },
        NodeView::ReferenceType(e) => {
            lemma_printable_is_type(a, e);
        },
        NodeView::RecordType(fs) => {
            assert forall|i: int| 0 <= i < fs.len() implies (#[trigger] fs[i]).0.0 < t.0
                && type_at(a, fs[i].0.0 as int) by {
                assert(printable_pair(a, fs[i], t.0 as int));
                lemma_printable_is_type(a, fs[i].0);
            }
        },
        _ => {},
    }
}

/// The check of an expression which can be written never fails for a
/// reason of the arena.
proof fn lemma_expr_checked(a: Seq<NodeView>, scope: Scope, e: Expr)
    requires
        printable_expr(a, e),
    ensures
        sound(check_expr(a, scope, e)),
    decreases e.index,
{
    match a[e.index as int] {
        NodeView::LessThanExpr(lhs, rhs) => {
            lemma_expr_checked(a, scope, lhs);
            lemma_expr_checked(a, scope, rhs);
        },
        _ => {},
    }
}

/// The check of statements which can be written never fails for a reason
/// of the arena.
proof fn lemma_stmts_checked(a: Seq<NodeView>, scope: Scope, stmts: Seq<Stmt>, limit: int)
    requires
        printable_stmts(a, stmts, limit),
    ensures
        sound(check_block(a, scope, stmts, limit)),
    decreases stmts.len(),
{
    if stmts.len() > 0 {
        let s = stmts[0];
        assert(printable_stmt(a, s));
        assert(sound(check_stmt(a, scope, s))) by {
            match a[s.index as int] {
                NodeView::AssertStmt(condition) => {
                    lemma_expr_checked(a, scope, condition);
                    assert(check_stmt(a, scope, s) == check_assert(a, scope, condition));
                },
                _ => {},
            }
        }
        let tail = stmts.drop_first();
        assert forall|i: int| 0 <= i < tail.len() implies (#[trigger] tail[i]).index < limit
            && printable_stmt(a, tail[i]) by {
            assert(tail[i] == stmts[i + 1]);
        }
        lemma_stmts_checked(a, scope, tail, limit);
    }
}

/// Binding parameters which can be written never fails.
proof fn lemma_parameters_bound(
    a: Seq<NodeView>,
    scope: Scope,
    params: Seq<Parameter>,
    bound: int,
)
    requires
        forall|i: int|
            0 <= i < params.len() ==> printable_pair(a, #[trigger] as_pairs(params)[i], bound),
    ensures
        bind(a, scope, params) is Ok,
    decreases params.len(),
{
    if params.len() > 0 {
        assert(printable_pair(a, as_pairs(params)[0], bound));
        let tail = params.drop_first();
        assert forall|i: int| 0 <= i < tail.len() implies printable_pair(
            a,
            #[trigger] as_pairs(tail)[i],
            bound,
        ) by {
            assert(printable_pair(a, as_pairs(params)[i + 1], bound));
        }
        lemma_parameters_bound(
            a,
            scope.insert(name_text(a, params[0].name)->Some_0, params[0].declared),
            tail,
            bound,
        );
    }
}

/// The check of a declaration which was read with success, from tokens such
/// as the lexer yields, never fails for a reason of the arena: it succeeds,
/// or reports a type which is not the one awaited, or a variable which is
/// not bound.
pub proof fn law_accepted_is_checked(ts: Seq<TokenView>, b: Seq<NodeView>, globals: Scope)
    requires
        all_shaped(ts),
        parse_decl(ts, b.len()).result is Ok,
        b.len() + 2 * ts.len() <= usize::MAX,
    ensures
        sound(
            check(b + parse_decl(ts, b.len()).nodes, globals, parse_decl(ts, b.len()).result->Ok_0),
        ),
{
    let read = parse_decl(ts, b.len());
    let a = b + read.nodes;
    let d = read.result->Ok_0;
    lemma_read_decl(ts, b);
    match a[d.index as int] {
        NodeView::TypeDecl(_, aliased) => {
            assert(printable_pair(a, (aliased, a[d.index as int]->TypeDecl_0), d.index as int));
            lemma_printable_is_type(a, aliased);
        },
        NodeView::MethodDecl(_, _, params, body) => {
            lemma_parameters_bound(a, globals, params, d.index as int);
            let scope = bind(a, globals, params)->Ok_0;
            lemma_stmts_checked(a, scope, a[body.index as int]->BlockStmt_0, body.index as int);
        },
        _ => {},
    }
}

} // verus!
