// Reading back: what can be written is read, from the words it is written with,
// as something of the same structure.

use crate::ast::{Decl, Expr, Name, NodeView, Stmt, Type};
use crate::grammar::{
    array_suffix, arrays, as_parameters, base_type, lemma_leading_ampersands,
    lemma_leading_brackets, link, parse_decl, parse_decl_method, parse_decl_parameters,
    parse_decl_type, parse_expr, parse_expr_bracketed, parse_expr_term, parse_identifier,
    parse_stmt, parse_stmt_assert, parse_stmt_block, parse_stmt_skip, parse_type, parse_type_array,
    parse_type_base, parse_type_bracketed, parse_type_record, parse_type_ref, parse_unit_stmt,
    references, statements, typed_names,
};
use crate::lexer::{all_digits, decimal, digit, digit_value, first, rest, TokenType, TokenView};
use crate::printing::{
    alike_blocks, alike_decls, alike_exprs, alike_names, alike_pairs, alike_stmt_lists,
    alike_stmts, alike_types, array_core, array_depth, as_pairs, key, lemma_array_core_below,
    lemma_reference_core_below, named, numeral, primitive, printable_block, printable_decl,
    printable_expr, printable_pair, printable_stmt, printable_stmts, printable_type, printed_block,
    printed_decl, printed_expr, printed_operand, printed_pairs, printed_stmt, printed_stmts,
    printed_term, printed_type, reads_as, reference_core, reference_depth, repeated, spelled, Word,
};
use crate::typing::name_text;
use vstd::prelude::*;

verus! {

// =================================================================
// Words
// =================================================================

/// Tokens which begin with two runs of words begin with the first, and go
/// on with the second.
pub proof fn lemma_spelled_split(ts: Seq<TokenView>, front: Seq<Word>, back: Seq<Word>)
    requires
        spelled(ts, front + back),
    ensures
        spelled(ts, front),
        spelled(ts.skip(front.len() as int), back),
{
    let words = front + back;
    assert forall|i: int| 0 <= i < front.len() implies reads_as(#[trigger] ts[i], front[i]) by {
        assert(words[i] == front[i]);
    }
    let tail = ts.skip(front.len() as int);
    assert forall|i: int| 0 <= i < back.len() implies reads_as(#[trigger] tail[i], back[i]) by {
        assert(tail[i] == ts[i + front.len()]);
        assert(words[i + front.len()] == back[i]);
    }
}

/// The first of the tokens which begin with some words is an occurrence of
/// the first word.
pub proof fn lemma_spelled_first(ts: Seq<TokenView>, words: Seq<Word>)
    requires
        spelled(ts, words),
        words.len() > 0,
    ensures
        reads_as(first(ts), words[0]),
        ts.len() > 0,
        rest(ts) == ts.skip(1),
{
    assert(first(ts) == ts[0]);
    assert(ts.drop_first() =~= ts.skip(1));
}

/// A word repeated is as many words, each the same.
pub proof fn lemma_repeated_key(kind: TokenType, count: nat)
    ensures
        repeated(key(kind), count).len() == count,
        forall|i: int| 0 <= i < count ==> (#[trigger] repeated(key(kind), count)[i]).kind == kind,
    decreases count,
{
    if count > 0 {
        lemma_repeated_key(kind, (count - 1) as nat);
        let tail = repeated(key(kind), (count - 1) as nat);
        assert forall|i: int| 0 <= i < count implies (#[trigger] repeated(key(kind), count)[i]).kind
            == kind by {
            if i > 0 {
                assert(repeated(key(kind), count)[i] == tail[i - 1]);
            }
        }
    }
}

/// A pair of words repeated is twice as many words, the two in turn.
pub proof fn lemma_repeated_pair(open: TokenType, close: TokenType, count: nat)
    ensures
        repeated(key(open) + key(close), count).len() == 2 * count,
        forall|i: int|
            0 <= i < count ==> (#[trigger] repeated(key(open) + key(close), count)[2 * i]).kind
                == open && repeated(key(open) + key(close), count)[2 * i + 1].kind == close,
    decreases count,
{
    if count > 0 {
        lemma_repeated_pair(open, close, (count - 1) as nat);
        let all = repeated(key(open) + key(close), count);
        let tail = repeated(key(open) + key(close), (count - 1) as nat);
        assert forall|i: int| 0 <= i < count implies (#[trigger] all[2 * i]).kind == open && all[2
            * i + 1].kind == close by {
            if i > 0 {
                assert(all[2 * i] == tail[2 * (i - 1)]);
                assert(all[2 * i + 1] == tail[2 * (i - 1) + 1]);
            }
        }
    }
}

// =================================================================
// Structure
// =================================================================

/// Two types stay alike when nodes are appended to the second arena.
pub proof fn lemma_alike_types_grow(
    a: Seq<NodeView>,
    t: Type,
    b: Seq<NodeView>,
    u: Type,
    more: Seq<NodeView>,
)
    requires
        alike_types(a, t, b, u),
    ensures
        alike_types(a, t, b + more, u),
    decreases t.0,
{
    let grown = b + more;
    assert(grown[u.0 as int] == b[u.0 as int]);
    match (a[t.0 as int], b[u.0 as int]) {
        (NodeView::ArrayType(e1), NodeView::ArrayType(e2)) => {
            lemma_alike_types_grow(a, e1, b, e2, more);
        },
        (NodeView::ReferenceType(e1), NodeView::ReferenceType(e2)) => {
            lemma_alike_types_grow(a, e1, b, e2, more);
        },
        (NodeView::RecordType(f1), NodeView::RecordType(f2)) => {
            assert forall|i: int| 0 <= i < f1.len() implies alike_pairs(
                a,
                #[trigger] f1[i],
                t.0 as int,
                grown,
                f2[i],
                u.0 as int,
            ) by {
                assert(alike_pairs(a, f1[i], t.0 as int, b, f2[i], u.0 as int));
                lemma_alike_types_grow(a, f1[i].0, b, f2[i].0, more);
                lemma_alike_names_grow(a, f1[i].1, b, f2[i].1, more);
            }
        },
        _ => {},
    }
}

/// Two names stay alike when nodes are appended to the second arena.
pub proof fn lemma_alike_names_grow(
    a: Seq<NodeView>,
    m: Name,
    b: Seq<NodeView>,
    n: Name,
    more: Seq<NodeView>,
)
    requires
        alike_names(a, m, b, n),
    ensures
        alike_names(a, m, b + more, n),
{
    assert((b + more)[n.0 as int] == b[n.0 as int]);
}

/// Chains of as many references around types which are alike are alike.
proof fn lemma_alike_references(
    a: Seq<NodeView>,
    t: Type,
    b: Seq<NodeView>,
    target: Type,
    at: nat,
)
    requires
        alike_types(a, reference_core(a, t), b, target),
        target.0 < at,
        at + reference_depth(a, t) <= b.len() <= usize::MAX,
        forall|j: int|
            0 <= j < reference_depth(a, t) ==> #[trigger] b[at + j] == NodeView::ReferenceType(
                link(j, target, at),
            ),
    ensures
        alike_types(a, t, b, link(reference_depth(a, t) as int, target, at)),
    decreases t.0,
{
    let n = reference_depth(a, t);
    if n > 0 {
        let e = a[t.0 as int]->ReferenceType_0;
        lemma_alike_references(a, e, b, target, at);
        assert(b[at + (n - 1)] == NodeView::ReferenceType(link(n - 1, target, at)));
    }
}

/// Chains of as many arrays around types which are alike are alike.
proof fn lemma_alike_arrays(a: Seq<NodeView>, t: Type, b: Seq<NodeView>, target: Type, at: nat)
    requires
        alike_types(a, array_core(a, t), b, target),
        target.0 < at,
        at + array_depth(a, t) <= b.len() <= usize::MAX,
        forall|j: int|
            0 <= j < array_depth(a, t) ==> #[trigger] b[at + j] == NodeView::ArrayType(
                link(j, target, at),
            ),
    ensures
        alike_types(a, t, b, link(array_depth(a, t) as int, target, at)),
    decreases t.0,
{
    let n = array_depth(a, t);
    if n > 0 {
        let e = a[t.0 as int]->ArrayType_0;
        lemma_alike_arrays(a, e, b, target, at);
        assert(b[at + (n - 1)] == NodeView::ArrayType(link(n - 1, target, at)));
    }
}

/// What a chain of references refers to in the end can be written where
/// the chain can.
pub proof fn lemma_reference_core_printable(a: Seq<NodeView>, t: Type)
    requires
        printable_type(a, t),
    ensures
        printable_type(a, reference_core(a, t)),
        a[t.0 as int] is ReferenceType ==> reference_depth(a, t) > 0,
    decreases t.0,
{
    if a[t.0 as int] is ReferenceType {
        lemma_reference_core_printable(a, a[t.0 as int]->ReferenceType_0);
    }
}

/// The innermost element of a chain of arrays can be written where the
/// chain can, and is no array.
pub proof fn lemma_array_core_printable(a: Seq<NodeView>, t: Type)
    requires
        printable_type(a, t),
    ensures
        printable_type(a, array_core(a, t)),
        a[t.0 as int] is ArrayType ==> array_depth(a, t) > 0,
        !(a[array_core(a, t).0 as int] is ArrayType),
    decreases t.0,
{
    if a[t.0 as int] is ArrayType {
        lemma_array_core_printable(a, a[t.0 as int]->ArrayType_0);
    }
}

/// The keyword of a primitive type names that type.
proof fn lemma_primitive(node: NodeView)
    requires
        primitive(node) is Some,
    ensures
        base_type(primitive(node)->Some_0) == Some(node),
        primitive(node)->Some_0 != TokenType::LeftBrace,
        primitive(node)->Some_0 != TokenType::Ampersand,
        primitive(node)->Some_0 != TokenType::LeftCurly,
        primitive(node)->Some_0 != TokenType::EOF,
        primitive(node)->Some_0 != TokenType::RightCurly,
        primitive(node)->Some_0 != TokenType::RightBrace,
        primitive(node)->Some_0 != TokenType::Comma,
        primitive(node)->Some_0 != TokenType::Type,
{
}

/// What a type is written with where a primitive or bracketed type is
/// awaited begins with a keyword of a primitive type, or with `(`.
proof fn lemma_operand_begins(a: Seq<NodeView>, t: Type)
    requires
        printable_type(a, t),
    ensures
        printed_operand(a, t).len() > 0,
        printed_operand(a, t)[0].kind != TokenType::Ampersand,
        printed_operand(a, t)[0].kind != TokenType::LeftCurly,
        printed_operand(a, t)[0].kind != TokenType::EOF,
        printed_operand(a, t)[0].kind != TokenType::RightCurly,
        printed_operand(a, t)[0].kind != TokenType::RightBrace,
        printed_operand(a, t)[0].kind != TokenType::Comma,
        printed_operand(a, t)[0].kind != TokenType::Type,
{
    if primitive(a[t.0 as int]) is Some {
        lemma_primitive(a[t.0 as int]);
    }
}

/// What a type is written with begins with a keyword of a primitive type,
/// or with one of `&`, `{` and `(`.
proof fn lemma_type_begins(a: Seq<NodeView>, t: Type)
    requires
        printable_type(a, t),
    ensures
        printed_type(a, t).len() > 0,
        printed_type(a, t)[0].kind != TokenType::EOF,
        printed_type(a, t)[0].kind != TokenType::RightCurly,
        printed_type(a, t)[0].kind != TokenType::RightBrace,
        printed_type(a, t)[0].kind != TokenType::Comma,
        printed_type(a, t)[0].kind != TokenType::Type,
{
    match a[t.0 as int] {
        NodeView::ArrayType(_) => {
            lemma_array_core_printable(a, t);
            lemma_operand_begins(a, array_core(a, t));
        },
        NodeView::ReferenceType(_) => {
            lemma_reference_core_printable(a, t);
            lemma_repeated_key(TokenType::Ampersand, reference_depth(a, t));
        },
        NodeView::RecordType(_) => {},
        node => {
            lemma_primitive(node);
        },
    }
}

// =================================================================
// Types
// =================================================================

/// A type which can be written is read back from the words it is written
/// with, whatever follows them but `[`: the type read takes just those
/// words, and has the structure of the type written.
pub proof fn lemma_type_round_trip(
    a: Seq<NodeView>,
    t: Type,
    ts: Seq<TokenView>,
    b: Seq<NodeView>,
)
    requires
        printable_type(a, t),
        spelled(ts, printed_type(a, t)),
        first(ts.skip(printed_type(a, t).len() as int)).kind != TokenType::LeftSquare,
        b.len() + 2 * printed_type(a, t).len() <= usize::MAX,
    ensures
        ({
            let out = parse_type(ts, b.len());
            &&& out.result is Ok
            &&& out.rest == ts.skip(printed_type(a, t).len() as int)
            &&& out.nodes.len() <= 2 * printed_type(a, t).len()
            &&& b.len() <= out.result->Ok_0.0 < b.len() + out.nodes.len()
            &&& alike_types(a, t, b + out.nodes, out.result->Ok_0)
        }),
    decreases t.0 + 1, 0int, 0int,
{
    let base = b.len();
    let words = printed_type(a, t);
    let out = parse_type(ts, base);
    lemma_type_begins(a, t);
    lemma_spelled_first(ts, words);
    match a[t.0 as int] {
        NodeView::ArrayType(_) => {
            lemma_array_core_printable(a, t);
            lemma_array_core_below(a, t);
            let core = array_core(a, t);
            let k = array_depth(a, t);
            let operand = printed_operand(a, core);
            let pairs = repeated(
                key(TokenType::LeftSquare) + key(TokenType::RightSquare),
                k,
            );
            lemma_operand_begins(a, core);
            lemma_repeated_pair(TokenType::LeftSquare, TokenType::RightSquare, k);
            lemma_spelled_split(ts, operand, pairs);
            assert(words[0] == operand[0]);
            lemma_operand_round_trip(a, core, ts, b);
            let inner = parse_type_bracketed(ts, base);
            let tail = ts.skip(operand.len() as int);
            assert(tail.skip(2 * k as int) =~= ts.skip(words.len() as int));
            assert forall|i: int| 0 <= i < k implies (#[trigger] tail[2 * i]).kind
                == TokenType::LeftSquare && tail[2 * i + 1].kind == TokenType::RightSquare by {
                assert(reads_as(tail[2 * i], pairs[2 * i]));
                assert(reads_as(tail[2 * i + 1], pairs[2 * i + 1]));
            }
            lemma_leading_brackets(tail, k);
            reveal(array_suffix);
            let at = base + inner.nodes.len();
            let target = inner.result->Ok_0;
            assert(out == parse_type_array(ts, base));
            assert(out.nodes =~= inner.nodes + arrays(k, target, at));
            let grown = b + out.nodes;
            assert(grown =~= (b + inner.nodes) + arrays(k, target, at));
            lemma_alike_types_grow(a, core, b + inner.nodes, target, arrays(k, target, at));
            assert forall|j: int| 0 <= j < k implies #[trigger] grown[at + j]
                == NodeView::ArrayType(link(j, target, at)) by {
                assert(grown[at + j] == arrays(k, target, at)[j]);
            }
            lemma_alike_arrays(a, t, grown, target, at);
        },
        NodeView::ReferenceType(_) => {
            lemma_reference_core_printable(a, t);
            lemma_reference_core_below(a, t);
            let core = reference_core(a, t);
            let n = reference_depth(a, t);
            let operand = printed_operand(a, core);
            let marks = repeated(key(TokenType::Ampersand), n);
            lemma_operand_begins(a, core);
            lemma_repeated_key(TokenType::Ampersand, n);
            lemma_spelled_split(ts, marks, operand);
            let tail = ts.skip(n as int);
            lemma_spelled_first(tail, operand);
            assert forall|i: int| 0 <= i < n implies (#[trigger] ts[i]).kind
                == TokenType::Ampersand by {
                assert(reads_as(ts[i], words[i]));
                assert(words[i] == marks[i]);
            }
            lemma_leading_ampersands(ts, n);
            assert(tail.skip(operand.len() as int) =~= ts.skip(words.len() as int));
            lemma_operand_round_trip(a, core, tail, b);
            let inner = parse_type_bracketed(tail, base);
            let at = base + inner.nodes.len();
            let target = inner.result->Ok_0;
            assert(first(ts) == ts[0]);
            assert(out == parse_type_ref(ts, base));
            assert(out.nodes =~= inner.nodes + references(n, target, at));
            let grown = b + out.nodes;
            assert(grown =~= (b + inner.nodes) + references(n, target, at));
            lemma_alike_types_grow(a, core, b + inner.nodes, target, references(n, target, at));
            assert forall|j: int| 0 <= j < n implies #[trigger] grown[at + j]
                == NodeView::ReferenceType(link(j, target, at)) by {
                assert(grown[at + j] == references(n, target, at)[j]);
            }
            lemma_alike_references(a, t, grown, target, at);
        },
        NodeView::RecordType(fs) => {
            let body = printed_pairs(a, fs, t.0 as int, 0);
            let closer = key(TokenType::RightCurly);
            assert(words =~= key(TokenType::LeftCurly) + (body + closer));
            lemma_spelled_split(ts, key(TokenType::LeftCurly), body + closer);
            assert(first(ts).kind == TokenType::LeftCurly);
            lemma_pairs_round_trip(
                a,
                fs,
                t.0 as int,
                0,
                TokenType::RightCurly,
                ts.skip(1),
                b,
                Seq::empty(),
            );
            let fields = typed_names(rest(ts), base, TokenType::RightCurly, Seq::empty());
            let all = fields.result->Ok_0;
            let node = NodeView::RecordType(all);
            assert(out == parse_type_record(ts, base));
            assert(ts.skip(1).skip(body.len() as int + 1) =~= ts.skip(words.len() as int));
            let filled = b + fields.nodes;
            let grown = b + out.nodes;
            assert(grown =~= filled + seq![node]);
            let u = out.result->Ok_0;
            assert(grown[u.0 as int] == node);
            assert forall|i: int| 0 <= i < fs.len() implies alike_pairs(
                a,
                #[trigger] fs[i],
                t.0 as int,
                grown,
                all[i],
                u.0 as int,
            ) by {
                assert(alike_pairs(a, fs[i], t.0 as int, filled, all[i], filled.len() as int));
                lemma_alike_types_grow(a, fs[i].0, filled, all[i].0, seq![node]);
                lemma_alike_names_grow(a, fs[i].1, filled, all[i].1, seq![node]);
            }
        },
        node => {
            lemma_primitive(node);
            reveal(parse_type_base);
            reveal(array_suffix);
            assert(first(ts).kind == primitive(node)->Some_0);
            lemma_leading_brackets(ts.skip(1), 0);
            assert(out == parse_type_array(ts, base));
            assert(out.nodes =~= seq![node]);
            assert((b + out.nodes)[base as int] == node);
        },
    }
}

/// A type which can be written is read back from the words it is written
/// with where a primitive or bracketed type is awaited.
pub proof fn lemma_operand_round_trip(
    a: Seq<NodeView>,
    t: Type,
    ts: Seq<TokenView>,
    b: Seq<NodeView>,
)
    requires
        printable_type(a, t),
        spelled(ts, printed_operand(a, t)),
        b.len() + 2 * printed_operand(a, t).len() <= usize::MAX,
    ensures
        ({
            let out = parse_type_bracketed(ts, b.len());
            &&& out.result is Ok
            &&& out.rest == ts.skip(printed_operand(a, t).len() as int)
            &&& out.nodes.len() <= 2 * printed_operand(a, t).len()
            &&& b.len() <= out.result->Ok_0.0 < b.len() + out.nodes.len()
            &&& alike_types(a, t, b + out.nodes, out.result->Ok_0)
        }),
    decreases t.0 + 1, 1int, 0int,
{
    let base = b.len();
    let words = printed_operand(a, t);
    let out = parse_type_bracketed(ts, base);
    lemma_operand_begins(a, t);
    lemma_spelled_first(ts, words);
    if primitive(a[t.0 as int]) is Some {
        let node = a[t.0 as int];
        lemma_primitive(node);
        reveal(parse_type_base);
        assert(out.nodes =~= seq![node]);
        assert((b + out.nodes)[base as int] == node);
    } else {
        let inside = printed_type(a, t);
        let closer = key(TokenType::RightBrace);
        assert(words =~= key(TokenType::LeftBrace) + (inside + closer));
        lemma_spelled_split(ts, key(TokenType::LeftBrace), inside + closer);
        let tail = ts.skip(1);
        lemma_spelled_split(tail, inside, closer);
        lemma_spelled_first(tail.skip(inside.len() as int), closer);
        lemma_type_round_trip(a, t, tail, b);
        assert(tail.skip(inside.len() as int).skip(1) =~= ts.skip(words.len() as int));
    }
}

/// The pairs read so far stay alike to those written when nodes are
/// appended to the arena they were read into, and the limit below which
/// they lie is raised.
proof fn lemma_alike_pairs_grow(
    a: Seq<NodeView>,
    pairs: Seq<(Type, Name)>,
    bound: int,
    b: Seq<NodeView>,
    read: Seq<(Type, Name)>,
    below: int,
    more: Seq<NodeView>,
    raised: int,
)
    requires
        read.len() <= pairs.len(),
        below <= raised,
        forall|j: int|
            0 <= j < read.len() ==> alike_pairs(a, #[trigger] pairs[j], bound, b, read[j], below),
    ensures
        forall|j: int|
            0 <= j < read.len() ==> alike_pairs(
                a,
                #[trigger] pairs[j],
                bound,
                b + more,
                read[j],
                raised,
            ),
{
    assert forall|j: int| 0 <= j < read.len() implies alike_pairs(
        a,
        #[trigger] pairs[j],
        bound,
        b + more,
        read[j],
        raised,
    ) by {
        assert(alike_pairs(a, pairs[j], bound, b, read[j], below));
        lemma_alike_types_grow(a, pairs[j].0, b, read[j].0, more);
        lemma_alike_names_grow(a, pairs[j].1, b, read[j].1, more);
    }
}

/// One pair of a type and a name which can be written is read back from
/// the words it is written with, behind a `,` where pairs were read before:
/// the list goes on behind it with that pair read.
proof fn lemma_pair_round_trip(
    a: Seq<NodeView>,
    p: (Type, Name),
    bound: int,
    closer: TokenType,
    ts: Seq<TokenView>,
    b: Seq<NodeView>,
    read: Seq<(Type, Name)>,
    beyond: Seq<Word>,
)
    requires
        printable_pair(a, p, bound),
        closer == TokenType::RightCurly || closer == TokenType::RightBrace,
        spelled(
            ts,
            (if read.len() > 0 {
                key(TokenType::Comma)
            } else {
                Seq::empty()
            }) + (printed_type(a, p.0) + (named(
                TokenType::Identifier,
                name_text(a, p.1)->Some_0,
            ) + beyond)),
        ),
        b.len() + 2 * printed_type(a, p.0).len() + 1 <= usize::MAX,
    ensures
        ({
            let gap: int = if read.len() > 0 {
                1
            } else {
                0
            };
            let typed = printed_type(a, p.0).len();
            let declared = parse_type(ts.skip(gap), b.len());
            let pushed = declared.nodes.push(NodeView::Utf8(name_text(a, p.1)->Some_0));
            let behind = ts.skip(gap + typed + 1);
            let pair = (declared.result->Ok_0, Name((b.len() + declared.nodes.len()) as usize));
            let out = typed_names(ts, b.len(), closer, read);
            let tail = typed_names(behind, b.len() + pushed.len(), closer, read.push(pair));
            &&& declared.result is Ok
            &&& pushed.len() <= 2 * typed + 1
            &&& spelled(behind, beyond)
            &&& out.nodes =~= pushed + tail.nodes
            &&& out.rest == tail.rest
            &&& out.result == tail.result
            &&& alike_pairs(a, p, bound, b + pushed, pair, (b + pushed).len() as int)
        }),
    decreases bound, 1int, 0int,
{
    reveal(parse_identifier);
    let base = b.len();
    let comma = if read.len() > 0 {
        key(TokenType::Comma)
    } else {
        Seq::empty()
    };
    let typed = printed_type(a, p.0);
    let text = name_text(a, p.1)->Some_0;
    let name_word = named(TokenType::Identifier, text);
    lemma_type_begins(a, p.0);
    lemma_spelled_split(ts, comma, typed + (name_word + beyond));
    let begin = ts.skip(comma.len() as int);
    lemma_spelled_split(begin, typed, name_word + beyond);
    let named_at = begin.skip(typed.len() as int);
    lemma_spelled_split(named_at, name_word, beyond);
    lemma_spelled_first(named_at, name_word);
    lemma_spelled_first(begin, typed);
    if read.len() > 0 {
        lemma_spelled_first(ts, comma);
    } else {
        assert(begin =~= ts);
    }
    assert(first(ts).kind != closer);
    lemma_type_round_trip(a, p.0, begin, b);
    let declared = parse_type(begin, base);
    let node = NodeView::Utf8(text);
    let pushed = declared.nodes.push(node);
    assert(named_at.skip(1) =~= ts.skip(comma.len() as int + typed.len() + 1));
    assert(declared.nodes + seq![node] =~= pushed);
    assert(b + pushed =~= (b + declared.nodes) + seq![node]);
    lemma_alike_types_grow(a, p.0, b + declared.nodes, declared.result->Ok_0, seq![node]);
    assert((b + pushed)[base as int + declared.nodes.len()] == node);
}

/// The pairs of a type and a name which can be written are read back, from
/// the one of index `i` on, from the words they are written with and the
/// token which closes the list.
#[verifier::rlimit(50)]
pub proof fn lemma_pairs_round_trip(
    a: Seq<NodeView>,
    pairs: Seq<(Type, Name)>,
    bound: int,
    i: int,
    closer: TokenType,
    ts: Seq<TokenView>,
    b: Seq<NodeView>,
    read: Seq<(Type, Name)>,
)
    requires
        0 <= i <= pairs.len(),
        read.len() == i,
        closer == TokenType::RightCurly || closer == TokenType::RightBrace,
        forall|j: int| 0 <= j < pairs.len() ==> printable_pair(a, #[trigger] pairs[j], bound),
        spelled(ts, printed_pairs(a, pairs, bound, i) + key(closer)),
        forall|j: int|
            0 <= j < i ==> alike_pairs(a, #[trigger] pairs[j], bound, b, read[j], b.len() as int),
        b.len() + 2 * (printed_pairs(a, pairs, bound, i).len() + 1) <= usize::MAX,
    ensures
        ({
            let out = typed_names(ts, b.len(), closer, read);
            let words = printed_pairs(a, pairs, bound, i);
            &&& out.result is Ok
            &&& out.rest == ts.skip(words.len() as int + 1)
            &&& out.nodes.len() <= 2 * words.len()
            &&& out.result->Ok_0.len() == pairs.len()
            &&& forall|j: int|
                0 <= j < pairs.len() ==> alike_pairs(
                    a,
                    #[trigger] pairs[j],
                    bound,
                    b + out.nodes,
                    out.result->Ok_0[j],
                    (b + out.nodes).len() as int,
                )
        }),
    decreases bound, 2int, pairs.len() - i,
{
    let base = b.len();
    let words = printed_pairs(a, pairs, bound, i);
    let end = key(closer);
    let out = typed_names(ts, base, closer, read);
    if i == pairs.len() {
        assert(words + end =~= end);
        lemma_spelled_first(ts, end);
        assert(b + out.nodes =~= b);
    } else {
        let p = pairs[i];
        assert(printable_pair(a, p, bound));
        let gap: int = if i > 0 {
            1
        } else {
            0
        };
        let comma = if i > 0 {
            key(TokenType::Comma)
        } else {
            Seq::empty()
        };
        let typed = printed_type(a, p.0);
        let name_word = named(TokenType::Identifier, name_text(a, p.1)->Some_0);
        let more = printed_pairs(a, pairs, bound, i + 1);
        assert(words + end =~= comma + (typed + (name_word + (more + end))));
        lemma_pair_round_trip(a, p, bound, closer, ts, b, read, more + end);
        let declared = parse_type(ts.skip(gap), base);
        let pushed = declared.nodes.push(NodeView::Utf8(name_text(a, p.1)->Some_0));
        let behind = ts.skip(gap + typed.len() + 1);
        let pair = (declared.result->Ok_0, Name((base + declared.nodes.len()) as usize));
        let b2 = b + pushed;
        let read2 = read.push(pair);
        lemma_alike_pairs_grow(a, pairs, bound, b, read, b.len() as int, pushed, b2.len() as int);
        assert forall|j: int| 0 <= j < i + 1 implies alike_pairs(
            a,
            #[trigger] pairs[j],
            bound,
            b2,
            read2[j],
            b2.len() as int,
        ) by {
            if j < i {
                assert(read2[j] == read[j]);
            }
        }
        lemma_pairs_round_trip(a, pairs, bound, i + 1, closer, behind, b2, read2);
        let tail = typed_names(behind, b2.len(), closer, read2);
        assert(b + out.nodes =~= b2 + tail.nodes);
        assert(behind.skip(more.len() as int + 1) =~= ts.skip(words.len() as int + 1));
    }
}

// =================================================================
// Expressions
// =================================================================

/// The digits which a number is written with denote that number.
pub proof fn lemma_numeral(value: nat)
    ensures
        all_digits(numeral(value)),
        decimal(numeral(value)) == value,
    decreases value,
{
    if value < 10 {
        let s = numeral(value);
        assert(s.drop_last() =~= Seq::<char>::empty());
        assert(decimal(s.drop_last()) == 0);
        assert(digit_value(s.last()) == value);
    } else {
        lemma_numeral(value / 10);
        let front = numeral(value / 10);
        let s = numeral(value);
        assert(s.drop_last() =~= front);
        assert(digit_value(s.last()) == value % 10);
        assert forall|i: int| 0 <= i < s.len() implies digit(#[trigger] s[i]) by {
            if i < front.len() {
                assert(s[i] == front[i]);
            }
        }
    }
}

/// Two expressions stay alike when nodes are appended to the second arena.
pub proof fn lemma_alike_exprs_grow(
    a: Seq<NodeView>,
    e: Expr,
    b: Seq<NodeView>,
    f: Expr,
    more: Seq<NodeView>,
)
    requires
        alike_exprs(a, e, b, f),
    ensures
        alike_exprs(a, e, b + more, f),
    decreases e.index,
{
    let grown = b + more;
    assert(grown[f.index as int] == b[f.index as int]);
    match (a[e.index as int], b[f.index as int]) {
        (NodeView::VarExpr(m), NodeView::VarExpr(n)) => {
            lemma_alike_names_grow(a, m, b, n, more);
        },
        (NodeView::LessThanExpr(l1, r1), NodeView::LessThanExpr(l2, r2)) => {
            lemma_alike_exprs_grow(a, l1, b, l2, more);
            lemma_alike_exprs_grow(a, r1, b, r2, more);
        },
        _ => {},
    }
}

/// An expression which can be written is read back from the words it is
/// written with, whatever follows them but `<`.
pub proof fn lemma_expr_round_trip(
    a: Seq<NodeView>,
    e: Expr,
    ts: Seq<TokenView>,
    b: Seq<NodeView>,
)
    requires
        printable_expr(a, e),
        spelled(ts, printed_expr(a, e)),
        first(ts.skip(printed_expr(a, e).len() as int)).kind != TokenType::LeftAngle,
        b.len() + 2 * printed_expr(a, e).len() <= usize::MAX,
    ensures
        ({
            let out = parse_expr(ts, b.len());
            &&& out.result is Ok
            &&& out.rest == ts.skip(printed_expr(a, e).len() as int)
            &&& out.nodes.len() <= 2 * printed_expr(a, e).len()
            &&& b.len() <= out.result->Ok_0.index < b.len() + out.nodes.len()
            &&& alike_exprs(a, e, b + out.nodes, out.result->Ok_0)
        }),
    decreases e.index + 1, 0int,
{
    let base = b.len();
    let words = printed_expr(a, e);
    let out = parse_expr(ts, base);
    match a[e.index as int] {
        NodeView::LessThanExpr(lhs, rhs) => {
            let left = printed_term(a, lhs);
            let right = printed_term(a, rhs);
            let sign = key(TokenType::LeftAngle);
            assert(words =~= left + (sign + right));
            lemma_spelled_split(ts, left, sign + right);
            let middle = ts.skip(left.len() as int);
            lemma_spelled_split(middle, sign, right);
            lemma_spelled_first(middle, sign);
            lemma_term_round_trip(a, lhs, ts, b);
            let first_term = parse_expr_term(ts, base);
            let filled = b + first_term.nodes;
            let behind = middle.skip(1);
            lemma_term_round_trip(a, rhs, behind, filled);
            let second_term = parse_expr_term(behind, filled.len());
            let l2 = first_term.result->Ok_0;
            let r2 = second_term.result->Ok_0;
            let node = NodeView::LessThanExpr(l2, r2);
            assert(out.nodes =~= (first_term.nodes + second_term.nodes).push(node));
            let grown = b + out.nodes;
            assert(grown =~= (filled + second_term.nodes) + seq![node]);
            lemma_alike_exprs_grow(a, lhs, filled, l2, second_term.nodes);
            lemma_alike_exprs_grow(a, lhs, filled + second_term.nodes, l2, seq![node]);
            lemma_alike_exprs_grow(a, rhs, filled + second_term.nodes, r2, seq![node]);
            assert(grown[out.result->Ok_0.index as int] == node);
            assert(behind.skip(right.len() as int) =~= ts.skip(words.len() as int));
        },
        _ => {
            lemma_atom_round_trip(a, e, ts, b);
        },
    }
}

/// A boolean, a number or a variable which can be written is read back
/// from the word it is written with.
proof fn lemma_atom_round_trip(a: Seq<NodeView>, e: Expr, ts: Seq<TokenView>, b: Seq<NodeView>)
    requires
        printable_expr(a, e),
        !(a[e.index as int] is LessThanExpr),
        spelled(ts, printed_expr(a, e)),
        b.len() + 2 * printed_expr(a, e).len() <= usize::MAX,
    ensures
        ({
            let out = parse_expr_term(ts, b.len());
            &&& printed_expr(a, e).len() == 1
            &&& out.result is Ok
            &&& out.rest == ts.skip(1)
            &&& out.nodes.len() <= 2
            &&& b.len() <= out.result->Ok_0.index < b.len() + out.nodes.len()
            &&& alike_exprs(a, e, b + out.nodes, out.result->Ok_0)
        }),
{
    let base = b.len();
    let words = printed_expr(a, e);
    let out = parse_expr_term(ts, base);
    lemma_spelled_first(ts, words);
    match a[e.index as int] {
        NodeView::BoolExpr(value) => {
            let node = NodeView::BoolExpr(value);
            assert(out.nodes =~= seq![node]);
            assert((b + out.nodes)[base as int] == node);
        },
        NodeView::IntExpr(value) => {
            lemma_numeral(value as nat);
            let node = NodeView::IntExpr(value);
            assert(out.nodes =~= seq![node]);
            assert((b + out.nodes)[base as int] == node);
        },
        NodeView::VarExpr(name) => {
            let text = name_text(a, name)->Some_0;
            assert(out.nodes =~= seq![
                NodeView::Utf8(text),
                NodeView::VarExpr(Name(base as usize)),
            ]);
            assert((b + out.nodes)[base as int] == NodeView::Utf8(text));
            assert((b + out.nodes)[base as int + 1] == NodeView::VarExpr(Name(base as usize)));
        },
        _ => {},
    }
}

/// An expression which can be written is read back from the words it is
/// written with where a term is awaited.
pub proof fn lemma_term_round_trip(
    a: Seq<NodeView>,
    e: Expr,
    ts: Seq<TokenView>,
    b: Seq<NodeView>,
)
    requires
        printable_expr(a, e),
        spelled(ts, printed_term(a, e)),
        b.len() + 2 * printed_term(a, e).len() <= usize::MAX,
    ensures
        ({
            let out = parse_expr_term(ts, b.len());
            &&& out.result is Ok
            &&& out.rest == ts.skip(printed_term(a, e).len() as int)
            &&& out.nodes.len() <= 2 * printed_term(a, e).len()
            &&& b.len() <= out.result->Ok_0.index < b.len() + out.nodes.len()
            &&& alike_exprs(a, e, b + out.nodes, out.result->Ok_0)
        }),
    decreases e.index + 1, 1int,
{
    let base = b.len();
    let words = printed_term(a, e);
    let out = parse_expr_term(ts, base);
    if a[e.index as int] is LessThanExpr {
        let inside = printed_expr(a, e);
        let closer = key(TokenType::RightBrace);
        assert(words =~= key(TokenType::LeftBrace) + (inside + closer));
        lemma_spelled_split(ts, key(TokenType::LeftBrace), inside + closer);
        lemma_spelled_first(ts, words);
        let tail = ts.skip(1);
        lemma_spelled_split(tail, inside, closer);
        lemma_spelled_first(tail.skip(inside.len() as int), closer);
        lemma_expr_round_trip(a, e, tail, b);
        assert(out == parse_expr_bracketed(ts, base));
        assert(tail.skip(inside.len() as int).skip(1) =~= ts.skip(words.len() as int));
    } else {
        lemma_atom_round_trip(a, e, ts, b);
    }
}

// =================================================================
// Statements
// =================================================================

/// A statement which can be written is read back from the words it is
/// written with.
pub proof fn lemma_stmt_round_trip(
    a: Seq<NodeView>,
    s: Stmt,
    ts: Seq<TokenView>,
    b: Seq<NodeView>,
)
    requires
        printable_stmt(a, s),
        spelled(ts, printed_stmt(a, s)),
        b.len() + 2 * printed_stmt(a, s).len() <= usize::MAX,
    ensures
        ({
            let out = parse_stmt(ts, b.len());
            &&& out.result is Ok
            &&& out.rest == ts.skip(printed_stmt(a, s).len() as int)
            &&& out.nodes.len() <= 2 * printed_stmt(a, s).len()
            &&& b.len() <= out.result->Ok_0.index < b.len() + out.nodes.len()
            &&& alike_stmts(a, s, b + out.nodes, out.result->Ok_0)
            &&& printed_stmt(a, s).len() >= 2
            &&& first(ts).kind != TokenType::RightCurly
        }),
{
    reveal(parse_stmt);
    reveal(parse_unit_stmt);
    reveal(parse_stmt_assert);
    reveal(parse_stmt_skip);
    let base = b.len();
    let words = printed_stmt(a, s);
    let out = parse_stmt(ts, base);
    let end = key(TokenType::SemiColon);
    match a[s.index as int] {
        NodeView::AssertStmt(condition) => {
            let inside = printed_expr(a, condition);
            assert(words =~= key(TokenType::Assert) + (inside + end));
            lemma_spelled_split(ts, key(TokenType::Assert), inside + end);
            lemma_spelled_first(ts, words);
            let tail = ts.skip(1);
            lemma_spelled_split(tail, inside, end);
            lemma_spelled_first(tail.skip(inside.len() as int), end);
            lemma_expr_round_trip(a, condition, tail, b);
            let read = parse_expr(tail, base);
            let node = NodeView::AssertStmt(read.result->Ok_0);
            assert(out.nodes =~= read.nodes.push(node));
            let grown = b + out.nodes;
            assert(grown =~= (b + read.nodes) + seq![node]);
            lemma_alike_exprs_grow(a, condition, b + read.nodes, read.result->Ok_0, seq![node]);
            assert(grown[out.result->Ok_0.index as int] == node);
            assert(tail.skip(inside.len() as int).skip(1) =~= ts.skip(words.len() as int));
        },
        NodeView::SkipStmt => {
            assert(words =~= key(TokenType::Skip) + end);
            lemma_spelled_split(ts, key(TokenType::Skip), end);
            lemma_spelled_first(ts, words);
            lemma_spelled_first(ts.skip(1), end);
            assert(out.nodes =~= seq![NodeView::SkipStmt]);
            assert((b + out.nodes)[base as int] == NodeView::SkipStmt);
            assert(ts.skip(1).skip(1) =~= ts.skip(words.len() as int));
        },
        _ => {},
    }
}

/// Two statements stay alike when nodes are appended to the second arena.
pub proof fn lemma_alike_stmts_grow(
    a: Seq<NodeView>,
    s: Stmt,
    b: Seq<NodeView>,
    r: Stmt,
    more: Seq<NodeView>,
)
    requires
        alike_stmts(a, s, b, r),
    ensures
        alike_stmts(a, s, b + more, r),
{
    assert((b + more)[r.index as int] == b[r.index as int]);
    match (a[s.index as int], b[r.index as int]) {
        (NodeView::AssertStmt(c), NodeView::AssertStmt(d)) => {
            lemma_alike_exprs_grow(a, c, b, d, more);
        },
        _ => {},
    }
}

/// The statements read so far stay alike to those written when nodes are
/// appended to the arena they were read into, and the limit below which
/// they lie is raised.
proof fn lemma_alike_stmt_lists_grow(
    a: Seq<NodeView>,
    stmts: Seq<Stmt>,
    limit: int,
    b: Seq<NodeView>,
    read: Seq<Stmt>,
    below: int,
    more: Seq<NodeView>,
    raised: int,
)
    requires
        alike_stmt_lists(a, stmts, limit, b, read, below),
        below <= raised,
    ensures
        alike_stmt_lists(a, stmts, limit, b + more, read, raised),
{
    let grown = b + more;
    assert forall|j: int|
        #![trigger read[j]]
        #![trigger stmts[j]]
        0 <= j < read.len() implies stmts[j].index < limit && read[j].index < raised
            && alike_stmts(a, stmts[j], grown, read[j]) by {
        assert(alike_stmts(a, stmts[j], b, read[j]));
        lemma_alike_stmts_grow(a, stmts[j], b, read[j], more);
    }
}

/// The statements which can be written are read back, from the one of
/// index `i` on, from the words they are written with and the `}` behind
/// them.
pub proof fn lemma_stmts_round_trip(
    a: Seq<NodeView>,
    stmts: Seq<Stmt>,
    limit: int,
    i: int,
    ts: Seq<TokenView>,
    b: Seq<NodeView>,
    read: Seq<Stmt>,
)
    requires
        0 <= i <= stmts.len(),
        read.len() == i,
        printable_stmts(a, stmts, limit),
        spelled(ts, printed_stmts(a, stmts, i) + key(TokenType::RightCurly)),
        alike_stmt_lists(a, stmts, limit, b, read, b.len() as int),
        b.len() + 2 * (printed_stmts(a, stmts, i).len() + 1) <= usize::MAX,
    ensures
        ({
            let out = statements(ts, b.len(), read);
            let words = printed_stmts(a, stmts, i);
            &&& out.result is Ok
            &&& out.rest == ts.skip(words.len() as int + 1)
            &&& out.nodes.len() <= 2 * words.len()
            &&& out.result->Ok_0.len() == stmts.len()
            &&& alike_stmt_lists(
                a,
                stmts,
                limit,
                b + out.nodes,
                out.result->Ok_0,
                (b + out.nodes).len() as int,
            )
        }),
    decreases stmts.len() - i,
{
    let base = b.len();
    let words = printed_stmts(a, stmts, i);
    let end = key(TokenType::RightCurly);
    let out = statements(ts, base, read);
    if i == stmts.len() {
        assert(words + end =~= end);
        lemma_spelled_first(ts, end);
        assert(b + out.nodes =~= b);
    } else {
        let s = stmts[i];
        let one = printed_stmt(a, s);
        let more = printed_stmts(a, stmts, i + 1);
        assert(words + end =~= one + (more + end));
        lemma_spelled_split(ts, one, more + end);
        lemma_stmt_round_trip(a, s, ts, b);
        let parsed = parse_stmt(ts, base);
        let behind = ts.skip(one.len() as int);
        let b2 = b + parsed.nodes;
        let read2 = read.push(parsed.result->Ok_0);
        lemma_alike_stmt_lists_grow(
            a,
            stmts,
            limit,
            b,
            read,
            b.len() as int,
            parsed.nodes,
            b2.len() as int,
        );
        assert forall|j: int|
            #![trigger read2[j]]
            #![trigger stmts[j]]
            0 <= j < read2.len() implies stmts[j].index < limit && read2[j].index < b2.len()
                && alike_stmts(a, stmts[j], b2, read2[j]) by {
            if j < i {
                assert(read2[j] == read[j]);
            }
        }
        lemma_stmts_round_trip(a, stmts, limit, i + 1, behind, b2, read2);
        let tail = statements(behind, b2.len(), read2);
        assert(b + out.nodes =~= b2 + tail.nodes);
        assert(behind.skip(more.len() as int + 1) =~= ts.skip(words.len() as int + 1));
    }
}

/// A block which can be written is read back from the words it is written
/// with.
pub proof fn lemma_block_round_trip(
    a: Seq<NodeView>,
    s: Stmt,
    ts: Seq<TokenView>,
    b: Seq<NodeView>,
)
    requires
        printable_block(a, s),
        spelled(ts, printed_block(a, s)),
        b.len() + 2 * printed_block(a, s).len() <= usize::MAX,
    ensures
        ({
            let out = parse_stmt_block(ts, b.len());
            &&& out.result is Ok
            &&& out.rest == ts.skip(printed_block(a, s).len() as int)
            &&& out.nodes.len() <= 2 * printed_block(a, s).len()
            &&& b.len() <= out.result->Ok_0.index < b.len() + out.nodes.len()
            &&& alike_blocks(a, s, b + out.nodes, out.result->Ok_0)
        }),
{
    reveal(parse_stmt_block);
    let base = b.len();
    let words = printed_block(a, s);
    let out = parse_stmt_block(ts, base);
    let stmts = a[s.index as int]->BlockStmt_0;
    let inside = printed_stmts(a, stmts, 0);
    let end = key(TokenType::RightCurly);
    assert(words =~= key(TokenType::LeftCurly) + (inside + end));
    lemma_spelled_split(ts, key(TokenType::LeftCurly), inside + end);
    lemma_spelled_first(ts, words);
    lemma_stmts_round_trip(a, stmts, s.index as int, 0, ts.skip(1), b, Seq::empty());
    let body = statements(ts.skip(1), base, Seq::empty());
    let all = body.result->Ok_0;
    let node = NodeView::BlockStmt(all);
    assert(out.nodes =~= body.nodes.push(node));
    let filled = b + body.nodes;
    let grown = b + out.nodes;
    assert(grown =~= filled + seq![node]);
    lemma_alike_stmt_lists_grow(
        a,
        stmts,
        s.index as int,
        filled,
        all,
        filled.len() as int,
        seq![node],
        filled.len() as int,
    );
    let r = out.result->Ok_0;
    assert(grown[r.index as int] == node);
    assert(r.index == filled.len());
    assert(alike_stmt_lists(a, stmts, s.index as int, grown, all, r.index as int)) by {
        assert forall|j: int|
            #![trigger all[j]]
            #![trigger stmts[j]]
            0 <= j < all.len() implies stmts[j].index < s.index && all[j].index < r.index
                && alike_stmts(a, stmts[j], grown, all[j]) by {
            assert(all[j].index < filled.len());
        }
    }
    assert(ts.skip(1).skip(inside.len() as int + 1) =~= ts.skip(words.len() as int));
}

// =================================================================
// Declarations
// =================================================================

/// A declaration of a type which can be written is read back from the
/// words it is written with.
proof fn lemma_type_decl_round_trip(
    a: Seq<NodeView>,
    d: Decl,
    ts: Seq<TokenView>,
    b: Seq<NodeView>,
)
    requires
        printable_decl(a, d),
        a[d.index as int] is TypeDecl,
        spelled(ts, printed_decl(a, d)),
        b.len() + 2 * printed_decl(a, d).len() <= usize::MAX,
    ensures
        ({
            let out = parse_decl(ts, b.len());
            &&& out.result is Ok
            &&& out.rest == ts.skip(printed_decl(a, d).len() as int)
            &&& alike_decls(a, d, b + out.nodes, out.result->Ok_0)
        }),
{
    reveal(parse_decl);
    reveal(parse_decl_type);
    reveal(parse_identifier);
    let base = b.len();
    let words = printed_decl(a, d);
    let out = parse_decl(ts, base);
    let name = a[d.index as int]->TypeDecl_0;
    let aliased = a[d.index as int]->TypeDecl_1;
    let text = name_text(a, name)->Some_0;
    let typed = printed_type(a, aliased);
    let end = key(TokenType::SemiColon);
    let head = key(TokenType::Type) + named(TokenType::Identifier, text) + key(TokenType::Equal);
    assert(words =~= head + (typed + end));
    lemma_spelled_split(ts, head, typed + end);
    assert(reads_as(ts[0], head[0]));
    assert(reads_as(ts[1], head[1]));
    assert(reads_as(ts[2], head[2]));
    assert(first(ts) == ts[0]);
    assert(rest(ts) =~= ts.skip(1));
    assert(first(ts.skip(1)) == ts[1]);
    assert(rest(ts.skip(1)) =~= ts.skip(2));
    assert(first(ts.skip(2)) == ts[2]);
    assert(rest(ts.skip(2)) =~= ts.skip(3));
    let begin = ts.skip(3);
    lemma_spelled_split(begin, typed, end);
    lemma_spelled_first(begin.skip(typed.len() as int), end);
    let named_node = NodeView::Utf8(text);
    let b1 = b + seq![named_node];
    lemma_type_round_trip(a, aliased, begin, b1);
    let read = parse_type(begin, b1.len());
    let t2 = read.result->Ok_0;
    let n2 = Name(base as usize);
    let node = NodeView::TypeDecl(n2, t2);
    assert(out.nodes =~= (seq![named_node] + read.nodes).push(node));
    let grown = b + out.nodes;
    assert(grown =~= (b1 + read.nodes) + seq![node]);
    lemma_alike_types_grow(a, aliased, b1 + read.nodes, t2, seq![node]);
    assert(grown[base as int] == named_node);
    assert(grown[out.result->Ok_0.index as int] == node);
    assert(begin.skip(typed.len() as int).skip(1) =~= ts.skip(words.len() as int));
}

/// A declaration of a method which can be written is read back from the
/// words it is written with.
#[verifier::rlimit(50)]
proof fn lemma_method_decl_round_trip(
    a: Seq<NodeView>,
    d: Decl,
    ts: Seq<TokenView>,
    b: Seq<NodeView>,
)
    requires
        printable_decl(a, d),
        a[d.index as int] is MethodDecl,
        spelled(ts, printed_decl(a, d)),
        b.len() + 2 * printed_decl(a, d).len() <= usize::MAX,
    ensures
        ({
            let out = parse_decl(ts, b.len());
            &&& out.result is Ok
            &&& out.rest == ts.skip(printed_decl(a, d).len() as int)
            &&& alike_decls(a, d, b + out.nodes, out.result->Ok_0)
        }),
{
    reveal(parse_decl);
    reveal(parse_decl_method);
    reveal(parse_decl_parameters);
    reveal(parse_identifier);
    let base = b.len();
    let words = printed_decl(a, d);
    let out = parse_decl(ts, base);
    let name = a[d.index as int]->MethodDecl_0;
    let result_type = a[d.index as int]->MethodDecl_1;
    let params = a[d.index as int]->MethodDecl_2;
    let body = a[d.index as int]->MethodDecl_3;
    let pairs = as_pairs(params);
    let text = name_text(a, name)->Some_0;
    let typed = printed_type(a, result_type);
    let name_word = named(TokenType::Identifier, text);
    let open = key(TokenType::LeftBrace);
    let listed = printed_pairs(a, pairs, d.index as int, 0);
    let close = key(TokenType::RightBrace);
    let block = printed_block(a, body);
    assert(words =~= typed + (name_word + (open + ((listed + close) + block))));
    // The type of the result
    lemma_type_begins(a, result_type);
    lemma_spelled_first(ts, words);
    assert(words[0] == typed[0]);
    lemma_spelled_split(ts, typed, name_word + (open + ((listed + close) + block)));
    let ts1 = ts.skip(typed.len() as int);
    lemma_spelled_split(ts1, name_word, open + ((listed + close) + block));
    lemma_spelled_first(ts1, name_word);
    lemma_type_round_trip(a, result_type, ts, b);
    let returned = parse_type(ts, base);
    let t2 = returned.result->Ok_0;
    let b1 = b + returned.nodes;
    // The name
    let named_node = NodeView::Utf8(text);
    let n2 = Name(b1.len() as usize);
    let b2 = b1 + seq![named_node];
    let ts2 = ts1.skip(1);
    // The parameters
    lemma_spelled_split(ts2, open, (listed + close) + block);
    lemma_spelled_first(ts2, open);
    let ts3 = ts2.skip(1);
    lemma_spelled_split(ts3, listed + close, block);
    assert forall|j: int| 0 <= j < pairs.len() implies printable_pair(
        a,
        #[trigger] pairs[j],
        d.index as int,
    ) by {}
    lemma_pairs_round_trip(
        a,
        pairs,
        d.index as int,
        0,
        TokenType::RightBrace,
        ts3,
        b2,
        Seq::empty(),
    );
    let listing = typed_names(ts3, b2.len(), TokenType::RightBrace, Seq::empty());
    let all = listing.result->Ok_0;
    let b3 = b2 + listing.nodes;
    let ts4 = ts3.skip(listed.len() as int + 1);
    // The body
    lemma_block_round_trip(a, body, ts4, b3);
    let block_read = parse_stmt_block(ts4, b3.len());
    let s2 = block_read.result->Ok_0;
    let b4 = b3 + block_read.nodes;
    let node = NodeView::MethodDecl(n2, t2, as_parameters(all), s2);
    assert(out.nodes =~= (((returned.nodes + seq![named_node]) + listing.nodes)
        + block_read.nodes).push(node));
    let grown = b + out.nodes;
    assert(grown =~= b4 + seq![node]);
    let c = out.result->Ok_0;
    assert(c.index == b4.len());
    assert(grown[c.index as int] == node);
    assert(ts4.skip(block.len() as int) =~= ts.skip(words.len() as int));
    // What was read is alike to what was written
    assert(alike_pairs(a, (result_type, name), d.index as int, grown, (t2, n2), c.index as int))
        by {
        assert(grown =~= b1 + (((seq![named_node] + listing.nodes) + block_read.nodes) + seq![
            node,
        ]));
        lemma_alike_types_grow(
            a,
            result_type,
            b1,
            t2,
            ((seq![named_node] + listing.nodes) + block_read.nodes) + seq![node],
        );
        assert(grown[n2.0 as int] == named_node);
    }
    assert(as_pairs(as_parameters(all)) =~= all);
    assert forall|i: int| 0 <= i < params.len() implies alike_pairs(
        a,
        #[trigger] pairs[i],
        d.index as int,
        grown,
        all[i],
        c.index as int,
    ) by {
        assert(grown =~= b3 + (block_read.nodes + seq![node]));
        lemma_alike_pairs_grow(
            a,
            pairs,
            d.index as int,
            b3,
            all,
            b3.len() as int,
            block_read.nodes + seq![node],
            c.index as int,
        );
    }
    assert(alike_blocks(a, body, grown, s2)) by {
        lemma_alike_blocks_grow(a, body, b4, s2, seq![node]);
    }
}

/// Two blocks stay alike when nodes are appended to the second arena.
proof fn lemma_alike_blocks_grow(
    a: Seq<NodeView>,
    s: Stmt,
    b: Seq<NodeView>,
    r: Stmt,
    more: Seq<NodeView>,
)
    requires
        alike_blocks(a, s, b, r),
    ensures
        alike_blocks(a, s, b + more, r),
{
    assert((b + more)[r.index as int] == b[r.index as int]);
    lemma_alike_stmt_lists_grow(
        a,
        a[s.index as int]->BlockStmt_0,
        s.index as int,
        b,
        b[r.index as int]->BlockStmt_0,
        r.index as int,
        more,
        r.index as int,
    );
}

/// A declaration which can be written is read back from the words it is
/// written with: it takes just those words, and what is read has the
/// structure of what was written.
pub proof fn lemma_decl_round_trip(
    a: Seq<NodeView>,
    d: Decl,
    ts: Seq<TokenView>,
    b: Seq<NodeView>,
)
    requires
        printable_decl(a, d),
        spelled(ts, printed_decl(a, d)),
        b.len() + 2 * printed_decl(a, d).len() <= usize::MAX,
    ensures
        ({
            let out = parse_decl(ts, b.len());
            &&& out.result is Ok
            &&& out.rest == ts.skip(printed_decl(a, d).len() as int)
            &&& alike_decls(a, d, b + out.nodes, out.result->Ok_0)
        }),
{
    if a[d.index as int] is TypeDecl {
        lemma_type_decl_round_trip(a, d, ts, b);
    } else {
        lemma_method_decl_round_trip(a, d, ts, b);
    }
}

} // verus!
