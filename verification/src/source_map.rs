// Source positions for diagnostics: which piece of source a node of the tree
// was read from, and the marks which point at a piece of a line.

use crate::lexer::{byte_offset, char_indices};
use std::collections::HashMap;
use vstd::prelude::*;

verus! {

broadcast use vstd::std_specs::hash::group_hash_axioms;

/// Represents additional information which can be attached to the
/// tree.
#[derive(Clone, Debug, PartialEq)]
pub struct SourceMap<'a> {
    pub input: &'a str,
    pub map: HashMap<usize, &'a str>,
}

impl<'a> SourceMap<'a> {
    /// A map for a line of source, in which no node is mapped yet.
    pub fn new(input: &'a str) -> (sources: Self)
        ensures
            sources.input == input,
            sources.map@ == Map::<usize, &'a str>::empty(),
    {
        let map = HashMap::new();
        Self { input, map }
    }

    /// Map a given source string to a unique identifier which can be
    /// subsequently used to identify the corresponding AST syntactic
    /// element.
    pub fn map(&mut self, index: usize, element: &'a str)
        ensures
            final(self).input == old(self).input,
            final(self).map@ == old(self).map@.insert(index, element),
    {
        // Store details
        self.map.insert(index, element);
    }

    /// The piece of source mapped to a node, to point at; the empty
    /// highlight where none is.
    pub fn get_highlight(&self, index: usize) -> (highlight: Highlight<'a>)
        ensures
            highlight == (if self.map@.contains_key(index) {
                Highlight { line: self.map@[index], start: 0, end: 1 }
            } else {
                Highlight { line: "", start: 0, end: 0 }
            }),
    {
        // Lookup given node in the map
        let val = self.map.get(&index);
        // See what we got
        match val {
            Some(s) => Highlight { line: *s, start: 0, end: 1 },
            None => empty_highlight(),
        }
    }
}

/// Provides a useful package for reporting error messages.
pub struct Highlight<'a> {
    pub line: &'a str,
    pub start: usize,
    pub end: usize,
}

/// A dummy highlight to use when (for whatever reason) the necessary
/// source information for a given node is missing.
pub fn empty_highlight() -> (highlight: Highlight<'static>)
    ensures
        highlight == (Highlight { line: "", start: 0, end: 0 }),
{
    Highlight { line: "", start: 0, end: 0 }
}

/// How many of the first `n` characters of a line begin in front of a
/// byte offset.
pub open spec fn count_before(line: Seq<char>, offset: int, n: int) -> nat
    decreases n,
{
    if n <= 0 {
        0
    } else if byte_offset(line, n - 1) < offset {
        count_before(line, offset, n - 1) + 1
    } else {
        count_before(line, offset, n - 1)
    }
}

/// A run of one character.
pub open spec fn run(c: char, n: nat) -> Seq<char> {
    Seq::new(n, |i: int| c)
}

/// The line which is printed below a line of source to point at a piece of
/// it: a space for each character which begins in front of `start`, then a
/// caret for each byte from `start` up to `end`.
pub open spec fn marks(line: Seq<char>, start: int, end: int) -> Seq<char> {
    run(' ', count_before(line, start, line.len() as int)) + run(
        '^',
        if start < end {
            (end - start) as nat
        } else {
            0
        },
    )
}

/// Convert the start of a given line into corresponding whitespace:
/// one space for each character which begins in front of the offset.
pub fn to_whitespace(line: &str, offset: usize) -> (indent: String)
    ensures
        indent@ == run(' ', count_before(line@, offset as int, line@.len() as int)),
{
    let chars = char_indices(line);
    let mut indent = String::new();
    let mut i: usize = 0;
    proof {
        reveal_strlit(" ");
    }
    while i < chars.len()
        invariant
            i <= chars@.len(),
            chars@.len() == line@.len(),
            forall|k: int|
                0 <= k < chars@.len() ==> (#[trigger] chars@[k]).0 == byte_offset(line@, k),
            " "@ =~= seq![' '],
            indent@ =~= run(' ', count_before(line@, offset as int, i as int)),
        decreases chars@.len() - i,
    {
        if chars[i].0 < offset {
            indent.append(" ");
        }
        i = i + 1;
    }
    indent
}

/// The marks which point at the bytes from `start` up to `end` of a line.
pub fn highlight(line: &str, start: usize, end: usize) -> (text: String)
    ensures
        text@ == marks(line@, start as int, end as int),
{
    // Convert the given line into equivalent whitespace
    let mut text = to_whitespace(line, start);
    let ghost indent = text@;
    proof {
        reveal_strlit("^");
    }
    let mut i: usize = start;
    while i < end
        invariant
            start <= i,
            start < end ==> i <= end,
            start >= end ==> i == start,
            "^"@ =~= seq!['^'],
            text@ =~= indent + run('^', (i - start) as nat),
        decreases end - i,
    {
        text.append("^");
        i = i + 1;
    }
    assert(text@ =~= marks(line@, start as int, end as int));
    text
}

} // verus!
