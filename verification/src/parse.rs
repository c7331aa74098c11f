//! Choosing the grammar for a source text and parsing it.
use vstd::prelude::*;

use crate::lang::{language_for_path, language_of, Language};
use crate::syntax::{parse_tree, parsed_records, subtree_end, Grammar, NodeView, SyntaxTree, TreeView};
use crate::text::{ends_with, has_suffix};

verus! {

/// The tree that `grammar` gives for `src`.
pub open spec fn parsed_view(grammar: Grammar, src: Seq<char>) -> TreeView {
    TreeView { recs: parsed_records(grammar, src), text: src }
}

pub open spec fn grammar_of_language(lang: Language) -> Grammar {
    match lang {
        Language::Rust => Grammar::Rust,
        Language::Java => Grammar::Java,
        Language::TypeScript => Grammar::TypeScript,
    }
}

/// Grammar for a path: TSX for `.tsx`, else by language, Rust when unknown.
pub open spec fn grammar_of(path: Seq<char>) -> Grammar {
    if has_suffix(path, ".tsx"@) {
        Grammar::Tsx
    } else {
        match language_of(path) {
            Some(lang) => grammar_of_language(lang),
            None => Grammar::Rust,
        }
    }
}

/// Parses Rust source. Syntax errors stay in the tree as `ERROR` nodes.
pub fn parse_rust(src: &str) -> (t: SyntaxTree)
    ensures
        t.wf(),
        t@ == parsed_view(Grammar::Rust, src@),
{
    parse_tree(Grammar::Rust, src)
}

/// Parses `src` as `lang`; TypeScript uses the plain TypeScript grammar.
pub fn parse(lang: Language, src: &str) -> (t: SyntaxTree)
    ensures
        t.wf(),
        t@ == parsed_view(grammar_of_language(lang), src@),
{
    let g = match lang {
        Language::Rust => Grammar::Rust,
        Language::Java => Grammar::Java,
        Language::TypeScript => Grammar::TypeScript,
    };
    parse_tree(g, src)
}

/// Parses TSX source.
pub fn parse_tsx(src: &str) -> (t: SyntaxTree)
    ensures
        t.wf(),
        t@ == parsed_view(Grammar::Tsx, src@),
{
    parse_tree(Grammar::Tsx, src)
}

/// Parses `src` with the grammar that `path` calls for.
pub fn parse_path(path: &str, src: &str) -> (t: SyntaxTree)
    ensures
        t.wf(),
        t@ == parsed_view(grammar_of(path@), src@),
{
    if ends_with(path, ".tsx") {
        return parse_tsx(src);
    }
    match language_for_path(path) {
        Some(lang) => parse(lang, src),
        None => parse_rust(src),
    }
}

/// The first node at or after `k` and before `e`, in document order, whose
/// kind is `kind`.
pub open spec fn first_kind_from(r: Seq<NodeView>, e: int, k: int, kind: Seq<char>) -> Option<int>
    decreases r.len() - k,
{
    if k < 0 || k >= e || k >= r.len() {
        None
    } else if r[k].kind == kind {
        Some(k)
    } else {
        first_kind_from(r, e, k + 1, kind)
    }
}

/// Node `i` itself or its first descendant, in document order, of kind `kind`.
pub fn find_kind(t: &SyntaxTree, i: usize, kind: &str) -> (c: Option<usize>)
    requires
        t.wf(),
        i < t.len(),
    ensures
        match c {
            Some(c) => first_kind_from(t.recs(), subtree_end(t.recs(), i as int), i as int, kind@) == Some(c as int),
            None => first_kind_from(t.recs(), subtree_end(t.recs(), i as int), i as int, kind@) is None,
        },
{
    let ghost r = t.recs();
    let e = t.end_of(i);
    let mut j = i;
    while j < e
        invariant
            r == t.recs(),
            i <= j <= e,
            e == subtree_end(r, i as int),
            e <= t.len(),
            first_kind_from(r, e as int, i as int, kind@) == first_kind_from(r, e as int, j as int, kind@),
        decreases e - j,
    {
        if t.kind_is(j, kind) {
            return Some(j);
        }
        j = j + 1;
    }
    None
}

} // verus!
