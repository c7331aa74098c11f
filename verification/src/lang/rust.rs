//! Rust syntax helpers: names, kinds of functions, control-flow headers and
//! call paths.
use vstd::prelude::*;

use crate::collapse::{collapse_node, node_collapsed};
use crate::ir::{CallKind, CallKindView, FnKind};
use crate::syntax::{
    field_child, first_named_from, lemma_field_child_from, lemma_named_kind_from, lemma_parent_from,
    lemma_subtree_end_bounds, named_kind_from, parent, subtree_end, SyntaxTree, TreeView,
};
use crate::text::{push_str, str_eq};

verus! {

/// Text of the child under field `f`, or empty.
pub open spec fn field_text(t: TreeView, i: int, f: Seq<char>) -> Seq<char> {
    match field_child(t.recs(), i, f) {
        Some(c) => t.node_text(c),
        None => Seq::empty(),
    }
}

/// Collapsed text of the child under field `f`, or empty.
pub open spec fn field_collapsed(t: TreeView, i: int, f: Seq<char>) -> Seq<char> {
    match field_child(t.recs(), i, f) {
        Some(c) => node_collapsed(t, c),
        None => Seq::empty(),
    }
}

pub fn field_text_of(t: &SyntaxTree, i: usize, f: &str) -> (s: String)
    requires
        t.wf(),
        i < t.len(),
    ensures
        s@ == field_text(t@, i as int, f@),
{
    match t.child_by_field(i, f) {
        Some(c) => t.text_of(c),
        None => String::new(),
    }
}

pub fn field_collapsed_of(t: &SyntaxTree, i: usize, f: &str) -> (s: String)
    requires
        t.wf(),
        i < t.len(),
    ensures
        s@ == field_collapsed(t@, i as int, f@),
{
    match t.child_by_field(i, f) {
        Some(c) => collapse_node(t, c),
        None => String::new(),
    }
}

/// Name of a function item (its `name` field), or empty.
pub fn fn_name(t: &SyntaxTree, i: usize) -> (s: String)
    requires
        t.wf(),
        i < t.len(),
    ensures
        s@ == field_text(t@, i as int, "name"@),
{
    field_text_of(t, i, "name")
}

/// Kind decided by the nearest of `impl_item`, `trait_item`, `source_file`,
/// `mod_item` among the ancestors from `a` up.
pub open spec fn classify_from(t: TreeView, a: Option<int>) -> FnKind
    decreases match a {
        Some(j) => j + 1,
        None => 0,
    },
{
    match a {
        None => FnKind::Free,
        Some(j) => if j < 0 || j >= t.len() {
            FnKind::Free
        } else {
            let k = t.recs()[j].kind;
            if k == "impl_item"@ || k == "trait_item"@ {
                FnKind::Method
            } else if k == "source_file"@ || k == "mod_item"@ {
                FnKind::Free
            } else {
                proof {
                    lemma_parent_from(t.recs(), t.recs()[j].depth, j - 1);
                }
                classify_from(t, parent(t.recs(), j))
            }
        },
    }
}

/// Nearest of `{impl_item, trait_item, source_file, mod_item}` decides the kind.
pub fn classify_function_item(t: &SyntaxTree, i: usize) -> (k: FnKind)
    requires
        t.wf(),
        i < t.len(),
    ensures
        k == classify_from(t@, parent(t.recs(), i as int)),
{
    let mut cur = t.parent_of(i);
    proof {
        lemma_parent_from(t.recs(), t.recs()[i as int].depth, i - 1);
    }
    while cur.is_some()
        invariant
            t.wf(),
            match cur {
                Some(j) => j < t.len(),
                None => true,
            },
            classify_from(t@, parent(t.recs(), i as int)) == classify_from(t@, match cur {
                Some(j) => Some(j as int),
                None => None,
            }),
        decreases match cur {
            Some(j) => j + 1,
            None => 0,
        },
    {
        let j = cur.unwrap();
        let k = t.kind(j);
        if str_eq(k, "impl_item") || str_eq(k, "trait_item") {
            return FnKind::Method;
        }
        if str_eq(k, "source_file") || str_eq(k, "mod_item") {
            return FnKind::Free;
        }
        cur = t.parent_of(j);
    }
    FnKind::Free
}

/// `label: ` when node `i` carries a loop label, else empty.
pub open spec fn label_prefix_of(t: TreeView, i: int) -> Seq<char> {
    let r = t.recs();
    match named_kind_from(r, subtree_end(r, i), i + 1, seq!["label"@]) {
        Some(c) => node_collapsed(t, c) + ": "@,
        None => Seq::empty(),
    }
}

pub fn label_prefix(t: &SyntaxTree, i: usize) -> (s: String)
    requires
        t.wf(),
        i < t.len(),
    ensures
        s@ == label_prefix_of(t@, i as int),
{
    let kinds = ["label"];
    assert(kinds@.map_values(|k: &str| k@) =~= seq!["label"@]);
    match t.first_named_kind(i, kinds.as_slice()) {
        Some(c) => {
            let mut s = collapse_node(t, c);
            push_str(&mut s, ": ");
            s
        },
        None => String::new(),
    }
}

/// `keyword condition`.
pub fn header_if(t: &SyntaxTree, keyword: &str, cond: usize) -> (s: String)
    requires
        t.wf(),
        cond < t.len(),
    ensures
        s@ == keyword@ + " "@ + node_collapsed(t@, cond as int),
{
    let mut s = String::from_str(keyword);
    push_str(&mut s, " ");
    let c = collapse_node(t, cond);
    push_str(&mut s, c.as_str());
    s
}

pub open spec fn for_header(t: TreeView, i: int) -> Seq<char> {
    label_prefix_of(t, i) + "for "@ + field_collapsed(t, i, "pattern"@) + " in "@
        + field_collapsed(t, i, "value"@)
}

pub fn header_for(t: &SyntaxTree, i: usize) -> (s: String)
    requires
        t.wf(),
        i < t.len(),
    ensures
        s@ == for_header(t@, i as int),
{
    let pattern = field_collapsed_of(t, i, "pattern");
    let value = field_collapsed_of(t, i, "value");
    let mut s = label_prefix(t, i);
    push_str(&mut s, "for ");
    push_str(&mut s, pattern.as_str());
    push_str(&mut s, " in ");
    push_str(&mut s, value.as_str());
    s
}

pub open spec fn while_header(t: TreeView, i: int) -> Seq<char> {
    label_prefix_of(t, i) + "while "@ + field_collapsed(t, i, "condition"@)
}

pub fn header_while(t: &SyntaxTree, i: usize) -> (s: String)
    requires
        t.wf(),
        i < t.len(),
    ensures
        s@ == while_header(t@, i as int),
{
    let cond = field_collapsed_of(t, i, "condition");
    let mut s = label_prefix(t, i);
    push_str(&mut s, "while ");
    push_str(&mut s, cond.as_str());
    s
}

pub fn header_loop(t: &SyntaxTree, i: usize) -> (s: String)
    requires
        t.wf(),
        i < t.len(),
    ensures
        s@ == label_prefix_of(t@, i as int) + "loop"@,
{
    let mut s = label_prefix(t, i);
    push_str(&mut s, "loop");
    s
}

pub fn header_match(t: &SyntaxTree, i: usize) -> (s: String)
    requires
        t.wf(),
        i < t.len(),
    ensures
        s@ == "match "@ + field_collapsed(t@, i as int, "value"@),
{
    let value = field_collapsed_of(t, i, "value");
    let mut s = String::from_str("match ");
    push_str(&mut s, value.as_str());
    s
}

/// Path segments of a callee or macro name.
pub open spec fn path_segments_of(t: TreeView, i: int) -> Seq<Seq<char>>
    decreases t.len() - i,
{
    let r = t.recs();
    if i < 0 || i >= t.len() {
        Seq::empty()
    } else {
        let k = r[i].kind;
        proof {
            lemma_subtree_end_bounds(r, i);
            lemma_field_child_from(r, subtree_end(r, i), i + 1, "path"@);
            lemma_field_child_from(r, subtree_end(r, i), i + 1, "name"@);
            lemma_field_child_from(r, subtree_end(r, i), i + 1, "function"@);
            lemma_field_child_from(r, subtree_end(r, i), i + 1, "type"@);
        }
        if k == "identifier"@ || k == "crate"@ || k == "self"@ || k == "super"@ || k
            == "metavariable"@ || k == "field_identifier"@ || k == "type_identifier"@ {
            seq![t.node_text(i)]
        } else if k == "scoped_identifier"@ {
            (match field_child(r, i, "path"@) {
                Some(c) => path_segments_of(t, c),
                None => Seq::empty(),
            }) + match field_child(r, i, "name"@) {
                Some(c) => path_segments_of(t, c),
                None => Seq::empty(),
            }
        } else if k == "generic_function"@ {
            match field_child(r, i, "function"@) {
                Some(c) => path_segments_of(t, c),
                None => Seq::empty(),
            }
        } else if k == "generic_type"@ {
            match field_child(r, i, "type"@) {
                Some(c) => path_segments_of(t, c),
                None => Seq::empty(),
            }
        } else {
            match field_child(r, i, "name"@) {
                Some(c) => path_segments_of(t, c),
                None => Seq::empty(),
            }
        }
    }
}

fn append_strings(a: &mut Vec<String>, b: Vec<String>)
    ensures
        final(a).deep_view() == old(a).deep_view() + b.deep_view(),
{
    let mut b = b;
    let ghost a0 = a.deep_view();
    let ghost bv = b.deep_view();
    a.append(&mut b);
    assert(a.deep_view() =~= a0 + bv);
}

pub fn path_segments(t: &SyntaxTree, i: usize) -> (p: Vec<String>)
    requires
        t.wf(),
        i < t.len(),
    ensures
        p.deep_view() == path_segments_of(t@, i as int),
    decreases t.len() - i,
{
    let k = t.kind(i);
    if str_eq(k, "identifier") || str_eq(k, "crate") || str_eq(k, "self") || str_eq(k, "super")
        || str_eq(k, "metavariable") || str_eq(k, "field_identifier") || str_eq(
        k,
        "type_identifier",
    ) {
        let mut v = Vec::new();
        v.push(t.text_of(i));
        assert(v.deep_view() =~= seq![t.node_text(i as int)]);
        v
    } else if str_eq(k, "scoped_identifier") {
        let mut segs = match t.child_by_field(i, "path") {
            Some(c) => path_segments(t, c),
            None => Vec::new(),
        };
        match t.child_by_field(i, "name") {
            Some(c) => {
                let tail = path_segments(t, c);
                append_strings(&mut segs, tail);
            },
            None => {
                assert(segs.deep_view() =~= segs.deep_view() + Seq::<Seq<char>>::empty());
            },
        }
        segs
    } else {
        let f = if str_eq(k, "generic_function") {
            "function"
        } else if str_eq(k, "generic_type") {
            "type"
        } else {
            "name"
        };
        match t.child_by_field(i, f) {
            Some(c) => path_segments(t, c),
            None => Vec::new(),
        }
    }
}

/// Call kind of a callee: a method iff it is a `field_expression` (or a
/// generic of one).
pub open spec fn call_kind_of(t: TreeView, f: int) -> CallKindView {
    let r = t.recs();
    let callee = if r[f].kind == "generic_function"@ {
        match field_child(r, f, "function"@) {
            Some(c) => c,
            None => f,
        }
    } else {
        f
    };
    if r[callee].kind == "field_expression"@ {
        CallKindView::Method { name: field_text(t, callee, "field"@) }
    } else {
        CallKindView::Free { path: path_segments_of(t, callee) }
    }
}

/// Method iff `function` is a `field_expression` (or generic of one).
pub fn call_kind(t: &SyntaxTree, f: usize) -> (k: CallKind)
    requires
        t.wf(),
        f < t.len(),
    ensures
        k@ == call_kind_of(t@, f as int),
{
    let callee = if t.kind_is(f, "generic_function") {
        match t.child_by_field(f, "function") {
            Some(c) => c,
            None => f,
        }
    } else {
        f
    };
    if t.kind_is(callee, "field_expression") {
        CallKind::Method { name: field_text_of(t, callee, "field") }
    } else {
        CallKind::Free { path: path_segments(t, callee) }
    }
}

/// First named child of node `i`.
pub fn first_named_child(t: &SyntaxTree, i: usize) -> (c: Option<usize>)
    requires
        t.wf(),
        i < t.len(),
    ensures
        match c {
            Some(c) => first_named_from(t.recs(), subtree_end(t.recs(), i as int), i + 1) == Some(c as int) && i < c < t.len(),
            None => first_named_from(t.recs(), subtree_end(t.recs(), i as int), i + 1) is None,
        },
{
    t.first_named(i)
}

} // verus!
