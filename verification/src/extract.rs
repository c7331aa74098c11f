//! Control-and-call outline of Rust function bodies.
use vstd::prelude::*;

use crate::collapse::{collapse_node, node_collapsed, std_stripped, strip_std};
use crate::ir::{
    lemma_outline_view, line_number, line_of, outlines_view, raws_view, FnDef, FnDefView, FnId,
    FnIdView, CallKind, CallKindView, CallSite, CallSiteView,
    Outline, OutlineNode, OutlineView, Placement, RawNode, RawView,
};
use crate::print::{plain_text, print};
use crate::omit::copy_strings;
use vstd::utf8::encode_utf8;
use crate::lang::rust::{
    call_kind, call_kind_of, classify_from, classify_function_item, field_text, first_named_child, fn_name, for_header, header_for, header_if, header_loop,
    header_match, header_while, label_prefix_of, path_segments, path_segments_of, while_header,
};
use crate::omit::{omitted, should_omit, UseMap, UseMapView};
use crate::syntax::{
    field_child, first_named_from, parent, lemma_field_child_from, lemma_first_named_from,
    lemma_named_kind_from, lemma_subtree_end_bounds, named_kind_from, subtree_end, SyntaxTree, TreeView,
};
use crate::text::{owned, push_str, str_eq};

verus! {

/// Item kinds that contribute nothing to a body outline.
pub open spec fn is_ignored_item(k: Seq<char>) -> bool {
    k == "struct_item"@ || k == "enum_item"@ || k == "type_item"@ || k == "const_item"@ || k
        == "static_item"@ || k == "trait_item"@ || k == "impl_item"@ || k == "use_declaration"@
        || k == "mod_item"@ || k == "attribute_item"@ || k == "inner_attribute_item"@ || k
        == "type_parameters"@ || k == "line_comment"@ || k == "block_comment"@
}

/// Block kinds whose named children are walked in order.
pub open spec fn is_block_kind(k: Seq<char>) -> bool {
    k == "block"@ || k == "unsafe_block"@ || k == "async_block"@ || k == "const_block"@ || k
        == "gen_block"@
}

/// Call site recorded for the call or macro invocation at node `i`.
pub open spec fn call_site_of(t: TreeView, file: Seq<char>, i: int, is_macro: bool) -> CallSiteView {
    let r = t.recs();
    let kind = if is_macro {
        CallKindView::Free {
            path: match field_child(r, i, "macro"@) {
                Some(m) => path_segments_of(t, m),
                None => Seq::empty(),
            },
        }
    } else {
        match field_child(r, i, "function"@) {
            Some(f) => call_kind_of(t, f),
            None => CallKindView::Free { path: Seq::empty() },
        }
    };
    CallSiteView { display: std_stripped(node_collapsed(t, i)), kind, is_macro, file }
}

/// The call leaf for node `i`, unless the omit list drops it.
pub open spec fn call_nodes(t: TreeView, file: Seq<char>, uses: UseMapView, i: int, is_macro: bool) -> Seq<RawView> {
    let site = call_site_of(t, file, i, is_macro);
    if omitted(site, uses, false) {
        Seq::empty()
    } else {
        seq![RawView::Call { site }]
    }
}

/// Outline of the child of node `i` under field `f`, or nothing.
pub open spec fn field_walk(t: TreeView, file: Seq<char>, uses: UseMapView, i: int, f: Seq<char>) -> Seq<RawView>
    decreases t.len() - i, 0int,
{
    let r = t.recs();
    if i < 0 || i >= t.len() {
        Seq::empty()
    } else {
        proof {
            lemma_subtree_end_bounds(r, i);
            lemma_field_child_from(r, subtree_end(r, i), i + 1, f);
        }
        match field_child(r, i, f) {
            Some(c) => walk_of(t, file, uses, c),
            None => Seq::empty(),
        }
    }
}

/// Flat `if` / `else if` / `else` chain starting at the `if_expression` `cur`.
pub open spec fn if_chain(t: TreeView, file: Seq<char>, uses: UseMapView, cur: int, keyword: Seq<char>) -> Seq<RawView>
    decreases t.len() - cur, 1int,
{
    let r = t.recs();
    if cur < 0 || cur >= t.len() {
        Seq::empty()
    } else {
        proof {
            lemma_subtree_end_bounds(r, cur);
            lemma_field_child_from(r, subtree_end(r, cur), cur + 1, "alternative"@);
        }
        let text = match field_child(r, cur, "condition"@) {
            Some(c) => keyword + " "@ + node_collapsed(t, c),
            None => keyword,
        };
        let head = RawView::Control { text, children: field_walk(t, file, uses, cur, "consequence"@) };
        seq![head] + match field_child(r, cur, "alternative"@) {
            None => Seq::empty(),
            Some(a) => {
                proof {
                    lemma_subtree_end_bounds(r, a);
                    lemma_named_kind_from(r, subtree_end(r, a), a + 1, seq!["if_expression"@, "block"@]);
                }
                match named_kind_from(r, subtree_end(r, a), a + 1, seq!["if_expression"@, "block"@]) {
                    None => Seq::empty(),
                    Some(c) => if r[c].kind == "if_expression"@ {
                        if_chain(t, file, uses, c, "else if"@)
                    } else {
                        seq![RawView::Control { text: "else"@, children: walk_of(t, file, uses, c) }]
                    },
                }
            },
        }
    }
}

/// Outlines of the named children among `[k, e)`, concatenated.
pub open spec fn walk_named_from(t: TreeView, file: Seq<char>, uses: UseMapView, e: int, k: int) -> Seq<RawView>
    decreases t.len() - k, 3int,
{
    let r = t.recs();
    if k < 0 || k >= e || k >= t.len() {
        Seq::empty()
    } else {
        proof {
            lemma_subtree_end_bounds(r, k);
        }
        (if r[k].named {
            walk_of(t, file, uses, k)
        } else {
            Seq::empty()
        }) + walk_named_from(t, file, uses, e, subtree_end(r, k))
    }
}

/// Outlines of the named `match_arm` children among `[k, e)`.
pub open spec fn arms_from(t: TreeView, file: Seq<char>, uses: UseMapView, e: int, k: int) -> Seq<RawView>
    decreases t.len() - k, 3int,
{
    let r = t.recs();
    if k < 0 || k >= e || k >= t.len() {
        Seq::empty()
    } else {
        proof {
            lemma_subtree_end_bounds(r, k);
        }
        (if r[k].named && r[k].kind == "match_arm"@ {
            walk_of(t, file, uses, k)
        } else {
            Seq::empty()
        }) + arms_from(t, file, uses, e, subtree_end(r, k))
    }
}

/// Outline of node `i`: control-flow headers with their bodies, and the calls
/// that the omit list keeps, in source order; a call is followed by the calls
/// in its arguments.
pub open spec fn walk_of(t: TreeView, file: Seq<char>, uses: UseMapView, i: int) -> Seq<RawView>
    decreases t.len() - i, 2int,
{
    let r = t.recs();
    if i < 0 || i >= t.len() {
        Seq::empty()
    } else {
        proof {
            lemma_subtree_end_bounds(r, i);
            lemma_field_child_from(r, subtree_end(r, i), i + 1, "body"@);
            lemma_first_named_from(r, subtree_end(r, i), i + 1);
            lemma_named_kind_from(r, subtree_end(r, i), i + 1, seq!["block"@]);
        }
        let k = r[i].kind;
        if k == "ERROR"@ {
            Seq::empty()
        } else if k == "if_expression"@ {
            if_chain(t, file, uses, i, "if"@)
        } else if k == "for_expression"@ {
            seq![RawView::Control { text: for_header(t, i), children: field_walk(t, file, uses, i, "body"@) }]
        } else if k == "while_expression"@ {
            seq![RawView::Control { text: while_header(t, i), children: field_walk(t, file, uses, i, "body"@) }]
        } else if k == "loop_expression"@ {
            seq![RawView::Control { text: label_prefix_of(t, i) + "loop"@, children: field_walk(t, file, uses, i, "body"@) }]
        } else if k == "match_expression"@ {
            seq![RawView::Control {
                text: "match "@ + crate::lang::rust::field_collapsed(t, i, "value"@),
                children: match field_child(r, i, "body"@) {
                    Some(b) => {
                        proof {
                            lemma_subtree_end_bounds(r, b);
                        }
                        arms_from(t, file, uses, subtree_end(r, b), b + 1)
                    },
                    None => Seq::empty(),
                },
            }]
        } else if k == "match_arm"@ {
            seq![RawView::Control {
                text: crate::lang::rust::field_collapsed(t, i, "pattern"@),
                children: field_walk(t, file, uses, i, "value"@),
            }]
        } else if k == "return_expression"@ || k == "break_expression"@ || k == "continue_expression"@ {
            seq![RawView::Control { text: node_collapsed(t, i), children: Seq::empty() }]
        } else if k == "try_block"@ {
            seq![RawView::Control {
                text: "try"@,
                children: match named_kind_from(r, subtree_end(r, i), i + 1, seq!["block"@]) {
                    Some(b) => walk_of(t, file, uses, b),
                    None => Seq::empty(),
                },
            }]
        } else if k == "call_expression"@ {
            call_nodes(t, file, uses, i, false) + field_walk(t, file, uses, i, "arguments"@)
        } else if k == "macro_invocation"@ {
            call_nodes(t, file, uses, i, true)
        } else if k == "let_declaration"@ {
            field_walk(t, file, uses, i, "value"@) + field_walk(t, file, uses, i, "alternative"@)
        } else if k == "expression_statement"@ {
            match first_named_from(r, subtree_end(r, i), i + 1) {
                Some(c) => walk_of(t, file, uses, c),
                None => Seq::empty(),
            }
        } else if is_block_kind(k) {
            walk_named_from(t, file, uses, subtree_end(r, i), i + 1)
        } else if k == "closure_expression"@ {
            field_walk(t, file, uses, i, "body"@)
        } else if k == "assignment_expression"@ || k == "compound_assignment_expr"@ {
            field_walk(t, file, uses, i, "right"@)
        } else if k == "function_item"@ {
            seq![RawView::NestedFn { name: field_text(t, i, "name"@), children: field_walk(t, file, uses, i, "body"@) }]
        } else if is_ignored_item(k) {
            Seq::empty()
        } else {
            walk_named_from(t, file, uses, subtree_end(r, i), i + 1)
        }
    }
}

/// Law: a labelled `loop`, `while` or `for` keeps its label: the outline of
/// such a node is one control node whose header begins with the collapsed
/// text of the label followed by `: `; for `loop` the header is exactly that
/// followed by `loop`.
pub proof fn law_loop_label_kept(t: TreeView, file: Seq<char>, uses: UseMapView, i: int, c: int)
    requires
        0 <= i < t.len(),
        t.recs()[i].kind == "loop_expression"@ || t.recs()[i].kind == "while_expression"@
            || t.recs()[i].kind == "for_expression"@,
        named_kind_from(t.recs(), subtree_end(t.recs(), i), i + 1, seq!["label"@]) == Some(c),
    ensures
        walk_of(t, file, uses, i).len() == 1,
        walk_of(t, file, uses, i)[0] is Control,
        (node_collapsed(t, c) + ": "@).is_prefix_of(walk_of(t, file, uses, i)[0]->Control_text),
        t.recs()[i].kind == "loop_expression"@ ==> walk_of(t, file, uses, i)[0]->Control_text
            == node_collapsed(t, c) + ": "@ + "loop"@,
{
    let p = node_collapsed(t, c) + ": "@;
    let k = t.recs()[i].kind;
    reveal_strlit("ERROR");
    reveal_strlit("if_expression");
    reveal_strlit("for_expression");
    reveal_strlit("while_expression");
    reveal_strlit("loop_expression");
    if k == "loop_expression"@ {
        assert(k.len() == 15);
    } else if k == "while_expression"@ {
        assert(k.len() == 16);
    } else {
        assert(k.len() == 14);
    }
    assert("ERROR"@.len() == 5);
    assert("if_expression"@.len() == 13);
    let w = walk_of(t, file, uses, i);
    assert(w.len() == 1);
    let text = w[0]->Control_text;
    assert(text.take(p.len() as int) =~= p);
}

/// Outline of the body of the function item `i` (no line for the item itself).
pub open spec fn fn_body_outline(t: TreeView, file: Seq<char>, uses: UseMapView, i: int) -> Seq<RawView> {
    field_walk(t, file, uses, i, "body"@)
}

/// A control node.
pub(crate) fn control(text: String, children: Vec<RawNode>) -> (n: RawNode)
    ensures
        n@ == (RawView::Control { text: text@, children: raws_view(children@) }),
{
    let ghost tv = text@;
    let ghost cv = raws_view(children@);
    let n = RawNode::Control { text, children };
    proof {
        assert(n@ is Control);
        assert(n@->Control_children =~= cv);
    }
    n
}

/// A one-element list.
pub(crate) fn single(n: RawNode) -> (v: Vec<RawNode>)
    ensures
        raws_view(v@) == seq![n@],
{
    let ghost nv = n@;
    let mut v: Vec<RawNode> = Vec::new();
    v.push(n);
    assert(raws_view(v@) =~= seq![nv]);
    v
}

pub(crate) fn append_raws(out: &mut Vec<RawNode>, more: Vec<RawNode>)
    ensures
        raws_view(final(out)@) == raws_view(old(out)@) + raws_view(more@),
{
    let mut more = more;
    let ghost a = raws_view(out@);
    let ghost b = raws_view(more@);
    out.append(&mut more);
    assert(raws_view(out@) =~= a + b);
}

fn field_walk_exec(t: &SyntaxTree, file: &str, uses: &UseMap, i: usize, f: &str) -> (out: Vec<RawNode>)
    requires
        t.wf(),
        i < t.len(),
    ensures
        raws_view(out@) == field_walk(t@, file@, uses@, i as int, f@),
    decreases t.len() - i, 0int,
{
    match t.child_by_field(i, f) {
        Some(c) => walk(t, file, uses, c),
        None => {
            let v: Vec<RawNode> = Vec::new();
            assert(raws_view(v@) =~= Seq::<RawView>::empty());
            v
        },
    }
}

fn if_chain_exec(t: &SyntaxTree, file: &str, uses: &UseMap, cur: usize, keyword: &str) -> (out: Vec<RawNode>)
    requires
        t.wf(),
        cur < t.len(),
    ensures
        raws_view(out@) == if_chain(t@, file@, uses@, cur as int, keyword@),
    decreases t.len() - cur, 1int,
{
    let ghost r = t.recs();
    let text = match t.child_by_field(cur, "condition") {
        Some(c) => header_if(t, keyword, c),
        None => owned(keyword),
    };
    let children = field_walk_exec(t, file, uses, cur, "consequence");
    let mut out = single(control(text, children));
    proof {
        lemma_subtree_end_bounds(r, cur as int);
        lemma_field_child_from(r, subtree_end(r, cur as int), cur + 1, "alternative"@);
    }
    let ghost head = raws_view(out@);
    match t.child_by_field(cur, "alternative") {
        None => {
            assert(head + Seq::<RawView>::empty() =~= head);
        },
        Some(a) => {
            let kinds = ["if_expression", "block"];
            assert(kinds@.map_values(|k: &str| k@) =~= seq!["if_expression"@, "block"@]);
            match t.first_named_kind(a, kinds.as_slice()) {
                None => {
                    assert(head + Seq::<RawView>::empty() =~= head);
                },
                Some(c) => {
                    if t.kind_is(c, "if_expression") {
                        let rest = if_chain_exec(t, file, uses, c, "else if");
                        append_raws(&mut out, rest);
                    } else {
                        let body = walk(t, file, uses, c);
                        let rest = single(control(owned("else"), body));
                        append_raws(&mut out, rest);
                    }
                },
            }
        },
    }
    out
}

fn walk_named_exec(t: &SyntaxTree, file: &str, uses: &UseMap, i: usize) -> (out: Vec<RawNode>)
    requires
        t.wf(),
        i < t.len(),
    ensures
        raws_view(out@) == walk_named_from(t@, file@, uses@, subtree_end(t.recs(), i as int), i + 1),
    decreases t.len() - i - 1, 3int,
{
    let ghost r = t.recs();
    let ghost fv = file@;
    let ghost uv = uses@;
    let e = t.end_of(i);
    let mut out: Vec<RawNode> = Vec::new();
    let mut j = i + 1;
    assert(raws_view(out@) =~= Seq::<RawView>::empty());
    while j < e
        invariant
            t.wf(),
            r == t.recs(),
            fv == file@,
            uv == uses@,
            i < j <= t.len(),
            e == subtree_end(r, i as int),
            e <= t.len(),
            walk_named_from(t@, fv, uv, e as int, i + 1) == raws_view(out@) + walk_named_from(t@, fv, uv, e as int, j as int),
        decreases t.len() - j,
    {
        let ghost prev = raws_view(out@);
        if t.is_named(j) {
            let more = walk(t, file, uses, j);
            append_raws(&mut out, more);
        }
        let nj = t.end_of(j);
        proof {
            let here = if r[j as int].named {
                walk_of(t@, fv, uv, j as int)
            } else {
                Seq::<RawView>::empty()
            };
            let rest = walk_named_from(t@, fv, uv, e as int, nj as int);
            assert(walk_named_from(t@, fv, uv, e as int, j as int) == here + rest);
            assert(raws_view(out@) =~= prev + here);
            assert(prev + (here + rest) =~= (prev + here) + rest);
        }
        j = nj;
    }
    assert(raws_view(out@) + Seq::<RawView>::empty() =~= raws_view(out@));
    out
}

fn arms_exec(t: &SyntaxTree, file: &str, uses: &UseMap, b: usize) -> (out: Vec<RawNode>)
    requires
        t.wf(),
        b < t.len(),
    ensures
        raws_view(out@) == arms_from(t@, file@, uses@, subtree_end(t.recs(), b as int), b + 1),
    decreases t.len() - b - 1, 3int,
{
    let ghost r = t.recs();
    let ghost fv = file@;
    let ghost uv = uses@;
    let e = t.end_of(b);
    let mut out: Vec<RawNode> = Vec::new();
    let mut j = b + 1;
    assert(raws_view(out@) =~= Seq::<RawView>::empty());
    while j < e
        invariant
            t.wf(),
            r == t.recs(),
            fv == file@,
            uv == uses@,
            b < j <= t.len(),
            e == subtree_end(r, b as int),
            e <= t.len(),
            arms_from(t@, fv, uv, e as int, b + 1) == raws_view(out@) + arms_from(t@, fv, uv, e as int, j as int),
        decreases t.len() - j,
    {
        let ghost prev = raws_view(out@);
        if t.is_named(j) && t.kind_is(j, "match_arm") {
            let more = walk(t, file, uses, j);
            append_raws(&mut out, more);
        }
        let nj = t.end_of(j);
        proof {
            let here = if r[j as int].named && r[j as int].kind == "match_arm"@ {
                walk_of(t@, fv, uv, j as int)
            } else {
                Seq::<RawView>::empty()
            };
            let rest = arms_from(t@, fv, uv, e as int, nj as int);
            assert(arms_from(t@, fv, uv, e as int, j as int) == here + rest);
            assert(raws_view(out@) =~= prev + here);
            assert(prev + (here + rest) =~= (prev + here) + rest);
        }
        j = nj;
    }
    assert(raws_view(out@) + Seq::<RawView>::empty() =~= raws_view(out@));
    out
}

/// Call leaf for node `i`, or nothing when the omit list drops it.
fn emit_call(t: &SyntaxTree, file: &str, uses: &UseMap, i: usize, is_macro: bool) -> (out: Vec<RawNode>)
    requires
        t.wf(),
        i < t.len(),
    ensures
        raws_view(out@) == call_nodes(t@, file@, uses@, i as int, is_macro),
{
    let kind = if is_macro {
        let path = match t.child_by_field(i, "macro") {
            Some(m) => path_segments(t, m),
            None => {
                let v: Vec<String> = Vec::new();
                assert(v.deep_view() =~= Seq::<Seq<char>>::empty());
                v
            },
        };
        CallKind::Free { path }
    } else {
        match t.child_by_field(i, "function") {
            Some(f) => call_kind(t, f),
            None => {
                let v: Vec<String> = Vec::new();
                assert(v.deep_view() =~= Seq::<Seq<char>>::empty());
                CallKind::Free { path: v }
            },
        }
    };
    let collapsed = collapse_node(t, i);
    let site = CallSite { display: strip_std(collapsed.as_str()), kind, is_macro, file: owned(file) };
    assert(site@.kind == call_site_of(t@, file@, i as int, is_macro).kind);
    assert(site@ == call_site_of(t@, file@, i as int, is_macro));
    if should_omit(&site, uses) {
        let v: Vec<RawNode> = Vec::new();
        assert(raws_view(v@) =~= Seq::<RawView>::empty());
        v
    } else {
        single(RawNode::Call { site })
    }
}

pub(crate) fn empty_raws() -> (v: Vec<RawNode>)
    ensures
        raws_view(v@) == Seq::<RawView>::empty(),
{
    let v: Vec<RawNode> = Vec::new();
    assert(raws_view(v@) =~= Seq::<RawView>::empty());
    v
}

fn walk(t: &SyntaxTree, file: &str, uses: &UseMap, i: usize) -> (out: Vec<RawNode>)
    requires
        t.wf(),
        i < t.len(),
    ensures
        raws_view(out@) == walk_of(t@, file@, uses@, i as int),
    decreases t.len() - i, 2int,
{
    let ghost r = t.recs();
    proof {
        lemma_subtree_end_bounds(r, i as int);
    }
    let k = t.kind(i);
    if str_eq(k, "ERROR") {
        empty_raws()
    } else if str_eq(k, "if_expression") {
        if_chain_exec(t, file, uses, i, "if")
    } else if str_eq(k, "for_expression") {
        let text = header_for(t, i);
        single(control(text, field_walk_exec(t, file, uses, i, "body")))
    } else if str_eq(k, "while_expression") {
        let text = header_while(t, i);
        single(control(text, field_walk_exec(t, file, uses, i, "body")))
    } else if str_eq(k, "loop_expression") {
        let text = header_loop(t, i);
        single(control(text, field_walk_exec(t, file, uses, i, "body")))
    } else if str_eq(k, "match_expression") {
        let text = header_match(t, i);
        let arms = match t.child_by_field(i, "body") {
            Some(b) => arms_exec(t, file, uses, b),
            None => empty_raws(),
        };
        single(control(text, arms))
    } else if str_eq(k, "match_arm") {
        let text = crate::lang::rust::field_collapsed_of(t, i, "pattern");
        single(control(text, field_walk_exec(t, file, uses, i, "value")))
    } else if str_eq(k, "return_expression") || str_eq(k, "break_expression") || str_eq(
        k,
        "continue_expression",
    ) {
        single(control(collapse_node(t, i), empty_raws()))
    } else if str_eq(k, "try_block") {
        let kinds = ["block"];
        assert(kinds@.map_values(|k: &str| k@) =~= seq!["block"@]);
        let body = match t.first_named_kind(i, kinds.as_slice()) {
            Some(b) => walk(t, file, uses, b),
            None => empty_raws(),
        };
        single(control(owned("try"), body))
    } else if str_eq(k, "call_expression") {
        let mut out = emit_call(t, file, uses, i, false);
        let inner = field_walk_exec(t, file, uses, i, "arguments");
        append_raws(&mut out, inner);
        out
    } else if str_eq(k, "macro_invocation") {
        emit_call(t, file, uses, i, true)
    } else if str_eq(k, "let_declaration") {
        let mut out = field_walk_exec(t, file, uses, i, "value");
        let alt = field_walk_exec(t, file, uses, i, "alternative");
        append_raws(&mut out, alt);
        out
    } else if str_eq(k, "expression_statement") {
        match first_named_child(t, i) {
            Some(c) => walk(t, file, uses, c),
            None => empty_raws(),
        }
    } else if str_eq(k, "block") || str_eq(k, "unsafe_block") || str_eq(k, "async_block")
        || str_eq(k, "const_block") || str_eq(k, "gen_block") {
        walk_named_exec(t, file, uses, i)
    } else if str_eq(k, "closure_expression") {
        field_walk_exec(t, file, uses, i, "body")
    } else if str_eq(k, "assignment_expression") || str_eq(k, "compound_assignment_expr") {
        field_walk_exec(t, file, uses, i, "right")
    } else if str_eq(k, "function_item") {
        let name = fn_name(t, i);
        let body = field_walk_exec(t, file, uses, i, "body");
        let ghost nv = name@;
        let ghost bv = raws_view(body@);
        let n = RawNode::NestedFn { name, children: body };
        proof {
            assert(n@ is NestedFn);
            assert(n@->NestedFn_children =~= bv);
        }
        single(n)
    } else if ignored_item(k) {
        empty_raws()
    } else {
        walk_named_exec(t, file, uses, i)
    }
}

fn ignored_item(k: &str) -> (r: bool)
    ensures
        r == is_ignored_item(k@),
{
    str_eq(k, "struct_item") || str_eq(k, "enum_item") || str_eq(k, "type_item") || str_eq(
        k,
        "const_item",
    ) || str_eq(k, "static_item") || str_eq(k, "trait_item") || str_eq(k, "impl_item") || str_eq(
        k,
        "use_declaration",
    ) || str_eq(k, "mod_item") || str_eq(k, "attribute_item") || str_eq(
        k,
        "inner_attribute_item",
    ) || str_eq(k, "type_parameters") || str_eq(k, "line_comment") || str_eq(k, "block_comment")
}

/// Unexpanded body of the function item `fn_item`; no `fn` line is emitted
/// for the item itself.
pub fn extract_fn(t: &SyntaxTree, fn_item: usize, file: &str, uses: &UseMap) -> (out: Vec<RawNode>)
    requires
        t.wf(),
        fn_item < t.len(),
    ensures
        raws_view(out@) == fn_body_outline(t@, file@, uses@, fn_item as int),
{
    field_walk_exec(t, file, uses, fn_item, "body")
}

/// Outline node of an unexpanded node: calls become leaves.
pub open spec fn raw_outline(n: RawView) -> OutlineView
    decreases n,
{
    match n {
        RawView::Control { text, children } => OutlineView {
            text,
            loc: Placement::Unplaced,
            children: Seq::new(
                children.len(),
                |j: int|
                    if 0 <= j < children.len() {
                        raw_outline(children[j])
                    } else {
                        OutlineView { text: Seq::empty(), loc: Placement::Unplaced, children: Seq::empty() }
                    },
            ),
        },
        RawView::NestedFn { name, children } => OutlineView {
            text: "fn "@ + name,
            loc: Placement::Unplaced,
            children: Seq::new(
                children.len(),
                |j: int|
                    if 0 <= j < children.len() {
                        raw_outline(children[j])
                    } else {
                        OutlineView { text: Seq::empty(), loc: Placement::Unplaced, children: Seq::empty() }
                    },
            ),
        },
        RawView::Call { site } => OutlineView {
            text: site.display,
            loc: Placement::Unplaced,
            children: Seq::empty(),
        },
    }
}

pub open spec fn raw_outlines(v: Seq<RawView>) -> Seq<OutlineView> {
    v.map_values(|n: RawView| raw_outline(n))
}

fn raw_node_outline(n: &RawNode) -> (o: OutlineNode)
    ensures
        o@ == raw_outline(n@),
    decreases n, 1int,
{
    match n {
        RawNode::Call { site } => {
            let o = OutlineNode { text: site.display.clone(), loc: None, children: Vec::new() };
            proof {
                lemma_outline_view(&o);
                assert(o@.children =~= Seq::<OutlineView>::empty());
                assert(o@.text == raw_outline(n@).text);
                assert(o@ =~= raw_outline(n@));
            }
            o
        },
        RawNode::Control { text, children } => {
            let outs = children_outline(children);
            let o = OutlineNode { text: text.clone(), loc: None, children: outs };
            proof {
                lemma_outline_view(&o);
                assert(raws_view(children@) =~= n@->Control_children);
                assert(o@.children =~= raw_outline(n@).children);
                assert(o@ =~= raw_outline(n@));
            }
            o
        },
        RawNode::NestedFn { name, children } => {
            let outs = children_outline(children);
            let mut label = owned("fn ");
            push_str(&mut label, name.as_str());
            let o = OutlineNode { text: label, loc: None, children: outs };
            proof {
                lemma_outline_view(&o);
                assert(raws_view(children@) =~= n@->NestedFn_children);
                assert(o@.children =~= raw_outline(n@).children);
                assert(o@ =~= raw_outline(n@));
            }
            o
        },
    }
}

fn children_outline(children: &Vec<RawNode>) -> (outs: Vec<OutlineNode>)
    ensures
        outs@.len() == children@.len(),
        forall|j: int| 0 <= j < children@.len() ==> #[trigger] outs@[j]@ == raw_outline(children@[j]@),
    decreases children, 0int,
{
    let mut outs: Vec<OutlineNode> = Vec::new();
    let mut k: usize = 0;
    while k < children.len()
        invariant
            k <= children@.len(),
            outs@.len() == k,
            forall|j: int| 0 <= j < k ==> #[trigger] outs@[j]@ == raw_outline(children@[j]@),
        decreases children@.len() - k,
    {
        proof {
            assert(decreases_to!(children => children@));
            assert(decreases_to!(children@ => children@[k as int]));
        }
        let c = raw_node_outline(&children[k]);
        outs.push(c);
        k = k + 1;
    }
    outs
}

/// Outline nodes of unexpanded nodes.
fn raw_to_outline(nodes: &Vec<RawNode>) -> (out: Vec<OutlineNode>)
    ensures
        outlines_view(out@) == raw_outlines(raws_view(nodes@)),
{
    let mut out: Vec<OutlineNode> = Vec::new();
    let mut k: usize = 0;
    while k < nodes.len()
        invariant
            k <= nodes@.len(),
            out@.len() == k,
            forall|j: int| 0 <= j < k ==> #[trigger] out@[j]@ == raw_outline(nodes@[j]@),
        decreases nodes@.len() - k,
    {
        let c = raw_node_outline(&nodes[k]);
        out.push(c);
        k = k + 1;
    }
    assert(outlines_view(out@) =~= raw_outlines(raws_view(nodes@)));
    out
}

/// Printed outline of one function's unexpanded body, under a `fn name` line.
pub open spec fn raw_fn_text(name: Seq<char>, body: Seq<RawView>) -> Seq<char> {
    plain_text(seq![OutlineView { text: "fn "@ + name, loc: Placement::Unplaced, children: raw_outlines(body) }])
}

/// Prints one function's unexpanded body as an outline; calls are leaves.
pub fn print_raw_fn(name: &str, body: &Vec<RawNode>) -> (out: String)
    ensures
        out@ == raw_fn_text(name@, raws_view(body@)),
{
    let mut text = owned("fn ");
    push_str(&mut text, name);
    let root = OutlineNode { text, loc: None, children: raw_to_outline(body) };
    let ghost rv = OutlineView { text: "fn "@ + name@, loc: Placement::Unplaced, children: raw_outlines(raws_view(body@)) };
    proof {
        lemma_outline_view(&root);
        assert(root@.children =~= rv.children);
        assert(root@ =~= rv);
    }
    let mut roots: Vec<OutlineNode> = Vec::new();
    roots.push(root);
    let o = Outline { roots };
    assert(outlines_view(o.roots@) =~= seq![rv]);
    print(&o)
}

/// Body-bearing function items not nested in another function, at or below
/// node `i`, in source order.
pub open spec fn root_fns_of(t: TreeView, i: int, in_fn: bool) -> Seq<int>
    decreases t.len() - i, 0int,
{
    let r = t.recs();
    if i < 0 || i >= t.len() {
        Seq::empty()
    } else {
        proof {
            lemma_subtree_end_bounds(r, i);
        }
        if r[i].kind == "function_item"@ {
            (if !in_fn && field_child(r, i, "body"@) is Some {
                seq![i]
            } else {
                Seq::empty()
            }) + root_fns_from(t, subtree_end(r, i), i + 1, true)
        } else {
            root_fns_from(t, subtree_end(r, i), i + 1, in_fn)
        }
    }
}

pub open spec fn root_fns_from(t: TreeView, e: int, k: int, in_fn: bool) -> Seq<int>
    decreases t.len() - k, 1int,
{
    let r = t.recs();
    if k < 0 || k >= e || k >= t.len() {
        Seq::empty()
    } else {
        proof {
            lemma_subtree_end_bounds(r, k);
        }
        (if r[k].named {
            root_fns_of(t, k, in_fn)
        } else {
            Seq::empty()
        }) + root_fns_from(t, e, subtree_end(r, k), in_fn)
    }
}

pub open spec fn indices_view(v: Seq<usize>) -> Seq<int> {
    v.map_values(|x: usize| x as int)
}

fn append_indices(out: &mut Vec<usize>, more: Vec<usize>)
    ensures
        indices_view(final(out)@) == indices_view(old(out)@) + indices_view(more@),
{
    let mut more = more;
    let ghost a = indices_view(out@);
    let ghost b = indices_view(more@);
    out.append(&mut more);
    assert(indices_view(out@) =~= a + b);
}

fn walk_root_fns(t: &SyntaxTree, i: usize, in_fn: bool) -> (out: Vec<usize>)
    requires
        t.wf(),
        i < t.len(),
    ensures
        indices_view(out@) == root_fns_of(t@, i as int, in_fn),
    decreases t.len() - i,
{
    let ghost r = t.recs();
    let is_fn = t.kind_is(i, "function_item");
    let mut out: Vec<usize> = Vec::new();
    if is_fn && !in_fn && t.child_by_field(i, "body").is_some() {
        out.push(i);
    }
    let inner = if is_fn {
        true
    } else {
        in_fn
    };
    let ghost head = indices_view(out@);
    let e = t.end_of(i);
    let mut j = i + 1;
    while j < e
        invariant
            t.wf(),
            r == t.recs(),
            i < j <= t.len(),
            e == subtree_end(r, i as int),
            e <= t.len(),
            head + root_fns_from(t@, e as int, i + 1, inner) == indices_view(out@) + root_fns_from(t@, e as int, j as int, inner),
        decreases t.len() - j,
    {
        let ghost prev = indices_view(out@);
        if t.is_named(j) {
            let more = walk_root_fns(t, j, inner);
            append_indices(&mut out, more);
        }
        let nj = t.end_of(j);
        proof {
            lemma_subtree_end_bounds(r, j as int);
            let here = if r[j as int].named {
                root_fns_of(t@, j as int, inner)
            } else {
                Seq::<int>::empty()
            };
            let rest = root_fns_from(t@, e as int, nj as int, inner);
            assert(root_fns_from(t@, e as int, j as int, inner) == here + rest);
            assert(indices_view(out@) =~= prev + here);
            assert(prev + (here + rest) =~= (prev + here) + rest);
        }
        j = nj;
    }
    proof {
        assert(indices_view(out@) + Seq::<int>::empty() =~= indices_view(out@));
        if is_fn {
            assert(head =~= (if !in_fn && field_child(r, i as int, "body"@) is Some {
                seq![i as int]
            } else {
                Seq::<int>::empty()
            }));
        } else {
            assert(head =~= Seq::<int>::empty());
            assert(head + root_fns_from(t@, e as int, i + 1, inner) =~= root_fns_from(t@, e as int, i + 1, inner));
        }
    }
    out
}

/// Non-nested, body-bearing function items (not trait signatures), in source
/// order.
pub fn root_function_items(t: &SyntaxTree) -> (out: Vec<usize>)
    requires
        t.wf(),
    ensures
        indices_view(out@) == root_fns_of(t@, 0, false),
{
    if t.nodes.len() == 0 {
        let v: Vec<usize> = Vec::new();
        assert(indices_view(v@) =~= Seq::<int>::empty());
        return v;
    }
    walk_root_fns(t, 0, false)
}

/// First function item, in pre-order over named nodes from `i`, named `name`.
pub open spec fn find_fn_of(t: TreeView, i: int, name: Seq<char>) -> Option<int>
    decreases t.len() - i, 0int,
{
    let r = t.recs();
    if i < 0 || i >= t.len() {
        None
    } else if r[i].kind == "function_item"@ && field_text(t, i, "name"@) == name {
        Some(i)
    } else {
        proof {
            lemma_subtree_end_bounds(r, i);
        }
        find_fn_from(t, subtree_end(r, i), i + 1, name)
    }
}

pub open spec fn find_fn_from(t: TreeView, e: int, k: int, name: Seq<char>) -> Option<int>
    decreases t.len() - k, 1int,
{
    let r = t.recs();
    if k < 0 || k >= e || k >= t.len() {
        None
    } else {
        proof {
            lemma_subtree_end_bounds(r, k);
        }
        match if r[k].named {
            find_fn_of(t, k, name)
        } else {
            None
        } {
            Some(f) => Some(f),
            None => find_fn_from(t, e, subtree_end(r, k), name),
        }
    }
}

/// First function item at or below node `i` whose name is `name`.
pub fn find_function_item(t: &SyntaxTree, i: usize, name: &str) -> (found: Option<usize>)
    requires
        t.wf(),
        i < t.len(),
    ensures
        match found {
            Some(f) => find_fn_of(t@, i as int, name@) == Some(f as int),
            None => find_fn_of(t@, i as int, name@) is None,
        },
    decreases t.len() - i,
{
    let ghost r = t.recs();
    if t.kind_is(i, "function_item") {
        let n = fn_name(t, i);
        if str_eq(n.as_str(), name) {
            return Some(i);
        }
    }
    let e = t.end_of(i);
    let mut j = i + 1;
    while j < e
        invariant
            t.wf(),
            r == t.recs(),
            i < j <= t.len(),
            e == subtree_end(r, i as int),
            e <= t.len(),
            find_fn_of(t@, i as int, name@) == find_fn_from(t@, e as int, j as int, name@),
        decreases t.len() - j,
    {
        proof {
            lemma_subtree_end_bounds(r, j as int);
        }
        if t.is_named(j) {
            match find_function_item(t, j, name) {
                Some(f) => {
                    return Some(f);
                },
                None => {},
            }
        }
        j = t.end_of(j);
    }
    None
}

/// Function kinds that are indexed: items with or without a body.
pub open spec fn is_fn_def_kind(k: Seq<char>) -> bool {
    k == "function_item"@ || k == "function_signature_item"@
}

/// Indexed definition of the function node `i`.
pub open spec fn fn_def_of(
    t: TreeView,
    file: Seq<char>,
    uses: UseMapView,
    module: Seq<Seq<char>>,
    i: int,
    nested: bool,
) -> FnDefView {
    let r = t.recs();
    let has_body = field_child(r, i, "body"@) is Some;
    FnDefView {
        id: FnIdView { file, start_byte: r[i].start },
        start_line: line_number(encode_utf8(t.text()), r[i].start),
        name: field_text(t, i, "name"@),
        kind: classify_from(t, parent(r, i)),
        module,
        nested,
        has_body,
        end_byte: r[i].end,
        body: if has_body {
            fn_body_outline(t, file, uses, i)
        } else {
            Seq::empty()
        },
    }
}

/// Definitions at or below node `i`, in source order; `nested` marks those
/// inside another function. `ERROR` subtrees are skipped.
pub open spec fn defs_of(
    t: TreeView,
    file: Seq<char>,
    uses: UseMapView,
    module: Seq<Seq<char>>,
    i: int,
    in_fn: bool,
) -> Seq<FnDefView>
    decreases t.len() - i, 0int,
{
    let r = t.recs();
    if i < 0 || i >= t.len() {
        Seq::empty()
    } else if r[i].kind == "ERROR"@ {
        Seq::empty()
    } else {
        proof {
            lemma_subtree_end_bounds(r, i);
        }
        if is_fn_def_kind(r[i].kind) {
            seq![fn_def_of(t, file, uses, module, i, in_fn)] + defs_from(
                t,
                file,
                uses,
                module,
                subtree_end(r, i),
                i + 1,
                true,
            )
        } else {
            defs_from(t, file, uses, module, subtree_end(r, i), i + 1, in_fn)
        }
    }
}

pub open spec fn defs_from(
    t: TreeView,
    file: Seq<char>,
    uses: UseMapView,
    module: Seq<Seq<char>>,
    e: int,
    k: int,
    in_fn: bool,
) -> Seq<FnDefView>
    decreases t.len() - k, 1int,
{
    let r = t.recs();
    if k < 0 || k >= e || k >= t.len() {
        Seq::empty()
    } else {
        proof {
            lemma_subtree_end_bounds(r, k);
        }
        (if r[k].named {
            defs_of(t, file, uses, module, k, in_fn)
        } else {
            Seq::empty()
        }) + defs_from(t, file, uses, module, e, subtree_end(r, k), in_fn)
    }
}

pub open spec fn defs_view(v: Seq<FnDef>) -> Seq<FnDefView> {
    v.map_values(|d: FnDef| d@)
}

pub(crate) fn append_defs(out: &mut Vec<FnDef>, more: Vec<FnDef>)
    ensures
        defs_view(final(out)@) == defs_view(old(out)@) + defs_view(more@),
{
    let mut more = more;
    let ghost a = defs_view(out@);
    let ghost b = defs_view(more@);
    out.append(&mut more);
    assert(defs_view(out@) =~= a + b);
}

fn fn_def(t: &SyntaxTree, src: &str, file: &str, uses: &UseMap, module: &Vec<String>, i: usize, nested: bool) -> (d: FnDef)
    requires
        t.wf(),
        t.text() == src@,
        i < t.len(),
    ensures
        d@ == fn_def_of(t@, file@, uses@, module.deep_view(), i as int, nested),
{
    let start = t.nodes[i].start;
    let has_body = t.child_by_field(i, "body").is_some();
    let body = if has_body {
        extract_fn(t, i, file, uses)
    } else {
        empty_raws()
    };
    let d = FnDef {
        id: FnId { file: owned(file), start_byte: start },
        start_line: line_of(src, start),
        name: fn_name(t, i),
        kind: classify_function_item(t, i),
        module: copy_strings(module),
        nested,
        has_body,
        end_byte: t.nodes[i].end,
        body,
    };
    let ghost expected = fn_def_of(t@, file@, uses@, module.deep_view(), i as int, nested);
    assert(d@.body == expected.body);
    assert(d@.id == expected.id);
    assert(d@.module == expected.module);
    d
}

fn walk_index(t: &SyntaxTree, src: &str, file: &str, uses: &UseMap, module: &Vec<String>, i: usize, in_fn: bool) -> (out: Vec<FnDef>)
    requires
        t.wf(),
        t.text() == src@,
        i < t.len(),
    ensures
        defs_view(out@) == defs_of(t@, file@, uses@, module.deep_view(), i as int, in_fn),
    decreases t.len() - i,
{
    let ghost r = t.recs();
    let ghost fv = file@;
    let ghost uv = uses@;
    let ghost mv = module.deep_view();
    let mut out: Vec<FnDef> = Vec::new();
    if t.kind_is(i, "ERROR") {
        assert(defs_view(out@) =~= Seq::<FnDefView>::empty());
        return out;
    }
    let is_def = t.kind_is(i, "function_item") || t.kind_is(i, "function_signature_item");
    if is_def {
        out.push(fn_def(t, src, file, uses, module, i, in_fn));
    }
    let inner = if is_def {
        true
    } else {
        in_fn
    };
    let ghost head = defs_view(out@);
    let e = t.end_of(i);
    let mut j = i + 1;
    while j < e
        invariant
            t.wf(),
            t.text() == src@,
            r == t.recs(),
            fv == file@,
            uv == uses@,
            mv == module.deep_view(),
            i < j <= t.len(),
            e == subtree_end(r, i as int),
            e <= t.len(),
            head + defs_from(t@, fv, uv, mv, e as int, i + 1, inner) == defs_view(out@) + defs_from(t@, fv, uv, mv, e as int, j as int, inner),
        decreases t.len() - j,
    {
        let ghost prev = defs_view(out@);
        if t.is_named(j) {
            let more = walk_index(t, src, file, uses, module, j, inner);
            append_defs(&mut out, more);
        }
        let nj = t.end_of(j);
        proof {
            lemma_subtree_end_bounds(r, j as int);
            let here = if r[j as int].named {
                defs_of(t@, fv, uv, mv, j as int, inner)
            } else {
                Seq::<FnDefView>::empty()
            };
            let rest = defs_from(t@, fv, uv, mv, e as int, nj as int, inner);
            assert(defs_from(t@, fv, uv, mv, e as int, j as int, inner) == here + rest);
            assert(defs_view(out@) =~= prev + here);
            assert(prev + (here + rest) =~= (prev + here) + rest);
        }
        j = nj;
    }
    proof {
        assert(defs_view(out@) + Seq::<FnDefView>::empty() =~= defs_view(out@));
        if is_def {
            assert(head =~= seq![fn_def_of(t@, fv, uv, mv, i as int, in_fn)]);
        } else {
            assert(head =~= Seq::<FnDefView>::empty());
            assert(head + defs_from(t@, fv, uv, mv, e as int, i + 1, inner) =~= defs_from(t@, fv, uv, mv, e as int, i + 1, inner));
        }
    }
    out
}

/// Every Rust function definition of the tree (with or without a body), in
/// source order.
pub fn rust_index_defs(t: &SyntaxTree, src: &str, file: &str, uses: &UseMap, module: &Vec<String>) -> (out: Vec<FnDef>)
    requires
        t.wf(),
        t.text() == src@,
    ensures
        defs_view(out@) == defs_of(t@, file@, uses@, module.deep_view(), 0, false),
{
    if t.nodes.len() == 0 {
        let v: Vec<FnDef> = Vec::new();
        assert(defs_view(v@) =~= Seq::<FnDefView>::empty());
        return v;
    }
    walk_index(t, src, file, uses, module, 0, false)
}

/// Definitions of a parsed file, by the language of its path.
pub open spec fn lang_defs_of(
    t: TreeView,
    file: Seq<char>,
    uses: UseMapView,
    module: Seq<Seq<char>>,
) -> Seq<FnDefView> {
    match crate::lang::language_of(file) {
        Some(crate::lang::Language::Java) => crate::lang::java::defs_of(t, file, uses, module, 0, false),
        Some(crate::lang::Language::TypeScript) => crate::lang::typescript::defs_of(t, file, uses, module, 0, false),
        _ => defs_of(t, file, uses, module, 0, false),
    }
}

/// Every function definition of the tree of `file` (with or without a
/// body), in source order, by the file's language.
pub fn index_defs(t: &SyntaxTree, src: &str, file: &str, uses: &UseMap, module: &Vec<String>) -> (out: Vec<FnDef>)
    requires
        t.wf(),
        t.text() == src@,
    ensures
        defs_view(out@) == lang_defs_of(t@, file@, uses@, module.deep_view()),
{
    match crate::lang::language_for_path(file) {
        Some(crate::lang::Language::Java) => crate::lang::java::index_defs(t, src, file, uses, module),
        Some(crate::lang::Language::TypeScript) => crate::lang::typescript::index_defs(t, src, file, uses, module),
        _ => rust_index_defs(t, src, file, uses, module),
    }
}

} // verus!
