//! TypeScript: indexed definitions, body outlines, relative imports and
//! module paths.
use vstd::prelude::*;
use vstd::utf8::encode_utf8;

use crate::collapse::{collapse_node, node_collapsed};
use crate::extract::{append_defs, append_raws, control, defs_view, empty_raws, single};
use crate::ir::{
    line_number, line_of, raws_view, CallKind, CallKindView, CallSite, CallSiteView, FnDef,
    FnDefView, FnId, FnIdView, FnKind, RawNode, RawView,
};
use crate::lang::rust::{field_text, field_text_of, fn_name};
use crate::lang::{header_before_field, header_text, ident_path, ident_path_of, node_text};
use crate::omit::{
    append_bindings, apply_bindings, bindings_view, copy_strings, empty_uses, omitted,
    should_omit_at_extract, push_binding, Binding, BindingView, UseMap, UseMapView,
};
use crate::syntax::{
    field_child, first_named_from, last_named_from, lemma_field_child_from,
    lemma_first_named_from, lemma_last_named_from, lemma_named_kind_from, lemma_parent_from,
    lemma_subtree_end_bounds, named_kind_from, parent, subtree_end, SyntaxTree, TreeView,
};
use crate::text::{
    chars_of, class_trimmed, ends_with, has_prefix, has_suffix, owned, pieces, push_str,
    split_pieces, starts_with, str_eq, string_of, trim_class_chars, trim_end_char, trimmed_end,
};

verus! {

/// Declarations and comments that contribute nothing to a body outline.
pub open spec fn is_ignored_kind(k: Seq<char>) -> bool {
    k == "import_statement"@ || k == "export_statement"@ || k == "class_declaration"@ || k
        == "interface_declaration"@ || k == "type_alias_declaration"@ || k == "enum_declaration"@
        || k == "comment"@ || k == "html_comment"@
}

/// Statements shown as their header (up to the body) over the body's outline.
pub open spec fn is_header_kind(k: Seq<char>) -> bool {
    k == "for_statement"@ || k == "for_in_statement"@ || k == "while_statement"@ || k
        == "do_statement"@ || k == "switch_statement"@ || k == "catch_clause"@
}

pub open spec fn is_jump_kind(k: Seq<char>) -> bool {
    k == "return_statement"@ || k == "break_statement"@ || k == "continue_statement"@ || k
        == "throw_statement"@
}

/// Kinds whose named children are walked in order.
pub open spec fn is_walked_kind(k: Seq<char>) -> bool {
    k == "switch_body"@ || k == "lexical_declaration"@ || k == "variable_declaration"@ || k
        == "statement_block"@ || k == "jsx_element"@ || k == "jsx_self_closing_element"@ || k
        == "jsx_fragment"@ || k == "jsx_expression"@
}

/// Function expressions, whose bodies are outlined in place.
pub open spec fn is_fn_expr_kind(k: Seq<char>) -> bool {
    k == "arrow_function"@ || k == "function_expression"@ || k == "generator_function"@
}

/// Declarations shown as a nested function inside a body.
pub open spec fn is_nested_fn_kind(k: Seq<char>) -> bool {
    k == "function_declaration"@ || k == "generator_function_declaration"@ || k
        == "method_definition"@
}

/// Declarations that are indexed, with or without a body.
pub open spec fn is_fn_like(k: Seq<char>) -> bool {
    k == "function_declaration"@ || k == "generator_function_declaration"@ || k
        == "function_signature"@ || k == "method_definition"@ || k == "method_signature"@ || k
        == "abstract_method_signature"@
}

/// `else if` spelling of an `if` header.
pub open spec fn else_if_text(text: Seq<char>) -> Seq<char> {
    if has_prefix(text, "if"@) {
        "else if"@ + text.skip(2)
    } else {
        "else if "@ + text
    }
}

/// Kind of the call whose callee is node `f`: a method call through a
/// member expression, else a free call by the callee's path.
pub open spec fn call_kind_of(t: TreeView, f: int) -> CallKindView {
    let k = t.recs()[f].kind;
    if k == "member_expression"@ || k == "optional_member_expression"@ {
        CallKindView::Method { name: field_text(t, f, "property"@) }
    } else {
        CallKindView::Free { path: ident_path_of(t, f) }
    }
}

pub open spec fn call_site_of(t: TreeView, file: Seq<char>, i: int) -> CallSiteView {
    let kind = match field_child(t.recs(), i, "function"@) {
        Some(f) => call_kind_of(t, f),
        None => CallKindView::Free { path: Seq::empty() },
    };
    CallSiteView { display: node_collapsed(t, i), kind, is_macro: false, file }
}

pub open spec fn new_site_of(t: TreeView, file: Seq<char>, i: int) -> CallSiteView {
    let path = match field_child(t.recs(), i, "constructor"@) {
        Some(c) => ident_path_of(t, c),
        None => Seq::empty(),
    };
    CallSiteView { display: node_collapsed(t, i), kind: CallKindView::Free { path }, is_macro: false, file }
}

/// The call leaf for `site`, unless the omit list drops it.
pub open spec fn site_nodes(site: CallSiteView, uses: UseMapView) -> Seq<RawView> {
    if omitted(site, uses, false) {
        Seq::empty()
    } else {
        seq![RawView::Call { site }]
    }
}

/// Header of a `case`: the text up to its first statement, trimmed, without
/// the trailing colons.
pub open spec fn case_text(t: TreeView, i: int) -> Seq<char> {
    trimmed_end(class_trimmed(header_text(t, i, "body"@), true), ':')
}

/// Outline of the child of node `i` under field `f`, or nothing.
pub open spec fn field_walk(t: TreeView, file: Seq<char>, uses: UseMapView, i: int, f: Seq<char>) -> Seq<RawView>
    decreases t.len() - i, 0int,
{
    let r = t.recs();
    if i < 0 || i >= t.len() {
        Seq::empty()
    } else {
        proof {
            lemma_subtree_end_bounds(r, i);
            lemma_field_child_from(r, subtree_end(r, i), i + 1, f);
        }
        match field_child(r, i, f) {
            Some(c) => walk_of(t, file, uses, c),
            None => Seq::empty(),
        }
    }
}

/// The branch an `alternative` stands for: inside an `else_clause`, its
/// nested `if_statement` or block (the clause itself when it has neither).
pub open spec fn else_target(r: Seq<crate::syntax::NodeView>, a: int) -> int {
    if r[a].kind == "else_clause"@ {
        match named_kind_from(r, subtree_end(r, a), a + 1, seq!["if_statement"@, "statement_block"@]) {
            Some(c) => c,
            None => a,
        }
    } else {
        a
    }
}

/// Flat `if` / `else if` / `else` chain from the `if_statement` `cur`.
pub open spec fn if_chain(t: TreeView, file: Seq<char>, uses: UseMapView, cur: int, elif: bool) -> Seq<RawView>
    decreases t.len() - cur, 1int,
{
    let r = t.recs();
    if cur < 0 || cur >= t.len() {
        Seq::empty()
    } else {
        proof {
            lemma_subtree_end_bounds(r, cur);
            lemma_field_child_from(r, subtree_end(r, cur), cur + 1, "alternative"@);
        }
        let raw = header_text(t, cur, "consequence"@);
        let text = if elif {
            else_if_text(raw)
        } else {
            raw
        };
        seq![RawView::Control { text, children: field_walk(t, file, uses, cur, "consequence"@) }]
            + match field_child(r, cur, "alternative"@) {
            None => Seq::empty(),
            Some(a) => {
                proof {
                    lemma_subtree_end_bounds(r, a);
                    lemma_named_kind_from(r, subtree_end(r, a), a + 1, seq!["if_statement"@, "statement_block"@]);
                }
                let inner = else_target(r, a);
                if r[inner].kind == "if_statement"@ {
                    if_chain(t, file, uses, inner, true)
                } else {
                    seq![RawView::Control { text: "else"@, children: walk_of(t, file, uses, inner) }]
                }
            },
        }
    }
}

/// Which named children among `[k, e)` a walk visits.
pub enum Pick {
    All,
    Handlers,
}

pub open spec fn picked(p: Pick, k: Seq<char>) -> bool {
    match p {
        Pick::All => true,
        Pick::Handlers => k == "catch_clause"@ || k == "finally_clause"@,
    }
}

/// Outlines of the picked named children among `[k, e)`, concatenated.
pub open spec fn walk_named_from(t: TreeView, file: Seq<char>, uses: UseMapView, e: int, k: int, p: Pick) -> Seq<RawView>
    decreases t.len() - k, 3int,
{
    let r = t.recs();
    if k < 0 || k >= e || k >= t.len() {
        Seq::empty()
    } else {
        proof {
            lemma_subtree_end_bounds(r, k);
        }
        (if r[k].named && picked(p, r[k].kind) {
            walk_of(t, file, uses, k)
        } else {
            Seq::empty()
        }) + walk_named_from(t, file, uses, e, subtree_end(r, k), p)
    }
}

/// Children of a `case`: its first statement (the `body` field) when there
/// is one, else the named children after the first.
pub open spec fn case_children(t: TreeView, file: Seq<char>, uses: UseMapView, i: int) -> Seq<RawView>
    decreases t.len() - i, 1int,
{
    let r = t.recs();
    if i < 0 || i >= t.len() {
        Seq::empty()
    } else {
        proof {
            lemma_subtree_end_bounds(r, i);
            lemma_field_child_from(r, subtree_end(r, i), i + 1, "body"@);
            lemma_first_named_from(r, subtree_end(r, i), i + 1);
        }
        match field_child(r, i, "body"@) {
            Some(b) => walk_of(t, file, uses, b),
            None => match first_named_from(r, subtree_end(r, i), i + 1) {
                Some(c) => {
                    proof {
                        lemma_subtree_end_bounds(r, c);
                    }
                    walk_named_from(t, file, uses, subtree_end(r, i), subtree_end(r, c), Pick::All)
                },
                None => Seq::empty(),
            },
        }
    }
}

/// Outline of node `i`: control-flow headers over their bodies, and the
/// calls that the omit list keeps, in source order.
pub open spec fn walk_of(t: TreeView, file: Seq<char>, uses: UseMapView, i: int) -> Seq<RawView>
    decreases t.len() - i, 2int,
{
    let r = t.recs();
    if i < 0 || i >= t.len() {
        Seq::empty()
    } else {
        proof {
            lemma_subtree_end_bounds(r, i);
            lemma_first_named_from(r, subtree_end(r, i), i + 1);
            lemma_named_kind_from(r, subtree_end(r, i), i + 1, seq!["statement_block"@]);
        }
        let k = r[i].kind;
        let e = subtree_end(r, i);
        if k == "ERROR"@ || k == "debugger_statement"@ {
            Seq::empty()
        } else if k == "if_statement"@ {
            if_chain(t, file, uses, i, false)
        } else if is_header_kind(k) {
            seq![RawView::Control { text: header_text(t, i, "body"@), children: field_walk(t, file, uses, i, "body"@) }]
        } else if is_walked_kind(k) {
            walk_named_from(t, file, uses, e, i + 1, Pick::All)
        } else if k == "switch_case"@ {
            seq![RawView::Control { text: case_text(t, i), children: case_children(t, file, uses, i) }]
        } else if k == "switch_default"@ {
            seq![RawView::Control { text: "default"@, children: walk_named_from(t, file, uses, e, i + 1, Pick::All) }]
        } else if is_jump_kind(k) {
            seq![RawView::Control { text: trimmed_end(node_collapsed(t, i), ';'), children: Seq::empty() }]
        } else if k == "try_statement"@ {
            seq![RawView::Control { text: "try"@, children: field_walk(t, file, uses, i, "body"@) }]
                + walk_named_from(t, file, uses, e, i + 1, Pick::Handlers)
        } else if k == "finally_clause"@ {
            seq![RawView::Control {
                text: "finally"@,
                children: match named_kind_from(r, e, i + 1, seq!["statement_block"@]) {
                    Some(b) => walk_of(t, file, uses, b),
                    None => walk_named_from(t, file, uses, e, i + 1, Pick::All),
                },
            }]
        } else if k == "call_expression"@ {
            site_nodes(call_site_of(t, file, i), uses)
        } else if k == "new_expression"@ {
            site_nodes(new_site_of(t, file, i), uses)
        } else if k == "expression_statement"@ {
            match first_named_from(r, e, i + 1) {
                Some(c) => walk_of(t, file, uses, c),
                None => Seq::empty(),
            }
        } else if k == "variable_declarator"@ {
            field_walk(t, file, uses, i, "value"@)
        } else if k == "assignment_expression"@ || k == "augmented_assignment_expression"@ {
            field_walk(t, file, uses, i, "right"@)
        } else if is_fn_expr_kind(k) {
            field_walk(t, file, uses, i, "body"@)
        } else if is_nested_fn_kind(k) {
            seq![RawView::NestedFn { name: field_text(t, i, "name"@), children: field_walk(t, file, uses, i, "body"@) }]
        } else if is_ignored_kind(k) {
            Seq::empty()
        } else {
            walk_named_from(t, file, uses, e, i + 1, Pick::All)
        }
    }
}

/// Outline of the body of the function or method `i`.
pub open spec fn fn_body_outline(t: TreeView, file: Seq<char>, uses: UseMapView, i: int) -> Seq<RawView> {
    field_walk(t, file, uses, i, "body"@)
}

fn field_walk_exec(t: &SyntaxTree, file: &str, uses: &UseMap, i: usize, f: &str) -> (out: Vec<RawNode>)
    requires
        t.wf(),
        i < t.len(),
    ensures
        raws_view(out@) == field_walk(t@, file@, uses@, i as int, f@),
    decreases t.len() - i, 0int,
{
    match t.child_by_field(i, f) {
        Some(c) => walk(t, file, uses, c),
        None => empty_raws(),
    }
}

fn else_if(raw: String) -> (s: String)
    ensures
        s@ == else_if_text(raw@),
{
    let cs = chars_of(raw.as_str());
    proof {
        reveal_strlit("if");
        reveal_strlit("else if");
        reveal_strlit("else if ");
    }
    if cs.len() >= 2 && cs[0] == 'i' && cs[1] == 'f' {
        assert(raw@.take(2) =~= "if"@);
        let mut s = owned("else if");
        let rest = string_of(&cs, 2, cs.len());
        push_str(&mut s, rest.as_str());
        assert(rest@ =~= raw@.skip(2));
        s
    } else {
        assert(!has_prefix(raw@, "if"@)) by {
            if raw@.len() >= 2 {
                assert(raw@.take(2)[0] == raw@[0]);
                assert(raw@.take(2)[1] == raw@[1]);
            }
        }
        let mut s = owned("else if ");
        push_str(&mut s, raw.as_str());
        s
    }
}

fn if_chain_exec(t: &SyntaxTree, file: &str, uses: &UseMap, cur: usize, elif: bool) -> (out: Vec<RawNode>)
    requires
        t.wf(),
        cur < t.len(),
    ensures
        raws_view(out@) == if_chain(t@, file@, uses@, cur as int, elif),
    decreases t.len() - cur, 1int,
{
    let ghost r = t.recs();
    let raw = header_before_field(t, cur, "consequence");
    let text = if elif {
        else_if(raw)
    } else {
        raw
    };
    let children = field_walk_exec(t, file, uses, cur, "consequence");
    let mut out = single(control(text, children));
    proof {
        lemma_subtree_end_bounds(r, cur as int);
        lemma_field_child_from(r, subtree_end(r, cur as int), cur + 1, "alternative"@);
    }
    let ghost head = raws_view(out@);
    match t.child_by_field(cur, "alternative") {
        None => {
            assert(head + Seq::<RawView>::empty() =~= head);
        },
        Some(a) => {
            proof {
                lemma_subtree_end_bounds(r, a as int);
            }
            let inner = if t.kind_is(a, "else_clause") {
                let kinds = ["if_statement", "statement_block"];
                assert(kinds@.map_values(|k: &str| k@) =~= seq!["if_statement"@, "statement_block"@]);
                match t.first_named_kind(a, kinds.as_slice()) {
                    Some(c) => c,
                    None => a,
                }
            } else {
                a
            };
            assert(inner as int == else_target(r, a as int));
            if t.kind_is(inner, "if_statement") {
                let rest = if_chain_exec(t, file, uses, inner, true);
                append_raws(&mut out, rest);
            } else {
                let body = walk(t, file, uses, inner);
                let rest = single(control(owned("else"), body));
                append_raws(&mut out, rest);
            }
        },
    }
    out
}

fn pick_kind(p: &Pick, k: &str) -> (r: bool)
    ensures
        r == picked(*p, k@),
{
    match p {
        Pick::All => true,
        Pick::Handlers => str_eq(k, "catch_clause") || str_eq(k, "finally_clause"),
    }
}

/// Outlines of the picked named children of `i` from `from` on.
fn walk_named_exec(t: &SyntaxTree, file: &str, uses: &UseMap, i: usize, from: usize, p: Pick) -> (out: Vec<RawNode>)
    requires
        t.wf(),
        i < from <= t.len(),
    ensures
        raws_view(out@) == walk_named_from(t@, file@, uses@, subtree_end(t.recs(), i as int), from as int, p),
    decreases t.len() - i - 1, 3int,
{
    let ghost r = t.recs();
    let ghost fv = file@;
    let ghost uv = uses@;
    let e = t.end_of(i);
    let mut out: Vec<RawNode> = Vec::new();
    let mut j = from;
    assert(raws_view(out@) =~= Seq::<RawView>::empty());
    while j < e
        invariant
            t.wf(),
            r == t.recs(),
            fv == file@,
            uv == uses@,
            i < j <= t.len(),
            e == subtree_end(r, i as int),
            e <= t.len(),
            walk_named_from(t@, fv, uv, e as int, from as int, p) == raws_view(out@) + walk_named_from(t@, fv, uv, e as int, j as int, p),
        decreases t.len() - j,
    {
        let ghost prev = raws_view(out@);
        if t.is_named(j) && pick_kind(&p, t.kind(j)) {
            let more = walk(t, file, uses, j);
            append_raws(&mut out, more);
        }
        let nj = t.end_of(j);
        proof {
            let here = if r[j as int].named && picked(p, r[j as int].kind) {
                walk_of(t@, fv, uv, j as int)
            } else {
                Seq::<RawView>::empty()
            };
            let rest = walk_named_from(t@, fv, uv, e as int, nj as int, p);
            assert(walk_named_from(t@, fv, uv, e as int, j as int, p) == here + rest);
            assert(raws_view(out@) =~= prev + here);
            assert(prev + (here + rest) =~= (prev + here) + rest);
        }
        j = nj;
    }
    proof {
        if from >= e {
            assert(walk_named_from(t@, fv, uv, e as int, from as int, p) =~= Seq::<RawView>::empty());
        }
    }
    assert(raws_view(out@) + Seq::<RawView>::empty() =~= raws_view(out@));
    out
}

fn case_children_exec(t: &SyntaxTree, file: &str, uses: &UseMap, i: usize) -> (out: Vec<RawNode>)
    requires
        t.wf(),
        i < t.len(),
    ensures
        raws_view(out@) == case_children(t@, file@, uses@, i as int),
    decreases t.len() - i, 1int,
{
    let ghost r = t.recs();
    proof {
        lemma_subtree_end_bounds(r, i as int);
    }
    match t.child_by_field(i, "body") {
        Some(b) => walk(t, file, uses, b),
        None => match t.first_named(i) {
            Some(c) => {
                let from = t.end_of(c);
                proof {
                    lemma_subtree_end_bounds(r, c as int);
                }
                if from >= t.end_of(i) {
                    let v = empty_raws();
                    assert(walk_named_from(t@, file@, uses@, subtree_end(r, i as int), from as int, Pick::All) =~= Seq::<RawView>::empty());
                    v
                } else {
                    walk_named_exec(t, file, uses, i, from, Pick::All)
                }
            },
            None => empty_raws(),
        },
    }
}

fn emit_site(site: CallSite, uses: &UseMap) -> (out: Vec<RawNode>)
    ensures
        raws_view(out@) == site_nodes(site@, uses@),
{
    if should_omit_at_extract(&site, uses) {
        empty_raws()
    } else {
        single(RawNode::Call { site })
    }
}

fn call_kind(t: &SyntaxTree, f: usize) -> (k: CallKind)
    requires
        t.wf(),
        f < t.len(),
    ensures
        k@ == call_kind_of(t@, f as int),
{
    if t.kind_is(f, "member_expression") || t.kind_is(f, "optional_member_expression") {
        CallKind::Method { name: field_text_of(t, f, "property") }
    } else {
        CallKind::Free { path: ident_path(t, f) }
    }
}

fn emit_call(t: &SyntaxTree, file: &str, uses: &UseMap, i: usize) -> (out: Vec<RawNode>)
    requires
        t.wf(),
        i < t.len(),
    ensures
        raws_view(out@) == site_nodes(call_site_of(t@, file@, i as int), uses@),
{
    let kind = match t.child_by_field(i, "function") {
        Some(f) => call_kind(t, f),
        None => {
            let v: Vec<String> = Vec::new();
            assert(v.deep_view() =~= Seq::<Seq<char>>::empty());
            CallKind::Free { path: v }
        },
    };
    let site = CallSite { display: collapse_node(t, i), kind, is_macro: false, file: owned(file) };
    assert(site@ == call_site_of(t@, file@, i as int));
    emit_site(site, uses)
}

fn emit_new(t: &SyntaxTree, file: &str, uses: &UseMap, i: usize) -> (out: Vec<RawNode>)
    requires
        t.wf(),
        i < t.len(),
    ensures
        raws_view(out@) == site_nodes(new_site_of(t@, file@, i as int), uses@),
{
    let path = match t.child_by_field(i, "constructor") {
        Some(c) => ident_path(t, c),
        None => {
            let v: Vec<String> = Vec::new();
            assert(v.deep_view() =~= Seq::<Seq<char>>::empty());
            v
        },
    };
    let site = CallSite { display: collapse_node(t, i), kind: CallKind::Free { path }, is_macro: false, file: owned(file) };
    assert(site@ == new_site_of(t@, file@, i as int));
    emit_site(site, uses)
}

fn ignored_kind(k: &str) -> (r: bool)
    ensures
        r == is_ignored_kind(k@),
{
    str_eq(k, "import_statement") || str_eq(k, "export_statement") || str_eq(k, "class_declaration")
        || str_eq(k, "interface_declaration") || str_eq(k, "type_alias_declaration") || str_eq(k, "enum_declaration")
        || str_eq(k, "comment") || str_eq(k, "html_comment")
}

fn header_kind(k: &str) -> (r: bool)
    ensures
        r == is_header_kind(k@),
{
    str_eq(k, "for_statement") || str_eq(k, "for_in_statement") || str_eq(k, "while_statement")
        || str_eq(k, "do_statement") || str_eq(k, "switch_statement") || str_eq(k, "catch_clause")
}

fn walked_kind(k: &str) -> (r: bool)
    ensures
        r == is_walked_kind(k@),
{
    str_eq(k, "switch_body") || str_eq(k, "lexical_declaration") || str_eq(k, "variable_declaration")
        || str_eq(k, "statement_block") || str_eq(k, "jsx_element") || str_eq(k, "jsx_self_closing_element")
        || str_eq(k, "jsx_fragment") || str_eq(k, "jsx_expression")
}

fn walk(t: &SyntaxTree, file: &str, uses: &UseMap, i: usize) -> (out: Vec<RawNode>)
    requires
        t.wf(),
        i < t.len(),
    ensures
        raws_view(out@) == walk_of(t@, file@, uses@, i as int),
    decreases t.len() - i, 2int,
{
    let ghost r = t.recs();
    proof {
        lemma_subtree_end_bounds(r, i as int);
    }
    let k = t.kind(i);
    if str_eq(k, "ERROR") || str_eq(k, "debugger_statement") {
        empty_raws()
    } else if str_eq(k, "if_statement") {
        if_chain_exec(t, file, uses, i, false)
    } else if header_kind(k) {
        let text = header_before_field(t, i, "body");
        single(control(text, field_walk_exec(t, file, uses, i, "body")))
    } else if walked_kind(k) {
        walk_named_exec(t, file, uses, i, i + 1, Pick::All)
    } else if str_eq(k, "switch_case") {
        let h = header_before_field(t, i, "body");
        let trimmed = trim_class_chars(h.as_str(), true);
        let text = trim_end_char(trimmed.as_str(), ':');
        single(control(text, case_children_exec(t, file, uses, i)))
    } else if str_eq(k, "switch_default") {
        single(control(owned("default"), walk_named_exec(t, file, uses, i, i + 1, Pick::All)))
    } else if str_eq(k, "return_statement") || str_eq(k, "break_statement") || str_eq(k, "continue_statement")
        || str_eq(k, "throw_statement") {
        let c = collapse_node(t, i);
        single(control(trim_end_char(c.as_str(), ';'), empty_raws()))
    } else if str_eq(k, "try_statement") {
        let mut out = single(control(owned("try"), field_walk_exec(t, file, uses, i, "body")));
        let rest = walk_named_exec(t, file, uses, i, i + 1, Pick::Handlers);
        append_raws(&mut out, rest);
        out
    } else if str_eq(k, "finally_clause") {
        let kinds = ["statement_block"];
        assert(kinds@.map_values(|k: &str| k@) =~= seq!["statement_block"@]);
        let body = match t.first_named_kind(i, kinds.as_slice()) {
            Some(b) => walk(t, file, uses, b),
            None => walk_named_exec(t, file, uses, i, i + 1, Pick::All),
        };
        single(control(owned("finally"), body))
    } else if str_eq(k, "call_expression") {
        emit_call(t, file, uses, i)
    } else if str_eq(k, "new_expression") {
        emit_new(t, file, uses, i)
    } else if str_eq(k, "expression_statement") {
        match t.first_named(i) {
            Some(c) => walk(t, file, uses, c),
            None => empty_raws(),
        }
    } else if str_eq(k, "variable_declarator") {
        field_walk_exec(t, file, uses, i, "value")
    } else if str_eq(k, "assignment_expression") || str_eq(k, "augmented_assignment_expression") {
        field_walk_exec(t, file, uses, i, "right")
    } else if str_eq(k, "arrow_function") || str_eq(k, "function_expression") || str_eq(k, "generator_function") {
        field_walk_exec(t, file, uses, i, "body")
    } else if str_eq(k, "function_declaration") || str_eq(k, "generator_function_declaration") || str_eq(
        k,
        "method_definition",
    ) {
        let name = fn_name(t, i);
        let body = field_walk_exec(t, file, uses, i, "body");
        let ghost bv = raws_view(body@);
        let n = RawNode::NestedFn { name, children: body };
        proof {
            assert(n@ is NestedFn);
            assert(n@->NestedFn_children =~= bv);
        }
        single(n)
    } else if ignored_kind(k) {
        empty_raws()
    } else {
        walk_named_exec(t, file, uses, i, i + 1, Pick::All)
    }
}

/// Unexpanded body of the function or method `fn_item`.
pub fn extract_fn(t: &SyntaxTree, fn_item: usize, file: &str, uses: &UseMap) -> (out: Vec<RawNode>)
    requires
        t.wf(),
        fn_item < t.len(),
    ensures
        raws_view(out@) == fn_body_outline(t@, file@, uses@, fn_item as int),
{
    field_walk_exec(t, file, uses, fn_item, "body")
}

/// A declaration inside a class, interface or type is a method; one
/// directly in the program is free. The nearest such ancestor from `a` up
/// decides; without one, a method-like declaration is a method.
pub open spec fn classify_from(t: TreeView, a: Option<int>, own: Seq<char>) -> FnKind
    decreases match a {
        Some(j) => j + 1,
        None => 0,
    },
{
    match a {
        Some(j) if 0 <= j < t.len() => {
            let k = t.recs()[j].kind;
            if k == "class_body"@ || k == "class_declaration"@ || k == "interface_declaration"@ || k
                == "type_alias_declaration"@ {
                FnKind::Method
            } else if k == "program"@ {
                FnKind::Free
            } else {
                proof {
                    lemma_parent_from(t.recs(), t.recs()[j].depth, j - 1);
                }
                classify_from(t, parent(t.recs(), j), own)
            }
        },
        _ => if own == "method_definition"@ || own == "method_signature"@ || own == "abstract_method_signature"@ {
            FnKind::Method
        } else {
            FnKind::Free
        },
    }
}

fn classify(t: &SyntaxTree, i: usize) -> (k: FnKind)
    requires
        t.wf(),
        i < t.len(),
    ensures
        k == classify_from(t@, parent(t.recs(), i as int), t.recs()[i as int].kind),
{
    let ghost own = t.recs()[i as int].kind;
    let mut cur = t.parent_of(i);
    while cur.is_some()
        invariant
            t.wf(),
            i < t.len(),
            own == t.recs()[i as int].kind,
            match cur {
                Some(j) => j < t.len(),
                None => true,
            },
            classify_from(t@, parent(t.recs(), i as int), own) == classify_from(t@, match cur {
                Some(j) => Some(j as int),
                None => None,
            }, own),
        decreases match cur {
            Some(j) => j + 1,
            None => 0,
        },
    {
        let j = cur.unwrap();
        let k = t.kind(j);
        if str_eq(k, "class_body") || str_eq(k, "class_declaration") || str_eq(k, "interface_declaration")
            || str_eq(k, "type_alias_declaration") {
            return FnKind::Method;
        }
        if str_eq(k, "program") {
            return FnKind::Free;
        }
        proof {
            lemma_parent_from(t.recs(), t.recs()[j as int].depth, j - 1);
        }
        cur = t.parent_of(j);
    }
    if t.kind_is(i, "method_definition") || t.kind_is(i, "method_signature") || t.kind_is(i, "abstract_method_signature") {
        FnKind::Method
    } else {
        FnKind::Free
    }
}

/// Indexed definition of the function-like node `i`.
pub open spec fn fn_def_of(
    t: TreeView,
    file: Seq<char>,
    uses: UseMapView,
    module: Seq<Seq<char>>,
    i: int,
    nested: bool,
) -> FnDefView {
    let r = t.recs();
    let has_body = field_child(r, i, "body"@) is Some;
    FnDefView {
        id: FnIdView { file, start_byte: r[i].start },
        start_line: line_number(encode_utf8(t.text()), r[i].start),
        name: field_text(t, i, "name"@),
        kind: classify_from(t, parent(r, i), r[i].kind),
        module,
        nested,
        has_body,
        end_byte: r[i].end,
        body: if has_body {
            fn_body_outline(t, file, uses, i)
        } else {
            Seq::empty()
        },
    }
}

/// Function-like declarations at or below node `i`, in source order;
/// `nested` marks those inside another. `ERROR` subtrees are skipped.
pub open spec fn defs_of(
    t: TreeView,
    file: Seq<char>,
    uses: UseMapView,
    module: Seq<Seq<char>>,
    i: int,
    in_fn: bool,
) -> Seq<FnDefView>
    decreases t.len() - i, 0int,
{
    let r = t.recs();
    if i < 0 || i >= t.len() {
        Seq::empty()
    } else if r[i].kind == "ERROR"@ {
        Seq::empty()
    } else {
        proof {
            lemma_subtree_end_bounds(r, i);
        }
        if is_fn_like(r[i].kind) {
            seq![fn_def_of(t, file, uses, module, i, in_fn)] + defs_from(t, file, uses, module, subtree_end(r, i), i + 1, true)
        } else {
            defs_from(t, file, uses, module, subtree_end(r, i), i + 1, in_fn)
        }
    }
}

pub open spec fn defs_from(
    t: TreeView,
    file: Seq<char>,
    uses: UseMapView,
    module: Seq<Seq<char>>,
    e: int,
    k: int,
    in_fn: bool,
) -> Seq<FnDefView>
    decreases t.len() - k, 1int,
{
    let r = t.recs();
    if k < 0 || k >= e || k >= t.len() {
        Seq::empty()
    } else {
        proof {
            lemma_subtree_end_bounds(r, k);
        }
        (if r[k].named {
            defs_of(t, file, uses, module, k, in_fn)
        } else {
            Seq::empty()
        }) + defs_from(t, file, uses, module, e, subtree_end(r, k), in_fn)
    }
}

fn fn_like(k: &str) -> (r: bool)
    ensures
        r == is_fn_like(k@),
{
    str_eq(k, "function_declaration") || str_eq(k, "generator_function_declaration") || str_eq(k, "function_signature")
        || str_eq(k, "method_definition") || str_eq(k, "method_signature") || str_eq(k, "abstract_method_signature")
}

fn fn_def(t: &SyntaxTree, src: &str, file: &str, uses: &UseMap, module: &Vec<String>, i: usize, nested: bool) -> (d: FnDef)
    requires
        t.wf(),
        t.text() == src@,
        i < t.len(),
    ensures
        d@ == fn_def_of(t@, file@, uses@, module.deep_view(), i as int, nested),
{
    let start = t.nodes[i].start;
    let has_body = t.child_by_field(i, "body").is_some();
    let body = if has_body {
        extract_fn(t, i, file, uses)
    } else {
        empty_raws()
    };
    let d = FnDef {
        id: FnId { file: owned(file), start_byte: start },
        start_line: line_of(src, start),
        name: fn_name(t, i),
        kind: classify(t, i),
        module: copy_strings(module),
        nested,
        has_body,
        end_byte: t.nodes[i].end,
        body,
    };
    let ghost expected = fn_def_of(t@, file@, uses@, module.deep_view(), i as int, nested);
    assert(d@.body == expected.body);
    assert(d@.id == expected.id);
    assert(d@.module == expected.module);
    d
}

fn walk_index(t: &SyntaxTree, src: &str, file: &str, uses: &UseMap, module: &Vec<String>, i: usize, in_fn: bool) -> (out: Vec<FnDef>)
    requires
        t.wf(),
        t.text() == src@,
        i < t.len(),
    ensures
        defs_view(out@) == defs_of(t@, file@, uses@, module.deep_view(), i as int, in_fn),
    decreases t.len() - i,
{
    let ghost r = t.recs();
    let ghost fv = file@;
    let ghost uv = uses@;
    let ghost mv = module.deep_view();
    let mut out: Vec<FnDef> = Vec::new();
    if t.kind_is(i, "ERROR") {
        assert(defs_view(out@) =~= Seq::<FnDefView>::empty());
        return out;
    }
    let is_def = fn_like(t.kind(i));
    if is_def {
        out.push(fn_def(t, src, file, uses, module, i, in_fn));
    }
    let inner = if is_def {
        true
    } else {
        in_fn
    };
    let ghost head = defs_view(out@);
    let e = t.end_of(i);
    let mut j = i + 1;
    while j < e
        invariant
            t.wf(),
            t.text() == src@,
            r == t.recs(),
            fv == file@,
            uv == uses@,
            mv == module.deep_view(),
            i < j <= t.len(),
            e == subtree_end(r, i as int),
            e <= t.len(),
            head + defs_from(t@, fv, uv, mv, e as int, i + 1, inner) == defs_view(out@) + defs_from(t@, fv, uv, mv, e as int, j as int, inner),
        decreases t.len() - j,
    {
        let ghost prev = defs_view(out@);
        if t.is_named(j) {
            let more = walk_index(t, src, file, uses, module, j, inner);
            append_defs(&mut out, more);
        }
        let nj = t.end_of(j);
        proof {
            lemma_subtree_end_bounds(r, j as int);
            let here = if r[j as int].named {
                defs_of(t@, fv, uv, mv, j as int, inner)
            } else {
                Seq::<FnDefView>::empty()
            };
            let rest = defs_from(t@, fv, uv, mv, e as int, nj as int, inner);
            assert(defs_from(t@, fv, uv, mv, e as int, j as int, inner) == here + rest);
            assert(defs_view(out@) =~= prev + here);
            assert(prev + (here + rest) =~= (prev + here) + rest);
        }
        j = nj;
    }
    proof {
        assert(defs_view(out@) + Seq::<FnDefView>::empty() =~= defs_view(out@));
        if is_def {
            assert(head =~= seq![fn_def_of(t@, fv, uv, mv, i as int, in_fn)]);
        } else {
            assert(head =~= Seq::<FnDefView>::empty());
            assert(head + defs_from(t@, fv, uv, mv, e as int, i + 1, inner) =~= defs_from(t@, fv, uv, mv, e as int, i + 1, inner));
        }
    }
    out
}

/// Every function, method and signature of a TypeScript tree, in source
/// order.
pub fn index_defs(t: &SyntaxTree, src: &str, file: &str, uses: &UseMap, module: &Vec<String>) -> (out: Vec<FnDef>)
    requires
        t.wf(),
        t.text() == src@,
    ensures
        defs_view(out@) == defs_of(t@, file@, uses@, module.deep_view(), 0, false),
{
    if t.nodes.len() == 0 {
        let v: Vec<FnDef> = Vec::new();
        assert(defs_view(v@) =~= Seq::<FnDefView>::empty());
        return v;
    }
    walk_index(t, src, file, uses, module, 0, false)
}

/// `rel` without a leading `src/`.
pub open spec fn without_src(file: Seq<char>) -> Seq<char> {
    if has_prefix(file, "src/"@) {
        file.skip(4)
    } else {
        file
    }
}

/// A file name that stands for its directory's module.
pub open spec fn is_index_name(name: Seq<char>) -> bool {
    name == "index.ts"@ || name == "index.tsx"@ || name == "index.js"@ || name == "mod.ts"@ || name
        == "main.ts"@
}

/// Module of the directory holding `file` (below `src/`).
pub open spec fn file_dir_module_of(file: Seq<char>) -> Seq<Seq<char>> {
    let parts = pieces(without_src(file), '/');
    if parts.len() == 0 {
        Seq::empty()
    } else {
        parts.drop_last()
    }
}

/// `name` without the first of `.tsx`, `.ts`, `.mts`, `.cts` that ends it.
pub open spec fn module_stem(name: Seq<char>) -> Seq<char> {
    if has_suffix(name, ".tsx"@) {
        name.take(name.len() - 4)
    } else if has_suffix(name, ".ts"@) {
        name.take(name.len() - 3)
    } else if has_suffix(name, ".mts"@) {
        name.take(name.len() - 4)
    } else if has_suffix(name, ".cts"@) {
        name.take(name.len() - 4)
    } else {
        name
    }
}

/// Module path of a TypeScript file: its directories below `src/`, then its
/// stem, unless it is an index file; nothing for `<stdin>`.
pub open spec fn ts_module_of(file: Seq<char>) -> Seq<Seq<char>> {
    if file == "<stdin>"@ {
        Seq::empty()
    } else {
        let parts = pieces(without_src(file), '/');
        if parts.len() == 0 {
            Seq::empty()
        } else if is_index_name(parts.last()) {
            parts.drop_last()
        } else {
            parts.drop_last().push(module_stem(parts.last()))
        }
    }
}

/// An import segment's name without `.ts`, `.tsx` or `.js`.
pub open spec fn spec_stem(seg: Seq<char>) -> Seq<char> {
    if has_suffix(seg, ".ts"@) {
        seg.take(seg.len() - 3)
    } else if has_suffix(seg, ".tsx"@) {
        seg.take(seg.len() - 4)
    } else if has_suffix(seg, ".js"@) {
        seg.take(seg.len() - 3)
    } else {
        seg
    }
}

/// `dir` after walking the segments `segs[k..]`: `.` stays, `..` goes up
/// (failing above the root), a name goes down.
pub open spec fn walk_segments(segs: Seq<Seq<char>>, k: int, dir: Seq<Seq<char>>) -> Option<Seq<Seq<char>>>
    decreases segs.len() - k,
{
    if k < 0 || k >= segs.len() {
        Some(dir)
    } else if segs[k] == "."@ {
        walk_segments(segs, k + 1, dir)
    } else if segs[k] == ".."@ {
        if dir.len() == 0 {
            None
        } else {
            walk_segments(segs, k + 1, dir.drop_last())
        }
    } else {
        walk_segments(segs, k + 1, dir.push(spec_stem(segs[k])))
    }
}

/// Module named by a relative import `spec` in `file`; bare specifiers are
/// outside the project (`None`).
pub open spec fn resolved_spec(file: Seq<char>, spec: Seq<char>) -> Option<Seq<Seq<char>>> {
    if !(has_prefix(spec, "./"@) || has_prefix(spec, "../"@)) {
        None
    } else {
        walk_segments(pieces(spec, '/'), 0, file_dir_module_of(file))
    }
}

fn src_relative(file: &str) -> (rel: String)
    ensures
        rel@ == without_src(file@),
{
    let cs = chars_of(file);
    let from: usize = if starts_with(file, "src/") {
        proof {
            reveal_strlit("src/");
        }
        4
    } else {
        0
    };
    let rel = string_of(&cs, from, cs.len());
    assert(rel@ =~= without_src(file@));
    rel
}

fn drop_suffix(s: &str, n: usize) -> (r: String)
    requires
        n <= s@.len(),
    ensures
        r@ == s@.take(s@.len() - n),
{
    let cs = chars_of(s);
    let r = string_of(&cs, 0, cs.len() - n);
    assert(r@ =~= s@.take(s@.len() - n));
    r
}

fn file_dir_module(file: &str) -> (m: Vec<String>)
    ensures
        m.deep_view() == file_dir_module_of(file@),
{
    let rel = src_relative(file);
    let mut parts = split_pieces(rel.as_str(), '/');
    let ghost pv = parts.deep_view();
    if parts.len() == 0 {
        return parts;
    }
    let _ = parts.pop();
    assert(parts.deep_view() =~= pv.drop_last());
    parts
}

/// Module path of a TypeScript file: directories below `src/`, then the
/// file's stem, unless it is an `index`, `mod` or `main` file.
pub fn ts_module_path(file: &str) -> (m: Vec<String>)
    ensures
        m.deep_view() == ts_module_of(file@),
{
    if str_eq(file, "<stdin>") {
        let v: Vec<String> = Vec::new();
        assert(v.deep_view() =~= Seq::<Seq<char>>::empty());
        return v;
    }
    let rel = src_relative(file);
    let mut parts = split_pieces(rel.as_str(), '/');
    let ghost pv = parts.deep_view();
    if parts.len() == 0 {
        return parts;
    }
    let name = parts.pop().unwrap();
    assert(parts.deep_view() =~= pv.drop_last());
    assert(name@ == pv.last());
    let n = name.as_str();
    if str_eq(n, "index.ts") || str_eq(n, "index.tsx") || str_eq(n, "index.js") || str_eq(n, "mod.ts")
        || str_eq(n, "main.ts") {
        return parts;
    }
    proof {
        reveal_strlit(".tsx");
        reveal_strlit(".ts");
        reveal_strlit(".mts");
        reveal_strlit(".cts");
    }
    let stem = if ends_with(n, ".tsx") {
        drop_suffix(n, 4)
    } else if ends_with(n, ".ts") {
        drop_suffix(n, 3)
    } else if ends_with(n, ".mts") {
        drop_suffix(n, 4)
    } else if ends_with(n, ".cts") {
        drop_suffix(n, 4)
    } else {
        owned(n)
    };
    let ghost before = parts.deep_view();
    parts.push(stem);
    assert(parts.deep_view() =~= before.push(stem@));
    parts
}

/// Module named by a relative import specifier (`./x`, `../y/z.ts`) written
/// in `file`; `None` for a bare specifier or one that climbs above the root.
pub fn resolve_ts_spec(file: &str, spec: &str) -> (r: Option<Vec<String>>)
    ensures
        match r {
            Some(m) => resolved_spec(file@, spec@) == Some(m.deep_view()),
            None => resolved_spec(file@, spec@) is None,
        },
{
    if !(starts_with(spec, "./") || starts_with(spec, "../")) {
        return None;
    }
    let mut dir = file_dir_module(file);
    let segs = split_pieces(spec, '/');
    let ghost sv = segs.deep_view();
    let mut k: usize = 0;
    proof {
        reveal_strlit(".");
        reveal_strlit("..");
        reveal_strlit(".ts");
        reveal_strlit(".tsx");
        reveal_strlit(".js");
    }
    while k < segs.len()
        invariant
            k <= segs@.len(),
            sv == segs.deep_view(),
            sv == pieces(spec@, '/'),
            resolved_spec(file@, spec@) == walk_segments(sv, k as int, dir.deep_view()),
        decreases segs@.len() - k,
    {
        proof {
            reveal_strlit(".");
            reveal_strlit("..");
            reveal_strlit(".ts");
            reveal_strlit(".tsx");
            reveal_strlit(".js");
        }
        let s = segs[k].as_str();
        assert(s@ == sv[k as int]);
        if str_eq(s, ".") {
        } else if str_eq(s, "..") {
            if dir.len() == 0 {
                return None;
            }
            let ghost before = dir.deep_view();
            let _ = dir.pop();
            assert(dir.deep_view() =~= before.drop_last());
        } else {
            let stem = if ends_with(s, ".ts") {
                drop_suffix(s, 3)
            } else if ends_with(s, ".tsx") {
                drop_suffix(s, 4)
            } else if ends_with(s, ".js") {
                drop_suffix(s, 3)
            } else {
                owned(s)
            };
            let ghost before = dir.deep_view();
            dir.push(stem);
            assert(dir.deep_view() =~= before.push(spec_stem(sv[k as int])));
        }
        k = k + 1;
    }
    Some(dir)
}

/// Bindings of the `import_clause` `c` for the module `m`: a default import
/// binds its name to `m` and that name, a named import binds its local name
/// to `m` and the imported name, a namespace import binds its name to `m`.
pub open spec fn clause_bindings_from(t: TreeView, e: int, k: int, m: Seq<Seq<char>>) -> Seq<BindingView>
    decreases t.len() - k, 1int,
{
    let r = t.recs();
    if k < 0 || k >= e || k >= t.len() {
        Seq::empty()
    } else {
        proof {
            lemma_subtree_end_bounds(r, k);
            lemma_last_named_from(r, subtree_end(r, k), k + 1, None);
        }
        let kk = r[k].kind;
        (if !r[k].named {
            Seq::empty()
        } else if kk == "identifier"@ {
            seq![BindingView::Named { name: t.node_text(k), path: m.push(t.node_text(k)) }]
        } else if kk == "named_imports"@ {
            specifiers_from(t, subtree_end(r, k), k + 1, m)
        } else if kk == "namespace_import"@ {
            match last_named_from(r, subtree_end(r, k), k + 1, None) {
                Some(a) => seq![BindingView::Named { name: t.node_text(a), path: m }],
                None => Seq::empty(),
            }
        } else {
            Seq::empty()
        }) + clause_bindings_from(t, e, subtree_end(r, k), m)
    }
}

/// Bindings of the `import_specifier` children among `[k, e)`.
pub open spec fn specifiers_from(t: TreeView, e: int, k: int, m: Seq<Seq<char>>) -> Seq<BindingView>
    decreases t.len() - k, 0int,
{
    let r = t.recs();
    if k < 0 || k >= e || k >= t.len() {
        Seq::empty()
    } else {
        proof {
            lemma_subtree_end_bounds(r, k);
        }
        (if r[k].named && r[k].kind == "import_specifier"@ {
            let imported = field_text(t, k, "name"@);
            let local = match field_child(r, k, "alias"@) {
                Some(a) => t.node_text(a),
                None => imported,
            };
            seq![BindingView::Named { name: local, path: m.push(imported) }]
        } else {
            Seq::empty()
        }) + specifiers_from(t, e, subtree_end(r, k), m)
    }
}

/// Bindings of the `import_statement` `i` in `file`: only relative imports
/// bind, through the statement's leading `import_clause`.
pub open spec fn import_bindings(t: TreeView, i: int, file: Seq<char>) -> Seq<BindingView> {
    let r = t.recs();
    match field_child(r, i, "source"@) {
        None => Seq::empty(),
        Some(s) => match resolved_spec(file, class_trimmed(t.node_text(s), false)) {
            None => Seq::empty(),
            Some(m) => match first_named_from(r, subtree_end(r, i), i + 1) {
                Some(c) => if r[c].kind == "import_clause"@ {
                    clause_bindings_from(t, subtree_end(r, c), c + 1, m)
                } else {
                    Seq::empty()
                },
                None => Seq::empty(),
            },
        },
    }
}

/// Bindings of every import at or below node `i`, in source order.
pub open spec fn imports_of(t: TreeView, i: int, file: Seq<char>) -> Seq<BindingView>
    decreases t.len() - i, 0int,
{
    let r = t.recs();
    if i < 0 || i >= t.len() || r[i].kind == "ERROR"@ {
        Seq::empty()
    } else if r[i].kind == "import_statement"@ {
        import_bindings(t, i, file)
    } else {
        proof {
            lemma_subtree_end_bounds(r, i);
        }
        imports_from(t, subtree_end(r, i), i + 1, file)
    }
}

pub open spec fn imports_from(t: TreeView, e: int, k: int, file: Seq<char>) -> Seq<BindingView>
    decreases t.len() - k, 1int,
{
    let r = t.recs();
    if k < 0 || k >= e || k >= t.len() {
        Seq::empty()
    } else {
        proof {
            lemma_subtree_end_bounds(r, k);
        }
        (if r[k].named {
            imports_of(t, k, file)
        } else {
            Seq::empty()
        }) + imports_from(t, e, subtree_end(r, k), file)
    }
}

fn path_with(m: &Vec<String>, last: String) -> (p: Vec<String>)
    ensures
        p.deep_view() == m.deep_view().push(last@),
{
    let mut p = copy_strings(m);
    let ghost before = p.deep_view();
    p.push(last);
    assert(p.deep_view() =~= before.push(last@));
    p
}

fn specifiers(t: &SyntaxTree, n: usize, m: &Vec<String>) -> (bs: Vec<Binding>)
    requires
        t.wf(),
        n < t.len(),
    ensures
        bindings_view(bs@) == specifiers_from(t@, subtree_end(t.recs(), n as int), n + 1, m.deep_view()),
{
    let ghost r = t.recs();
    let ghost mv = m.deep_view();
    let e = t.end_of(n);
    let mut out: Vec<Binding> = Vec::new();
    let mut j = n + 1;
    assert(bindings_view(out@) =~= Seq::<BindingView>::empty());
    while j < e
        invariant
            t.wf(),
            r == t.recs(),
            mv == m.deep_view(),
            n < j <= t.len(),
            e == subtree_end(r, n as int),
            e <= t.len(),
            specifiers_from(t@, e as int, n + 1, mv) == bindings_view(out@) + specifiers_from(t@, e as int, j as int, mv),
        decreases t.len() - j,
    {
        let ghost prev = bindings_view(out@);
        proof {
            lemma_subtree_end_bounds(r, j as int);
        }
        if t.is_named(j) && t.kind_is(j, "import_specifier") {
            let imported = field_text_of(t, j, "name");
            let local = match t.child_by_field(j, "alias") {
                Some(a) => node_text(t, a),
                None => imported.clone(),
            };
            let ghost iv = imported@;
            let path = path_with(m, imported);
            push_binding(&mut out, Binding::Named { name: local, path });
        }
        let nj = t.end_of(j);
        proof {
            let here = if r[j as int].named && r[j as int].kind == "import_specifier"@ {
                let imported = field_text(t@, j as int, "name"@);
                let local = match field_child(r, j as int, "alias"@) {
                    Some(a) => t@.node_text(a),
                    None => imported,
                };
                seq![BindingView::Named { name: local, path: mv.push(imported) }]
            } else {
                Seq::<BindingView>::empty()
            };
            let rest = specifiers_from(t@, e as int, nj as int, mv);
            assert(specifiers_from(t@, e as int, j as int, mv) == here + rest);
            assert(bindings_view(out@) =~= prev + here);
            assert(prev + (here + rest) =~= (prev + here) + rest);
        }
        j = nj;
    }
    assert(bindings_view(out@) + Seq::<BindingView>::empty() =~= bindings_view(out@));
    out
}

fn clause_bindings(t: &SyntaxTree, c: usize, m: &Vec<String>) -> (bs: Vec<Binding>)
    requires
        t.wf(),
        c < t.len(),
    ensures
        bindings_view(bs@) == clause_bindings_from(t@, subtree_end(t.recs(), c as int), c + 1, m.deep_view()),
{
    let ghost r = t.recs();
    let ghost mv = m.deep_view();
    let e = t.end_of(c);
    let mut out: Vec<Binding> = Vec::new();
    let mut j = c + 1;
    assert(bindings_view(out@) =~= Seq::<BindingView>::empty());
    while j < e
        invariant
            t.wf(),
            r == t.recs(),
            mv == m.deep_view(),
            c < j <= t.len(),
            e == subtree_end(r, c as int),
            e <= t.len(),
            clause_bindings_from(t@, e as int, c + 1, mv) == bindings_view(out@) + clause_bindings_from(t@, e as int, j as int, mv),
        decreases t.len() - j,
    {
        let ghost prev = bindings_view(out@);
        proof {
            lemma_subtree_end_bounds(r, j as int);
            lemma_last_named_from(r, subtree_end(r, j as int), j + 1, None);
        }
        let ghost here = if !r[j as int].named {
            Seq::<BindingView>::empty()
        } else if r[j as int].kind == "identifier"@ {
            seq![BindingView::Named { name: t@.node_text(j as int), path: mv.push(t@.node_text(j as int)) }]
        } else if r[j as int].kind == "named_imports"@ {
            specifiers_from(t@, subtree_end(r, j as int), j + 1, mv)
        } else if r[j as int].kind == "namespace_import"@ {
            match last_named_from(r, subtree_end(r, j as int), j + 1, None) {
                Some(a) => seq![BindingView::Named { name: t@.node_text(a), path: mv }],
                None => Seq::<BindingView>::empty(),
            }
        } else {
            Seq::<BindingView>::empty()
        };
        if t.is_named(j) {
            if t.kind_is(j, "identifier") {
                let name = node_text(t, j);
                let path = path_with(m, name.clone());
                push_binding(&mut out, Binding::Named { name, path });
            } else if t.kind_is(j, "named_imports") {
                let more = specifiers(t, j, m);
                append_bindings(&mut out, more);
            } else if t.kind_is(j, "namespace_import") {
                match t.last_named(j) {
                    Some(a) => {
                        let name = node_text(t, a);
                        push_binding(&mut out, Binding::Named { name, path: copy_strings(m) });
                    },
                    None => {},
                }
            }
        }
        assert(bindings_view(out@) =~= prev + here);
        let nj = t.end_of(j);
        proof {
            let rest = clause_bindings_from(t@, e as int, nj as int, mv);
            assert(clause_bindings_from(t@, e as int, j as int, mv) == here + rest);
            assert(prev + (here + rest) =~= (prev + here) + rest);
        }
        j = nj;
    }
    assert(bindings_view(out@) + Seq::<BindingView>::empty() =~= bindings_view(out@));
    out
}

fn no_bindings() -> (v: Vec<Binding>)
    ensures
        bindings_view(v@) == Seq::<BindingView>::empty(),
{
    let v: Vec<Binding> = Vec::new();
    assert(bindings_view(v@) =~= Seq::<BindingView>::empty());
    v
}

fn parse_import(t: &SyntaxTree, i: usize, file: &str) -> (bs: Vec<Binding>)
    requires
        t.wf(),
        i < t.len(),
    ensures
        bindings_view(bs@) == import_bindings(t@, i as int, file@),
{
    let ghost r = t.recs();
    let s = match t.child_by_field(i, "source") {
        Some(s) => s,
        None => {
            return no_bindings();
        },
    };
    let text = node_text(t, s);
    let spec = trim_class_chars(text.as_str(), false);
    let m = match resolve_ts_spec(file, spec.as_str()) {
        Some(m) => m,
        None => {
            return no_bindings();
        },
    };
    match t.first_named(i) {
        Some(c) => {
            if t.kind_is(c, "import_clause") {
                clause_bindings(t, c, &m)
            } else {
                no_bindings()
            }
        },
        None => no_bindings(),
    }
}

fn walk_imports(t: &SyntaxTree, i: usize, file: &str) -> (bs: Vec<Binding>)
    requires
        t.wf(),
        i < t.len(),
    ensures
        bindings_view(bs@) == imports_of(t@, i as int, file@),
    decreases t.len() - i,
{
    let ghost r = t.recs();
    let ghost fv = file@;
    if t.kind_is(i, "ERROR") {
        let v: Vec<Binding> = Vec::new();
        assert(bindings_view(v@) =~= Seq::<BindingView>::empty());
        return v;
    }
    if t.kind_is(i, "import_statement") {
        return parse_import(t, i, file);
    }
    let e = t.end_of(i);
    let mut out: Vec<Binding> = Vec::new();
    let mut j = i + 1;
    assert(bindings_view(out@) =~= Seq::<BindingView>::empty());
    while j < e
        invariant
            t.wf(),
            r == t.recs(),
            fv == file@,
            i < j <= t.len(),
            e == subtree_end(r, i as int),
            e <= t.len(),
            imports_from(t@, e as int, i + 1, fv) == bindings_view(out@) + imports_from(t@, e as int, j as int, fv),
        decreases t.len() - j,
    {
        let ghost prev = bindings_view(out@);
        if t.is_named(j) {
            let more = walk_imports(t, j, file);
            append_bindings(&mut out, more);
        }
        let nj = t.end_of(j);
        proof {
            lemma_subtree_end_bounds(r, j as int);
            let here = if r[j as int].named {
                imports_of(t@, j as int, fv)
            } else {
                Seq::<BindingView>::empty()
            };
            let rest = imports_from(t@, e as int, nj as int, fv);
            assert(imports_from(t@, e as int, j as int, fv) == here + rest);
            assert(bindings_view(out@) =~= prev + here);
            assert(prev + (here + rest) =~= (prev + here) + rest);
        }
        j = nj;
    }
    assert(bindings_view(out@) + Seq::<BindingView>::empty() =~= bindings_view(out@));
    out
}

/// Records the relative imports of the TypeScript tree of `file` in `map`.
pub fn collect_imports(t: &SyntaxTree, file: &str, map: &mut UseMap)
    requires
        t.wf(),
    ensures
        final(map)@ == apply_bindings(old(map)@, imports_of(t@, 0, file@)),
{
    if t.nodes.len() == 0 {
        assert(imports_of(t@, 0, file@) =~= Seq::<BindingView>::empty());
        return;
    }
    let bs = walk_imports(t, 0, file);
    map.apply_all(bs);
}

/// Use map of a parsed TypeScript file.
pub open spec fn ts_uses(t: TreeView, file: Seq<char>) -> UseMapView {
    apply_bindings(empty_uses(), imports_of(t, 0, file))
}

} // verus!
