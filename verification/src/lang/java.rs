//! Java: indexed definitions, body outlines, imports and module paths.
use vstd::prelude::*;
use vstd::utf8::encode_utf8;

use crate::collapse::{collapse_node, node_collapsed};
use crate::extract::{append_defs, append_raws, control, defs_view, empty_raws, single};
use crate::graph::joined_by;
use crate::ir::{
    line_number, line_of, raws_view, CallKind, CallKindView, CallSite, CallSiteView, FnDef,
    FnDefView, FnId, FnIdView, FnKind, RawNode, RawView,
};
use crate::lang::rust::{field_text, fn_name};
use crate::lang::{header_before_field, header_text, ident_path, ident_path_of, node_text};
use crate::omit::{
    append_bindings, apply_bindings, bindings_view, copy_strings, empty_uses, omitted,
    should_omit_at_extract, push_binding, Binding, BindingView, UseMap, UseMapView,
};
use crate::syntax::{
    field_child, lemma_field_child_from, lemma_named_kind_from, lemma_first_named_from,
    lemma_parent_from, lemma_subtree_end_bounds, named_kind_from, first_named_from, parent,
    subtree_end, SyntaxTree, TreeView,
};
use crate::text::{has_prefix, owned, push_str, str_eq, trim_end_char, trimmed_end};

verus! {

/// Declarations and comments that contribute nothing to a body outline.
pub open spec fn is_ignored_kind(k: Seq<char>) -> bool {
    k == "class_declaration"@ || k == "interface_declaration"@ || k == "enum_declaration"@ || k
        == "record_declaration"@ || k == "import_declaration"@ || k == "package_declaration"@
        || k == "field_declaration"@ || k == "annotation"@ || k == "marker_annotation"@ || k
        == "line_comment"@ || k == "block_comment"@
}

/// Statements shown as their header (up to the body) over the body's outline.
pub open spec fn is_header_kind(k: Seq<char>) -> bool {
    k == "for_statement"@ || k == "enhanced_for_statement"@ || k == "while_statement"@ || k
        == "do_statement"@ || k == "switch_expression"@ || k == "switch_statement"@ || k
        == "catch_clause"@
}

pub open spec fn is_jump_kind(k: Seq<char>) -> bool {
    k == "return_statement"@ || k == "break_statement"@ || k == "continue_statement"@ || k
        == "throw_statement"@
}

pub open spec fn is_method_kind(k: Seq<char>) -> bool {
    k == "method_declaration"@ || k == "constructor_declaration"@
}

/// `else if` spelling of an `if` header.
pub open spec fn else_if_text(text: Seq<char>) -> Seq<char> {
    if has_prefix(text, "if"@) {
        "else if"@ + text.skip(2)
    } else {
        "else if "@ + text
    }
}

/// Call site of the method invocation at node `i`: a method call when it
/// has a receiver, else a one-segment free call.
pub open spec fn invocation_site(t: TreeView, file: Seq<char>, i: int) -> CallSiteView {
    let name = field_text(t, i, "name"@);
    let kind = if field_child(t.recs(), i, "object"@) is Some {
        CallKindView::Method { name }
    } else {
        CallKindView::Free { path: seq![name] }
    };
    CallSiteView { display: node_collapsed(t, i), kind, is_macro: false, file }
}

/// Call site of the object creation at node `i`, by its type's path.
pub open spec fn creation_site(t: TreeView, file: Seq<char>, i: int) -> CallSiteView {
    let path = match field_child(t.recs(), i, "type"@) {
        Some(c) => ident_path_of(t, c),
        None => Seq::empty(),
    };
    CallSiteView { display: node_collapsed(t, i), kind: CallKindView::Free { path }, is_macro: false, file }
}

/// The call leaf for `site`, unless the omit list drops it.
pub open spec fn site_nodes(site: CallSiteView, uses: UseMapView) -> Seq<RawView> {
    if omitted(site, uses, false) {
        Seq::empty()
    } else {
        seq![RawView::Call { site }]
    }
}

/// Collapsed `switch_label` children among `[k, e)`.
pub open spec fn label_texts_from(t: TreeView, e: int, k: int) -> Seq<Seq<char>>
    decreases t.len() - k,
{
    let r = t.recs();
    if k < 0 || k >= e || k >= t.len() {
        Seq::empty()
    } else {
        proof {
            lemma_subtree_end_bounds(r, k);
        }
        (if r[k].named && r[k].kind == "switch_label"@ {
            seq![node_collapsed(t, k)]
        } else {
            Seq::empty()
        }) + label_texts_from(t, e, subtree_end(r, k))
    }
}

/// Header of a switch group or rule: its labels joined by spaces, or the
/// whole node when it has none.
pub open spec fn switch_label_text(t: TreeView, i: int) -> Seq<char> {
    let r = t.recs();
    let labels = label_texts_from(t, subtree_end(r, i), i + 1);
    if labels.len() == 0 {
        node_collapsed(t, i)
    } else {
        joined_by(labels, " "@)
    }
}

/// Outline of the child of node `i` under field `f`, or nothing.
pub open spec fn field_walk(t: TreeView, file: Seq<char>, uses: UseMapView, i: int, f: Seq<char>) -> Seq<RawView>
    decreases t.len() - i, 0int,
{
    let r = t.recs();
    if i < 0 || i >= t.len() {
        Seq::empty()
    } else {
        proof {
            lemma_subtree_end_bounds(r, i);
            lemma_field_child_from(r, subtree_end(r, i), i + 1, f);
        }
        match field_child(r, i, f) {
            Some(c) => walk_of(t, file, uses, c),
            None => Seq::empty(),
        }
    }
}

/// Flat `if` / `else if` / `else` chain from the `if_statement` `cur`.
pub open spec fn if_chain(t: TreeView, file: Seq<char>, uses: UseMapView, cur: int, elif: bool) -> Seq<RawView>
    decreases t.len() - cur, 1int,
{
    let r = t.recs();
    if cur < 0 || cur >= t.len() {
        Seq::empty()
    } else {
        proof {
            lemma_subtree_end_bounds(r, cur);
            lemma_field_child_from(r, subtree_end(r, cur), cur + 1, "alternative"@);
        }
        let raw = header_text(t, cur, "consequence"@);
        let text = if elif {
            else_if_text(raw)
        } else {
            raw
        };
        seq![RawView::Control { text, children: field_walk(t, file, uses, cur, "consequence"@) }]
            + match field_child(r, cur, "alternative"@) {
            None => Seq::empty(),
            Some(a) => if r[a].kind == "if_statement"@ {
                if_chain(t, file, uses, a, true)
            } else {
                seq![RawView::Control { text: "else"@, children: walk_of(t, file, uses, a) }]
            },
        }
    }
}

/// Which named children among `[k, e)` a walk visits.
pub enum Pick {
    All,
    NotLabels,
    Handlers,
}

pub open spec fn picked(p: Pick, k: Seq<char>) -> bool {
    match p {
        Pick::All => true,
        Pick::NotLabels => k != "switch_label"@,
        Pick::Handlers => k == "catch_clause"@ || k == "finally_clause"@,
    }
}

/// Outlines of the picked named children among `[k, e)`, concatenated.
pub open spec fn walk_named_from(t: TreeView, file: Seq<char>, uses: UseMapView, e: int, k: int, p: Pick) -> Seq<RawView>
    decreases t.len() - k, 3int,
{
    let r = t.recs();
    if k < 0 || k >= e || k >= t.len() {
        Seq::empty()
    } else {
        proof {
            lemma_subtree_end_bounds(r, k);
        }
        (if r[k].named && picked(p, r[k].kind) {
            walk_of(t, file, uses, k)
        } else {
            Seq::empty()
        }) + walk_named_from(t, file, uses, e, subtree_end(r, k), p)
    }
}

/// Outline of node `i`: control-flow headers over their bodies, and the
/// calls that the omit list keeps, in source order.
pub open spec fn walk_of(t: TreeView, file: Seq<char>, uses: UseMapView, i: int) -> Seq<RawView>
    decreases t.len() - i, 2int,
{
    let r = t.recs();
    if i < 0 || i >= t.len() {
        Seq::empty()
    } else {
        proof {
            lemma_subtree_end_bounds(r, i);
            lemma_first_named_from(r, subtree_end(r, i), i + 1);
            lemma_named_kind_from(r, subtree_end(r, i), i + 1, seq!["block"@]);
        }
        let k = r[i].kind;
        let e = subtree_end(r, i);
        if k == "ERROR"@ {
            Seq::empty()
        } else if k == "if_statement"@ {
            if_chain(t, file, uses, i, false)
        } else if is_header_kind(k) {
            seq![RawView::Control { text: header_text(t, i, "body"@), children: field_walk(t, file, uses, i, "body"@) }]
        } else if k == "switch_block"@ || k == "local_variable_declaration"@ || k == "block"@ || k
            == "labeled_statement"@ {
            walk_named_from(t, file, uses, e, i + 1, Pick::All)
        } else if k == "switch_block_statement_group"@ || k == "switch_rule"@ {
            seq![RawView::Control {
                text: switch_label_text(t, i),
                children: walk_named_from(t, file, uses, e, i + 1, Pick::NotLabels),
            }]
        } else if is_jump_kind(k) {
            seq![RawView::Control { text: trimmed_end(node_collapsed(t, i), ';'), children: Seq::empty() }]
        } else if k == "try_statement"@ {
            seq![RawView::Control { text: "try"@, children: field_walk(t, file, uses, i, "body"@) }]
                + walk_named_from(t, file, uses, e, i + 1, Pick::Handlers)
        } else if k == "finally_clause"@ {
            seq![RawView::Control {
                text: "finally"@,
                children: match named_kind_from(r, e, i + 1, seq!["block"@]) {
                    Some(b) => walk_of(t, file, uses, b),
                    None => walk_named_from(t, file, uses, e, i + 1, Pick::All),
                },
            }]
        } else if k == "method_invocation"@ {
            site_nodes(invocation_site(t, file, i), uses)
        } else if k == "object_creation_expression"@ {
            site_nodes(creation_site(t, file, i), uses)
        } else if k == "expression_statement"@ {
            match first_named_from(r, e, i + 1) {
                Some(c) => walk_of(t, file, uses, c),
                None => Seq::empty(),
            }
        } else if k == "variable_declarator"@ {
            field_walk(t, file, uses, i, "value"@)
        } else if k == "assignment_expression"@ {
            field_walk(t, file, uses, i, "right"@)
        } else if k == "lambda_expression"@ {
            field_walk(t, file, uses, i, "body"@)
        } else if is_method_kind(k) {
            seq![RawView::NestedFn { name: field_text(t, i, "name"@), children: field_walk(t, file, uses, i, "body"@) }]
        } else if is_ignored_kind(k) {
            Seq::empty()
        } else {
            walk_named_from(t, file, uses, e, i + 1, Pick::All)
        }
    }
}

/// Outline of the body of the method or constructor `i`.
pub open spec fn fn_body_outline(t: TreeView, file: Seq<char>, uses: UseMapView, i: int) -> Seq<RawView> {
    field_walk(t, file, uses, i, "body"@)
}

fn field_walk_exec(t: &SyntaxTree, file: &str, uses: &UseMap, i: usize, f: &str) -> (out: Vec<RawNode>)
    requires
        t.wf(),
        i < t.len(),
    ensures
        raws_view(out@) == field_walk(t@, file@, uses@, i as int, f@),
    decreases t.len() - i, 0int,
{
    match t.child_by_field(i, f) {
        Some(c) => walk(t, file, uses, c),
        None => empty_raws(),
    }
}

fn else_if(raw: String) -> (s: String)
    ensures
        s@ == else_if_text(raw@),
{
    let cs = crate::text::chars_of(raw.as_str());
    proof {
        reveal_strlit("if");
        reveal_strlit("else if");
        reveal_strlit("else if ");
    }
    if cs.len() >= 2 && cs[0] == 'i' && cs[1] == 'f' {
        assert(raw@.take(2) =~= "if"@);
        let mut s = owned("else if");
        let rest = crate::text::string_of(&cs, 2, cs.len());
        push_str(&mut s, rest.as_str());
        assert(rest@ =~= raw@.skip(2));
        s
    } else {
        assert(!has_prefix(raw@, "if"@)) by {
            if raw@.len() >= 2 {
                assert(raw@.take(2)[0] == raw@[0]);
                assert(raw@.take(2)[1] == raw@[1]);
            }
        }
        let mut s = owned("else if ");
        push_str(&mut s, raw.as_str());
        s
    }
}

fn if_chain_exec(t: &SyntaxTree, file: &str, uses: &UseMap, cur: usize, elif: bool) -> (out: Vec<RawNode>)
    requires
        t.wf(),
        cur < t.len(),
    ensures
        raws_view(out@) == if_chain(t@, file@, uses@, cur as int, elif),
    decreases t.len() - cur, 1int,
{
    let ghost r = t.recs();
    let raw = header_before_field(t, cur, "consequence");
    let text = if elif {
        else_if(raw)
    } else {
        raw
    };
    let children = field_walk_exec(t, file, uses, cur, "consequence");
    let mut out = single(control(text, children));
    proof {
        lemma_subtree_end_bounds(r, cur as int);
        lemma_field_child_from(r, subtree_end(r, cur as int), cur + 1, "alternative"@);
    }
    let ghost head = raws_view(out@);
    match t.child_by_field(cur, "alternative") {
        None => {
            assert(head + Seq::<RawView>::empty() =~= head);
        },
        Some(a) => {
            if t.kind_is(a, "if_statement") {
                let rest = if_chain_exec(t, file, uses, a, true);
                append_raws(&mut out, rest);
            } else {
                let body = walk(t, file, uses, a);
                let rest = single(control(owned("else"), body));
                append_raws(&mut out, rest);
            }
        },
    }
    out
}

fn pick_kind(p: &Pick, k: &str) -> (r: bool)
    ensures
        r == picked(*p, k@),
{
    match p {
        Pick::All => true,
        Pick::NotLabels => !str_eq(k, "switch_label"),
        Pick::Handlers => str_eq(k, "catch_clause") || str_eq(k, "finally_clause"),
    }
}

fn walk_named_exec(t: &SyntaxTree, file: &str, uses: &UseMap, i: usize, p: Pick) -> (out: Vec<RawNode>)
    requires
        t.wf(),
        i < t.len(),
    ensures
        raws_view(out@) == walk_named_from(t@, file@, uses@, subtree_end(t.recs(), i as int), i + 1, p),
    decreases t.len() - i - 1, 3int,
{
    let ghost r = t.recs();
    let ghost fv = file@;
    let ghost uv = uses@;
    let e = t.end_of(i);
    let mut out: Vec<RawNode> = Vec::new();
    let mut j = i + 1;
    assert(raws_view(out@) =~= Seq::<RawView>::empty());
    while j < e
        invariant
            t.wf(),
            r == t.recs(),
            fv == file@,
            uv == uses@,
            i < j <= t.len(),
            e == subtree_end(r, i as int),
            e <= t.len(),
            walk_named_from(t@, fv, uv, e as int, i + 1, p) == raws_view(out@) + walk_named_from(t@, fv, uv, e as int, j as int, p),
        decreases t.len() - j,
    {
        let ghost prev = raws_view(out@);
        if t.is_named(j) && pick_kind(&p, t.kind(j)) {
            let more = walk(t, file, uses, j);
            append_raws(&mut out, more);
        }
        let nj = t.end_of(j);
        proof {
            let here = if r[j as int].named && picked(p, r[j as int].kind) {
                walk_of(t@, fv, uv, j as int)
            } else {
                Seq::<RawView>::empty()
            };
            let rest = walk_named_from(t@, fv, uv, e as int, nj as int, p);
            assert(walk_named_from(t@, fv, uv, e as int, j as int, p) == here + rest);
            assert(raws_view(out@) =~= prev + here);
            assert(prev + (here + rest) =~= (prev + here) + rest);
        }
        j = nj;
    }
    assert(raws_view(out@) + Seq::<RawView>::empty() =~= raws_view(out@));
    out
}

fn switch_label(t: &SyntaxTree, i: usize) -> (s: String)
    requires
        t.wf(),
        i < t.len(),
    ensures
        s@ == switch_label_text(t@, i as int),
{
    let ghost r = t.recs();
    let e = t.end_of(i);
    let mut s = String::new();
    let mut any = false;
    let mut j = i + 1;
    let ghost mut seen: Seq<Seq<char>> = Seq::empty();
    while j < e
        invariant
            t.wf(),
            r == t.recs(),
            i < j <= t.len(),
            e == subtree_end(r, i as int),
            e <= t.len(),
            label_texts_from(t@, e as int, i + 1) == seen + label_texts_from(t@, e as int, j as int),
            any == (seen.len() > 0),
            s@ == joined_by(seen, " "@),
        decreases t.len() - j,
    {
        proof {
            lemma_subtree_end_bounds(r, j as int);
        }
        let ghost prev = seen;
        if t.is_named(j) && t.kind_is(j, "switch_label") {
            let c = collapse_node(t, j);
            if any {
                push_str(&mut s, " ");
            }
            push_str(&mut s, c.as_str());
            proof {
                seen = seen.push(c@);
                assert(seen.drop_last() =~= prev);
                if prev.len() == 0 {
                    assert(joined_by(prev, " "@) =~= Seq::<char>::empty());
                    assert(s@ =~= c@);
                }
            }
            any = true;
        }
        let nj = t.end_of(j);
        proof {
            let here = if r[j as int].named && r[j as int].kind == "switch_label"@ {
                seq![node_collapsed(t@, j as int)]
            } else {
                Seq::<Seq<char>>::empty()
            };
            let rest = label_texts_from(t@, e as int, nj as int);
            assert(label_texts_from(t@, e as int, j as int) == here + rest);
            assert(seen =~= prev + here);
            assert(prev + (here + rest) =~= (prev + here) + rest);
        }
        j = nj;
    }
    assert(seen + Seq::<Seq<char>>::empty() =~= seen);
    if any {
        s
    } else {
        collapse_node(t, i)
    }
}

fn emit_site(site: CallSite, uses: &UseMap) -> (out: Vec<RawNode>)
    ensures
        raws_view(out@) == site_nodes(site@, uses@),
{
    if should_omit_at_extract(&site, uses) {
        empty_raws()
    } else {
        single(RawNode::Call { site })
    }
}

fn emit_invocation(t: &SyntaxTree, file: &str, uses: &UseMap, i: usize) -> (out: Vec<RawNode>)
    requires
        t.wf(),
        i < t.len(),
    ensures
        raws_view(out@) == site_nodes(invocation_site(t@, file@, i as int), uses@),
{
    let name = fn_name(t, i);
    let kind = if t.child_by_field(i, "object").is_some() {
        CallKind::Method { name }
    } else {
        let mut path: Vec<String> = Vec::new();
        let ghost nv = name@;
        path.push(name);
        assert(path.deep_view() =~= seq![nv]);
        CallKind::Free { path }
    };
    let site = CallSite { display: collapse_node(t, i), kind, is_macro: false, file: owned(file) };
    assert(site@ == invocation_site(t@, file@, i as int));
    emit_site(site, uses)
}

fn emit_new(t: &SyntaxTree, file: &str, uses: &UseMap, i: usize) -> (out: Vec<RawNode>)
    requires
        t.wf(),
        i < t.len(),
    ensures
        raws_view(out@) == site_nodes(creation_site(t@, file@, i as int), uses@),
{
    let path = match t.child_by_field(i, "type") {
        Some(c) => ident_path(t, c),
        None => {
            let v: Vec<String> = Vec::new();
            assert(v.deep_view() =~= Seq::<Seq<char>>::empty());
            v
        },
    };
    let site = CallSite { display: collapse_node(t, i), kind: CallKind::Free { path }, is_macro: false, file: owned(file) };
    assert(site@ == creation_site(t@, file@, i as int));
    emit_site(site, uses)
}

fn ignored_kind(k: &str) -> (r: bool)
    ensures
        r == is_ignored_kind(k@),
{
    str_eq(k, "class_declaration") || str_eq(k, "interface_declaration") || str_eq(k, "enum_declaration")
        || str_eq(k, "record_declaration") || str_eq(k, "import_declaration") || str_eq(k, "package_declaration")
        || str_eq(k, "field_declaration") || str_eq(k, "annotation") || str_eq(k, "marker_annotation")
        || str_eq(k, "line_comment") || str_eq(k, "block_comment")
}

fn header_kind(k: &str) -> (r: bool)
    ensures
        r == is_header_kind(k@),
{
    str_eq(k, "for_statement") || str_eq(k, "enhanced_for_statement") || str_eq(k, "while_statement")
        || str_eq(k, "do_statement") || str_eq(k, "switch_expression") || str_eq(k, "switch_statement")
        || str_eq(k, "catch_clause")
}

fn walk(t: &SyntaxTree, file: &str, uses: &UseMap, i: usize) -> (out: Vec<RawNode>)
    requires
        t.wf(),
        i < t.len(),
    ensures
        raws_view(out@) == walk_of(t@, file@, uses@, i as int),
    decreases t.len() - i, 2int,
{
    let ghost r = t.recs();
    proof {
        lemma_subtree_end_bounds(r, i as int);
    }
    let k = t.kind(i);
    if str_eq(k, "ERROR") {
        empty_raws()
    } else if str_eq(k, "if_statement") {
        if_chain_exec(t, file, uses, i, false)
    } else if header_kind(k) {
        let text = header_before_field(t, i, "body");
        single(control(text, field_walk_exec(t, file, uses, i, "body")))
    } else if str_eq(k, "switch_block") || str_eq(k, "local_variable_declaration") || str_eq(k, "block")
        || str_eq(k, "labeled_statement") {
        walk_named_exec(t, file, uses, i, Pick::All)
    } else if str_eq(k, "switch_block_statement_group") || str_eq(k, "switch_rule") {
        let text = switch_label(t, i);
        single(control(text, walk_named_exec(t, file, uses, i, Pick::NotLabels)))
    } else if str_eq(k, "return_statement") || str_eq(k, "break_statement") || str_eq(k, "continue_statement")
        || str_eq(k, "throw_statement") {
        let c = collapse_node(t, i);
        single(control(trim_end_char(c.as_str(), ';'), empty_raws()))
    } else if str_eq(k, "try_statement") {
        let mut out = single(control(owned("try"), field_walk_exec(t, file, uses, i, "body")));
        let rest = walk_named_exec(t, file, uses, i, Pick::Handlers);
        append_raws(&mut out, rest);
        out
    } else if str_eq(k, "finally_clause") {
        let kinds = ["block"];
        assert(kinds@.map_values(|k: &str| k@) =~= seq!["block"@]);
        let body = match t.first_named_kind(i, kinds.as_slice()) {
            Some(b) => walk(t, file, uses, b),
            None => walk_named_exec(t, file, uses, i, Pick::All),
        };
        single(control(owned("finally"), body))
    } else if str_eq(k, "method_invocation") {
        emit_invocation(t, file, uses, i)
    } else if str_eq(k, "object_creation_expression") {
        emit_new(t, file, uses, i)
    } else if str_eq(k, "expression_statement") {
        match t.first_named(i) {
            Some(c) => walk(t, file, uses, c),
            None => empty_raws(),
        }
    } else if str_eq(k, "variable_declarator") {
        field_walk_exec(t, file, uses, i, "value")
    } else if str_eq(k, "assignment_expression") {
        field_walk_exec(t, file, uses, i, "right")
    } else if str_eq(k, "lambda_expression") {
        field_walk_exec(t, file, uses, i, "body")
    } else if str_eq(k, "method_declaration") || str_eq(k, "constructor_declaration") {
        let name = fn_name(t, i);
        let body = field_walk_exec(t, file, uses, i, "body");
        let ghost bv = raws_view(body@);
        let n = RawNode::NestedFn { name, children: body };
        proof {
            assert(n@ is NestedFn);
            assert(n@->NestedFn_children =~= bv);
        }
        single(n)
    } else if ignored_kind(k) {
        empty_raws()
    } else {
        walk_named_exec(t, file, uses, i, Pick::All)
    }
}

/// Unexpanded body of the method or constructor `fn_item`.
pub fn extract_fn(t: &SyntaxTree, fn_item: usize, file: &str, uses: &UseMap) -> (out: Vec<RawNode>)
    requires
        t.wf(),
        fn_item < t.len(),
    ensures
        raws_view(out@) == fn_body_outline(t@, file@, uses@, fn_item as int),
{
    field_walk_exec(t, file, uses, fn_item, "body")
}

/// A method is declared in a type body; a declaration directly in the
/// program is free. The nearest such ancestor from `a` up decides.
pub open spec fn classify_from(t: TreeView, a: Option<int>) -> FnKind
    decreases match a {
        Some(j) => j + 1,
        None => 0,
    },
{
    match a {
        None => FnKind::Method,
        Some(j) => if j < 0 || j >= t.len() {
            FnKind::Method
        } else {
            let k = t.recs()[j].kind;
            if k == "class_declaration"@ || k == "interface_declaration"@ || k == "enum_declaration"@
                || k == "record_declaration"@ || k == "annotation_type_declaration"@ || k
                == "enum_body_declarations"@ {
                FnKind::Method
            } else if k == "program"@ {
                FnKind::Free
            } else {
                proof {
                    lemma_parent_from(t.recs(), t.recs()[j].depth, j - 1);
                }
                classify_from(t, parent(t.recs(), j))
            }
        },
    }
}

fn classify(t: &SyntaxTree, i: usize) -> (k: FnKind)
    requires
        t.wf(),
        i < t.len(),
    ensures
        k == classify_from(t@, parent(t.recs(), i as int)),
{
    let mut cur = t.parent_of(i);
    while cur.is_some()
        invariant
            t.wf(),
            match cur {
                Some(j) => j < t.len(),
                None => true,
            },
            classify_from(t@, parent(t.recs(), i as int)) == classify_from(t@, match cur {
                Some(j) => Some(j as int),
                None => None,
            }),
        decreases match cur {
            Some(j) => j + 1,
            None => 0,
        },
    {
        let j = cur.unwrap();
        let k = t.kind(j);
        if str_eq(k, "class_declaration") || str_eq(k, "interface_declaration") || str_eq(k, "enum_declaration")
            || str_eq(k, "record_declaration") || str_eq(k, "annotation_type_declaration") || str_eq(
            k,
            "enum_body_declarations",
        ) {
            return FnKind::Method;
        }
        if str_eq(k, "program") {
            return FnKind::Free;
        }
        proof {
            lemma_parent_from(t.recs(), t.recs()[j as int].depth, j - 1);
        }
        cur = t.parent_of(j);
    }
    FnKind::Method
}

/// Indexed definition of the method or constructor `i`.
pub open spec fn fn_def_of(
    t: TreeView,
    file: Seq<char>,
    uses: UseMapView,
    module: Seq<Seq<char>>,
    i: int,
    nested: bool,
) -> FnDefView {
    let r = t.recs();
    let has_body = field_child(r, i, "body"@) is Some;
    FnDefView {
        id: FnIdView { file, start_byte: r[i].start },
        start_line: line_number(encode_utf8(t.text()), r[i].start),
        name: field_text(t, i, "name"@),
        kind: classify_from(t, parent(r, i)),
        module,
        nested,
        has_body,
        end_byte: r[i].end,
        body: if has_body {
            fn_body_outline(t, file, uses, i)
        } else {
            Seq::empty()
        },
    }
}

/// Methods and constructors at or below node `i`, in source order; `nested`
/// marks those inside another. `ERROR` subtrees are skipped.
pub open spec fn defs_of(
    t: TreeView,
    file: Seq<char>,
    uses: UseMapView,
    module: Seq<Seq<char>>,
    i: int,
    in_fn: bool,
) -> Seq<FnDefView>
    decreases t.len() - i, 0int,
{
    let r = t.recs();
    if i < 0 || i >= t.len() {
        Seq::empty()
    } else if r[i].kind == "ERROR"@ {
        Seq::empty()
    } else {
        proof {
            lemma_subtree_end_bounds(r, i);
        }
        if is_method_kind(r[i].kind) {
            seq![fn_def_of(t, file, uses, module, i, in_fn)] + defs_from(t, file, uses, module, subtree_end(r, i), i + 1, true)
        } else {
            defs_from(t, file, uses, module, subtree_end(r, i), i + 1, in_fn)
        }
    }
}

pub open spec fn defs_from(
    t: TreeView,
    file: Seq<char>,
    uses: UseMapView,
    module: Seq<Seq<char>>,
    e: int,
    k: int,
    in_fn: bool,
) -> Seq<FnDefView>
    decreases t.len() - k, 1int,
{
    let r = t.recs();
    if k < 0 || k >= e || k >= t.len() {
        Seq::empty()
    } else {
        proof {
            lemma_subtree_end_bounds(r, k);
        }
        (if r[k].named {
            defs_of(t, file, uses, module, k, in_fn)
        } else {
            Seq::empty()
        }) + defs_from(t, file, uses, module, e, subtree_end(r, k), in_fn)
    }
}

fn fn_def(t: &SyntaxTree, src: &str, file: &str, uses: &UseMap, module: &Vec<String>, i: usize, nested: bool) -> (d: FnDef)
    requires
        t.wf(),
        t.text() == src@,
        i < t.len(),
    ensures
        d@ == fn_def_of(t@, file@, uses@, module.deep_view(), i as int, nested),
{
    let start = t.nodes[i].start;
    let has_body = t.child_by_field(i, "body").is_some();
    let body = if has_body {
        extract_fn(t, i, file, uses)
    } else {
        empty_raws()
    };
    let d = FnDef {
        id: FnId { file: owned(file), start_byte: start },
        start_line: line_of(src, start),
        name: fn_name(t, i),
        kind: classify(t, i),
        module: copy_strings(module),
        nested,
        has_body,
        end_byte: t.nodes[i].end,
        body,
    };
    let ghost expected = fn_def_of(t@, file@, uses@, module.deep_view(), i as int, nested);
    assert(d@.body == expected.body);
    assert(d@.id == expected.id);
    assert(d@.module == expected.module);
    d
}

fn walk_index(t: &SyntaxTree, src: &str, file: &str, uses: &UseMap, module: &Vec<String>, i: usize, in_fn: bool) -> (out: Vec<FnDef>)
    requires
        t.wf(),
        t.text() == src@,
        i < t.len(),
    ensures
        defs_view(out@) == defs_of(t@, file@, uses@, module.deep_view(), i as int, in_fn),
    decreases t.len() - i,
{
    let ghost r = t.recs();
    let ghost fv = file@;
    let ghost uv = uses@;
    let ghost mv = module.deep_view();
    let mut out: Vec<FnDef> = Vec::new();
    if t.kind_is(i, "ERROR") {
        assert(defs_view(out@) =~= Seq::<FnDefView>::empty());
        return out;
    }
    let is_def = t.kind_is(i, "method_declaration") || t.kind_is(i, "constructor_declaration");
    if is_def {
        out.push(fn_def(t, src, file, uses, module, i, in_fn));
    }
    let inner = if is_def {
        true
    } else {
        in_fn
    };
    let ghost head = defs_view(out@);
    let e = t.end_of(i);
    let mut j = i + 1;
    while j < e
        invariant
            t.wf(),
            t.text() == src@,
            r == t.recs(),
            fv == file@,
            uv == uses@,
            mv == module.deep_view(),
            i < j <= t.len(),
            e == subtree_end(r, i as int),
            e <= t.len(),
            head + defs_from(t@, fv, uv, mv, e as int, i + 1, inner) == defs_view(out@) + defs_from(t@, fv, uv, mv, e as int, j as int, inner),
        decreases t.len() - j,
    {
        let ghost prev = defs_view(out@);
        if t.is_named(j) {
            let more = walk_index(t, src, file, uses, module, j, inner);
            append_defs(&mut out, more);
        }
        let nj = t.end_of(j);
        proof {
            lemma_subtree_end_bounds(r, j as int);
            let here = if r[j as int].named {
                defs_of(t@, fv, uv, mv, j as int, inner)
            } else {
                Seq::<FnDefView>::empty()
            };
            let rest = defs_from(t@, fv, uv, mv, e as int, nj as int, inner);
            assert(defs_from(t@, fv, uv, mv, e as int, j as int, inner) == here + rest);
            assert(defs_view(out@) =~= prev + here);
            assert(prev + (here + rest) =~= (prev + here) + rest);
        }
        j = nj;
    }
    proof {
        assert(defs_view(out@) + Seq::<FnDefView>::empty() =~= defs_view(out@));
        if is_def {
            assert(head =~= seq![fn_def_of(t@, fv, uv, mv, i as int, in_fn)]);
        } else {
            assert(head =~= Seq::<FnDefView>::empty());
            assert(head + defs_from(t@, fv, uv, mv, e as int, i + 1, inner) =~= defs_from(t@, fv, uv, mv, e as int, i + 1, inner));
        }
    }
    out
}

/// Every method and constructor of a Java tree (with or without a body),
/// in source order.
pub fn index_defs(t: &SyntaxTree, src: &str, file: &str, uses: &UseMap, module: &Vec<String>) -> (out: Vec<FnDef>)
    requires
        t.wf(),
        t.text() == src@,
    ensures
        defs_view(out@) == defs_of(t@, file@, uses@, module.deep_view(), 0, false),
{
    if t.nodes.len() == 0 {
        let v: Vec<FnDef> = Vec::new();
        assert(defs_view(v@) =~= Seq::<FnDefView>::empty());
        return v;
    }
    walk_index(t, src, file, uses, module, 0, false)
}

/// The path an import names (its last identifier child among `[k, e)`) and
/// whether it ends in `*`.
pub open spec fn import_scan(t: TreeView, e: int, k: int, path: Seq<Seq<char>>, star: bool) -> (Seq<Seq<char>>, bool)
    decreases t.len() - k,
{
    let r = t.recs();
    if k < 0 || k >= e || k >= t.len() {
        (path, star)
    } else {
        proof {
            lemma_subtree_end_bounds(r, k);
        }
        let kk = r[k].kind;
        if kk == "asterisk"@ || kk == "*"@ {
            import_scan(t, e, subtree_end(r, k), path, true)
        } else if kk == "scoped_identifier"@ || kk == "identifier"@ {
            import_scan(t, e, subtree_end(r, k), ident_path_of(t, k), star)
        } else {
            import_scan(t, e, subtree_end(r, k), path, star)
        }
    }
}

/// Binding of the `import_declaration` `i`: a glob for `a.b.*`, else its
/// last segment bound to the whole path.
pub open spec fn import_bindings(t: TreeView, i: int) -> Seq<BindingView> {
    let r = t.recs();
    let (path, star) = import_scan(t, subtree_end(r, i), i + 1, Seq::empty(), false);
    if path.len() == 0 {
        Seq::empty()
    } else if star {
        seq![BindingView::Glob { prefix: path }]
    } else {
        seq![BindingView::Named { name: path.last(), path }]
    }
}

/// Bindings of every import at or below node `i`, in source order.
pub open spec fn imports_of(t: TreeView, i: int) -> Seq<BindingView>
    decreases t.len() - i, 0int,
{
    let r = t.recs();
    if i < 0 || i >= t.len() || r[i].kind == "ERROR"@ {
        Seq::empty()
    } else if r[i].kind == "import_declaration"@ {
        import_bindings(t, i)
    } else {
        proof {
            lemma_subtree_end_bounds(r, i);
        }
        imports_from(t, subtree_end(r, i), i + 1)
    }
}

pub open spec fn imports_from(t: TreeView, e: int, k: int) -> Seq<BindingView>
    decreases t.len() - k, 1int,
{
    let r = t.recs();
    if k < 0 || k >= e || k >= t.len() {
        Seq::empty()
    } else {
        proof {
            lemma_subtree_end_bounds(r, k);
        }
        (if r[k].named {
            imports_of(t, k)
        } else {
            Seq::empty()
        }) + imports_from(t, e, subtree_end(r, k))
    }
}

/// Use map of a parsed Java file.
pub open spec fn java_uses(t: TreeView) -> UseMapView {
    apply_bindings(empty_uses(), imports_of(t, 0))
}

fn parse_import(t: &SyntaxTree, i: usize) -> (bs: Vec<Binding>)
    requires
        t.wf(),
        i < t.len(),
    ensures
        bindings_view(bs@) == import_bindings(t@, i as int),
{
    let ghost r = t.recs();
    let e = t.end_of(i);
    let mut path: Vec<String> = Vec::new();
    let mut star = false;
    let mut j = i + 1;
    assert(path.deep_view() =~= Seq::<Seq<char>>::empty());
    while j < e
        invariant
            t.wf(),
            r == t.recs(),
            i < j <= t.len(),
            e == subtree_end(r, i as int),
            e <= t.len(),
            import_scan(t@, e as int, i + 1, Seq::empty(), false) == import_scan(t@, e as int, j as int, path.deep_view(), star),
        decreases t.len() - j,
    {
        proof {
            lemma_subtree_end_bounds(r, j as int);
        }
        if t.kind_is(j, "asterisk") || t.kind_is(j, "*") {
            star = true;
        } else if t.kind_is(j, "scoped_identifier") || t.kind_is(j, "identifier") {
            path = ident_path(t, j);
        }
        j = t.end_of(j);
    }
    let mut bs: Vec<Binding> = Vec::new();
    if path.len() == 0 {
        assert(path.deep_view().len() == 0);
    } else if star {
        let ghost pv = path.deep_view();
        push_binding(&mut bs, Binding::Glob { prefix: path });
        assert(bindings_view(bs@) =~= seq![BindingView::Glob { prefix: pv }]);
    } else {
        let ghost pv = path.deep_view();
        let name = path[path.len() - 1].clone();
        push_binding(&mut bs, Binding::Named { name, path });
        assert(bindings_view(bs@) =~= seq![BindingView::Named { name: pv.last(), path: pv }]);
    }
    assert(bs@.len() == 0 ==> bindings_view(bs@) =~= Seq::<BindingView>::empty());
    bs
}

fn walk_imports(t: &SyntaxTree, i: usize) -> (bs: Vec<Binding>)
    requires
        t.wf(),
        i < t.len(),
    ensures
        bindings_view(bs@) == imports_of(t@, i as int),
    decreases t.len() - i,
{
    let ghost r = t.recs();
    if t.kind_is(i, "ERROR") {
        let v: Vec<Binding> = Vec::new();
        assert(bindings_view(v@) =~= Seq::<BindingView>::empty());
        return v;
    }
    if t.kind_is(i, "import_declaration") {
        return parse_import(t, i);
    }
    let e = t.end_of(i);
    let mut out: Vec<Binding> = Vec::new();
    let mut j = i + 1;
    assert(bindings_view(out@) =~= Seq::<BindingView>::empty());
    while j < e
        invariant
            t.wf(),
            r == t.recs(),
            i < j <= t.len(),
            e == subtree_end(r, i as int),
            e <= t.len(),
            imports_from(t@, e as int, i + 1) == bindings_view(out@) + imports_from(t@, e as int, j as int),
        decreases t.len() - j,
    {
        let ghost prev = bindings_view(out@);
        if t.is_named(j) {
            let more = walk_imports(t, j);
            append_bindings(&mut out, more);
        }
        let nj = t.end_of(j);
        proof {
            lemma_subtree_end_bounds(r, j as int);
            let here = if r[j as int].named {
                imports_of(t@, j as int)
            } else {
                Seq::<BindingView>::empty()
            };
            let rest = imports_from(t@, e as int, nj as int);
            assert(imports_from(t@, e as int, j as int) == here + rest);
            assert(bindings_view(out@) =~= prev + here);
            assert(prev + (here + rest) =~= (prev + here) + rest);
        }
        j = nj;
    }
    assert(bindings_view(out@) + Seq::<BindingView>::empty() =~= bindings_view(out@));
    out
}

/// Records every import of the Java tree in `map`: `import a.b.C;` binds
/// `C`, `import a.b.*;` adds a glob.
pub fn collect_imports(t: &SyntaxTree, map: &mut UseMap)
    requires
        t.wf(),
    ensures
        final(map)@ == apply_bindings(old(map)@, imports_of(t@, 0)),
{
    if t.nodes.len() == 0 {
        assert(imports_of(t@, 0) =~= Seq::<BindingView>::empty());
        return;
    }
    let bs = walk_imports(t, 0);
    map.apply_all(bs);
}

/// The package path of the last `package_declaration` among the named
/// children `[k, e)` of the root, or `pkg`.
pub open spec fn package_from(t: TreeView, e: int, k: int, pkg: Seq<Seq<char>>) -> Seq<Seq<char>>
    decreases t.len() - k,
{
    let r = t.recs();
    if k < 0 || k >= e || k >= t.len() {
        pkg
    } else {
        proof {
            lemma_subtree_end_bounds(r, k);
        }
        let next = if r[k].named && r[k].kind == "package_declaration"@ {
            package_name_from(t, subtree_end(r, k), k + 1, pkg)
        } else {
            pkg
        };
        package_from(t, e, subtree_end(r, k), next)
    }
}

/// The path of the last identifier child among `[k, e)`, or `pkg`.
pub open spec fn package_name_from(t: TreeView, e: int, k: int, pkg: Seq<Seq<char>>) -> Seq<Seq<char>>
    decreases t.len() - k,
{
    let r = t.recs();
    if k < 0 || k >= e || k >= t.len() {
        pkg
    } else {
        proof {
            lemma_subtree_end_bounds(r, k);
        }
        let next = if r[k].named && (r[k].kind == "scoped_identifier"@ || r[k].kind == "identifier"@) {
            ident_path_of(t, k)
        } else {
            pkg
        };
        package_name_from(t, e, subtree_end(r, k), next)
    }
}

/// File name of `path` without its extension; `Foo` when it has none.
pub open spec fn file_stem_of(path: Seq<char>) -> Seq<char> {
    match crate::lang::file_name_of(path) {
        None => "Foo"@,
        Some(n) => match crate::collect::extension_of(n, n.len() as int) {
            Some(x) => n.take(n.len() - x.len() - 1),
            None => n,
        },
    }
}

/// Module path of a Java file: its package, then the file's stem.
pub open spec fn java_module_of(t: TreeView, file: Seq<char>) -> Seq<Seq<char>> {
    let r = t.recs();
    let pkg = if t.len() > 0 {
        package_from(t, subtree_end(r, 0), 1, Seq::empty())
    } else {
        Seq::empty()
    };
    pkg.push(file_stem_of(file))
}

fn package_name(t: &SyntaxTree, d: usize, pkg: Vec<String>) -> (out: Vec<String>)
    requires
        t.wf(),
        d < t.len(),
    ensures
        out.deep_view() == package_name_from(t@, subtree_end(t.recs(), d as int), d + 1, pkg.deep_view()),
{
    let ghost r = t.recs();
    let e = t.end_of(d);
    let ghost p0 = pkg.deep_view();
    let mut pkg = pkg;
    let mut j = d + 1;
    while j < e
        invariant
            t.wf(),
            r == t.recs(),
            d < j <= t.len(),
            e == subtree_end(r, d as int),
            e <= t.len(),
            package_name_from(t@, e as int, d + 1, p0) == package_name_from(t@, e as int, j as int, pkg.deep_view()),
        decreases t.len() - j,
    {
        proof {
            lemma_subtree_end_bounds(r, j as int);
        }
        if t.is_named(j) && (t.kind_is(j, "scoped_identifier") || t.kind_is(j, "identifier")) {
            pkg = ident_path(t, j);
        }
        j = t.end_of(j);
    }
    pkg
}

fn stem(file: &str) -> (s: String)
    ensures
        s@ == file_stem_of(file@),
{
    proof {
        reveal_strlit("Foo");
    }
    match crate::lang::file_name(file) {
        None => owned("Foo"),
        Some(n) => {
            let cs = crate::text::chars_of(n.as_str());
            let mut k = cs.len();
            while k > 1 && cs[k - 1] != '.'
                invariant
                    k <= cs@.len(),
                    cs@ == n@,
                    crate::collect::extension_of(n@, n@.len() as int) == crate::collect::extension_of(n@, k as int),
                decreases k,
            {
                k = k - 1;
            }
            if k > 1 {
                let s = crate::text::string_of(&cs, 0, k - 1);
                assert(s@ =~= n@.take(n@.len() - n@.skip(k as int).len() - 1));
                s
            } else {
                n
            }
        },
    }
}

/// Module path of a Java file: the name of its `package` declaration, then
/// the file's stem (`Foo` when the path has no file name).
pub fn module_path_from_tree(t: &SyntaxTree, file: &str) -> (m: Vec<String>)
    requires
        t.wf(),
    ensures
        m.deep_view() == java_module_of(t@, file@),
{
    let ghost r = t.recs();
    let mut pkg: Vec<String> = Vec::new();
    assert(pkg.deep_view() =~= Seq::<Seq<char>>::empty());
    if t.nodes.len() > 0 {
        let e = t.end_of(0);
        let mut j: usize = 1;
        while j < e
            invariant
                t.wf(),
                r == t.recs(),
                0 < j <= t.len(),
                e == subtree_end(r, 0),
                e <= t.len(),
                package_from(t@, e as int, 1, Seq::empty()) == package_from(t@, e as int, j as int, pkg.deep_view()),
            decreases t.len() - j,
        {
            proof {
                lemma_subtree_end_bounds(r, j as int);
            }
            if t.is_named(j) && t.kind_is(j, "package_declaration") {
                pkg = package_name(t, j, pkg);
            }
            j = t.end_of(j);
        }
    }
    let ghost pv = pkg.deep_view();
    let s = stem(file);
    let ghost sv = s@;
    pkg.push(s);
    assert(pkg.deep_view() =~= pv.push(sv));
    pkg
}

} // verus!
