//! Expansion of unexpanded bodies into outline trees: resolved calls are
//! replaced by the callee's own outline.
use vstd::prelude::*;

use crate::ir::{
    lemma_outline_view, outlines_view, raws_view, CallSite, CallSiteView, FnDef, FnDefView, FnId, FnIdView, Loc,
    LocView, OutlineNode, OutlineView, Placement, RawNode, RawView,
};
use crate::omit::{omitted, should_omit_resolved, UseMap};
use crate::resolve::{
    contains_id, def_index, ids_view, lemma_last_def, resolve, resolve_spec, uses_of_file, IndexView,
    ResolveIndex,
};
use crate::text::{owned, push_str};

verus! {

/// Number of definitions whose identity is not on `stack`.
pub open spec fn unvisited(defs: Seq<FnDefView>, stack: Seq<FnIdView>) -> nat
    decreases defs.len(),
{
    if defs.len() == 0 {
        0
    } else {
        unvisited(defs.drop_last(), stack) + if stack.contains(defs.last().id) {
            0nat
        } else {
            1nat
        }
    }
}

/// Pushing the identity of a definition that is not on the stack leaves fewer
/// unvisited definitions.
pub proof fn lemma_unvisited_push(defs: Seq<FnDefView>, stack: Seq<FnIdView>, x: FnIdView, j: int)
    requires
        0 <= j < defs.len(),
        defs[j].id == x,
        !stack.contains(x),
    ensures
        unvisited(defs, stack.push(x)) < unvisited(defs, stack),
    decreases defs.len(),
{
    let t = defs.drop_last();
    let y = defs.last().id;
    let pushed = stack.push(x);
    assert(pushed[stack.len() as int] == x);
    assert(pushed.contains(x));
    if stack.contains(y) {
        let q = choose|q: int| 0 <= q < stack.len() && stack[q] == y;
        assert(pushed[q] == y);
    }
    if j == defs.len() - 1 {
        lemma_unvisited_push_le(t, stack, x);
        assert(pushed.contains(y));
    } else {
        assert(t[j] == defs[j]);
        lemma_unvisited_push(t, stack, x, j);
    }
}

pub proof fn lemma_unvisited_push_le(defs: Seq<FnDefView>, stack: Seq<FnIdView>, x: FnIdView)
    ensures
        unvisited(defs, stack.push(x)) <= unvisited(defs, stack),
    decreases defs.len(),
{
    if defs.len() > 0 {
        lemma_unvisited_push_le(defs.drop_last(), stack, x);
        let y = defs.last().id;
        if stack.contains(y) {
            let q = choose|q: int| 0 <= q < stack.len() && stack[q] == y;
            assert(stack.push(x)[q] == y);
        }
    }
}

/// Location of the definition with identity `id`, when indexed.
pub open spec fn def_loc(ix: IndexView, id: FnIdView) -> Placement {
    match def_index(ix, id) {
        Some(j) => Placement::Placed(LocView { file: ix.defs[j].id.file, line: ix.defs[j].start_line }),
        None => Placement::Unplaced,
    }
}

pub open spec fn leaf(text: Seq<char>, loc: Placement) -> OutlineView {
    OutlineView { text, loc, children: Seq::empty() }
}

/// Outline of `raws[k..]` with the callees on `stack` not entered again; with
/// `once`, callees in `seen` are leaves and each entered callee joins `seen`.
/// Gives the nodes and the final `seen`.
pub open spec fn expand_list(
    ix: IndexView,
    stack: Seq<FnIdView>,
    once: bool,
    seen: Seq<FnIdView>,
    raws: Seq<RawView>,
    k: int,
) -> (Seq<OutlineView>, Seq<FnIdView>)
    decreases unvisited(ix.defs, stack), raws, raws.len() - k,
{
    if k < 0 || k >= raws.len() {
        (Seq::empty(), seen)
    } else {
        let (a, s1) = expand_node(ix, stack, once, seen, raws[k]);
        let (b, s2) = expand_list(ix, stack, once, s1, raws, k + 1);
        (a + b, s2)
    }
}

/// Outline of one unexpanded node (see [`expand_list`]).
pub open spec fn expand_node(
    ix: IndexView,
    stack: Seq<FnIdView>,
    once: bool,
    seen: Seq<FnIdView>,
    n: RawView,
) -> (Seq<OutlineView>, Seq<FnIdView>)
    decreases unvisited(ix.defs, stack), n, 0int,
{
    match n {
        RawView::Control { text, children } => {
            let (c, s1) = expand_list(ix, stack, once, seen, children, 0);
            (seq![OutlineView { text, loc: Placement::Unplaced, children: c }], s1)
        },
        RawView::NestedFn { name, children } => {
            let (c, s1) = expand_list(ix, stack, once, seen, children, 0);
            (seq![OutlineView { text: "fn "@ + name, loc: Placement::Unplaced, children: c }], s1)
        },
        RawView::Call { site } => {
            let target = resolve_spec(ix, site);
            if omitted(site, uses_of_file(ix, site.file), target is Some) {
                (Seq::empty(), seen)
            } else {
                match target {
                    None => (seq![leaf(site.display, Placement::Unplaced)], seen),
                    Some(id) => {
                        let loc = def_loc(ix, id);
                        if stack.contains(id) {
                            (seq![leaf(site.display + " [recursive]"@, loc)], seen)
                        } else if once && seen.contains(id) {
                            (seq![leaf(site.display, loc)], seen)
                        } else {
                            match def_index(ix, id) {
                                None => (seq![leaf(site.display, loc)], seen),
                                Some(j) => {
                                    proof {
                                        lemma_last_def(ix.defs, id, ix.defs.len() as int);
                                        lemma_unvisited_push(ix.defs, stack, id, j);
                                    }
                                    let seen1 = if once {
                                        seen.push(id)
                                    } else {
                                        seen
                                    };
                                    let (c, s2) = expand_list(ix, stack.push(id), once, seen1, ix.defs[j].body, 0);
                                    (seq![OutlineView { text: site.display, loc, children: c }], s2)
                                },
                            }
                        }
                    },
                }
            }
        },
    }
}

/// Law: a call whose resolved target is already being expanded (it is on the
/// stack) gives a single leaf, the call's text followed by ` [recursive]`,
/// placed at the target's definition; nothing is entered and `seen` is
/// unchanged.
pub proof fn law_recursive_call_is_marked_leaf(
    ix: IndexView,
    stack: Seq<FnIdView>,
    once: bool,
    seen: Seq<FnIdView>,
    site: CallSiteView,
    id: FnIdView,
)
    requires
        resolve_spec(ix, site) == Some(id),
        stack.contains(id),
    ensures
        expand_node(ix, stack, once, seen, RawView::Call { site }).0 == seq![
            OutlineView { text: site.display + " [recursive]"@, loc: def_loc(ix, id), children: Seq::empty() },
        ],
        expand_node(ix, stack, once, seen, RawView::Call { site }).1 == seen,
{
}

/// Law: in tree mode a resolved call whose target is not on the stack is
/// expanded in place: one node with the call's own text (unmarked), placed at
/// the target's definition, whose children are the target's body expanded
/// with the target pushed on the stack.
pub proof fn law_call_expanded_in_place(
    ix: IndexView,
    stack: Seq<FnIdView>,
    seen: Seq<FnIdView>,
    site: CallSiteView,
    id: FnIdView,
    j: int,
)
    requires
        resolve_spec(ix, site) == Some(id),
        !stack.contains(id),
        def_index(ix, id) == Some(j),
    ensures
        expand_node(ix, stack, false, seen, RawView::Call { site }).0 == seq![
            OutlineView {
                text: site.display,
                loc: def_loc(ix, id),
                children: expand_list(ix, stack.push(id), false, seen, ix.defs[j].body, 0).0,
            },
        ],
{
}

/// Law: in once mode a resolved call whose target was already entered
/// (it is in `seen`) and is not on the stack is a plain leaf with the call's
/// text, placed at the target's definition; `seen` is unchanged.
pub proof fn law_seen_call_is_plain_leaf(
    ix: IndexView,
    stack: Seq<FnIdView>,
    seen: Seq<FnIdView>,
    site: CallSiteView,
    id: FnIdView,
)
    requires
        resolve_spec(ix, site) == Some(id),
        !stack.contains(id),
        seen.contains(id),
    ensures
        expand_node(ix, stack, true, seen, RawView::Call { site }) == (
            seq![OutlineView { text: site.display, loc: def_loc(ix, id), children: Seq::empty() }],
            seen,
        ),
{
}

/// Law: a call that resolves to no definition of the analyzed set gives
/// nothing when the omit list drops it, and otherwise a single unplaced leaf
/// with the call's text.
pub proof fn law_unresolved_call(
    ix: IndexView,
    stack: Seq<FnIdView>,
    once: bool,
    seen: Seq<FnIdView>,
    site: CallSiteView,
)
    requires
        resolve_spec(ix, site) is None,
    ensures
        expand_node(ix, stack, once, seen, RawView::Call { site }).1 == seen,
        omitted(site, uses_of_file(ix, site.file), false) ==> expand_node(
            ix,
            stack,
            once,
            seen,
            RawView::Call { site },
        ).0 == Seq::<OutlineView>::empty(),
        !omitted(site, uses_of_file(ix, site.file), false) ==> expand_node(
            ix,
            stack,
            once,
            seen,
            RawView::Call { site },
        ).0 == seq![OutlineView { text: site.display, loc: Placement::Unplaced, children: Seq::empty() }],
{
}

fn append_outlines(out: &mut Vec<OutlineNode>, more: Vec<OutlineNode>)
    ensures
        outlines_view(final(out)@) == outlines_view(old(out)@) + outlines_view(more@),
{
    let mut more = more;
    let ghost a = outlines_view(out@);
    let ghost b = outlines_view(more@);
    out.append(&mut more);
    assert(outlines_view(out@) =~= a + b);
}

fn one_leaf(text: String, loc: Option<Loc>) -> (v: Vec<OutlineNode>)
    ensures
        outlines_view(v@) == seq![leaf(text@, crate::ir::placement(loc))],
{
    let v = one_node(text, loc, Vec::new());
    assert(outlines_view(v@)[0].children =~= Seq::<OutlineView>::empty());
    assert(outlines_view(v@) =~= seq![leaf(outlines_view(v@)[0].text, outlines_view(v@)[0].loc)]);
    v
}

fn one_node(text: String, loc: Option<Loc>, children: Vec<OutlineNode>) -> (v: Vec<OutlineNode>)
    ensures
        outlines_view(v@) == seq![OutlineView { text: text@, loc: crate::ir::placement(loc), children: outlines_view(children@) }],
{
    let ghost cv = outlines_view(children@);
    let ghost tv = text@;
    let ghost lv = crate::ir::placement(loc);
    let n = OutlineNode { text, loc, children };
    proof {
        lemma_outline_view(&n);
        assert(n@.children =~= cv);
    }
    let mut v: Vec<OutlineNode> = Vec::new();
    v.push(n);
    assert(outlines_view(v@) =~= seq![OutlineView { text: tv, loc: lv, children: cv }]);
    v
}

pub(crate) fn expand_nodes(
    ix: &ResolveIndex,
    stack: &mut Vec<FnId>,
    once: bool,
    seen: &mut Vec<FnId>,
    raws: &Vec<RawNode>,
) -> (out: Vec<OutlineNode>)
    ensures
        (outlines_view(out@), ids_view(final(seen)@)) == expand_list(
            ix@,
            ids_view(old(stack)@),
            once,
            ids_view(old(seen)@),
            raws_view(raws@),
            0,
        ),
        final(stack)@ == old(stack)@,
    decreases unvisited(ix@.defs, ids_view(old(stack)@)), raws, 2int,
{
    let ghost st = ids_view(stack@);
    let ghost s0 = ids_view(seen@);
    let ghost rv = raws_view(raws@);
    let ghost stack0 = stack@;
    let mut out: Vec<OutlineNode> = Vec::new();
    let mut k: usize = 0;
    assert(outlines_view(out@) =~= Seq::<OutlineView>::empty());
    while k < raws.len()
        invariant
            k <= raws@.len(),
            rv == raws_view(raws@),
            stack@ == stack0,
            stack0 == old(stack)@,
            st == ids_view(stack0),
            expand_list(ix@, st, once, s0, rv, 0) == (
                outlines_view(out@) + expand_list(ix@, st, once, ids_view(seen@), rv, k as int).0,
                expand_list(ix@, st, once, ids_view(seen@), rv, k as int).1,
            ),
        decreases raws@.len() - k,
    {
        proof {
            assert(decreases_to!(raws => raws@));
            assert(decreases_to!(raws@ => raws@[k as int]));
            assert(ids_view(stack@) == st);
            assert(decreases_to!(unvisited(ix@.defs, st), raws, 2int => unvisited(ix@.defs, ids_view(stack@)), raws@[k as int], 1int));
        }
        let ghost prev = outlines_view(out@);
        let ghost sk = ids_view(seen@);
        let more = expand_one(ix, stack, once, seen, &raws[k]);
        append_outlines(&mut out, more);
        proof {
            let (a, s1) = expand_node(ix@, st, once, sk, rv[k as int]);
            let (b, s2) = expand_list(ix@, st, once, s1, rv, k + 1);
            assert(expand_list(ix@, st, once, sk, rv, k as int) == (a + b, s2));
            assert(prev + (a + b) =~= (prev + a) + b);
        }
        k = k + 1;
    }
    assert(outlines_view(out@) + Seq::<OutlineView>::empty() =~= outlines_view(out@));
    out
}

fn expand_one(
    ix: &ResolveIndex,
    stack: &mut Vec<FnId>,
    once: bool,
    seen: &mut Vec<FnId>,
    raw: &RawNode,
) -> (out: Vec<OutlineNode>)
    ensures
        (outlines_view(out@), ids_view(final(seen)@)) == expand_node(
            ix@,
            ids_view(old(stack)@),
            once,
            ids_view(old(seen)@),
            raw@,
        ),
        final(stack)@ == old(stack)@,
    decreases unvisited(ix@.defs, ids_view(old(stack)@)), raw, 1int,
{
    match raw {
        RawNode::Control { text, children } => {
            let c = expand_nodes(ix, stack, once, seen, children);
            assert(raws_view(children@) =~= raw@->Control_children);
            one_node(text.clone(), None, c)
        },
        RawNode::NestedFn { name, children } => {
            let c = expand_nodes(ix, stack, once, seen, children);
            assert(raws_view(children@) =~= raw@->NestedFn_children);
            let mut label = owned("fn ");
            push_str(&mut label, name.as_str());
            one_node(label, None, c)
        },
        RawNode::Call { .. } => expand_call_site(ix, stack, once, seen, raw),
    }
}

fn expand_call_site(
    ix: &ResolveIndex,
    stack: &mut Vec<FnId>,
    once: bool,
    seen: &mut Vec<FnId>,
    raw: &RawNode,
) -> (out: Vec<OutlineNode>)
    requires
        raw is Call,
    ensures
        (outlines_view(out@), ids_view(final(seen)@)) == expand_node(
            ix@,
            ids_view(old(stack)@),
            once,
            ids_view(old(seen)@),
            raw@,
        ),
        final(stack)@ == old(stack)@,
    decreases unvisited(ix@.defs, ids_view(old(stack)@)), raw, 0int,
{
    let site = match raw {
        RawNode::Call { site } => site,
        _ => {
            return Vec::new();
        },
    };
    let target = resolve(site, ix);
    let empty = UseMap::new();
    let uses = match ix.uses_for_file(site.file.as_str()) {
        Some(u) => u,
        None => &empty,
    };
    assert(uses@ == uses_of_file(ix@, site@.file));
    if should_omit_resolved(site, uses, target.is_some()) {
        let v: Vec<OutlineNode> = Vec::new();
        assert(outlines_view(v@) =~= Seq::<OutlineView>::empty());
        return v;
    }
    let text = site.display.clone();
    match target {
        None => one_leaf(text, None),
        Some(id) => {
            proof {
                lemma_last_def(ix@.defs, id@, ix@.defs.len() as int);
            }
            let pos = ix.def_position(&id);
            let loc = match pos {
                Some(j) => Some(ix.defs[j].source_location()),
                None => None,
            };
            assert(crate::ir::placement(loc) == def_loc(ix@, id@));
            if contains_id(stack, &id) {
                let mut t = text;
                push_str(&mut t, " [recursive]");
                return one_leaf(t, loc);
            }
            if once && contains_id(seen, &id) {
                return one_leaf(text, loc);
            }
            match pos {
                None => one_leaf(text, loc),
                Some(j) => {
                    let ghost st = ids_view(stack@);
                    let ghost stack0 = stack@;
                    proof {
                        lemma_unvisited_push(ix@.defs, st, id@, j as int);
                    }
                    if once {
                        let ghost sv = ids_view(seen@);
                        seen.push(id.duplicate());
                        assert(ids_view(seen@) =~= sv.push(id@));
                    }
                    stack.push(id);
                    assert(ids_view(stack@) =~= st.push(ix@.defs[j as int].id));
                    let c = expand_nodes(ix, stack, once, seen, &ix.defs[j].body);
                    stack.pop();
                    assert(stack@ =~= stack0);
                    one_node(text, loc, c)
                },
            }
        },
    }
}

/// Outline of a definition's body in tree mode: every resolved call is
/// expanded, except a callee already on `stack`, which is marked
/// `[recursive]`. `stack` is left as it was.
pub fn expand_fn(def: &FnDef, stack: &mut Vec<FnId>, index: &ResolveIndex) -> (nodes: Vec<OutlineNode>)
    ensures
        outlines_view(nodes@) == expand_list(
            index@,
            ids_view(old(stack)@).push(def.id@),
            false,
            Seq::empty(),
            raws_view(def.body@),
            0,
        ).0,
        final(stack)@ == old(stack)@,
{
    let ghost st = ids_view(stack@);
    let ghost stack0 = stack@;
    stack.push(def.id.duplicate());
    assert(ids_view(stack@) =~= st.push(def.id@));
    let mut seen: Vec<FnId> = Vec::new();
    assert(ids_view(seen@) =~= Seq::<FnIdView>::empty());
    let nodes = expand_nodes(index, stack, false, &mut seen, &def.body);
    stack.pop();
    assert(stack@ =~= stack0);
    nodes
}

} // verus!
