//! Entry points of the outline: definitions with a body that no call expands to.
use vstd::prelude::*;

use crate::ir::{raws_view, FnDefView, FnId, FnIdView, RawNode, RawView};
use crate::resolve::{ids_view, resolve, resolve_spec, IndexView, ResolveIndex};
use crate::text::{seq_less, str_eq, str_less};

verus! {

/// Resolved targets of the calls in `raws[k..]` and below, in source order.
pub open spec fn targets_in(ix: IndexView, raws: Seq<RawView>, k: int) -> Seq<FnIdView>
    decreases raws, raws.len() - k,
{
    if k < 0 || k >= raws.len() {
        Seq::empty()
    } else {
        targets_of(ix, raws[k]) + targets_in(ix, raws, k + 1)
    }
}

/// Resolved targets of the calls in `n` and below.
pub open spec fn targets_of(ix: IndexView, n: RawView) -> Seq<FnIdView>
    decreases n, 0int,
{
    match n {
        RawView::Control { children, .. } => targets_in(ix, children, 0),
        RawView::NestedFn { children, .. } => targets_in(ix, children, 0),
        RawView::Call { site } => match resolve_spec(ix, site) {
            Some(id) => seq![id],
            None => Seq::empty(),
        },
    }
}

/// Resolved targets of every call in the first `k` definitions.
pub open spec fn called_upto(ix: IndexView, k: int) -> Seq<FnIdView>
    decreases k,
{
    if k <= 0 || k > ix.defs.len() {
        Seq::empty()
    } else {
        called_upto(ix, k - 1) + targets_in(ix, ix.defs[k - 1].body, 0)
    }
}

/// Resolved targets of every call in the analyzed set.
pub open spec fn called_spec(ix: IndexView) -> Seq<FnIdView> {
    called_upto(ix, ix.defs.len() as int)
}

fn append_ids(out: &mut Vec<FnId>, more: Vec<FnId>)
    ensures
        ids_view(final(out)@) == ids_view(old(out)@) + ids_view(more@),
{
    let mut more = more;
    let ghost a = ids_view(out@);
    let ghost b = ids_view(more@);
    out.append(&mut more);
    assert(ids_view(out@) =~= a + b);
}

fn collect_calls(nodes: &Vec<RawNode>, index: &ResolveIndex) -> (out: Vec<FnId>)
    ensures
        ids_view(out@) == targets_in(index@, raws_view(nodes@), 0),
    decreases nodes, 1int,
{
    let ghost rv = raws_view(nodes@);
    let mut out: Vec<FnId> = Vec::new();
    let mut k: usize = 0;
    assert(ids_view(out@) =~= Seq::<FnIdView>::empty());
    while k < nodes.len()
        invariant
            k <= nodes@.len(),
            rv == raws_view(nodes@),
            targets_in(index@, rv, 0) == ids_view(out@) + targets_in(index@, rv, k as int),
        decreases nodes@.len() - k,
    {
        proof {
            assert(decreases_to!(nodes => nodes@));
            assert(decreases_to!(nodes@ => nodes@[k as int]));
        }
        let ghost prev = ids_view(out@);
        let more = collect_node(&nodes[k], index);
        append_ids(&mut out, more);
        proof {
            let here = targets_of(index@, rv[k as int]);
            let rest = targets_in(index@, rv, k + 1);
            assert(targets_in(index@, rv, k as int) == here + rest);
            assert(prev + (here + rest) =~= (prev + here) + rest);
        }
        k = k + 1;
    }
    assert(ids_view(out@) + Seq::<FnIdView>::empty() =~= ids_view(out@));
    out
}

fn collect_node(node: &RawNode, index: &ResolveIndex) -> (out: Vec<FnId>)
    ensures
        ids_view(out@) == targets_of(index@, node@),
    decreases node, 0int,
{
    match node {
        RawNode::Control { children, .. } => {
            let out = collect_calls(children, index);
            assert(raws_view(children@) =~= node@->Control_children);
            out
        },
        RawNode::NestedFn { children, .. } => {
            let out = collect_calls(children, index);
            assert(raws_view(children@) =~= node@->NestedFn_children);
            out
        },
        RawNode::Call { site } => {
            let mut out: Vec<FnId> = Vec::new();
            match resolve(site, index) {
                Some(id) => {
                    out.push(id);
                },
                None => {},
            }
            assert(ids_view(out@) =~= targets_of(index@, node@));
            out
        },
    }
}

/// Identities that some call resolves to, in call order, repeats kept.
pub fn called_targets(index: &ResolveIndex) -> (called: Vec<FnId>)
    ensures
        ids_view(called@) == called_spec(index@),
{
    let mut called: Vec<FnId> = Vec::new();
    let mut k: usize = 0;
    assert(ids_view(called@) =~= Seq::<FnIdView>::empty());
    while k < index.defs.len()
        invariant
            k <= index.defs@.len(),
            index@.defs.len() == index.defs@.len(),
            ids_view(called@) == called_upto(index@, k as int),
        decreases index.defs@.len() - k,
    {
        assert(index@.defs[k as int] == index.defs@[k as int]@);
        let more = collect_calls(&index.defs[k].body, index);
        append_ids(&mut called, more);
        k = k + 1;
    }
    called
}

/// Sort key of an entry: identity and, for flow order, the function name.
pub open spec fn entry_less(a: (FnIdView, Seq<char>), b: (FnIdView, Seq<char>), by_name: bool) -> bool {
    if a.0.file != b.0.file {
        seq_less(a.0.file, b.0.file)
    } else if by_name && a.1 != b.1 {
        seq_less(a.1, b.1)
    } else {
        a.0.start_byte < b.0.start_byte
    }
}

/// `sorted` with `x` placed after every element that does not sort after it.
pub open spec fn insert_entry(sorted: Seq<(FnIdView, Seq<char>)>, x: (FnIdView, Seq<char>), by_name: bool) -> Seq<(FnIdView, Seq<char>)>
    decreases sorted.len(),
{
    if sorted.len() == 0 {
        seq![x]
    } else if entry_less(x, sorted.last(), by_name) {
        insert_entry(sorted.drop_last(), x, by_name).push(sorted.last())
    } else {
        sorted.push(x)
    }
}

/// Stable sort by file, then (when `by_name`) name, then start offset.
pub open spec fn sort_entries(s: Seq<(FnIdView, Seq<char>)>, by_name: bool) -> Seq<(FnIdView, Seq<char>)>
    decreases s.len(),
{
    if s.len() == 0 {
        s
    } else {
        insert_entry(sort_entries(s.drop_last(), by_name), s.last(), by_name)
    }
}

pub open spec fn keyed_view(v: Seq<(FnId, String)>) -> Seq<(FnIdView, Seq<char>)> {
    v.map_values(|p: (FnId, String)| (p.0@, p.1@))
}

fn entry_less_exec(a: &(FnId, String), b: &(FnId, String), by_name: bool) -> (r: bool)
    ensures
        r == entry_less((a.0@, a.1@), (b.0@, b.1@), by_name),
{
    if !str_eq(a.0.file.as_str(), b.0.file.as_str()) {
        str_less(a.0.file.as_str(), b.0.file.as_str())
    } else if by_name && !str_eq(a.1.as_str(), b.1.as_str()) {
        str_less(a.1.as_str(), b.1.as_str())
    } else {
        a.0.start_byte < b.0.start_byte
    }
}

proof fn lemma_insert_at(s: Seq<(FnIdView, Seq<char>)>, x: (FnIdView, Seq<char>), by_name: bool, p: int)
    requires
        0 <= p <= s.len(),
        forall|q: int| p <= q < s.len() ==> entry_less(x, #[trigger] s[q], by_name),
        p > 0 ==> !entry_less(x, s[p - 1], by_name),
    ensures
        insert_entry(s, x, by_name) == s.take(p).push(x) + s.skip(p),
    decreases s.len(),
{
    if s.len() == 0 {
        assert(s.take(p).push(x) + s.skip(p) =~= seq![x]);
    } else if p == s.len() {
        assert(s.take(p).push(x) + s.skip(p) =~= s.push(x));
    } else {
        assert(entry_less(x, s[s.len() - 1], by_name));
        let t = s.drop_last();
        assert forall|q: int| p <= q < t.len() implies entry_less(x, #[trigger] t[q], by_name) by {
            assert(t[q] == s[q]);
        }
        if p > 0 {
            assert(t[p - 1] == s[p - 1]);
        }
        lemma_insert_at(t, x, by_name, p);
        assert(t.take(p).push(x) + t.skip(p) + seq![s.last()] =~= s.take(p).push(x) + s.skip(p));
        assert(insert_entry(t, x, by_name).push(s.last()) =~= insert_entry(t, x, by_name) + seq![s.last()]);
    }
}

/// Sorts entries by file, then (when `by_name`) name, then start offset,
/// keeping the order of equal keys.
pub(crate) fn sort_keyed(v: Vec<(FnId, String)>, by_name: bool) -> (out: Vec<(FnId, String)>)
    ensures
        keyed_view(out@) == sort_entries(keyed_view(v@), by_name),
{
    let ghost kv = keyed_view(v@);
    let mut out: Vec<(FnId, String)> = Vec::new();
    let mut k: usize = 0;
    assert(kv.take(0) =~= Seq::<(FnIdView, Seq<char>)>::empty());
    assert(keyed_view(out@) =~= Seq::<(FnIdView, Seq<char>)>::empty());
    while k < v.len()
        invariant
            k <= v@.len(),
            kv == keyed_view(v@),
            kv.len() == v@.len(),
            keyed_view(out@) == sort_entries(kv.take(k as int), by_name),
        decreases v@.len() - k,
    {
        let x = (v[k].0.duplicate(), v[k].1.clone());
        let ghost xv = (x.0@, x.1@);
        assert(xv == kv[k as int]);
        let ghost ov = keyed_view(out@);
        let mut p = out.len();
        while p > 0 && entry_less_exec(&x, &out[p - 1], by_name)
            invariant
                p <= out@.len(),
                ov == keyed_view(out@),
                ov.len() == out@.len(),
                xv == (x.0@, x.1@),
                forall|q: int| p <= q < ov.len() ==> entry_less(xv, #[trigger] ov[q], by_name),
            decreases p,
        {
            assert(ov[p - 1] == (out@[p - 1].0@, out@[p - 1].1@));
            p = p - 1;
        }
        proof {
            if p > 0 {
                assert(ov[p - 1] == (out@[p - 1].0@, out@[p - 1].1@));
            }
            lemma_insert_at(ov, xv, by_name, p as int);
            assert(kv.take(k + 1).drop_last() =~= kv.take(k as int));
            assert(kv.take(k + 1).last() == xv);
        }
        out.insert(p, x);
        assert(keyed_view(out@) =~= ov.take(p as int).push(xv) + ov.skip(p as int));
        k = k + 1;
    }
    assert(kv.take(v@.len() as int) =~= kv);
    out
}

/// Identities of the definitions with a body that are not nested in another
/// function, in index order; with `skip_called`, those that `called` holds
/// are left out.
pub open spec fn candidate_ids(defs: Seq<FnDefView>, called: Seq<FnIdView>, skip_called: bool) -> Seq<FnIdView>
    decreases defs.len(),
{
    if defs.len() == 0 {
        Seq::empty()
    } else {
        let d = defs.last();
        candidate_ids(defs.drop_last(), called, skip_called) + if d.has_body && !d.nested && !(
        skip_called && called.contains(d.id)) {
            seq![d.id]
        } else {
            Seq::empty()
        }
    }
}

/// Entry identities before sorting: the uncalled candidates, or every
/// candidate when all are called (a cycle).
pub open spec fn entry_ids(ix: IndexView, called: Seq<FnIdView>) -> Seq<FnIdView> {
    let uncalled = candidate_ids(ix.defs, called, true);
    let all = candidate_ids(ix.defs, Seq::empty(), false);
    if uncalled.len() == 0 && all.len() > 0 {
        all
    } else {
        uncalled
    }
}

pub open spec fn with_blank_names(ids: Seq<FnIdView>) -> Seq<(FnIdView, Seq<char>)> {
    ids.map_values(|id: FnIdView| (id, Seq::<char>::empty()))
}

pub open spec fn first_of(v: Seq<(FnIdView, Seq<char>)>) -> Seq<FnIdView> {
    v.map_values(|p: (FnIdView, Seq<char>)| p.0)
}

/// Entries ordered by file and start offset.
pub open spec fn select_entries_spec(ix: IndexView, called: Seq<FnIdView>) -> Seq<FnIdView> {
    first_of(sort_entries(with_blank_names(entry_ids(ix, called)), false))
}

fn candidates(index: &ResolveIndex, called: &Vec<FnId>, skip_called: bool) -> (out: Vec<FnId>)
    ensures
        ids_view(out@) == candidate_ids(index@.defs, ids_view(called@), skip_called),
{
    let ghost dv = index@.defs;
    let ghost cv = ids_view(called@);
    let mut out: Vec<FnId> = Vec::new();
    let mut k: usize = 0;
    assert(dv.take(0) =~= Seq::<FnDefView>::empty());
    assert(ids_view(out@) =~= Seq::<FnIdView>::empty());
    while k < index.defs.len()
        invariant
            k <= index.defs@.len(),
            dv == index@.defs,
            dv.len() == index.defs@.len(),
            cv == ids_view(called@),
            ids_view(out@) == candidate_ids(dv.take(k as int), cv, skip_called),
        decreases index.defs@.len() - k,
    {
        let d = &index.defs[k];
        assert(dv[k as int] == d@);
        assert(dv.take(k + 1).drop_last() =~= dv.take(k as int));
        assert(dv.take(k + 1).last() == d@);
        let ghost prev = ids_view(out@);
        if d.has_body && !d.nested && !(skip_called && crate::resolve::contains_id(called, &d.id)) {
            out.push(d.id.duplicate());
            assert(ids_view(out@) =~= prev + seq![d@.id]);
        } else {
            assert(ids_view(out@) =~= prev + Seq::<FnIdView>::empty());
        }
        k = k + 1;
    }
    assert(dv.take(index.defs@.len() as int) =~= dv);
    out
}

/// Definitions with a body, not nested, that no call expands to, ordered by
/// file then start offset; when every such definition is called (a cycle),
/// all of them.
pub fn select_entries(index: &ResolveIndex, called: &Vec<FnId>) -> (entries: Vec<FnId>)
    ensures
        ids_view(entries@) == select_entries_spec(index@, ids_view(called@)),
{
    let uncalled = candidates(index, called, true);
    let none: Vec<FnId> = Vec::new();
    assert(ids_view(none@) =~= Seq::<FnIdView>::empty());
    let all = candidates(index, &none, false);
    let chosen = if uncalled.len() == 0 && all.len() > 0 {
        all
    } else {
        uncalled
    };
    let mut keyed: Vec<(FnId, String)> = Vec::new();
    let mut k: usize = 0;
    while k < chosen.len()
        invariant
            k <= chosen@.len(),
            keyed_view(keyed@) == with_blank_names(ids_view(chosen@)).take(k as int),
        decreases chosen@.len() - k,
    {
        let ghost prev = keyed_view(keyed@);
        keyed.push((chosen[k].duplicate(), String::new()));
        assert(keyed_view(keyed@) =~= prev.push((chosen@[k as int]@, Seq::<char>::empty())));
        assert(with_blank_names(ids_view(chosen@)).take(k + 1) =~= with_blank_names(ids_view(chosen@)).take(k as int).push((chosen@[k as int]@, Seq::<char>::empty())));
        k = k + 1;
    }
    assert(with_blank_names(ids_view(chosen@)).take(chosen@.len() as int) =~= with_blank_names(ids_view(chosen@)));
    let sorted = sort_keyed(keyed, false);
    let mut entries: Vec<FnId> = Vec::new();
    let mut j: usize = 0;
    while j < sorted.len()
        invariant
            j <= sorted@.len(),
            ids_view(entries@) == first_of(keyed_view(sorted@)).take(j as int),
        decreases sorted@.len() - j,
    {
        let ghost prev = ids_view(entries@);
        entries.push(sorted[j].0.duplicate());
        assert(ids_view(entries@) =~= prev.push(sorted@[j as int].0@));
        assert(first_of(keyed_view(sorted@)).take(j + 1) =~= first_of(keyed_view(sorted@)).take(j as int).push(sorted@[j as int].0@));
        j = j + 1;
    }
    assert(first_of(keyed_view(sorted@)).take(sorted@.len() as int) =~= first_of(keyed_view(sorted@)));
    entries
}

/// Inserting an entry is inserting by `entry_less` in the stable order.
proof fn lemma_insert_entry_is_sorted_insert(sorted: Seq<(FnIdView, Seq<char>)>, x: (FnIdView, Seq<char>), by_name: bool)
    ensures
        insert_entry(sorted, x, by_name) == crate::sort::insert_sorted(
            sorted,
            x,
            |a: (FnIdView, Seq<char>), b: (FnIdView, Seq<char>)| entry_less(a, b, by_name),
        ),
    decreases sorted.len(),
{
    if sorted.len() > 0 {
        lemma_insert_entry_is_sorted_insert(sorted.drop_last(), x, by_name);
    }
}

/// Sorting entries is the stable sort by `entry_less`.
proof fn lemma_sort_entries_is_sorted_by(s: Seq<(FnIdView, Seq<char>)>, by_name: bool)
    ensures
        sort_entries(s, by_name) == crate::sort::sorted_by(
            s,
            |a: (FnIdView, Seq<char>), b: (FnIdView, Seq<char>)| entry_less(a, b, by_name),
        ),
    decreases s.len(),
{
    if s.len() > 0 {
        lemma_sort_entries_is_sorted_by(s.drop_last(), by_name);
        lemma_insert_entry_is_sorted_insert(sort_entries(s.drop_last(), by_name), s.last(), by_name);
    }
}

/// `candidate_ids` holds exactly the identities of the bodied, non-nested
/// definitions (less the called ones, with `skip_called`).
proof fn lemma_candidate_ids_contains(defs: Seq<FnDefView>, called: Seq<FnIdView>, skip_called: bool, x: FnIdView)
    ensures
        candidate_ids(defs, called, skip_called).contains(x) <==> (!(skip_called && called.contains(x))
            && exists|j: int| 0 <= j < defs.len() && #[trigger] defs[j].has_body && !defs[j].nested && defs[j].id == x),
    decreases defs.len(),
{
    broadcast use vstd::seq_lib::lemma_seq_concat_contains_all_elements;

    if defs.len() > 0 {
        let t = defs.drop_last();
        let d = defs.last();
        lemma_candidate_ids_contains(t, called, skip_called, x);
        let rest = candidate_ids(t, called, skip_called);
        let tail: Seq<FnIdView> = if d.has_body && !d.nested && !(skip_called && called.contains(d.id)) {
            seq![d.id]
        } else {
            Seq::empty()
        };
        assert(candidate_ids(defs, called, skip_called) == rest + tail);
        if tail.len() > 0 {
            assert(tail[0] == d.id);
            assert(tail.contains(x) <==> d.id == x);
        }
        if exists|j: int| 0 <= j < t.len() && #[trigger] t[j].has_body && !t[j].nested && t[j].id == x {
            let j = choose|j: int| 0 <= j < t.len() && #[trigger] t[j].has_body && !t[j].nested && t[j].id == x;
            assert(defs[j] == t[j]);
        }
        if exists|j: int| 0 <= j < defs.len() && #[trigger] defs[j].has_body && !defs[j].nested && defs[j].id == x {
            let j = choose|j: int| 0 <= j < defs.len() && #[trigger] defs[j].has_body && !defs[j].nested && defs[j].id == x;
            if j < t.len() {
                assert(t[j] == defs[j]);
            } else {
                assert(defs[j] == d);
            }
        }
    }
}

/// The selected entries are the entry identities, reordered.
proof fn lemma_select_entries_members(ix: IndexView, called: Seq<FnIdView>, e: FnIdView)
    ensures
        select_entries_spec(ix, called).len() == entry_ids(ix, called).len(),
        select_entries_spec(ix, called).contains(e) <==> entry_ids(ix, called).contains(e),
{
    let ids = entry_ids(ix, called);
    let w = with_blank_names(ids);
    let less = |a: (FnIdView, Seq<char>), b: (FnIdView, Seq<char>)| entry_less(a, b, false);
    let sorted = sort_entries(w, false);
    let r = select_entries_spec(ix, called);
    lemma_sort_entries_is_sorted_by(w, false);
    let blank = Seq::<char>::empty();
    crate::sort::lemma_sorted_by_contains(w, less, (e, blank));
    assert(r.len() == sorted.len());
    if r.contains(e) {
        let k = choose|k: int| 0 <= k < r.len() && r[k] == e;
        let y = sorted[k];
        assert(r[k] == y.0);
        crate::sort::lemma_sorted_by_contains(w, less, y);
        assert(sorted.contains(y));
        let m = choose|m: int| 0 <= m < w.len() && w[m] == y;
        assert(w[m] == (ids[m], blank));
        assert(ids.contains(e));
    }
    if ids.contains(e) {
        let m = choose|m: int| 0 <= m < ids.len() && ids[m] == e;
        assert(w[m] == (e, blank));
        assert(w.contains((e, blank)));
        let k = choose|k: int| 0 <= k < sorted.len() && sorted[k] == (e, blank);
        assert(r[k] == e);
        assert(r.contains(e));
    }
}

/// Law: whenever the index holds a definition with a body that is not nested
/// in another function, at least one entry point is selected.
pub proof fn law_entries_exist(ix: IndexView, called: Seq<FnIdView>, j: int)
    requires
        0 <= j < ix.defs.len(),
        ix.defs[j].has_body,
        !ix.defs[j].nested,
    ensures
        select_entries_spec(ix, called).len() > 0,
{
    let e = ix.defs[j].id;
    lemma_candidate_ids_contains(ix.defs, Seq::empty(), false, e);
    lemma_select_entries_members(ix, called, e);
    assert(candidate_ids(ix.defs, Seq::empty(), false).contains(e));
}

/// Law: every entry point is the identity of a definition with a body that is
/// not nested; and while some such definition is not a call target, no entry
/// point is a call target.
pub proof fn law_entry_is_bodied_top_level(ix: IndexView, called: Seq<FnIdView>, e: FnIdView)
    requires
        select_entries_spec(ix, called).contains(e),
    ensures
        exists|j: int|
            0 <= j < ix.defs.len() && #[trigger] ix.defs[j].has_body && !ix.defs[j].nested && ix.defs[j].id == e,
        (exists|j: int|
            0 <= j < ix.defs.len() && #[trigger] ix.defs[j].has_body && !ix.defs[j].nested && !called.contains(
                ix.defs[j].id,
            )) ==> !called.contains(e),
{
    lemma_select_entries_members(ix, called, e);
    let uncalled = candidate_ids(ix.defs, called, true);
    let all = candidate_ids(ix.defs, Seq::empty(), false);
    lemma_candidate_ids_contains(ix.defs, called, true, e);
    lemma_candidate_ids_contains(ix.defs, Seq::empty(), false, e);
    if exists|j: int|
        0 <= j < ix.defs.len() && #[trigger] ix.defs[j].has_body && !ix.defs[j].nested && !called.contains(
            ix.defs[j].id,
        ) {
        let j = choose|j: int|
            0 <= j < ix.defs.len() && #[trigger] ix.defs[j].has_body && !ix.defs[j].nested && !called.contains(
                ix.defs[j].id,
            );
        lemma_candidate_ids_contains(ix.defs, called, true, ix.defs[j].id);
        assert(uncalled.contains(ix.defs[j].id));
        assert(uncalled.len() > 0);
    }
}

/// Law: a definition with a body, not nested, that no call reaches is an
/// entry point.
pub proof fn law_uncalled_is_entry(ix: IndexView, called: Seq<FnIdView>, j: int)
    requires
        0 <= j < ix.defs.len(),
        ix.defs[j].has_body,
        !ix.defs[j].nested,
        !called.contains(ix.defs[j].id),
    ensures
        select_entries_spec(ix, called).contains(ix.defs[j].id),
{
    let e = ix.defs[j].id;
    lemma_candidate_ids_contains(ix.defs, called, true, e);
    lemma_select_entries_members(ix, called, e);
    assert(candidate_ids(ix.defs, called, true).contains(e));
}

/// Law: when every definition with a body that is not nested is a call
/// target (the calls form cycles), every one of them is an entry point.
pub proof fn law_cycle_keeps_every_candidate(ix: IndexView, called: Seq<FnIdView>, j: int)
    requires
        0 <= j < ix.defs.len(),
        ix.defs[j].has_body,
        !ix.defs[j].nested,
        forall|k: int|
            0 <= k < ix.defs.len() && #[trigger] ix.defs[k].has_body && !ix.defs[k].nested ==> called.contains(
                ix.defs[k].id,
            ),
    ensures
        select_entries_spec(ix, called).contains(ix.defs[j].id),
{
    let e = ix.defs[j].id;
    let uncalled = candidate_ids(ix.defs, called, true);
    lemma_candidate_ids_contains(ix.defs, Seq::empty(), false, e);
    lemma_select_entries_members(ix, called, e);
    if uncalled.len() > 0 {
        let x = uncalled[0];
        assert(uncalled.contains(x));
        lemma_candidate_ids_contains(ix.defs, called, true, x);
    }
    assert(candidate_ids(ix.defs, Seq::empty(), false).contains(e));
}

/// Ordering by file, then start offset, is a strict weak order.
proof fn lemma_entry_order_weak()
    ensures
        crate::sort::weak_order(|a: (FnIdView, Seq<char>), b: (FnIdView, Seq<char>)| entry_less(a, b, false)),
{
    let less = |a: (FnIdView, Seq<char>), b: (FnIdView, Seq<char>)| entry_less(a, b, false);
    assert forall|x: (FnIdView, Seq<char>), y: (FnIdView, Seq<char>)| #[trigger] less(x, y) implies !less(y, x) by {
        if x.0.file != y.0.file {
            crate::text::lemma_seq_less_asym(x.0.file, y.0.file);
        }
    }
    assert forall|x: (FnIdView, Seq<char>), y: (FnIdView, Seq<char>), z: (FnIdView, Seq<char>)|
        #![trigger less(x, z), less(x, y)]
        #![trigger less(x, z), less(y, z)]
        less(x, z) implies less(x, y) || less(y, z) by {
        crate::text::lemma_seq_order(x.0.file, y.0.file, z.0.file);
    }
}

/// Law: the entry points come in file order, and within one file in order
/// of their start offsets.
pub proof fn law_entries_in_file_order(ix: IndexView, called: Seq<FnIdView>, a: int, b: int)
    requires
        0 <= a < b < select_entries_spec(ix, called).len(),
    ensures
        ({
            let r = select_entries_spec(ix, called);
            if r[a].file == r[b].file {
                r[a].start_byte <= r[b].start_byte
            } else {
                seq_less(r[a].file, r[b].file)
            }
        }),
{
    let w = with_blank_names(entry_ids(ix, called));
    let less = |p: (FnIdView, Seq<char>), q: (FnIdView, Seq<char>)| entry_less(p, q, false);
    let sorted = sort_entries(w, false);
    let r = select_entries_spec(ix, called);
    lemma_sort_entries_is_sorted_by(w, false);
    lemma_entry_order_weak();
    crate::sort::lemma_sorted_by_sorted(w, less);
    assert(r[a] == sorted[a].0 && r[b] == sorted[b].0);
    assert(!less(sorted[b], sorted[a]));
    if r[a].file != r[b].file {
        crate::text::lemma_seq_less_total(r[a].file, r[b].file);
    }
}

} // verus!
