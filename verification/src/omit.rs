//! File-scoped `use` bindings and the omit list (logging and printing calls).
use vstd::prelude::*;

use crate::ir::{CallKind, CallKindView, CallSite, CallSiteView};
use crate::lang::rust::{path_segments, path_segments_of};
use crate::syntax::{
    field_child, first_named_from, lemma_field_child_from, lemma_first_named_from,
    lemma_subtree_end_bounds, subtree_end, SyntaxTree, TreeView,
};
use crate::text::str_eq;

verus! {

/// Copy of a list of strings.
pub fn copy_strings(v: &Vec<String>) -> (r: Vec<String>)
    ensures
        r.deep_view() == v.deep_view(),
{
    let mut r: Vec<String> = Vec::new();
    let mut k: usize = 0;
    while k < v.len()
        invariant
            k <= v@.len(),
            r.deep_view() == v.deep_view().take(k as int),
        decreases v@.len() - k,
    {
        let ghost prev = r.deep_view();
        let item = v[k].clone();
        r.push(item);
        assert(r.deep_view() =~= prev.push(v@[k as int]@));
        assert(v.deep_view().take(k + 1) =~= v.deep_view().take(k as int).push(v@[k as int]@));
        k = k + 1;
    }
    assert(v.deep_view().take(v@.len() as int) =~= v.deep_view());
    r
}

/// `a` followed by `b`.
pub fn concat_strings(a: &Vec<String>, b: &Vec<String>) -> (r: Vec<String>)
    ensures
        r.deep_view() == a.deep_view() + b.deep_view(),
{
    let mut r = copy_strings(a);
    let mut k: usize = 0;
    while k < b.len()
        invariant
            k <= b@.len(),
            r.deep_view() == a.deep_view() + b.deep_view().take(k as int),
        decreases b@.len() - k,
    {
        let ghost prev = r.deep_view();
        let item = b[k].clone();
        r.push(item);
        assert(r.deep_view() =~= prev.push(b@[k as int]@));
        assert(b.deep_view().take(k + 1) =~= b.deep_view().take(k as int).push(b@[k as int]@));
        assert(a.deep_view() + b.deep_view().take(k + 1) =~= (a.deep_view() + b.deep_view().take(k as int)).push(b@[k as int]@));
        k = k + 1;
    }
    assert(b.deep_view().take(b@.len() as int) =~= b.deep_view());
    r
}

/// File-scoped `use` bindings.
#[derive(Debug)]
pub struct UseMap {
    /// Local name and the path it was bound to, in binding order.
    bindings: Vec<(String, Vec<String>)>,
    /// `use foo::*;` prefixes.
    globs: Vec<Vec<String>>,
}

pub struct UseMapView {
    pub bindings: Seq<(Seq<char>, Seq<Seq<char>>)>,
    pub globs: Seq<Seq<Seq<char>>>,
}

impl View for UseMap {
    type V = UseMapView;

    closed spec fn view(&self) -> UseMapView {
        UseMapView {
            bindings: self.bindings@.map_values(
                |b: (String, Vec<String>)| (b.0@, b.1.deep_view()),
            ),
            globs: self.globs.deep_view(),
        }
    }
}

/// Path bound to `name` by the latest binding of that name.
pub open spec fn bound_path(bs: Seq<(Seq<char>, Seq<Seq<char>>)>, name: Seq<char>) -> Option<Seq<Seq<char>>>
    decreases bs.len(),
{
    if bs.len() == 0 {
        None
    } else if bs.last().0 == name {
        Some(bs.last().1)
    } else {
        bound_path(bs.drop_last(), name)
    }
}

/// Named `use` rewrite of the first segment of `path`.
pub open spec fn rewritten(u: UseMapView, path: Seq<Seq<char>>) -> Seq<Seq<char>> {
    if path.len() == 0 {
        Seq::empty()
    } else {
        match bound_path(u.bindings, path[0]) {
            Some(bound) => bound + path.skip(1),
            None => path,
        }
    }
}

pub open spec fn empty_uses() -> UseMapView {
    UseMapView { bindings: Seq::empty(), globs: Seq::empty() }
}

impl Default for UseMap {
    fn default() -> (m: UseMap)
        ensures
            m@ == empty_uses(),
    {
        UseMap::new()
    }
}

impl UseMap {
    pub fn new() -> (m: UseMap)
        ensures
            m@ == empty_uses(),
    {
        let m = UseMap { bindings: Vec::new(), globs: Vec::new() };
        assert(m@.bindings =~= Seq::<(Seq<char>, Seq<Seq<char>>)>::empty());
        assert(m@.globs =~= Seq::<Seq<Seq<char>>>::empty());
        m
    }

    /// Binds `name` to `path`, replacing an earlier binding of `name`.
    pub fn insert_binding(&mut self, name: String, path: Vec<String>)
        ensures
            final(self)@ == (UseMapView {
                bindings: old(self)@.bindings.push((name@, path.deep_view())),
                globs: old(self)@.globs,
            }),
    {
        self.bindings.push((name, path));
        assert(self@.bindings =~= old(self)@.bindings.push((name@, path.deep_view())));
    }

    /// Records a `use prefix::*;`.
    pub fn push_glob(&mut self, prefix: Vec<String>)
        ensures
            final(self)@ == (UseMapView {
                bindings: old(self)@.bindings,
                globs: old(self)@.globs.push(prefix.deep_view()),
            }),
    {
        self.globs.push(prefix);
        assert(self@.globs =~= old(self)@.globs.push(prefix.deep_view()));
        assert(self@.bindings =~= old(self)@.bindings);
    }

    /// A copy of this map.
    pub fn duplicate(&self) -> (m: UseMap)
        ensures
            m@ == self@,
    {
        let mut bindings: Vec<(String, Vec<String>)> = Vec::new();
        let mut k: usize = 0;
        while k < self.bindings.len()
            invariant
                k <= self.bindings@.len(),
                bindings@.map_values(|b: (String, Vec<String>)| (b.0@, b.1.deep_view()))
                    == self@.bindings.take(k as int),
            decreases self.bindings@.len() - k,
        {
            let (name, path) = &self.bindings[k];
            let ghost prev = bindings@;
            let item = (name.clone(), copy_strings(path));
            bindings.push(item);
            assert(bindings@ == prev.push(item));
            assert(self@.bindings.take(k + 1) =~= self@.bindings.take(k as int).push(self@.bindings[k as int]));
            assert(bindings@.map_values(|b: (String, Vec<String>)| (b.0@, b.1.deep_view()))
                =~= self@.bindings.take(k + 1));
            k = k + 1;
        }
        let mut globs: Vec<Vec<String>> = Vec::new();
        let mut g: usize = 0;
        while g < self.globs.len()
            invariant
                g <= self.globs@.len(),
                globs.deep_view() == self@.globs.take(g as int),
            decreases self.globs@.len() - g,
        {
            let ghost prev = globs.deep_view();
            let item = copy_strings(&self.globs[g]);
            globs.push(item);
            assert(globs.deep_view() =~= prev.push(item.deep_view()));
            assert(self@.globs.take(g + 1) =~= self@.globs.take(g as int).push(self@.globs[g as int]));
            g = g + 1;
        }
        let m = UseMap { bindings, globs };
        assert(m@.bindings =~= self@.bindings);
        assert(m@.globs =~= self@.globs);
        m
    }

    /// Named `use` rewrite of the first segment. Globs are not applied.
    pub fn rewrite_named(&self, path: &Vec<String>) -> (r: Vec<String>)
        ensures
            r.deep_view() == rewritten(self@, path.deep_view()),
    {
        if path.len() == 0 {
            return Vec::new();
        }
        match self.binding(path[0].as_str()) {
            Some(bound) => {
                let mut out = copy_strings(bound);
                let mut k: usize = 1;
                while k < path.len()
                    invariant
                        1 <= k <= path@.len(),
                        out.deep_view() == bound.deep_view() + path.deep_view().subrange(1, k as int),
                    decreases path@.len() - k,
                {
                    let ghost prev = out.deep_view();
                    let item = path[k].clone();
                    out.push(item);
                    assert(out.deep_view() =~= prev.push(path@[k as int]@));
                    assert(bound.deep_view() + path.deep_view().subrange(1, k + 1) =~= (bound.deep_view() + path.deep_view().subrange(1, k as int)).push(path@[k as int]@));
                    k = k + 1;
                }
                assert(path.deep_view().subrange(1, path@.len() as int) =~= path.deep_view().skip(1));
                out
            },
            None => copy_strings(path),
        }
    }

    /// Glob prefixes (`use foo::*;`), in order.
    pub fn globs(&self) -> (g: &Vec<Vec<String>>)
        ensures
            g.deep_view() == self@.globs,
    {
        &self.globs
    }

    /// Named (non-glob) binding for `name`, if any.
    pub fn binding(&self, name: &str) -> (r: Option<&Vec<String>>)
        ensures
            match r {
                Some(p) => bound_path(self@.bindings, name@) == Some(p.deep_view()),
                None => bound_path(self@.bindings, name@) is None,
            },
    {
        let ghost bs = self@.bindings;
        let mut k = self.bindings.len();
        assert(bs.take(k as int) =~= bs);
        while k > 0
            invariant
                k <= self.bindings@.len(),
                bs == self@.bindings,
                bound_path(bs, name@) == bound_path(bs.take(k as int), name@),
            decreases k,
        {
            assert(bs.take(k as int).drop_last() =~= bs.take(k - 1));
            if str_eq(self.bindings[k - 1].0.as_str(), name) {
                return Some(&self.bindings[k - 1].1);
            }
            k = k - 1;
        }
        None
    }
}

/// Macro names whose calls are printing or debugging output.
pub open spec fn is_omitted_macro(name: Seq<char>) -> bool {
    name == "println"@ || name == "eprintln"@ || name == "print"@ || name == "eprint"@ || name
        == "dbg"@
}

/// Syntactic omit rule: printing macros, and calls whose (use-rewritten)
/// path starts with `log` or `tracing`. Method calls are never omitted.
pub open spec fn omit_syntactic(site: CallSiteView, uses: UseMapView) -> bool {
    match site.kind {
        CallKindView::Method { .. } => false,
        CallKindView::Free { path } => {
            (site.is_macro && path.len() > 0 && is_omitted_macro(path.last())) || {
                let rw = rewritten(uses, path);
                rw.len() > 0 && (rw[0] == "log"@ || rw[0] == "tracing"@)
            }
        },
    }
}

/// Full omit rule: a call with a local expand target is never omitted.
pub open spec fn omitted(site: CallSiteView, uses: UseMapView, has_local_target: bool) -> bool {
    !has_local_target && omit_syntactic(site, uses)
}

/// Law: a call whose target is a function of the analyzed set is never
/// omitted, whatever its name.
pub proof fn law_local_target_kept(site: CallSiteView, uses: UseMapView)
    ensures
        !omitted(site, uses, true),
{
}

/// Law: logging is left out of outlines: without a local target, a
/// printing macro call and a free call whose path, once `use` rewriting is
/// applied, starts with `log` or `tracing` are omitted.
pub proof fn law_logging_omitted(site: CallSiteView, uses: UseMapView)
    requires
        site.kind is Free,
        (site.is_macro && site.kind->path.len() > 0 && is_omitted_macro(site.kind->path.last())) || (
        rewritten(uses, site.kind->path).len() > 0 && (rewritten(uses, site.kind->path)[0] == "log"@
            || rewritten(uses, site.kind->path)[0] == "tracing"@)),
    ensures
        omitted(site, uses, false),
{
}

/// Law: the omit list is exactly the printing macros `println!`, `eprintln!`,
/// `print!`, `eprint!` and `dbg!` (by the last segment of the macro path) and
/// the free calls whose path, once `use` rewriting is applied, starts with
/// `log` or `tracing`; every other call without a local target is kept, and
/// a method call is never omitted.
pub proof fn law_omit_list_exact(site: CallSiteView, uses: UseMapView)
    ensures
        omitted(site, uses, false) <==> match site.kind {
            CallKindView::Method { .. } => false,
            CallKindView::Free { path } => (site.is_macro && path.len() > 0 && (path.last() == "println"@
                || path.last() == "eprintln"@ || path.last() == "print"@ || path.last() == "eprint"@
                || path.last() == "dbg"@)) || (rewritten(uses, path).len() > 0 && (rewritten(uses, path)[0]
                == "log"@ || rewritten(uses, path)[0] == "tracing"@)),
        },
{
}

/// Law: the latest binding of a name decides what the name stands for.
pub proof fn law_latest_binding_wins(u: UseMapView, name: Seq<char>, path: Seq<Seq<char>>)
    ensures
        bound_path(u.bindings.push((name, path)), name) == Some(path),
{
    assert(u.bindings.push((name, path)).last() == (name, path));
}

/// Syntactic omit (the resolved check is [`should_omit_resolved`]).
pub fn should_omit(site: &CallSite, uses: &UseMap) -> (r: bool)
    ensures
        r == omitted(site@, uses@, false),
{
    should_omit_resolved(site, uses, false)
}

/// Full omit list: a local expand target is never omitted.
pub fn should_omit_resolved(site: &CallSite, uses: &UseMap, has_local_target: bool) -> (r: bool)
    ensures
        r == omitted(site@, uses@, has_local_target),
{
    if has_local_target {
        return false;
    }
    should_omit_syntactic(site, uses)
}

/// Omit check made while extracting, before resolution.
pub fn should_omit_at_extract(site: &CallSite, uses: &UseMap) -> (r: bool)
    ensures
        r == omitted(site@, uses@, false),
{
    should_omit(site, uses)
}

fn should_omit_syntactic(site: &CallSite, uses: &UseMap) -> (r: bool)
    ensures
        r == omit_syntactic(site@, uses@),
{
    let path = match &site.kind {
        CallKind::Free { path } => path,
        CallKind::Method { .. } => return false,
    };
    if site.is_macro && path.len() > 0 {
        let last = path[path.len() - 1].as_str();
        if str_eq(last, "println") || str_eq(last, "eprintln") || str_eq(last, "print") || str_eq(
            last,
            "eprint",
        ) || str_eq(last, "dbg") {
            return true;
        }
    }
    let rw = uses.rewrite_named(path);
    rw.len() > 0 && (str_eq(rw[0].as_str(), "log") || str_eq(rw[0].as_str(), "tracing"))
}

/// One binding introduced by a `use` clause.
pub enum Binding {
    Named { name: String, path: Vec<String> },
    Glob { prefix: Vec<String> },
}

pub enum BindingView {
    Named { name: Seq<char>, path: Seq<Seq<char>> },
    Glob { prefix: Seq<Seq<char>> },
}

impl View for Binding {
    type V = BindingView;

    open spec fn view(&self) -> BindingView {
        match self {
            Binding::Named { name, path } => BindingView::Named { name: name@, path: path.deep_view() },
            Binding::Glob { prefix } => BindingView::Glob { prefix: prefix.deep_view() },
        }
    }
}

pub open spec fn bindings_view(v: Seq<Binding>) -> Seq<BindingView> {
    v.map_values(|b: Binding| b@)
}

/// Bindings of the `use` clause at node `i`, under path `prefix`.
pub open spec fn use_clause(t: TreeView, i: int, prefix: Seq<Seq<char>>) -> Seq<BindingView>
    decreases t.len() - i, 0int,
{
    let r = t.recs();
    if i < 0 || i >= t.len() {
        Seq::empty()
    } else {
        let k = r[i].kind;
        proof {
            lemma_subtree_end_bounds(r, i);
            lemma_field_child_from(r, subtree_end(r, i), i + 1, "path"@);
            lemma_field_child_from(r, subtree_end(r, i), i + 1, "list"@);
        }
        if k == "identifier"@ || k == "crate"@ || k == "self"@ || k == "super"@ || k
            == "metavariable"@ {
            let seg = t.node_text(i);
            if seg == "self"@ && prefix.len() > 0 {
                seq![BindingView::Named { name: prefix.last(), path: prefix }]
            } else {
                seq![BindingView::Named { name: seg, path: prefix.push(seg) }]
            }
        } else if k == "scoped_identifier"@ {
            let path = prefix + path_segments_of(t, i);
            if path.len() == 0 {
                Seq::empty()
            } else {
                seq![BindingView::Named { name: path.last(), path }]
            }
        } else if k == "use_as_clause"@ {
            match (field_child(r, i, "path"@), field_child(r, i, "alias"@)) {
                (Some(p), Some(a)) => {
                    let path = if t.node_text(p) == "self"@ && prefix.len() > 0 {
                        prefix
                    } else {
                        prefix + path_segments_of(t, p)
                    };
                    seq![BindingView::Named { name: t.node_text(a), path }]
                },
                _ => Seq::empty(),
            }
        } else if k == "use_list"@ {
            use_list_from(t, subtree_end(r, i), i + 1, prefix)
        } else if k == "scoped_use_list"@ {
            let np = prefix + match field_child(r, i, "path"@) {
                Some(p) => path_segments_of(t, p),
                None => Seq::empty(),
            };
            match field_child(r, i, "list"@) {
                Some(l) => use_clause(t, l, np),
                None => Seq::empty(),
            }
        } else if k == "use_wildcard"@ {
            proof {
                lemma_first_named_from(r, subtree_end(r, i), i + 1);
            }
            let gp = prefix + match first_named_from(r, subtree_end(r, i), i + 1) {
                Some(p) => path_segments_of(t, p),
                None => Seq::empty(),
            };
            seq![BindingView::Glob { prefix: gp }]
        } else {
            Seq::empty()
        }
    }
}

/// Bindings of the named children in `[k, e)` of a `use_list`.
pub open spec fn use_list_from(t: TreeView, e: int, k: int, prefix: Seq<Seq<char>>) -> Seq<BindingView>
    decreases t.len() - k, 1int,
{
    let r = t.recs();
    if k < 0 || k >= e || k >= t.len() {
        Seq::empty()
    } else {
        proof {
            lemma_subtree_end_bounds(r, k);
        }
        (if r[k].named {
            use_clause(t, k, prefix)
        } else {
            Seq::empty()
        }) + use_list_from(t, e, subtree_end(r, k), prefix)
    }
}

/// Bindings of every `use` declaration at or below node `i`, in source order.
pub open spec fn use_decls(t: TreeView, i: int) -> Seq<BindingView>
    decreases t.len() - i, 0int,
{
    let r = t.recs();
    if i < 0 || i >= t.len() {
        Seq::empty()
    } else if r[i].kind == "ERROR"@ {
        Seq::empty()
    } else if r[i].kind == "use_declaration"@ {
        proof {
            lemma_subtree_end_bounds(r, i);
            lemma_field_child_from(r, subtree_end(r, i), i + 1, "argument"@);
        }
        match field_child(r, i, "argument"@) {
            Some(a) => use_clause(t, a, Seq::empty()),
            None => Seq::empty(),
        }
    } else {
        proof {
            lemma_subtree_end_bounds(r, i);
        }
        use_decls_from(t, subtree_end(r, i), i + 1)
    }
}

pub open spec fn use_decls_from(t: TreeView, e: int, k: int) -> Seq<BindingView>
    decreases t.len() - k, 1int,
{
    let r = t.recs();
    if k < 0 || k >= e || k >= t.len() {
        Seq::empty()
    } else {
        proof {
            lemma_subtree_end_bounds(r, k);
        }
        (if r[k].named {
            use_decls(t, k)
        } else {
            Seq::empty()
        }) + use_decls_from(t, e, subtree_end(r, k))
    }
}

/// `u` after recording each binding of `bs` in order.
pub open spec fn apply_bindings(u: UseMapView, bs: Seq<BindingView>) -> UseMapView
    decreases bs.len(),
{
    if bs.len() == 0 {
        u
    } else {
        let u2 = apply_bindings(u, bs.drop_last());
        match bs.last() {
            BindingView::Named { name, path } => UseMapView {
                bindings: u2.bindings.push((name, path)),
                globs: u2.globs,
            },
            BindingView::Glob { prefix } => UseMapView {
                bindings: u2.bindings,
                globs: u2.globs.push(prefix),
            },
        }
    }
}

/// Use map of a parsed Rust file.
pub open spec fn rust_uses(t: TreeView) -> UseMapView {
    apply_bindings(empty_uses(), use_decls(t, 0))
}

pub(crate) fn push_binding(out: &mut Vec<Binding>, b: Binding)
    ensures
        bindings_view(final(out)@) == bindings_view(old(out)@).push(b@),
{
    out.push(b);
    assert(bindings_view(out@) =~= bindings_view(old(out)@).push(b@));
}

pub(crate) fn append_bindings(out: &mut Vec<Binding>, more: Vec<Binding>)
    ensures
        bindings_view(final(out)@) == bindings_view(old(out)@) + bindings_view(more@),
{
    let mut more = more;
    let ghost a = bindings_view(out@);
    let ghost b = bindings_view(more@);
    out.append(&mut more);
    assert(bindings_view(out@) =~= a + b);
}

fn parse_use_clause(t: &SyntaxTree, i: usize, prefix: &Vec<String>) -> (out: Vec<Binding>)
    requires
        t.wf(),
        i < t.len(),
    ensures
        bindings_view(out@) == use_clause(t@, i as int, prefix.deep_view()),
    decreases t.len() - i, 0int,
{
    let ghost r = t.recs();
    let ghost pv = prefix.deep_view();
    let k = t.kind(i);
    let mut out: Vec<Binding> = Vec::new();
    if str_eq(k, "identifier") || str_eq(k, "crate") || str_eq(k, "self") || str_eq(k, "super")
        || str_eq(k, "metavariable") {
        let seg = t.text_of(i);
        if str_eq(seg.as_str(), "self") && prefix.len() > 0 {
            let name = prefix[prefix.len() - 1].clone();
            push_binding(&mut out, Binding::Named { name, path: copy_strings(prefix) });
        } else {
            let mut path = copy_strings(prefix);
            let ghost p0 = path.deep_view();
            path.push(seg.clone());
            assert(path.deep_view() =~= p0.push(seg@));
            push_binding(&mut out, Binding::Named { name: seg, path });
        }
        assert(bindings_view(out@) =~= use_clause(t@, i as int, pv));
    } else if str_eq(k, "scoped_identifier") {
        let segs = path_segments(t, i);
        let path = concat_strings(prefix, &segs);
        if path.len() > 0 {
            let name = path[path.len() - 1].clone();
            push_binding(&mut out, Binding::Named { name, path });
        }
        assert(bindings_view(out@) =~= use_clause(t@, i as int, pv));
    } else if str_eq(k, "use_as_clause") {
        match (t.child_by_field(i, "path"), t.child_by_field(i, "alias")) {
            (Some(p), Some(a)) => {
                let ptext = t.text_of(p);
                let path = if str_eq(ptext.as_str(), "self") && prefix.len() > 0 {
                    copy_strings(prefix)
                } else {
                    let segs = path_segments(t, p);
                    concat_strings(prefix, &segs)
                };
                push_binding(&mut out, Binding::Named { name: t.text_of(a), path });
            },
            _ => {},
        }
        assert(bindings_view(out@) =~= use_clause(t@, i as int, pv));
    } else if str_eq(k, "use_list") {
        let e = t.end_of(i);
        let mut j = i + 1;
        while j < e
            invariant
                t.wf(),
                r == t.recs(),
                pv == prefix.deep_view(),
                i < j <= t.len(),
                e == subtree_end(r, i as int),
                e <= t.len(),
                use_list_from(t@, e as int, i + 1, pv) == bindings_view(out@) + use_list_from(t@, e as int, j as int, pv),
            decreases t.len() - j,
        {
            let ghost prev = bindings_view(out@);
            if t.is_named(j) {
                let more = parse_use_clause(t, j, prefix);
                append_bindings(&mut out, more);
            }
            let nj = t.end_of(j);
            proof {
                lemma_subtree_end_bounds(r, j as int);
                let here = if r[j as int].named {
                    use_clause(t@, j as int, pv)
                } else {
                    Seq::<BindingView>::empty()
                };
                assert(use_list_from(t@, e as int, j as int, pv) == here + use_list_from(t@, e as int, nj as int, pv));
                assert(bindings_view(out@) =~= prev + here);
                assert(prev + (here + use_list_from(t@, e as int, nj as int, pv)) =~= (prev + here) + use_list_from(t@, e as int, nj as int, pv));
            }
            j = nj;
        }
        assert(use_list_from(t@, e as int, j as int, pv) =~= Seq::<BindingView>::empty());
        assert(bindings_view(out@) + Seq::<BindingView>::empty() =~= bindings_view(out@));
    } else if str_eq(k, "scoped_use_list") {
        let np = match t.child_by_field(i, "path") {
            Some(p) => {
                let segs = path_segments(t, p);
                concat_strings(prefix, &segs)
            },
            None => {
                let c = copy_strings(prefix);
                assert(c.deep_view() =~= pv + Seq::<Seq<char>>::empty());
                c
            },
        };
        match t.child_by_field(i, "list") {
            Some(l) => {
                out = parse_use_clause(t, l, &np);
            },
            None => {},
        }
        assert(bindings_view(out@) =~= use_clause(t@, i as int, pv));
    } else if str_eq(k, "use_wildcard") {
        let gp = match t.first_named(i) {
            Some(p) => {
                let segs = path_segments(t, p);
                concat_strings(prefix, &segs)
            },
            None => {
                let c = copy_strings(prefix);
                assert(c.deep_view() =~= pv + Seq::<Seq<char>>::empty());
                c
            },
        };
        push_binding(&mut out, Binding::Glob { prefix: gp });
        assert(bindings_view(out@) =~= use_clause(t@, i as int, pv));
    } else {
        assert(bindings_view(out@) =~= use_clause(t@, i as int, pv));
    }
    out
}


/// Applying `a` then `b` is applying `a + b`.
pub proof fn lemma_apply_bindings_concat(u: UseMapView, a: Seq<BindingView>, b: Seq<BindingView>)
    ensures
        apply_bindings(u, a + b) == apply_bindings(apply_bindings(u, a), b),
    decreases b.len(),
{
    if b.len() == 0 {
        assert(a + b =~= a);
    } else {
        assert((a + b).drop_last() =~= a + b.drop_last());
        assert((a + b).last() == b.last());
        lemma_apply_bindings_concat(u, a, b.drop_last());
    }
}

impl UseMap {
    pub(crate) fn apply_all(&mut self, bs: Vec<Binding>)
        ensures
            final(self)@ == apply_bindings(old(self)@, bindings_view(bs@)),
    {
        let ghost u0 = self@;
        let ghost bv = bindings_view(bs@);
        let mut k: usize = 0;
        assert(bv.take(0) =~= Seq::<BindingView>::empty());
        while k < bs.len()
            invariant
                k <= bs@.len(),
                bv == bindings_view(bs@),
                bv.len() == bs@.len(),
                self@ == apply_bindings(u0, bv.take(k as int)),
            decreases bs@.len() - k,
        {
            assert(bv.take(k + 1).drop_last() =~= bv.take(k as int));
            assert(bv.take(k + 1).last() == bv[k as int]);
            match &bs[k] {
                Binding::Named { name, path } => {
                    self.insert_binding(name.clone(), copy_strings(path));
                },
                Binding::Glob { prefix } => {
                    self.push_glob(copy_strings(prefix));
                },
            }
            k = k + 1;
        }
        assert(bv.take(bs@.len() as int) =~= bv);
    }

    /// Records the bindings of every `use` declaration at or below node `i`.
    fn collect_use_decls(&mut self, t: &SyntaxTree, i: usize)
        requires
            t.wf(),
            i < t.len(),
        ensures
            final(self)@ == apply_bindings(old(self)@, use_decls(t@, i as int)),
        decreases t.len() - i,
    {
        let ghost r = t.recs();
        if t.kind_is(i, "ERROR") {
            return;
        }
        if t.kind_is(i, "use_declaration") {
            proof {
                lemma_subtree_end_bounds(r, i as int);
                lemma_field_child_from(r, subtree_end(r, i as int), i + 1, "argument"@);
            }
            match t.child_by_field(i, "argument") {
                Some(a) => {
                    let empty: Vec<String> = Vec::new();
                    assert(empty.deep_view() =~= Seq::<Seq<char>>::empty());
                    let bs = parse_use_clause(t, a, &empty);
                    self.apply_all(bs);
                },
                None => {},
            }
            return;
        }
        let ghost u0 = self@;
        let e = t.end_of(i);
        let mut j = i + 1;
        while j < e
            invariant
                t.wf(),
                r == t.recs(),
                i < j <= t.len(),
                e == subtree_end(r, i as int),
                e <= t.len(),
                apply_bindings(u0, use_decls_from(t@, e as int, i + 1)) == apply_bindings(self@, use_decls_from(t@, e as int, j as int)),
            decreases t.len() - j,
        {
            let ghost before = self@;
            if t.is_named(j) {
                self.collect_use_decls(t, j);
            }
            let nj = t.end_of(j);
            proof {
                lemma_subtree_end_bounds(r, j as int);
                let here = if r[j as int].named {
                    use_decls(t@, j as int)
                } else {
                    Seq::<BindingView>::empty()
                };
                let rest = use_decls_from(t@, e as int, nj as int);
                assert(use_decls_from(t@, e as int, j as int) == here + rest);
                lemma_apply_bindings_concat(before, here, rest);
                assert(apply_bindings(before, Seq::<BindingView>::empty()) == before);
                assert(self@ == apply_bindings(before, here));
            }
            j = nj;
        }
    }

    /// Use map of a parsed Rust file.
    pub fn from_tree(t: &SyntaxTree) -> (m: UseMap)
        requires
            t.wf(),
        ensures
            m@ == rust_uses(t@),
    {
        let mut m = UseMap::new();
        if t.nodes.len() > 0 {
            m.collect_use_decls(t, 0);
        } else {
            assert(use_decls(t@, 0) =~= Seq::<BindingView>::empty());
        }
        m
    }
}

/// Use map of a parsed file, by its language: `use` declarations for Rust,
/// imports for Java, relative imports for TypeScript.
pub open spec fn file_uses(t: TreeView, path: Seq<char>) -> UseMapView {
    match crate::lang::language_of(path) {
        Some(crate::lang::Language::Java) => crate::lang::java::java_uses(t),
        Some(crate::lang::Language::TypeScript) => crate::lang::typescript::ts_uses(t, path),
        _ => rust_uses(t),
    }
}

impl UseMap {
    /// Use map of the parsed file `path`, by the file's language.
    pub fn for_file(t: &SyntaxTree, path: &str) -> (m: UseMap)
        requires
            t.wf(),
        ensures
            m@ == file_uses(t@, path@),
    {
        match crate::lang::language_for_path(path) {
            Some(crate::lang::Language::Java) => {
                let mut m = UseMap::new();
                crate::lang::java::collect_imports(t, &mut m);
                m
            },
            Some(crate::lang::Language::TypeScript) => {
                let mut m = UseMap::new();
                crate::lang::typescript::collect_imports(t, path, &mut m);
                m
            },
            _ => UseMap::from_tree(t),
        }
    }
}

} // verus!
