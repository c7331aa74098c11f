//! Call resolution over the analyzed set of files, and the entry-rooted
//! outline built from it.
use vstd::prelude::*;

use crate::entry::{
    called_spec, called_targets, first_of, keyed_view, select_entries, select_entries_spec,
    sort_entries, sort_keyed,
};
use crate::expand::{expand_list, expand_nodes};
use crate::extract::{defs_view, index_defs, lang_defs_of};
use crate::lang::java::{java_module_of, module_path_from_tree};
use crate::lang::typescript::{ts_module_of, ts_module_path};
use crate::omit::file_uses;
use crate::parse::{grammar_of, parse_path, parsed_view};
use crate::ir::{
    lemma_outline_view, outlines_view, CallKind, CallSite, FnDef, FnDefView, FnId, FnIdView, FnKind,
    LocView, Outline, OutlineNode, OutlineView, Placement,
};
use crate::lang::{language_of, language_for_path, Language};
use crate::omit::{bound_path, copy_strings, empty_uses, UseMap, UseMapView};
use crate::text::{
    chars_of, ends_with, has_prefix, has_suffix, owned, pieces, push_str, split_pieces, starts_with,
    str_eq,
    string_of, strings_eq,
};

verus! {

/// Indexed analyzed set: definitions, modules, and per-file use maps.
#[derive(Debug)]
pub struct ResolveIndex {
    pub defs: Vec<FnDef>,
    /// Module paths of the analyzed files.
    pub modules: Vec<Vec<String>>,
    /// Use map of each file; a later entry for a path replaces an earlier one.
    pub uses: Vec<(String, UseMap)>,
    /// Module path of each file; a later entry for a path replaces an earlier one.
    pub file_module: Vec<(String, Vec<String>)>,
}

pub struct IndexView {
    pub defs: Seq<FnDefView>,
    pub modules: Seq<Seq<Seq<char>>>,
    pub uses: Seq<(Seq<char>, UseMapView)>,
    pub file_module: Seq<(Seq<char>, Seq<Seq<char>>)>,
}

impl View for ResolveIndex {
    type V = IndexView;

    open spec fn view(&self) -> IndexView {
        IndexView {
            defs: defs_view(self.defs@),
            modules: self.modules.deep_view(),
            uses: self.uses@.map_values(|p: (String, UseMap)| (p.0@, p.1@)),
            file_module: self.file_module@.map_values(
                |p: (String, Vec<String>)| (p.0@, p.1.deep_view()),
            ),
        }
    }
}

/// Value of the latest entry for `key`.
pub open spec fn last_value<V>(s: Seq<(Seq<char>, V)>, key: Seq<char>) -> Option<V>
    decreases s.len(),
{
    if s.len() == 0 {
        None
    } else if s.last().0 == key {
        Some(s.last().1)
    } else {
        last_value(s.drop_last(), key)
    }
}

/// Module path of `file`; the crate root when the file is not indexed.
pub open spec fn module_of_file(ix: IndexView, file: Seq<char>) -> Seq<Seq<char>> {
    match last_value(ix.file_module, file) {
        Some(m) => m,
        None => Seq::empty(),
    }
}

/// Use map of `file`; empty when the file is not indexed.
pub open spec fn uses_of_file(ix: IndexView, file: Seq<char>) -> UseMapView {
    match last_value(ix.uses, file) {
        Some(u) => u,
        None => empty_uses(),
    }
}

/// Index of the latest definition among the first `k` with identity `id`.
pub open spec fn last_def(defs: Seq<FnDefView>, id: FnIdView, k: int) -> Option<int>
    decreases k,
{
    if k <= 0 || k > defs.len() {
        None
    } else if defs[k - 1].id == id {
        Some(k - 1)
    } else {
        last_def(defs, id, k - 1)
    }
}

/// Index of the definition with identity `id`.
pub open spec fn def_index(ix: IndexView, id: FnIdView) -> Option<int> {
    last_def(ix.defs, id, ix.defs.len() as int)
}

pub proof fn lemma_last_def(defs: Seq<FnDefView>, id: FnIdView, k: int)
    ensures
        last_def(defs, id, k) matches Some(j) ==> 0 <= j < k && j < defs.len() && defs[j].id == id,
        last_def(defs, id, k) is None && 0 <= k <= defs.len() ==> forall|j: int|
            0 <= j < k ==> defs[j].id != id,
    decreases k,
{
    if !(k <= 0 || k > defs.len()) && defs[k - 1].id != id {
        lemma_last_def(defs, id, k - 1);
    }
}

/// No two definitions share an identity.
pub open spec fn ids_distinct(ix: IndexView) -> bool {
    forall|p: int, q: int|
        0 <= p < ix.defs.len() && 0 <= q < ix.defs.len() && p != q ==> (#[trigger] ix.defs[p]).id != (#[trigger] ix.defs[q]).id
}

/// Law: when identities are distinct, looking up a definition's own
/// identity finds that definition: `ResolveIndex::function` gives `defs[i]`
/// for `defs[i].id`.
pub proof fn law_function_finds_own_def(ix: IndexView, i: int)
    requires
        ids_distinct(ix),
        0 <= i < ix.defs.len(),
    ensures
        def_index(ix, ix.defs[i].id) == Some(i),
{
    lemma_last_def(ix.defs, ix.defs[i].id, ix.defs.len() as int);
    if let Some(j) = def_index(ix, ix.defs[i].id) {
        if j != i {
            assert(ix.defs[j].id != ix.defs[i].id);
        }
    } else {
        assert(ix.defs[i].id != ix.defs[i].id);
    }
}

/// Law: an identity that no definition has finds nothing:
/// `ResolveIndex::function` gives `None` for it.
pub proof fn law_function_absent(ix: IndexView, id: FnIdView)
    requires
        forall|p: int| 0 <= p < ix.defs.len() ==> (#[trigger] ix.defs[p]).id != id,
    ensures
        def_index(ix, id) is None,
{
    lemma_last_def(ix.defs, id, ix.defs.len() as int);
}

/// Crates of the language itself, never resolved.
pub open spec fn is_std_crate(seg: Seq<char>) -> bool {
    seg == "std"@ || seg == "core"@ || seg == "alloc"@ || seg == "proc_macro"@ || seg == "test"@
}

/// `acc` with one segment popped per leading `super` of `rest`, then the rest
/// appended; absent when a `super` goes above the crate root.
pub open spec fn strip_supers(acc: Seq<Seq<char>>, rest: Seq<Seq<char>>) -> Option<Seq<Seq<char>>>
    decreases rest.len(),
{
    if rest.len() > 0 && rest[0] == "super"@ {
        if acc.len() == 0 {
            None
        } else {
            strip_supers(acc.drop_last(), rest.skip(1))
        }
    } else {
        Some(acc + rest)
    }
}

/// Module named by the path `prefix` as written in `file`.
pub open spec fn module_path_of(ix: IndexView, prefix: Seq<Seq<char>>, file: Seq<char>) -> Option<Seq<Seq<char>>> {
    if prefix.len() == 0 {
        Some(Seq::empty())
    } else if prefix[0] == "super"@ {
        strip_supers(module_of_file(ix, file), prefix)
    } else if prefix[0] == "crate"@ {
        Some(prefix.skip(1))
    } else if prefix[0] == "self"@ {
        Some(module_of_file(ix, file) + prefix.skip(1))
    } else {
        Some(prefix)
    }
}

/// Definition `j` is the only one of `defs` that satisfies `p`.
pub open spec fn is_only_hit(defs: Seq<FnDefView>, p: spec_fn(FnDefView) -> bool, j: int) -> bool {
    &&& 0 <= j < defs.len()
    &&& p(defs[j])
    &&& forall|k: int| 0 <= k < defs.len() && k != j ==> !p(#[trigger] defs[k])
}

/// Identity of the only definition that satisfies `p`, if exactly one does.
pub open spec fn only_hit(defs: Seq<FnDefView>, p: spec_fn(FnDefView) -> bool) -> Option<FnIdView> {
    if exists|j: int| is_only_hit(defs, p, j) {
        Some(defs[choose|j: int| is_only_hit(defs, p, j)].id)
    } else {
        None
    }
}

pub open spec fn no_hit(defs: Seq<FnDefView>, p: spec_fn(FnDefView) -> bool) -> bool {
    forall|k: int| 0 <= k < defs.len() ==> !p(#[trigger] defs[k])
}

/// Which definitions a lookup considers.
#[derive(Clone, Copy, Debug, PartialEq, Eq, Structural)]
pub enum Scope {
    All,
    Bodied,
    FreeBodied,
}

pub open spec fn in_scope(s: Scope, d: FnDefView) -> bool {
    match s {
        Scope::All => true,
        Scope::Bodied => d.has_body,
        Scope::FreeBodied => d.kind == FnKind::Free && d.has_body,
    }
}

/// What a lookup asks of a definition.
pub enum Query {
    /// In module `module`, named `name`.
    InModule { module: Vec<String>, name: String },
    /// In module `module` but another file than `file`, named `name`.
    Sibling { module: Vec<String>, file: String, name: String },
    /// Named `name`.
    Named { name: String },
    /// In file `file`, named `name`, with a body.
    InFile { file: String, name: String },
}

pub enum QueryView {
    InModule { module: Seq<Seq<char>>, name: Seq<char> },
    Sibling { module: Seq<Seq<char>>, file: Seq<char>, name: Seq<char> },
    Named { name: Seq<char> },
    InFile { file: Seq<char>, name: Seq<char> },
}

impl View for Query {
    type V = QueryView;

    open spec fn view(&self) -> QueryView {
        match self {
            Query::InModule { module, name } => QueryView::InModule { module: module.deep_view(), name: name@ },
            Query::Sibling { module, file, name } => QueryView::Sibling {
                module: module.deep_view(),
                file: file@,
                name: name@,
            },
            Query::Named { name } => QueryView::Named { name: name@ },
            Query::InFile { file, name } => QueryView::InFile { file: file@, name: name@ },
        }
    }
}

pub open spec fn query_holds(q: QueryView, d: FnDefView) -> bool {
    match q {
        QueryView::InModule { module, name } => d.module == module && d.name == name,
        QueryView::Sibling { module, file, name } => d.module == module && d.id.file != file
            && d.name == name,
        QueryView::Named { name } => d.name == name,
        QueryView::InFile { file, name } => d.id.file == file && d.name == name && d.has_body,
    }
}

pub open spec fn query_pred(s: Scope, q: QueryView) -> spec_fn(FnDefView) -> bool {
    |d: FnDefView| in_scope(s, d) && query_holds(q, d)
}

/// Definitions that a file's calls may resolve to: any with a body for Java
/// and TypeScript files, free functions with a body otherwise.
pub open spec fn scope_for(file: Seq<char>) -> Scope {
    if language_of(file) == Some(Language::Java) || language_of(file) == Some(Language::TypeScript) {
        Scope::Bodied
    } else {
        Scope::FreeBodied
    }
}

/// The unique definition in the file's scope that answers `q`.
pub open spec fn unique_matching(ix: IndexView, file: Seq<char>, q: QueryView) -> Option<FnIdView> {
    only_hit(ix.defs, query_pred(scope_for(file), q))
}

/// Resolution of a path of two or more segments.
pub open spec fn resolve_qualified_spec(ix: IndexView, path: Seq<Seq<char>>, file: Seq<char>) -> Option<FnIdView> {
    if path.len() == 0 || is_std_crate(path[0]) {
        None
    } else {
        match module_path_of(ix, path.drop_last(), file) {
            None => None,
            Some(mp) => if !ix.modules.contains(mp) {
                None
            } else {
                unique_matching(ix, file, QueryView::InModule { module: mp, name: path.last() })
            },
        }
    }
}

/// Resolution through a named `use` binding: a single segment names no function.
pub open spec fn resolve_imported_spec(ix: IndexView, bound: Seq<Seq<char>>, file: Seq<char>) -> Option<FnIdView> {
    if bound.len() < 2 {
        None
    } else {
        resolve_qualified_spec(ix, bound, file)
    }
}

/// Definition `d` is a candidate for `name` through one of the glob imports of `file`.
pub open spec fn glob_hit(ix: IndexView, file: Seq<char>, name: Seq<char>, d: FnDefView) -> bool {
    let globs = uses_of_file(ix, file).globs;
    &&& in_scope(Scope::FreeBodied, d)
    &&& d.name == name
    &&& ix.modules.contains(d.module)
    &&& exists|g: int| 0 <= g < globs.len() && module_path_of(ix, globs[g], file) == Some(d.module)
}

/// Outcome of the glob step: `None` when no glob candidate exists, else the
/// decided result (the identity when all candidates share it).
pub open spec fn glob_step(ix: IndexView, file: Seq<char>, name: Seq<char>) -> Option<Option<FnIdView>> {
    let defs = ix.defs;
    if !exists|j: int| 0 <= j < defs.len() && glob_hit(ix, file, name, defs[j]) {
        None
    } else {
        let j = choose|j: int| 0 <= j < defs.len() && glob_hit(ix, file, name, defs[j]);
        if forall|k: int|
            0 <= k < defs.len() && glob_hit(ix, file, name, #[trigger] defs[k]) ==> defs[k].id == defs[j].id {
            Some(Some(defs[j].id))
        } else {
            Some(None)
        }
    }
}

/// Resolution of a single-segment call `name` written in `file`.
pub open spec fn resolve_unqualified_spec(ix: IndexView, name: Seq<char>, file: Seq<char>) -> Option<FnIdView> {
    let same = query_pred(Scope::All, QueryView::InFile { file, name });
    if only_hit(ix.defs, same) is Some {
        only_hit(ix.defs, same)
    } else if !no_hit(ix.defs, same) {
        None
    } else {
        match bound_path(uses_of_file(ix, file).bindings, name) {
            Some(b) => resolve_imported_spec(ix, b, file),
            None => match glob_step(ix, file, name) {
                Some(r) => r,
                None => unique_matching(
                    ix,
                    file,
                    QueryView::Sibling { module: module_of_file(ix, file), file, name },
                ),
            },
        }
    }
}

/// Resolution of a method call: the only definition of that name, if it has a body.
pub open spec fn resolve_method_spec(ix: IndexView, name: Seq<char>) -> Option<FnIdView> {
    let p = query_pred(Scope::All, QueryView::Named { name });
    if exists|j: int| is_only_hit(ix.defs, p, j) {
        let j = choose|j: int| is_only_hit(ix.defs, p, j);
        if ix.defs[j].has_body {
            Some(ix.defs[j].id)
        } else {
            None
        }
    } else {
        None
    }
}

/// Expand target of a call site; macros never resolve.
pub open spec fn resolve_spec(ix: IndexView, site: crate::ir::CallSiteView) -> Option<FnIdView> {
    if site.is_macro {
        None
    } else {
        match site.kind {
            crate::ir::CallKindView::Method { name } => resolve_method_spec(ix, name),
            crate::ir::CallKindView::Free { path } => if path.len() == 0 {
                None
            } else if path.len() >= 2 {
                resolve_qualified_spec(ix, path, site.file)
            } else {
                resolve_unqualified_spec(ix, path[0], site.file)
            },
        }
    }
}

pub proof fn lemma_only_hit(defs: Seq<FnDefView>, p: spec_fn(FnDefView) -> bool, j: int)
    requires
        is_only_hit(defs, p, j),
    ensures
        only_hit(defs, p) == Some(defs[j].id),
{
    let c = choose|c: int| is_only_hit(defs, p, c);
    assert(is_only_hit(defs, p, c));
    if c != j {
        assert(!p(defs[c]));
    }
}

/// The definition that `only_hit` picks satisfies the predicate.
proof fn lemma_only_hit_satisfies(defs: Seq<FnDefView>, p: spec_fn(FnDefView) -> bool)
    requires
        only_hit(defs, p) is Some,
    ensures
        exists|j: int| 0 <= j < defs.len() && p(defs[j]) && defs[j].id == only_hit(defs, p)->0,
{
    let j = choose|j: int| is_only_hit(defs, p, j);
    assert(is_only_hit(defs, p, j));
}

/// A bodied definition with identity `id` exists in the index.
pub open spec fn has_bodied_def(ix: IndexView, id: FnIdView) -> bool {
    exists|j: int| 0 <= j < ix.defs.len() && ix.defs[j].has_body && #[trigger] ix.defs[j].id == id
}

proof fn lemma_unique_matching_bodied(ix: IndexView, file: Seq<char>, q: QueryView)
    requires
        unique_matching(ix, file, q) is Some,
    ensures
        has_bodied_def(ix, unique_matching(ix, file, q)->0),
{
    lemma_only_hit_satisfies(ix.defs, query_pred(scope_for(file), q));
    let j = choose|j: int| 0 <= j < ix.defs.len() && query_pred(scope_for(file), q)(ix.defs[j]) && ix.defs[j].id == unique_matching(ix, file, q)->0;
    assert(ix.defs[j].has_body);
}

proof fn lemma_qualified_bodied(ix: IndexView, path: Seq<Seq<char>>, file: Seq<char>)
    requires
        resolve_qualified_spec(ix, path, file) is Some,
    ensures
        has_bodied_def(ix, resolve_qualified_spec(ix, path, file)->0),
{
    let mp = module_path_of(ix, path.drop_last(), file)->0;
    lemma_unique_matching_bodied(ix, file, QueryView::InModule { module: mp, name: path.last() });
}

/// Law: a call only ever resolves to a definition of the index that has a
/// body, whichever rule resolves it.
pub proof fn law_resolved_target_has_body(ix: IndexView, site: crate::ir::CallSiteView)
    requires
        resolve_spec(ix, site) is Some,
    ensures
        has_bodied_def(ix, resolve_spec(ix, site)->0),
{
    let id = resolve_spec(ix, site)->0;
    match site.kind {
        crate::ir::CallKindView::Method { name } => {
            let p = query_pred(Scope::All, QueryView::Named { name });
            let j = choose|j: int| is_only_hit(ix.defs, p, j);
            assert(ix.defs[j].has_body && ix.defs[j].id == id);
        },
        crate::ir::CallKindView::Free { path } => {
            if path.len() >= 2 {
                lemma_qualified_bodied(ix, path, site.file);
            } else {
                let name = path[0];
                let file = site.file;
                let same = query_pred(Scope::All, QueryView::InFile { file, name });
                if only_hit(ix.defs, same) is Some {
                    lemma_only_hit_satisfies(ix.defs, same);
                    let j = choose|j: int| 0 <= j < ix.defs.len() && same(ix.defs[j]) && ix.defs[j].id == only_hit(ix.defs, same)->0;
                    assert(ix.defs[j].has_body);
                } else {
                    match bound_path(uses_of_file(ix, file).bindings, name) {
                        Some(b) => {
                            lemma_qualified_bodied(ix, b, file);
                        },
                        None => match glob_step(ix, file, name) {
                            Some(r) => {
                                let j = choose|j: int| 0 <= j < ix.defs.len() && glob_hit(ix, file, name, ix.defs[j]);
                                assert(ix.defs[j].has_body && ix.defs[j].id == id);
                            },
                            None => {
                                lemma_unique_matching_bodied(
                                    ix,
                                    file,
                                    QueryView::Sibling { module: module_of_file(ix, file), file, name },
                                );
                            },
                        },
                    }
                }
            }
        },
    }
}

/// How many definitions answer a lookup.
pub enum Hits {
    Zero,
    One(usize),
    Many,
}

fn in_scope_exec(s: Scope, d: &FnDef) -> (r: bool)
    ensures
        r == in_scope(s, d@),
{
    match s {
        Scope::All => true,
        Scope::Bodied => d.has_body,
        Scope::FreeBodied => d.kind == FnKind::Free && d.has_body,
    }
}

fn query_holds_exec(q: &Query, d: &FnDef) -> (r: bool)
    ensures
        r == query_holds(q@, d@),
{
    match q {
        Query::InModule { module, name } => strings_eq(&d.module, module) && str_eq(d.name.as_str(), name.as_str()),
        Query::Sibling { module, file, name } => strings_eq(&d.module, module) && !str_eq(
            d.id.file.as_str(),
            file.as_str(),
        ) && str_eq(d.name.as_str(), name.as_str()),
        Query::Named { name } => str_eq(d.name.as_str(), name.as_str()),
        Query::InFile { file, name } => str_eq(d.id.file.as_str(), file.as_str()) && str_eq(
            d.name.as_str(),
            name.as_str(),
        ) && d.has_body,
    }
}

/// Counts the definitions in scope `s` that answer `q`: none, one, or more.
fn find_hits(defs: &Vec<FnDef>, s: Scope, q: &Query) -> (h: Hits)
    ensures
        match h {
            Hits::Zero => no_hit(defs_view(defs@), query_pred(s, q@)),
            Hits::One(j) => is_only_hit(defs_view(defs@), query_pred(s, q@), j as int),
            Hits::Many => !no_hit(defs_view(defs@), query_pred(s, q@)) && !exists|j: int|
                is_only_hit(defs_view(defs@), query_pred(s, q@), j),
        },
{
    let ghost dv = defs_view(defs@);
    let ghost p = query_pred(s, q@);
    let mut found: Option<usize> = None;
    let mut k: usize = 0;
    while k < defs.len()
        invariant
            k <= defs@.len(),
            dv == defs_view(defs@),
            dv.len() == defs@.len(),
            p == query_pred(s, q@),
            match found {
                None => forall|j: int| 0 <= j < k ==> !p(#[trigger] dv[j]),
                Some(x) => x < k && p(dv[x as int]) && forall|j: int|
                    0 <= j < k && j != x ==> !p(#[trigger] dv[j]),
            },
        decreases defs@.len() - k,
    {
        let hit = in_scope_exec(s, &defs[k]) && query_holds_exec(q, &defs[k]);
        assert(dv[k as int] == defs@[k as int]@);
        if hit {
            match found {
                Some(x) => {
                    proof {
                        assert(p(dv[x as int]));
                        assert(p(dv[k as int]));
                        assert forall|j: int| !is_only_hit(dv, p, j) by {
                            if is_only_hit(dv, p, j) {
                                if j != x as int {
                                    assert(!p(dv[x as int]));
                                } else {
                                    assert(!p(dv[k as int]));
                                }
                            }
                        }
                    }
                    return Hits::Many;
                },
                None => {
                    found = Some(k);
                },
            }
        }
        k = k + 1;
    }
    match found {
        None => Hits::Zero,
        Some(x) => Hits::One(x),
    }
}

impl ResolveIndex {
    /// Module path of `file`; the crate root when it is not indexed.
    fn module_for_file(&self, file: &str) -> (m: Vec<String>)
        ensures
            m.deep_view() == module_of_file(self@, file@),
    {
        let ghost fm = self@.file_module;
        let mut k = self.file_module.len();
        assert(fm.take(k as int) =~= fm);
        while k > 0
            invariant
                k <= self.file_module@.len(),
                fm == self@.file_module,
                fm.len() == self.file_module@.len(),
                last_value(fm, file@) == last_value(fm.take(k as int), file@),
            decreases k,
        {
            assert(fm.take(k as int).drop_last() =~= fm.take(k - 1));
            assert(fm[k - 1] == (self.file_module@[k - 1].0@, self.file_module@[k - 1].1.deep_view()));
            if str_eq(self.file_module[k - 1].0.as_str(), file) {
                return copy_strings(&self.file_module[k - 1].1);
            }
            k = k - 1;
        }
        Vec::new()
    }

    /// Use map of `file`, if it is indexed.
    pub(crate) fn uses_for_file(&self, file: &str) -> (u: Option<&UseMap>)
        ensures
            match u {
                Some(u) => last_value(self@.uses, file@) == Some(u@),
                None => last_value(self@.uses, file@) is None,
            },
    {
        let ghost us = self@.uses;
        let mut k = self.uses.len();
        assert(us.take(k as int) =~= us);
        while k > 0
            invariant
                k <= self.uses@.len(),
                us == self@.uses,
                us.len() == self.uses@.len(),
                last_value(us, file@) == last_value(us.take(k as int), file@),
            decreases k,
        {
            assert(us.take(k as int).drop_last() =~= us.take(k - 1));
            assert(us[k - 1] == (self.uses@[k - 1].0@, self.uses@[k - 1].1@));
            if str_eq(self.uses[k - 1].0.as_str(), file) {
                return Some(&self.uses[k - 1].1);
            }
            k = k - 1;
        }
        None
    }

    /// Position of the definition with identity `id`.
    pub(crate) fn def_position(&self, id: &FnId) -> (j: Option<usize>)
        ensures
            match j {
                Some(j) => def_index(self@, id@) == Some(j as int),
                None => def_index(self@, id@) is None,
            },
    {
        let ghost dv = self@.defs;
        let mut k = self.defs.len();
        while k > 0
            invariant
                k <= self.defs@.len(),
                dv == self@.defs,
                dv.len() == self.defs@.len(),
                def_index(self@, id@) == last_def(dv, id@, k as int),
            decreases k,
        {
            let d = &self.defs[k - 1];
            assert(dv[k - 1] == d@);
            if str_eq(d.id.file.as_str(), id.file.as_str()) && d.id.start_byte == id.start_byte {
                return Some(k - 1);
            }
            k = k - 1;
        }
        None
    }

    /// The definition with identity `id`.
    pub fn function(&self, id: &FnId) -> (d: Option<&FnDef>)
        ensures
            match d {
                Some(d) => def_index(self@, id@) matches Some(j) && self@.defs[j] == d@,
                None => def_index(self@, id@) is None,
            },
    {
        proof {
            lemma_last_def(self@.defs, id@, self@.defs.len() as int);
        }
        match self.def_position(id) {
            Some(j) => Some(&self.defs[j]),
            None => None,
        }
    }

    fn has_module(&self, m: &Vec<String>) -> (r: bool)
        ensures
            r == self@.modules.contains(m.deep_view()),
    {
        let ghost ms = self@.modules;
        let mut k: usize = 0;
        while k < self.modules.len()
            invariant
                k <= self.modules@.len(),
                ms == self@.modules,
                ms.len() == self.modules@.len(),
                forall|j: int| 0 <= j < k ==> ms[j] != m.deep_view(),
            decreases self.modules@.len() - k,
        {
            assert(ms[k as int] == self.modules@[k as int].deep_view());
            if strings_eq(&self.modules[k], m) {
                return true;
            }
            k = k + 1;
        }
        false
    }

    /// Module named by the path `prefix` as written in `file`.
    fn module_path_from_prefix(&self, prefix: &Vec<String>, file: &str) -> (m: Option<Vec<String>>)
        ensures
            match m {
                Some(m) => module_path_of(self@, prefix.deep_view(), file@) == Some(m.deep_view()),
                None => module_path_of(self@, prefix.deep_view(), file@) is None,
            },
    {
        let ghost pv = prefix.deep_view();
        if prefix.len() == 0 {
            let v: Vec<String> = Vec::new();
            assert(v.deep_view() =~= Seq::<Seq<char>>::empty());
            assert(module_path_of(self@, pv, file@) == Some(v.deep_view()));
            return Some(v);
        }
        let first = prefix[0].as_str();
        assert(pv[0] == first@);
        if str_eq(first, "super") {
            let mut acc = self.module_for_file(file);
            let mut r: usize = 0;
            assert(pv.skip(0) =~= pv);
            while r < prefix.len() && str_eq(prefix[r].as_str(), "super")
                invariant
                    r <= prefix@.len(),
                    pv == prefix.deep_view(),
                    strip_supers(module_of_file(self@, file@), pv) == strip_supers(acc.deep_view(), pv.skip(r as int)),
                decreases prefix@.len() - r,
            {
                assert(pv.skip(r as int)[0] == pv[r as int]);
                if acc.len() == 0 {
                    return None;
                }
                let ghost before = acc.deep_view();
                acc.pop();
                assert(acc.deep_view() =~= before.drop_last());
                assert(pv.skip(r as int).skip(1) =~= pv.skip(r + 1));
                r = r + 1;
            }
            proof {
                if r < prefix@.len() {
                    assert(pv.skip(r as int)[0] == pv[r as int]);
                }
            }
            let ghost a0 = acc.deep_view();
            let mut k = r;
            while k < prefix.len()
                invariant
                    r <= k <= prefix@.len(),
                    pv == prefix.deep_view(),
                    acc.deep_view() == a0 + pv.subrange(r as int, k as int),
                decreases prefix@.len() - k,
            {
                let ghost before = acc.deep_view();
                acc.push(prefix[k].clone());
                assert(acc.deep_view() =~= before.push(pv[k as int]));
                assert(a0 + pv.subrange(r as int, k + 1) =~= (a0 + pv.subrange(r as int, k as int)).push(pv[k as int]));
                k = k + 1;
            }
            assert(pv.subrange(r as int, pv.len() as int) =~= pv.skip(r as int));
            assert(pv[0] == "super"@);
            assert(module_path_of(self@, pv, file@) == strip_supers(module_of_file(self@, file@), pv));
            assert(strip_supers(a0, pv.skip(r as int)) == Some(a0 + pv.skip(r as int)));
            assert(module_path_of(self@, pv, file@) == Some(acc.deep_view()));
            Some(acc)
        } else if str_eq(first, "crate") || str_eq(first, "self") {
            let mut acc = if str_eq(first, "self") {
                self.module_for_file(file)
            } else {
                let v: Vec<String> = Vec::new();
                assert(v.deep_view() =~= Seq::<Seq<char>>::empty());
                v
            };
            let ghost a0 = acc.deep_view();
            let mut k: usize = 1;
            while k < prefix.len()
                invariant
                    1 <= k <= prefix@.len(),
                    pv == prefix.deep_view(),
                    acc.deep_view() == a0 + pv.subrange(1, k as int),
                decreases prefix@.len() - k,
            {
                let ghost before = acc.deep_view();
                acc.push(prefix[k].clone());
                assert(acc.deep_view() =~= before.push(pv[k as int]));
                assert(a0 + pv.subrange(1, k + 1) =~= (a0 + pv.subrange(1, k as int)).push(pv[k as int]));
                k = k + 1;
            }
            assert(pv.subrange(1, pv.len() as int) =~= pv.skip(1));
            assert(Seq::<Seq<char>>::empty() + pv.skip(1) =~= pv.skip(1));
            assert(acc.deep_view() == a0 + pv.skip(1));
            if str_eq(first, "self") {
                assert(a0 == module_of_file(self@, file@));
                proof {
                    reveal_strlit("self");
                    reveal_strlit("crate");
                }
                assert(module_path_of(self@, pv, file@) == Some(acc.deep_view()));
            } else {
                assert(a0 == Seq::<Seq<char>>::empty());
                assert(module_path_of(self@, pv, file@) == Some(acc.deep_view()));
            }
            Some(acc)
        } else {
            let c = copy_strings(prefix);
            assert(module_path_of(self@, pv, file@) == Some(c.deep_view()));
            Some(c)
        }
    }

    /// The unique definition in the file's scope that answers `q`.
    fn unique_function_matching(&self, file: &str, q: &Query) -> (r: Option<FnId>)
        ensures
            match r {
                Some(id) => unique_matching(self@, file@, q@) == Some(id@),
                None => unique_matching(self@, file@, q@) is None,
            },
    {
        let lang = language_for_path(file);
        let scope = match lang {
            Some(Language::Java) => Scope::Bodied,
            Some(Language::TypeScript) => Scope::Bodied,
            _ => Scope::FreeBodied,
        };
        assert(scope == scope_for(file@));
        let ghost p = query_pred(scope, q@);
        match find_hits(&self.defs, scope, q) {
            Hits::One(j) => {
                proof {
                    lemma_only_hit(self@.defs, p, j as int);
                }
                Some(self.defs[j].id.duplicate())
            },
            Hits::Zero => {
                proof {
                    assert forall|j: int| !is_only_hit(self@.defs, p, j) by {
                        if is_only_hit(self@.defs, p, j) {
                            assert(p(self@.defs[j]));
                        }
                    }
                }
                None
            },
            Hits::Many => None,
        }
    }
}

fn is_standard_library_crate(seg: &str) -> (r: bool)
    ensures
        r == is_std_crate(seg@),
{
    str_eq(seg, "std") || str_eq(seg, "core") || str_eq(seg, "alloc") || str_eq(seg, "proc_macro")
        || str_eq(seg, "test")
}

/// Glob candidates found so far: ids of candidates through `globs[..g]`.
pub open spec fn glob_hit_upto(ix: IndexView, file: Seq<char>, name: Seq<char>, d: FnDefView, g: int) -> bool {
    let globs = uses_of_file(ix, file).globs;
    &&& in_scope(Scope::FreeBodied, d)
    &&& d.name == name
    &&& ix.modules.contains(d.module)
    &&& exists|h: int| 0 <= h < g && h < globs.len() && module_path_of(ix, globs[h], file) == Some(d.module)
}

pub open spec fn ids_view(v: Seq<FnId>) -> Seq<FnIdView> {
    v.map_values(|id: FnId| id@)
}

pub fn contains_id(ids: &Vec<FnId>, id: &FnId) -> (r: bool)
    ensures
        r == ids_view(ids@).contains(id@),
{
    let ghost iv = ids_view(ids@);
    let mut k: usize = 0;
    while k < ids.len()
        invariant
            k <= ids@.len(),
            iv == ids_view(ids@),
            forall|j: int| 0 <= j < k ==> iv[j] != id@,
        decreases ids@.len() - k,
    {
        if str_eq(ids[k].file.as_str(), id.file.as_str()) && ids[k].start_byte == id.start_byte {
            assert(iv[k as int] == id@);
            return true;
        }
        k = k + 1;
    }
    false
}

pub proof fn lemma_upto_mono(ix: IndexView, file: Seq<char>, name: Seq<char>, d: FnDefView, g: int)
    requires
        glob_hit_upto(ix, file, name, d, g),
    ensures
        glob_hit_upto(ix, file, name, d, g + 1),
{
    let globs = uses_of_file(ix, file).globs;
    let h = choose|h: int| 0 <= h < g && h < globs.len() && module_path_of(ix, globs[h], file) == Some(d.module);
    assert(0 <= h < g + 1 && h < globs.len());
}

impl ResolveIndex {
    /// Resolution of a path of two or more segments.
    fn resolve_qualified(&self, path: &Vec<String>, file: &str) -> (r: Option<FnId>)
        requires
            path@.len() >= 1,
        ensures
            match r {
                Some(id) => resolve_qualified_spec(self@, path.deep_view(), file@) == Some(id@),
                None => resolve_qualified_spec(self@, path.deep_view(), file@) is None,
            },
    {
        let ghost pv = path.deep_view();
        if is_standard_library_crate(path[0].as_str()) {
            return None;
        }
        let name = path[path.len() - 1].clone();
        let mut prefix = copy_strings(path);
        prefix.pop();
        assert(prefix.deep_view() =~= pv.drop_last());
        match self.module_path_from_prefix(&prefix, file) {
            None => None,
            Some(mp) => {
                if !self.has_module(&mp) {
                    return None;
                }
                let ghost mv = mp.deep_view();
                let q = Query::InModule { module: mp, name };
                assert(q@ == (QueryView::InModule { module: mv, name: pv.last() }));
                self.unique_function_matching(file, &q)
            },
        }
    }

    fn resolve_imported(&self, bound: &Vec<String>, file: &str) -> (r: Option<FnId>)
        ensures
            match r {
                Some(id) => resolve_imported_spec(self@, bound.deep_view(), file@) == Some(id@),
                None => resolve_imported_spec(self@, bound.deep_view(), file@) is None,
            },
    {
        if bound.len() < 2 {
            return None;
        }
        self.resolve_qualified(bound, file)
    }

    /// The glob step of unqualified resolution.
    fn resolve_by_globs(&self, uses: &UseMap, name: &str, file: &str) -> (r: Option<Option<FnId>>)
        requires
            uses@ == uses_of_file(self@, file@),
        ensures
            match r {
                None => glob_step(self@, file@, name@) is None,
                Some(None) => glob_step(self@, file@, name@) == Some(None::<FnIdView>),
                Some(Some(id)) => glob_step(self@, file@, name@) == Some(Some(id@)),
            },
    {
        let ghost ix = self@;
        let ghost dv = self@.defs;
        let globs = uses.globs();
        let ghost gv = globs.deep_view();
        let mut ids: Vec<FnId> = Vec::new();
        let ghost mut wit: Seq<int> = Seq::empty();
        let mut g: usize = 0;
        while g < globs.len()
            invariant
                ix == self@,
                dv == ix.defs,
                dv.len() == self.defs@.len(),
                gv == globs.deep_view(),
                gv == uses_of_file(ix, file@).globs,
                g <= globs@.len(),
                ids_view(ids@).no_duplicates(),
                wit.len() == ids@.len(),
                forall|x: int| 0 <= x < ids@.len() ==> 0 <= #[trigger] wit[x] < dv.len()
                    && glob_hit_upto(ix, file@, name@, dv[wit[x]], g as int) && dv[wit[x]].id == ids_view(ids@)[x],
                forall|j: int|
                    0 <= j < dv.len() && glob_hit_upto(ix, file@, name@, #[trigger] dv[j], g as int) ==> ids_view(ids@).contains(dv[j].id),
            decreases globs@.len() - g,
        {
            proof {
                assert forall|x: int| 0 <= x < ids@.len() implies glob_hit_upto(ix, file@, name@, dv[#[trigger] wit[x]], g + 1) by {
                    lemma_upto_mono(ix, file@, name@, dv[wit[x]], g as int);
                }
            }
            match self.module_path_from_prefix(&globs[g], file) {
                None => {
                    proof {
                        assert forall|j: int| 0 <= j < dv.len() && glob_hit_upto(ix, file@, name@, dv[j], g + 1) implies ids_view(ids@).contains(dv[j].id) by {
                            let h = choose|h: int| 0 <= h < g + 1 && h < gv.len() && module_path_of(ix, gv[h], file@) == Some(dv[j].module);
                            if h == g {
                                assert(module_path_of(ix, gv[g as int], file@) is None);
                            } else {
                                assert(glob_hit_upto(ix, file@, name@, dv[j], g as int));
                            }
                        }
                    }
                },
                Some(mp) => {
                    let in_index = self.has_module(&mp);
                    let ghost ids0 = ids_view(ids@);
                    let mut k: usize = 0;
                    while k < self.defs.len()
                        invariant
                            ix == self@,
                            dv == ix.defs,
                            dv.len() == self.defs@.len(),
                            gv == uses_of_file(ix, file@).globs,
                            g < gv.len(),
                            module_path_of(ix, gv[g as int], file@) == Some(mp.deep_view()),
                            in_index == ix.modules.contains(mp.deep_view()),
                            k <= self.defs@.len(),
                            ids_view(ids@).no_duplicates(),
                            wit.len() == ids@.len(),
                            forall|x: int| 0 <= x < ids@.len() ==> 0 <= #[trigger] wit[x] < dv.len()
                                && glob_hit_upto(ix, file@, name@, dv[wit[x]], g + 1) && dv[wit[x]].id == ids_view(ids@)[x],
                            forall|j: int|
                                0 <= j < dv.len() && glob_hit_upto(ix, file@, name@, #[trigger] dv[j], g as int) ==> ids_view(ids@).contains(dv[j].id),
                            forall|j: int|
                                0 <= j < k && in_index && in_scope(Scope::FreeBodied, #[trigger] dv[j]) && dv[j].name == name@ && dv[j].module == mp.deep_view() ==> ids_view(ids@).contains(dv[j].id),
                            forall|y: FnIdView| ids0.contains(y) ==> ids_view(ids@).contains(y),
                        decreases self.defs@.len() - k,
                    {
                        let d = &self.defs[k];
                        assert(dv[k as int] == d@);
                        if in_index && in_scope_exec(Scope::FreeBodied, d) && str_eq(d.name.as_str(), name)
                            && strings_eq(&d.module, &mp) {
                            if !contains_id(&ids, &d.id) {
                                let ghost before = ids_view(ids@);
                                ids.push(d.id.duplicate());
                                proof {
                                    wit = wit.push(k as int);
                                    assert(ids_view(ids@) =~= before.push(d.id@));
                                    assert(glob_hit_upto(ix, file@, name@, dv[k as int], g + 1));
                                    assert forall|x: int| 0 <= x < ids@.len() implies 0 <= #[trigger] wit[x] < dv.len()
                                        && glob_hit_upto(ix, file@, name@, dv[wit[x]], g + 1) && dv[wit[x]].id == ids_view(ids@)[x] by {
                                        if x < ids@.len() - 1 {
                                            assert(ids_view(ids@)[x] == before[x]);
                                        }
                                    }
                                    assert forall|y: FnIdView| ids0.contains(y) implies ids_view(ids@).contains(y) by {
                                        if ids0.contains(y) {
                                            let x = choose|x: int| 0 <= x < before.len() && before[x] == y;
                                            assert(ids_view(ids@)[x] == y);
                                        }
                                    }
                                    assert forall|j: int| 0 <= j < dv.len() && glob_hit_upto(ix, file@, name@, #[trigger] dv[j], g as int) implies ids_view(ids@).contains(dv[j].id) by {
                                        if glob_hit_upto(ix, file@, name@, dv[j], g as int) {
                                            let x = choose|x: int| 0 <= x < before.len() && before[x] == dv[j].id;
                                            assert(ids_view(ids@)[x] == dv[j].id);
                                        }
                                    }
                                    assert forall|j: int| 0 <= j < k + 1 && in_index && in_scope(Scope::FreeBodied, #[trigger] dv[j]) && dv[j].name == name@ && dv[j].module == mp.deep_view() implies ids_view(ids@).contains(dv[j].id) by {
                                        if j == k {
                                            assert(ids_view(ids@)[ids@.len() - 1] == dv[j].id);
                                        } else {
                                            let x = choose|x: int| 0 <= x < before.len() && before[x] == dv[j].id;
                                            assert(ids_view(ids@)[x] == dv[j].id);
                                        }
                                    }
                                }
                            }
                        }
                        k = k + 1;
                    }
                    proof {
                        assert forall|j: int| 0 <= j < dv.len() && glob_hit_upto(ix, file@, name@, dv[j], g + 1) implies ids_view(ids@).contains(dv[j].id) by {
                            let h = choose|h: int| 0 <= h < g + 1 && h < gv.len() && module_path_of(ix, gv[h], file@) == Some(dv[j].module);
                            if h == g {
                                assert(dv[j].module == mp.deep_view());
                            } else {
                                assert(glob_hit_upto(ix, file@, name@, dv[j], g as int));
                            }
                        }
                    }
                },
            }
            g = g + 1;
        }
        proof {
            assert forall|j: int| 0 <= j < dv.len() implies (glob_hit_upto(ix, file@, name@, dv[j], gv.len() as int) == glob_hit(ix, file@, name@, dv[j])) by {
                if glob_hit(ix, file@, name@, dv[j]) {
                    let h = choose|h: int| 0 <= h < gv.len() && module_path_of(ix, gv[h], file@) == Some(dv[j].module);
                    assert(0 <= h < gv.len() as int && h < gv.len());
                }
            }
        }
        if ids.len() == 0 {
            proof {
                assert forall|j: int| !(0 <= j < dv.len() && glob_hit(ix, file@, name@, dv[j])) by {
                    if 0 <= j < dv.len() && glob_hit(ix, file@, name@, dv[j]) {
                        assert(ids_view(ids@).contains(dv[j].id));
                    }
                }
            }
            None
        } else if ids.len() == 1 {
            proof {
                let iv = ids_view(ids@);
                let w = wit[0];
                assert(0 <= w < dv.len() && glob_hit(ix, file@, name@, dv[w]));
                let c = choose|j: int| 0 <= j < dv.len() && glob_hit(ix, file@, name@, dv[j]);
                assert(iv.contains(dv[c].id));
                assert forall|k: int| 0 <= k < dv.len() && glob_hit(ix, file@, name@, #[trigger] dv[k]) implies dv[k].id == dv[c].id by {
                    assert(iv.contains(dv[k].id));
                }
            }
            Some(Some(ids[0].duplicate()))
        } else {
            proof {
                let iv = ids_view(ids@);
                let w0 = wit[0];
                let w1 = wit[1];
                assert(iv[0] != iv[1]);
                assert(glob_hit(ix, file@, name@, dv[w0]));
                assert(glob_hit(ix, file@, name@, dv[w1]));
                let c = choose|j: int| 0 <= j < dv.len() && glob_hit(ix, file@, name@, dv[j]);
                if dv[w0].id == dv[c].id {
                    assert(dv[w1].id != dv[c].id);
                } else {
                    assert(dv[w0].id != dv[c].id);
                }
            }
            Some(None)
        }
    }
}

impl ResolveIndex {
    /// Resolution of a single-segment call `name` written in `file`.
    fn resolve_unqualified(&self, name: &String, file: &str) -> (r: Option<FnId>)
        ensures
            match r {
                Some(id) => resolve_unqualified_spec(self@, name@, file@) == Some(id@),
                None => resolve_unqualified_spec(self@, name@, file@) is None,
            },
    {
        let ghost same = query_pred(Scope::All, QueryView::InFile { file: file@, name: name@ });
        let q = Query::InFile { file: owned(file), name: name.clone() };
        match find_hits(&self.defs, Scope::All, &q) {
            Hits::One(j) => {
                proof {
                    lemma_only_hit(self@.defs, same, j as int);
                }
                return Some(self.defs[j].id.duplicate());
            },
            Hits::Many => {
                return None;
            },
            Hits::Zero => {
                proof {
                    assert forall|j: int| !is_only_hit(self@.defs, same, j) by {
                        if is_only_hit(self@.defs, same, j) {
                            assert(same(self@.defs[j]));
                        }
                    }
                }
            },
        }
        let empty = UseMap::new();
        let uses = match self.uses_for_file(file) {
            Some(u) => u,
            None => &empty,
        };
        assert(uses@ == uses_of_file(self@, file@));
        match uses.binding(name.as_str()) {
            Some(bound) => {
                return self.resolve_imported(bound, file);
            },
            None => {},
        }
        match self.resolve_by_globs(uses, name.as_str(), file) {
            Some(r) => {
                return r;
            },
            None => {},
        }
        let module = self.module_for_file(file);
        let q = Query::Sibling { module, file: owned(file), name: name.clone() };
        self.unique_function_matching(file, &q)
    }

    /// Resolution of a method call by name alone.
    fn resolve_method(&self, name: &String) -> (r: Option<FnId>)
        ensures
            match r {
                Some(id) => resolve_method_spec(self@, name@) == Some(id@),
                None => resolve_method_spec(self@, name@) is None,
            },
    {
        let ghost p = query_pred(Scope::All, QueryView::Named { name: name@ });
        let q = Query::Named { name: name.clone() };
        match find_hits(&self.defs, Scope::All, &q) {
            Hits::One(j) => {
                proof {
                    let c = choose|c: int| is_only_hit(self@.defs, p, c);
                    if c != j {
                        assert(!p(self@.defs[c]));
                    }
                }
                if self.defs[j].has_body {
                    Some(self.defs[j].id.duplicate())
                } else {
                    None
                }
            },
            _ => None,
        }
    }
}

/// Expand target of a call site: the definition that the call resolves to,
/// when exactly one does. Macros never resolve.
pub fn resolve(site: &CallSite, index: &ResolveIndex) -> (r: Option<FnId>)
    ensures
        match r {
            Some(id) => resolve_spec(index@, site@) == Some(id@),
            None => resolve_spec(index@, site@) is None,
        },
{
    if site.is_macro {
        return None;
    }
    match &site.kind {
        CallKind::Method { name } => index.resolve_method(name),
        CallKind::Free { path } => {
            if path.len() == 0 {
                None
            } else if path.len() >= 2 {
                index.resolve_qualified(path, site.file.as_str())
            } else {
                index.resolve_unqualified(&path[0], site.file.as_str())
            }
        },
    }
}

/// Module path of a Rust file: its directories below an optional leading
/// `src/`, then the file stem unless the file is `lib.rs`, `main.rs` or
/// `mod.rs`; `<stdin>` is the crate root.
pub open spec fn rust_module_of(file: Seq<char>) -> Seq<Seq<char>> {
    if file == "<stdin>"@ {
        Seq::empty()
    } else {
        let rel = if has_prefix(file, "src/"@) {
            file.skip(4)
        } else {
            file
        };
        let parts = pieces(rel, '/');
        if parts.len() == 0 {
            Seq::empty()
        } else {
            let name = parts.last();
            if name == "lib.rs"@ || name == "main.rs"@ || name == "mod.rs"@ {
                parts.drop_last()
            } else {
                parts.drop_last().push(
                    if has_suffix(name, ".rs"@) {
                        name.take(name.len() - 3)
                    } else {
                        name
                    },
                )
            }
        }
    }
}

pub fn rust_module_path(file: &str) -> (m: Vec<String>)
    ensures
        m.deep_view() == rust_module_of(file@),
{
    if str_eq(file, "<stdin>") {
        let v: Vec<String> = Vec::new();
        assert(v.deep_view() =~= Seq::<Seq<char>>::empty());
        return v;
    }
    let cs = chars_of(file);
    let from: usize = if starts_with(file, "src/") {
        proof {
            reveal_strlit("src/");
        }
        4
    } else {
        0
    };
    let rel = string_of(&cs, from, cs.len());
    assert(rel@ =~= (if has_prefix(file@, "src/"@) { file@.skip(4) } else { file@ }));
    let mut parts = split_pieces(rel.as_str(), '/');
    let ghost pv = parts.deep_view();
    if parts.len() == 0 {
        return parts;
    }
    let name = parts.pop().unwrap();
    assert(parts.deep_view() =~= pv.drop_last());
    assert(name@ == pv.last());
    let n = name.as_str();
    if str_eq(n, "lib.rs") || str_eq(n, "main.rs") || str_eq(n, "mod.rs") {
        return parts;
    }
    let stem = if ends_with(n, ".rs") {
        let ncs = chars_of(n);
        proof {
            reveal_strlit(".rs");
        }
        string_of(&ncs, 0, ncs.len() - 3)
    } else {
        owned(n)
    };
    let ghost before = parts.deep_view();
    parts.push(stem);
    assert(parts.deep_view() =~= before.push(stem@));
    parts
}

/// Definitions of one analyzed file.
pub open spec fn file_defs_of(path: Seq<char>, src: Seq<char>) -> Seq<FnDefView> {
    let t = parsed_view(grammar_of(path), src);
    lang_defs_of(t, path, file_uses_of(path, src), file_module_of(path, src))
}

/// Use map of one analyzed file.
pub open spec fn file_uses_of(path: Seq<char>, src: Seq<char>) -> UseMapView {
    file_uses(parsed_view(grammar_of(path), src), path)
}

/// Module path of one analyzed file.
pub open spec fn file_module_of(path: Seq<char>, src: Seq<char>) -> Seq<Seq<char>> {
    match language_of(path) {
        Some(Language::Java) => java_module_of(parsed_view(grammar_of(path), src), path),
        Some(Language::TypeScript) => ts_module_of(path),
        _ => rust_module_of(path),
    }
}

pub open spec fn files_view(files: Seq<(String, String)>) -> Seq<(Seq<char>, Seq<char>)> {
    files.map_values(|f: (String, String)| (f.0@, f.1@))
}

/// Index of the files, in order.
pub open spec fn index_of(files: Seq<(Seq<char>, Seq<char>)>) -> IndexView
    decreases files.len(),
{
    if files.len() == 0 {
        IndexView { defs: Seq::empty(), modules: Seq::empty(), uses: Seq::empty(), file_module: Seq::empty() }
    } else {
        let ix = index_of(files.drop_last());
        let (p, s) = files.last();
        IndexView {
            defs: ix.defs + file_defs_of(p, s),
            modules: ix.modules.push(file_module_of(p, s)),
            uses: ix.uses.push((p, file_uses_of(p, s))),
            file_module: ix.file_module.push((p, file_module_of(p, s))),
        }
    }
}

/// Indexes `files` (path, source): every definition, module and use map.
pub fn index_files(files: &[(String, String)]) -> (ix: ResolveIndex)
    ensures
        ix@ == index_of(files_view(files@)),
{
    let ghost fv = files_view(files@);
    let mut ix = ResolveIndex { defs: Vec::new(), modules: Vec::new(), uses: Vec::new(), file_module: Vec::new() };
    let mut k: usize = 0;
    proof {
        assert(fv.take(0) =~= Seq::<(Seq<char>, Seq<char>)>::empty());
        assert(ix@.defs =~= Seq::<FnDefView>::empty());
        assert(ix@.modules =~= Seq::<Seq<Seq<char>>>::empty());
        assert(ix@.uses =~= Seq::<(Seq<char>, UseMapView)>::empty());
        assert(ix@.file_module =~= Seq::<(Seq<char>, Seq<Seq<char>>)>::empty());
    }
    while k < files.len()
        invariant
            k <= files@.len(),
            fv == files_view(files@),
            fv.len() == files@.len(),
            ix@ == index_of(fv.take(k as int)),
        decreases files@.len() - k,
    {
        let (path, src) = &files[k];
        assert(fv[k as int] == (path@, src@));
        assert(fv.take(k + 1).drop_last() =~= fv.take(k as int));
        assert(fv.take(k + 1).last() == (path@, src@));
        let t = parse_path(path.as_str(), src.as_str());
        let uses = UseMap::for_file(&t, path.as_str());
        let module = match language_for_path(path.as_str()) {
            Some(Language::Java) => module_path_from_tree(&t, path.as_str()),
            Some(Language::TypeScript) => ts_module_path(path.as_str()),
            _ => rust_module_path(path.as_str()),
        };
        let defs = index_defs(&t, src.as_str(), path.as_str(), &uses, &module);
        let ghost before = ix@;
        ix.modules.push(copy_strings(&module));
        ix.file_module.push((path.clone(), module));
        ix.uses.push((path.clone(), uses));
        let mut defs = defs;
        let ghost dv = defs_view(defs@);
        ix.defs.append(&mut defs);
        proof {
            assert(ix@.defs =~= before.defs + dv);
            assert(ix@.modules =~= before.modules.push(file_module_of(path@, src@)));
            assert(ix@.uses =~= before.uses.push((path@, file_uses_of(path@, src@))));
            assert(ix@.file_module =~= before.file_module.push((path@, file_module_of(path@, src@))));
        }
        k = k + 1;
    }
    assert(fv.take(files@.len() as int) =~= fv);
    ix
}

/// How often a callee is expanded.
#[derive(Clone, Copy, Debug, PartialEq, Eq, Structural)]
pub enum Expand {
    /// Re-expand a callee at every call site (tree).
    Every,
    /// Expand each callee once; later sites are leaves (flow and diff).
    Once,
}

/// Entry identities paired with their definitions' names.
pub open spec fn named_entries(ix: IndexView, ids: Seq<FnIdView>) -> Seq<(FnIdView, Seq<char>)> {
    ids.map_values(
        |id: FnIdView|
            (
                id,
                match def_index(ix, id) {
                    Some(j) => ix.defs[j].name,
                    None => Seq::empty(),
                },
            ),
    )
}

/// Entries in output order: by file and start offset; in flow mode by file,
/// name and start offset.
pub open spec fn entry_order(ix: IndexView, mode: Expand) -> Seq<FnIdView> {
    let entries = select_entries_spec(ix, called_spec(ix));
    if mode == Expand::Once {
        first_of(sort_entries(named_entries(ix, entries), true))
    } else {
        entries
    }
}

/// Root trees for `entries[k..]`; in flow mode an entry already expanded is
/// skipped.
pub open spec fn roots_from(ix: IndexView, once: bool, entries: Seq<FnIdView>, k: int, seen: Seq<FnIdView>) -> Seq<OutlineView>
    decreases entries.len() - k,
{
    if k < 0 || k >= entries.len() {
        Seq::empty()
    } else {
        let id = entries[k];
        if once && seen.contains(id) {
            roots_from(ix, once, entries, k + 1, seen)
        } else {
            match def_index(ix, id) {
                None => roots_from(ix, once, entries, k + 1, seen),
                Some(j) => {
                    let d = ix.defs[j];
                    let seen1 = if once {
                        seen.push(d.id)
                    } else {
                        seen
                    };
                    let (c, s2) = expand_list(ix, seq![d.id], once, seen1, d.body, 0);
                    seq![OutlineView {
                        text: "fn "@ + d.name,
                        loc: Placement::Placed(LocView { file: d.id.file, line: d.start_line }),
                        children: c,
                    }] + roots_from(ix, once, entries, k + 1, s2)
                },
            }
        }
    }
}

/// The outline of the analyzed set: one tree per entry point.
pub open spec fn outline_spec(ix: IndexView, mode: Expand) -> Seq<OutlineView> {
    roots_from(ix, mode == Expand::Once, entry_order(ix, mode), 0, Seq::empty())
}

proof fn lemma_no_defs_no_roots(ix: IndexView, once: bool, entries: Seq<FnIdView>, k: int, seen: Seq<FnIdView>)
    requires
        ix.defs.len() == 0,
    ensures
        roots_from(ix, once, entries, k, seen) == Seq::<OutlineView>::empty(),
    decreases entries.len() - k,
{
    if 0 <= k < entries.len() {
        lemma_last_def(ix.defs, entries[k], 0);
        lemma_no_defs_no_roots(ix, once, entries, k + 1, seen);
    }
}

/// Law: an index without definitions has no outline trees.
pub proof fn law_no_defs_no_outline(ix: IndexView, mode: Expand)
    requires
        ix.defs.len() == 0,
    ensures
        outline_spec(ix, mode) == Seq::<OutlineView>::empty(),
{
    lemma_no_defs_no_roots(ix, mode == Expand::Once, entry_order(ix, mode), 0, Seq::empty());
}

/// One tree per entry point: definitions with a body, not nested, that no
/// call expands to (all of them when every one is called). In `Every` mode
/// each resolved call is expanded again; in `Once` mode each callee is
/// expanded at its first call only and entries are ordered by name.
pub fn outline(index: &ResolveIndex, mode: Expand) -> (o: Outline)
    ensures
        outlines_view(o.roots@) == outline_spec(index@, mode),
{
    let ghost ix = index@;
    let once = mode == Expand::Once;
    let called = called_targets(index);
    let selected = select_entries(index, &called);
    let entries = if once {
        let mut keyed: Vec<(FnId, String)> = Vec::new();
        let mut k: usize = 0;
        while k < selected.len()
            invariant
                ix == index@,
                k <= selected@.len(),
                keyed_view(keyed@) == named_entries(ix, ids_view(selected@)).take(k as int),
            decreases selected@.len() - k,
        {
            let id = &selected[k];
            proof {
                lemma_last_def(ix.defs, id@, ix.defs.len() as int);
            }
            let name = match index.def_position(id) {
                Some(j) => index.defs[j].name.clone(),
                None => String::new(),
            };
            let ghost prev = keyed_view(keyed@);
            keyed.push((id.duplicate(), name));
            assert(keyed_view(keyed@) =~= prev.push(named_entries(ix, ids_view(selected@))[k as int]));
            assert(named_entries(ix, ids_view(selected@)).take(k + 1) =~= named_entries(ix, ids_view(selected@)).take(k as int).push(named_entries(ix, ids_view(selected@))[k as int]));
            k = k + 1;
        }
        assert(named_entries(ix, ids_view(selected@)).take(selected@.len() as int) =~= named_entries(ix, ids_view(selected@)));
        let sorted = sort_keyed(keyed, true);
        let mut ids: Vec<FnId> = Vec::new();
        let mut j: usize = 0;
        while j < sorted.len()
            invariant
                j <= sorted@.len(),
                ids_view(ids@) == first_of(keyed_view(sorted@)).take(j as int),
            decreases sorted@.len() - j,
        {
            let ghost prev = ids_view(ids@);
            ids.push(sorted[j].0.duplicate());
            assert(ids_view(ids@) =~= prev.push(sorted@[j as int].0@));
            assert(first_of(keyed_view(sorted@)).take(j + 1) =~= first_of(keyed_view(sorted@)).take(j as int).push(sorted@[j as int].0@));
            j = j + 1;
        }
        assert(first_of(keyed_view(sorted@)).take(sorted@.len() as int) =~= first_of(keyed_view(sorted@)));
        ids
    } else {
        selected
    };
    assert(ids_view(entries@) == entry_order(ix, mode));
    let ghost ev = ids_view(entries@);
    let mut seen: Vec<FnId> = Vec::new();
    let mut roots: Vec<OutlineNode> = Vec::new();
    let mut k: usize = 0;
    assert(ids_view(seen@) =~= Seq::<FnIdView>::empty());
    assert(outlines_view(roots@) =~= Seq::<OutlineView>::empty());
    while k < entries.len()
        invariant
            ix == index@,
            k <= entries@.len(),
            ev == ids_view(entries@),
            once == (mode == Expand::Once),
            outline_spec(ix, mode) == outlines_view(roots@) + roots_from(ix, once, ev, k as int, ids_view(seen@)),
        decreases entries@.len() - k,
    {
        let id = &entries[k];
        let ghost prev = outlines_view(roots@);
        let ghost sk = ids_view(seen@);
        assert(ev[k as int] == id@);
        if once && contains_id(&seen, id) {
            k = k + 1;
            continue;
        }
        proof {
            lemma_last_def(ix.defs, id@, ix.defs.len() as int);
        }
        match index.def_position(id) {
            None => {},
            Some(j) => {
                let d = &index.defs[j];
                assert(ix.defs[j as int] == d@);
                if once {
                    seen.push(d.id.duplicate());
                    assert(ids_view(seen@) =~= sk.push(d@.id));
                }
                let mut stack: Vec<FnId> = Vec::new();
                stack.push(d.id.duplicate());
                assert(ids_view(stack@) =~= seq![d@.id]);
                let children = expand_nodes(index, &mut stack, once, &mut seen, &d.body);
                let mut text = owned("fn ");
                push_str(&mut text, d.name.as_str());
                let node = OutlineNode { text, loc: Some(d.source_location()), children };
                proof {
                    lemma_outline_view(&node);
                    assert(node@.children =~= outlines_view(node.children@));
                }
                let ghost nv = node@;
                roots.push(node);
                proof {
                    assert(outlines_view(roots@) =~= prev + seq![nv]);
                    let rest = roots_from(ix, once, ev, k + 1, ids_view(seen@));
                    assert(prev + (seq![nv] + rest) =~= (prev + seq![nv]) + rest);
                }
            },
        }
        k = k + 1;
    }
    Outline { roots }
}

} // verus!
