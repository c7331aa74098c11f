//! Which files a path argument or a directory walk contributes, and how
//! their bytes become sources. The walk itself and the reads are the
//! caller's: this module decides each step and checks what was read.
use vstd::prelude::*;
use vstd::utf8::{decode_utf8, valid_utf8};

use crate::error::{ErrorView, SeerError};
use crate::graph::{pairs_view, path_less, sort_by_path};
use crate::lang::{has_source_suffix, is_source_filename, supported_languages_msg};
use crate::sort::sorted_by;
use crate::text::{chars_of, has_prefix, owned, pieces, push_char, push_str, split_pieces, starts_with, str_eq, string_of, utf8_text};

verus! {

/// A directory entry that a walk skips: build output, VCS data, installed
/// packages and every dot-file.
pub open spec fn excluded_name(name: Seq<char>) -> bool {
    name == "target"@ || name == "node_modules"@ || has_prefix(name, "."@)
}

/// Whether a walk skips the entry `name`.
pub fn excluded_component(name: &str) -> (r: bool)
    ensures
        r == excluded_name(name@),
{
    str_eq(name, "target") || str_eq(name, "node_modules") || starts_with(name, ".")
}

/// A repository path that names a source file: its last component has a
/// supported extension, and none of its components is one a walk skips.
pub open spec fn source_path_ok(path: Seq<char>) -> bool {
    let ps = pieces(path, '/');
    &&& ps.len() > 0
    &&& has_source_suffix(ps.last())
    &&& forall|i: int| 0 <= i < ps.len() ==> !excluded_name(#[trigger] ps[i])
}

/// Whether `path` (components separated by `/`) names a source file.
pub fn is_source_file_path(path: &str) -> (r: bool)
    ensures
        r == source_path_ok(path@),
{
    let ps = split_pieces(path, '/');
    let ghost pv = ps.deep_view();
    if ps.len() == 0 {
        return false;
    }
    if !is_source_filename(ps[ps.len() - 1].as_str()) {
        assert(pv.last() == ps@[ps@.len() - 1]@);
        return false;
    }
    assert(pv.last() == ps@[ps@.len() - 1]@);
    let mut k: usize = 0;
    while k < ps.len()
        invariant
            k <= ps@.len(),
            pv == ps.deep_view(),
            pv == pieces(path@, '/'),
            pv.len() > 0,
            has_source_suffix(pv.last()),
            forall|i: int| 0 <= i < k ==> !excluded_name(#[trigger] pv[i]),
        decreases ps@.len() - k,
    {
        if excluded_component(ps[k].as_str()) {
            assert(pv[k as int] == ps@[k as int]@);
            return false;
        }
        k = k + 1;
    }
    true
}

/// `f` without trailing `/`s.
pub open spec fn trim_slashes(f: Seq<char>) -> Seq<char>
    decreases f.len(),
{
    if f.len() > 0 && f.last() == '/' {
        trim_slashes(f.drop_last())
    } else {
        f
    }
}

/// A path filter as a repository prefix: trailing `/`s and one leading
/// `./` dropped.
pub open spec fn filter_base(f: Seq<char>) -> Seq<char> {
    let t = trim_slashes(f);
    if has_prefix(t, "./"@) {
        t.skip(2)
    } else {
        t
    }
}

/// `path` is the filter's path or lies below it; an empty filter or `.`
/// covers everything.
pub open spec fn under(path: Seq<char>, f: Seq<char>) -> bool {
    let b = filter_base(f);
    b.len() == 0 || b == "."@ || path == b || has_prefix(path, b + "/"@)
}

/// No filters, or some filter covers `path`.
pub open spec fn under_any(path: Seq<char>, filters: Seq<Seq<char>>) -> bool {
    filters.len() == 0 || exists|i: int| 0 <= i < filters.len() && under(path, #[trigger] filters[i])
}

fn base_of(f: &str) -> (b: Vec<char>)
    ensures
        b@ == filter_base(f@),
{
    let cs = chars_of(f);
    let mut end = cs.len();
    assert(cs@.take(end as int) =~= cs@);
    while end > 0 && cs[end - 1] == '/'
        invariant
            end <= cs@.len(),
            cs@ == f@,
            trim_slashes(f@) == trim_slashes(cs@.take(end as int)),
        decreases end,
    {
        assert(cs@.take(end as int).drop_last() =~= cs@.take(end - 1));
        end = end - 1;
    }
    let ghost t = cs@.take(end as int);
    assert(trim_slashes(t) == t);
    proof {
        reveal_strlit("./");
    }
    let start: usize = if end >= 2 && cs[0] == '.' && cs[1] == '/' { 2 } else { 0 };
    assert(has_prefix(t, "./"@) == (start == 2)) by {
        assert("./"@ =~= seq!['.', '/']);
        if end >= 2 {
            assert(t.take(2) =~= seq![cs@[0], cs@[1]]);
        }
    }
    let mut b: Vec<char> = Vec::new();
    let mut k = start;
    while k < end
        invariant
            start <= k <= end <= cs@.len(),
            b@ == cs@.subrange(start as int, k as int),
        decreases end - k,
    {
        b.push(cs[k]);
        assert(b@ =~= cs@.subrange(start as int, k + 1));
        k = k + 1;
    }
    assert(b@ =~= t.skip(start as int));
    b
}

fn under_filter(path: &Vec<char>, f: &str) -> (r: bool)
    ensures
        r == under(path@, f@),
{
    let b = base_of(f);
    proof {
        reveal_strlit(".");
        reveal_strlit("/");
    }
    if b.len() == 0 || (b.len() == 1 && b[0] == '.') {
        assert(b.len() == 1 ==> b@ =~= "."@);
        return true;
    }
    assert(b@ != "."@) by {
        if b@.len() == 1 {
            assert(b@[0] != "."@[0]);
        }
    }
    if path.len() < b.len() {
        assert(path@ != b@);
        assert(!has_prefix(path@, b@ + "/"@));
        return false;
    }
    let mut k: usize = 0;
    while k < b.len()
        invariant
            k <= b@.len() <= path@.len(),
            b@ == filter_base(f@),
            b@.len() > 0,
            b@ != "."@,
            path@.take(k as int) == b@.take(k as int),
        decreases b@.len() - k,
    {
        if path[k] != b[k] {
            assert(path@.take(b@.len() as int)[k as int] != (b@ + "/"@)[k as int]);
            assert(path@ != b@);
            assert(!has_prefix(path@, b@ + "/"@));
            return false;
        }
        assert(path@.take(k + 1) =~= path@.take(k as int).push(path@[k as int]));
        assert(b@.take(k + 1) =~= b@.take(k as int).push(b@[k as int]));
        k = k + 1;
    }
    assert(b@.take(b@.len() as int) =~= b@);
    if path.len() == b.len() {
        assert(path@ =~= b@);
        return true;
    }
    let r = path[b.len()] == '/';
    assert(r == has_prefix(path@, b@ + "/"@)) by {
        let q = b@ + "/"@;
        assert(q.len() == b@.len() + 1);
        if r {
            assert(path@.take(q.len() as int) =~= q);
        } else {
            assert(path@.take(q.len() as int)[b@.len() as int] != q[b@.len() as int]);
        }
    }
    r
}

/// Whether `path` lies under one of `filters` (all paths when there are none).
pub fn file_is_under_any_path(path: &str, filters: &Vec<String>) -> (r: bool)
    ensures
        r == under_any(path@, filters.deep_view()),
{
    let ghost fv = filters.deep_view();
    if filters.len() == 0 {
        return true;
    }
    let cs = chars_of(path);
    let mut k: usize = 0;
    while k < filters.len()
        invariant
            k <= filters@.len(),
            cs@ == path@,
            fv == filters.deep_view(),
            forall|i: int| 0 <= i < k ==> !under(path@, #[trigger] fv[i]),
        decreases filters@.len() - k,
    {
        if under_filter(&cs, filters[k].as_str()) {
            assert(under(path@, fv[k as int]));
            return true;
        }
        k = k + 1;
    }
    false
}

/// `path` with each `\` turned into `/`.
pub open spec fn posix_of(path: Seq<char>) -> Seq<char> {
    path.map_values(|c: char| if c == '\\' { '/' } else { c })
}

/// The POSIX spelling of a path argument: only `\` becomes `/`.
pub fn posix_spelling(path: &str) -> (r: String)
    ensures
        r@ == posix_of(path@),
{
    let cs = chars_of(path);
    let mut r = String::new();
    let mut k: usize = 0;
    while k < cs.len()
        invariant
            k <= cs@.len(),
            cs@ == path@,
            r@ == posix_of(path@).take(k as int),
        decreases cs@.len() - k,
    {
        let c = if cs[k] == '\\' { '/' } else { cs[k] };
        push_char(&mut r, c);
        assert(r@ =~= posix_of(path@).take(k + 1));
        k = k + 1;
    }
    assert(r@ =~= posix_of(path@));
    r
}

/// Relative path of the entry `name` inside the walked directory `rel`.
pub open spec fn joined_rel(rel: Seq<char>, name: Seq<char>) -> Seq<char> {
    if rel.len() == 0 {
        name
    } else {
        rel + "/"@ + name
    }
}

/// `rel/name`, or `name` at the top of the walk.
pub fn join_rel(rel: &str, name: &str) -> (r: String)
    ensures
        r@ == joined_rel(rel@, name@),
{
    if rel.unicode_len() == 0 {
        owned(name)
    } else {
        let mut r = owned(rel);
        push_char(&mut r, '/');
        push_str(&mut r, name);
        proof {
            reveal_strlit("/");
        }
        assert(r@ =~= rel@ + "/"@ + name@);
        r
    }
}

/// What a directory entry is, as the walk sees it without following links.
#[derive(Clone, Copy, Debug, PartialEq, Eq)]
pub enum EntryKind {
    Dir,
    File,
    Symlink,
    Other,
}

/// What the walk does with an entry.
#[derive(Clone, Copy, Debug, PartialEq, Eq)]
pub enum WalkStep {
    Skip,
    Descend,
    Read,
}

pub open spec fn walk_step_of(name: Seq<char>, kind: EntryKind) -> WalkStep {
    if kind == EntryKind::Symlink || excluded_name(name) {
        WalkStep::Skip
    } else if kind == EntryKind::Dir {
        WalkStep::Descend
    } else if kind == EntryKind::File && has_source_suffix(name) {
        WalkStep::Read
    } else {
        WalkStep::Skip
    }
}

/// Links are never followed; skipped names are neither entered nor read;
/// a regular file is read when its name has a source extension.
pub fn walk_step(name: &str, kind: EntryKind) -> (r: WalkStep)
    ensures
        r == walk_step_of(name@, kind),
{
    match kind {
        EntryKind::Symlink => WalkStep::Skip,
        _ => {
            if excluded_component(name) {
                WalkStep::Skip
            } else {
                match kind {
                    EntryKind::Dir => WalkStep::Descend,
                    EntryKind::File => {
                        if is_source_filename(name) {
                            WalkStep::Read
                        } else {
                            WalkStep::Skip
                        }
                    },
                    _ => WalkStep::Skip,
                }
            }
        },
    }
}

/// The message of a source that is not UTF-8.
pub open spec fn invalid_utf8_message(path: Seq<char>) -> Seq<char> {
    "invalid utf-8: "@ + path
}

/// The bytes read for `path` as source text.
pub fn source_text(path: &str, bytes: Vec<u8>) -> (r: Result<String, SeerError>)
    ensures
        match r {
            Ok(s) => valid_utf8(bytes@) && s@ == decode_utf8(bytes@),
            Err(e) => !valid_utf8(bytes@) && e@ == ErrorView::Io(invalid_utf8_message(path@)),
        },
{
    match utf8_text(bytes) {
        Some(s) => Ok(s),
        None => {
            let mut m = owned("invalid utf-8: ");
            push_str(&mut m, path);
            Err(SeerError::Io(m))
        },
    }
}

/// The sources of `found`, in order, up to the first that is not UTF-8.
pub open spec fn decoded_from(found: Seq<(Seq<char>, Seq<u8>)>) -> Result<Seq<(Seq<char>, Seq<char>)>, ErrorView>
    decreases found.len(),
{
    if found.len() == 0 {
        Ok(Seq::empty())
    } else {
        match decoded_from(found.drop_last()) {
            Err(e) => Err(e),
            Ok(done) => {
                let f = found.last();
                if valid_utf8(f.1) {
                    Ok(done.push((f.0, decode_utf8(f.1))))
                } else {
                    Err(ErrorView::Io(invalid_utf8_message(f.0)))
                }
            },
        }
    }
}

pub open spec fn found_view(v: Seq<(String, Vec<u8>)>) -> Seq<(Seq<char>, Seq<u8>)> {
    v.map_values(|p: (String, Vec<u8>)| (p.0@, p.1@))
}

/// The files a walk read, as `(posix relative path, bytes)` in walk order:
/// each decoded as UTF-8, then sorted by path. The first file that is not
/// UTF-8 is the error.
pub fn collect_source_files(found: Vec<(String, Vec<u8>)>) -> (r: Result<Vec<(String, String)>, SeerError>)
    ensures
        match r {
            Ok(files) => decoded_from(found_view(found@)) matches Ok(d) && pairs_view(files@) == sorted_by(
                d,
                |a: (Seq<char>, Seq<char>), b: (Seq<char>, Seq<char>)| path_less(a, b),
            ),
            Err(e) => decoded_from(found_view(found@)) == Err::<Seq<(Seq<char>, Seq<char>)>, ErrorView>(e@),
        },
{
    let ghost fv = found_view(found@);
    let mut files: Vec<(String, String)> = Vec::new();
    let mut k: usize = 0;
    assert(fv.take(0) =~= Seq::<(Seq<char>, Seq<u8>)>::empty());
    assert(pairs_view(files@) =~= Seq::<(Seq<char>, Seq<char>)>::empty());
    while k < found.len()
        invariant
            k <= found@.len(),
            fv == found_view(found@),
            decoded_from(fv.take(k as int)) == Ok::<Seq<(Seq<char>, Seq<char>)>, ErrorView>(pairs_view(files@)),
        decreases found@.len() - k,
    {
        assert(fv.take(k + 1).drop_last() =~= fv.take(k as int));
        assert(fv[k as int] == (found@[k as int].0@, found@[k as int].1@));
        match source_text(found[k].0.as_str(), found[k].1.clone()) {
            Ok(s) => {
                let ghost before = pairs_view(files@);
                files.push((found[k].0.clone(), s));
                assert(pairs_view(files@) =~= before.push((fv[k as int].0, decode_utf8(fv[k as int].1))));
            },
            Err(e) => {
                proof {
                    lemma_decoded_stops(fv, k as int);
                }
                return Err(e);
            },
        }
        k = k + 1;
    }
    assert(fv.take(found@.len() as int) =~= fv);
    Ok(sort_by_path(files))
}

proof fn lemma_decoded_stops(fv: Seq<(Seq<char>, Seq<u8>)>, k: int)
    requires
        0 <= k < fv.len(),
        decoded_from(fv.take(k)) is Ok,
        !valid_utf8(fv[k].1),
    ensures
        decoded_from(fv) == Err::<Seq<(Seq<char>, Seq<char>)>, ErrorView>(ErrorView::Io(invalid_utf8_message(fv[k].0))),
    decreases fv.len() - k,
{
    if k + 1 == fv.len() {
        assert(fv.drop_last() =~= fv.take(k));
    } else {
        assert(fv.drop_last().take(k) =~= fv.take(k));
        lemma_decoded_stops(fv.drop_last(), k);
    }
}

/// What a path argument names, as the caller found it on disk.
#[derive(Clone, Copy, Debug, PartialEq, Eq)]
pub enum PathKind {
    Missing,
    Dir,
    File,
    Other,
}

/// How to read the sources of a path argument.
#[derive(Debug, PartialEq, Eq)]
pub enum CollectStep {
    /// One virtual file `<stdin>`.
    Stdin,
    /// Walk the directory.
    Walk,
    /// Read one file, named by the given POSIX spelling of the argument.
    ReadFile(String),
}

pub enum CollectStepView {
    Stdin,
    Walk,
    ReadFile(Seq<char>),
}

impl View for CollectStep {
    type V = CollectStepView;

    open spec fn view(&self) -> CollectStepView {
        match self {
            CollectStep::Stdin => CollectStepView::Stdin,
            CollectStep::Walk => CollectStepView::Walk,
            CollectStep::ReadFile(p) => CollectStepView::ReadFile(p@),
        }
    }
}

/// The extension of a file name: the text after its last `.`, where that
/// `.` is not the first character.
pub open spec fn extension_of(name: Seq<char>, k: int) -> Option<Seq<char>>
    decreases k,
{
    if k <= 1 || k > name.len() {
        None
    } else if name[k - 1] == '.' {
        Some(name.skip(k))
    } else {
        extension_of(name, k - 1)
    }
}

/// The extension named in the unsupported-language message.
pub open spec fn shown_extension(path: Seq<char>) -> Seq<char> {
    let name = match crate::lang::file_name_of(path) {
        Some(n) => n,
        None => Seq::empty(),
    };
    match extension_of(name, name.len() as int) {
        Some(e) => if e.len() > 0 { e } else { "unknown"@ },
        None => "unknown"@,
    }
}

pub open spec fn unsupported_message(path: Seq<char>) -> Seq<char> {
    "unsupported language: "@ + shown_extension(path) + " ("@ + "v1 supports rust, java, and typescript"@ + ")"@
}

pub open spec fn collect_step_of(path: Seq<char>, kind: PathKind) -> Result<CollectStepView, ErrorView> {
    if path == "-"@ {
        Ok(CollectStepView::Stdin)
    } else if kind == PathKind::Missing {
        Err(ErrorView::Io("path not found: "@ + path))
    } else if kind == PathKind::Dir {
        Ok(CollectStepView::Walk)
    } else if kind == PathKind::File {
        let name = match crate::lang::file_name_of(path) {
            Some(n) => n,
            None => Seq::empty(),
        };
        if has_source_suffix(name) {
            Ok(CollectStepView::ReadFile(posix_of(path)))
        } else {
            Err(ErrorView::Io(unsupported_message(path)))
        }
    } else {
        Err(ErrorView::Io("not a file or directory: "@ + path))
    }
}

fn shown_ext(path: &str) -> (e: String)
    ensures
        e@ == shown_extension(path@),
{
    let name = match crate::lang::file_name(path) {
        Some(n) => n,
        None => String::new(),
    };
    let cs = chars_of(name.as_str());
    let mut k = cs.len();
    while k > 1 && cs[k - 1] != '.'
        invariant
            k <= cs@.len(),
            cs@ == name@,
            extension_of(name@, name@.len() as int) == extension_of(name@, k as int),
        decreases k,
    {
        k = k - 1;
    }
    proof {
        reveal_strlit("unknown");
    }
    if k > 1 && k < cs.len() {
        string_of(&cs, k, cs.len())
    } else {
        assert(k > 1 ==> cs@.skip(k as int).len() == 0);
        owned("unknown")
    }
}

/// How the sources of a path argument are read: `-` is standard input,
/// never a filesystem path; a directory is walked; a file is read when its
/// name has a source extension, under the argument's POSIX spelling.
pub fn collect_step(path: &str, kind: PathKind) -> (r: Result<CollectStep, SeerError>)
    ensures
        match r {
            Ok(s) => collect_step_of(path@, kind) == Ok::<CollectStepView, ErrorView>(s@),
            Err(e) => collect_step_of(path@, kind) == Err::<CollectStepView, ErrorView>(e@),
        },
{
    if str_eq(path, "-") {
        return Ok(CollectStep::Stdin);
    }
    match kind {
        PathKind::Missing => {
            let mut m = owned("path not found: ");
            push_str(&mut m, path);
            Err(SeerError::Io(m))
        },
        PathKind::Dir => Ok(CollectStep::Walk),
        PathKind::File => {
            let name = match crate::lang::file_name(path) {
                Some(n) => n,
                None => String::new(),
            };
            if is_source_filename(name.as_str()) {
                Ok(CollectStep::ReadFile(posix_spelling(path)))
            } else {
                let mut m = owned("unsupported language: ");
                push_str(&mut m, shown_ext(path).as_str());
                push_str(&mut m, " (");
                push_str(&mut m, supported_languages_msg());
                push_str(&mut m, ")");
                Err(SeerError::Io(m))
            }
        },
        PathKind::Other => {
            let mut m = owned("not a file or directory: ");
            push_str(&mut m, path);
            Err(SeerError::Io(m))
        },
    }
}

/// Law: the sources collected from a walk come out ordered by path: no
/// later file's path sorts before an earlier one's.
pub proof fn law_sources_sorted_by_path(files: Seq<(Seq<char>, Seq<char>)>)
    ensures
        crate::sort::sorted_wrt(
            sorted_by(files, |a: (Seq<char>, Seq<char>), b: (Seq<char>, Seq<char>)| path_less(a, b)),
            |a: (Seq<char>, Seq<char>), b: (Seq<char>, Seq<char>)| path_less(a, b),
        ),
{
    let less = |a: (Seq<char>, Seq<char>), b: (Seq<char>, Seq<char>)| path_less(a, b);
    assert forall|x: (Seq<char>, Seq<char>), y: (Seq<char>, Seq<char>)| #[trigger] less(x, y) implies !less(y, x) by {
        crate::text::lemma_seq_less_asym(x.0, y.0);
    }
    assert forall|x: (Seq<char>, Seq<char>), y: (Seq<char>, Seq<char>), z: (Seq<char>, Seq<char>)|
        #![trigger less(x, z), less(x, y)]
        #![trigger less(x, z), less(y, z)]
        less(x, z) implies less(x, y) || less(y, z) by {
        crate::text::lemma_seq_less_split(x.0, y.0, z.0);
    }
    crate::sort::lemma_sorted_by_sorted(files, less);
}

} // verus!
