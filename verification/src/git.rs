//! What the git-backed diff computes without running git: its arguments, the
//! paths that a revision contributes, and the parse of `git cat-file --batch`.
use vstd::prelude::*;
use vstd::utf8::{decode_utf8, valid_utf8};

use crate::collect::{file_is_under_any_path, is_source_file_path, source_path_ok, under_any};
use crate::error::{ErrorView, SeerError};
use crate::text::{chars_of, class_trimmed, has_suffix, owned, parse_usize, parsed_usize, push_char, push_str, str_eq, string_of, trim_class_chars, utf8_text, ends_with};

verus! {

/// Revisions and path filters of `seer diff`.
#[derive(Debug, PartialEq, Eq)]
pub struct DiffRequest {
    pub revs: Vec<String>,
    pub paths: Vec<String>,
}

/// Index of the first `--` among `args[k..]`.
pub open spec fn dashdash_from(args: Seq<Seq<char>>, k: int) -> Option<int>
    decreases args.len() - k,
{
    if k < 0 || k >= args.len() {
        None
    } else if args[k] == "--"@ {
        Some(k)
    } else {
        dashdash_from(args, k + 1)
    }
}

/// Revisions before `--`, paths after it; at most two revisions.
pub open spec fn diff_request_of(args: Seq<Seq<char>>) -> Result<(Seq<Seq<char>>, Seq<Seq<char>>), ErrorView> {
    let (revs, paths) = match dashdash_from(args, 0) {
        Some(i) => (args.take(i), args.skip(i + 1)),
        None => (args, Seq::empty()),
    };
    if revs.len() > 2 {
        Err(ErrorView::Usage("too many revs"@))
    } else {
        Ok((revs, paths))
    }
}

fn copy_range(v: &Vec<String>, from: usize, to: usize) -> (r: Vec<String>)
    requires
        from <= to <= v@.len(),
    ensures
        r.deep_view() == v.deep_view().subrange(from as int, to as int),
{
    let mut r: Vec<String> = Vec::new();
    let mut k = from;
    while k < to
        invariant
            from <= k <= to <= v@.len(),
            r.deep_view() == v.deep_view().subrange(from as int, k as int),
        decreases to - k,
    {
        let ghost before = r.deep_view();
        r.push(v[k].clone());
        assert(r.deep_view() =~= before.push(v.deep_view()[k as int]));
        assert(v.deep_view().subrange(from as int, k + 1) =~= v.deep_view().subrange(from as int, k as int).push(v.deep_view()[k as int]));
        k = k + 1;
    }
    r
}

/// Splits the arguments of `seer diff` at `--` into revisions and paths.
pub fn parse_diff_args(args: &Vec<String>) -> (r: Result<DiffRequest, SeerError>)
    ensures
        match r {
            Ok(d) => diff_request_of(args.deep_view()) == Ok::<(Seq<Seq<char>>, Seq<Seq<char>>), ErrorView>((d.revs.deep_view(), d.paths.deep_view())),
            Err(e) => diff_request_of(args.deep_view()) == Err::<(Seq<Seq<char>>, Seq<Seq<char>>), ErrorView>(e@),
        },
{
    let ghost av = args.deep_view();
    let n = args.len();
    let mut k: usize = 0;
    while k < n && !str_eq(args[k].as_str(), "--")
        invariant
            k <= n == args@.len(),
            av == args.deep_view(),
            dashdash_from(av, 0) == dashdash_from(av, k as int),
        decreases n - k,
    {
        k = k + 1;
    }
    let (revs, paths) = if k < n {
        (copy_range(args, 0, k), copy_range(args, k + 1, n))
    } else {
        (copy_range(args, 0, n), Vec::new())
    };
    proof {
        assert(av.subrange(0, k as int) =~= av.take(k as int));
        if k < n {
            assert(av.subrange(k + 1, n as int) =~= av.skip(k + 1));
        } else {
            assert(av.subrange(0, n as int) =~= av);
            assert(paths.deep_view() =~= Seq::<Seq<char>>::empty());
        }
    }
    if revs.len() > 2 {
        return Err(SeerError::Usage(owned("too many revs")));
    }
    Ok(DiffRequest { revs, paths })
}

/// Titles of the two sides of a diff of `revs`.
pub open spec fn titles_of(revs: Seq<Seq<char>>) -> (Seq<char>, Seq<char>) {
    if revs.len() == 0 {
        ("HEAD"@, "WORKTREE"@)
    } else if revs.len() == 1 {
        (revs[0], "WORKTREE"@)
    } else {
        (revs[0], revs[1])
    }
}

pub fn diff_titles(revs: &Vec<String>) -> (r: (String, String))
    ensures
        (r.0@, r.1@) == titles_of(revs.deep_view()),
{
    if revs.len() == 0 {
        (owned("HEAD"), owned("WORKTREE"))
    } else if revs.len() == 1 {
        (revs[0].clone(), owned("WORKTREE"))
    } else {
        (revs[0].clone(), revs[1].clone())
    }
}

/// The error for a directory outside any git work tree.
pub fn not_a_git_repository() -> (e: SeerError)
    ensures
        e@ == ErrorView::Io("not a git repository"@),
{
    SeerError::Io(owned("not a git repository"))
}

/// The error for a revision that names no commit.
pub fn invalid_revision(rev: &str) -> (e: SeerError)
    ensures
        e@ == io_error("invalid revision: "@, rev@),
{
    let mut m = owned("invalid revision: ");
    push_str(&mut m, rev);
    SeerError::Io(m)
}

/// Whether `git rev-parse --is-inside-work-tree` printed `true`, blanks
/// around it aside.
pub fn is_inside_work_tree(stdout: &str) -> (r: bool)
    ensures
        r == (class_trimmed(stdout@, true) == "true"@),
{
    let t = trim_class_chars(stdout, true);
    str_eq(t.as_str(), "true")
}

/// The object name that `git rev-parse --verify` peels to a commit.
pub fn commit_spec(rev: &str) -> (r: String)
    ensures
        r@ == rev@ + "^{commit}"@,
{
    let mut r = owned(rev);
    push_str(&mut r, "^{commit}");
    r
}

/// Arguments of `git ls-tree` that list every path of `rev`, limited to
/// `filters` when there are any.
pub open spec fn ls_tree_args_of(rev: Seq<char>, filters: Seq<Seq<char>>) -> Seq<Seq<char>> {
    seq!["ls-tree"@, "-r"@, "--name-only"@, "--full-tree"@, rev] + if filters.len() > 0 {
        seq!["--"@] + filters
    } else {
        Seq::empty()
    }
}

pub fn ls_tree_args(rev: &str, filters: &Vec<String>) -> (args: Vec<String>)
    ensures
        args.deep_view() == ls_tree_args_of(rev@, filters.deep_view()),
{
    let mut args: Vec<String> = Vec::new();
    args.push(owned("ls-tree"));
    args.push(owned("-r"));
    args.push(owned("--name-only"));
    args.push(owned("--full-tree"));
    args.push(owned(rev));
    let ghost head = args.deep_view();
    assert(head =~= seq!["ls-tree"@, "-r"@, "--name-only"@, "--full-tree"@, rev@]);
    if filters.len() > 0 {
        args.push(owned("--"));
        let mut k: usize = 0;
        while k < filters.len()
            invariant
                k <= filters@.len(),
                args.deep_view() == head + seq!["--"@] + filters.deep_view().take(k as int),
            decreases filters@.len() - k,
        {
            let ghost before = args.deep_view();
            args.push(filters[k].clone());
            assert(args.deep_view() =~= before.push(filters.deep_view()[k as int]));
            assert(filters.deep_view().take(k + 1) =~= filters.deep_view().take(k as int).push(filters.deep_view()[k as int]));
            k = k + 1;
        }
        assert(filters.deep_view().take(filters@.len() as int) =~= filters.deep_view());
    } else {
        assert(args.deep_view() =~= head + Seq::<Seq<char>>::empty());
    }
    args
}

/// Input of `git cat-file --batch` for `paths` of `rev`: one `rev:path` line
/// each.
pub open spec fn blob_request_of(rev: Seq<char>, paths: Seq<Seq<char>>) -> Seq<char>
    decreases paths.len(),
{
    if paths.len() == 0 {
        Seq::empty()
    } else {
        blob_request_of(rev, paths.drop_last()) + rev + seq![':'] + paths.last() + seq!['\n']
    }
}

pub fn blob_request(rev: &str, paths: &Vec<String>) -> (input: String)
    ensures
        input@ == blob_request_of(rev@, paths.deep_view()),
{
    let mut input = String::new();
    let mut k: usize = 0;
    while k < paths.len()
        invariant
            k <= paths@.len(),
            input@ == blob_request_of(rev@, paths.deep_view().take(k as int)),
        decreases paths@.len() - k,
    {
        assert(paths.deep_view().take(k + 1).drop_last() =~= paths.deep_view().take(k as int));
        push_str(&mut input, rev);
        push_char(&mut input, ':');
        push_str(&mut input, paths[k].as_str());
        push_char(&mut input, '\n');
        k = k + 1;
    }
    assert(paths.deep_view().take(paths@.len() as int) =~= paths.deep_view());
    input
}

/// The source paths among the lines of a listing, within the filters.
pub open spec fn listed_paths_of(lines: Seq<Seq<char>>, filters: Seq<Seq<char>>) -> Seq<Seq<char>>
    decreases lines.len(),
{
    if lines.len() == 0 {
        Seq::empty()
    } else {
        let p = lines.last();
        listed_paths_of(lines.drop_last(), filters) + if p.len() > 0 && source_path_ok(p) && under_any(p, filters) {
            seq![p]
        } else {
            Seq::empty()
        }
    }
}

/// Source paths of a `git ls-tree --name-only` listing, within the filters.
pub fn listed_source_paths(listing: &str, filters: &Vec<String>) -> (paths: Vec<String>)
    ensures
        paths.deep_view() == listed_paths_of(crate::view::text_lines(listing@), filters.deep_view()),
{
    let raw = crate::diff::split_keepends(listing);
    let ghost lines = raw.deep_view().map_values(|l: Seq<char>| crate::view::line_body(l));
    let mut paths: Vec<String> = Vec::new();
    let mut k: usize = 0;
    assert(paths.deep_view() =~= Seq::<Seq<char>>::empty());
    while k < raw.len()
        invariant
            k <= raw@.len(),
            lines == raw.deep_view().map_values(|l: Seq<char>| crate::view::line_body(l)),
            paths.deep_view() == listed_paths_of(lines.take(k as int), filters.deep_view()),
        decreases raw@.len() - k,
    {
        let line = crate::view::strip_line_end(raw[k].as_str());
        assert(line@ == lines[k as int]);
        assert(lines.take(k + 1).drop_last() =~= lines.take(k as int));
        let ghost before = paths.deep_view();
        if line.as_str().unicode_len() > 0 && is_source_file_path(line.as_str()) && file_is_under_any_path(line.as_str(), filters) {
            paths.push(line);
            assert(paths.deep_view() =~= before + seq![lines[k as int]]);
        } else {
            assert(paths.deep_view() =~= before + Seq::<Seq<char>>::empty());
        }
        k = k + 1;
    }
    assert(lines.take(raw@.len() as int) =~= lines);
    paths
}

/// Index of the first `\n` byte at or after `k`.
pub open spec fn find_lf(b: Seq<u8>, k: int) -> Option<int>
    decreases b.len() - k,
{
    if k < 0 || k >= b.len() {
        None
    } else if b[k] == 10u8 {
        Some(k)
    } else {
        find_lf(b, k + 1)
    }
}

/// Text after the last space of `h` (all of `h` when it has none).
pub open spec fn after_last_space(h: Seq<char>, k: int) -> Seq<char>
    decreases k,
{
    if k <= 0 || k > h.len() {
        h
    } else if h[k - 1] == ' ' {
        h.skip(k)
    } else {
        after_last_space(h, k - 1)
    }
}

pub open spec fn io_error(prefix: Seq<char>, path: Seq<char>) -> ErrorView {
    ErrorView::Io(prefix + path)
}

/// The blobs of `paths[k..]` in a `git cat-file --batch` output from byte
/// `pos`: per path a `<name> <type> <size>` header line, the content and a
/// `\n`.
pub open spec fn batch_from(bytes: Seq<u8>, paths: Seq<Seq<char>>, k: int, pos: int) -> Result<Seq<(Seq<char>, Seq<char>)>, ErrorView>
    decreases paths.len() - k,
{
    if k < 0 || k >= paths.len() || pos < 0 || pos > bytes.len() {
        Ok(Seq::empty())
    } else {
        let path = paths[k];
        match find_lf(bytes, pos) {
            None => Err(io_error("truncated git cat-file header: "@, path)),
            Some(nl) => {
                let hb = bytes.subrange(pos, nl);
                if !valid_utf8(hb) {
                    Err(io_error("invalid git cat-file header: "@, path))
                } else {
                    let header = decode_utf8(hb);
                    let start = nl + 1;
                    if has_suffix(header, " missing"@) {
                        Err(io_error("missing blob: "@, path))
                    } else {
                        match parsed_usize(after_last_space(header, header.len() as int)) {
                            None => Err(io_error("bad git cat-file header: "@, path)),
                            Some(size) => {
                                let end = start + size;
                                if end > usize::MAX {
                                    Err(ErrorView::Io("blob too large"@))
                                } else if end > bytes.len() {
                                    Err(io_error("truncated git cat-file blob: "@, path))
                                } else if !valid_utf8(bytes.subrange(start, end)) {
                                    Err(io_error("invalid utf-8: "@, path))
                                } else if end >= bytes.len() || bytes[end] != 10u8 {
                                    Err(io_error("missing LF after blob: "@, path))
                                } else {
                                    match batch_from(bytes, paths, k + 1, end + 1) {
                                        Err(e) => Err(e),
                                        Ok(rest) => Ok(seq![(path, decode_utf8(bytes.subrange(start, end)))] + rest),
                                    }
                                }
                            },
                        }
                    }
                }
            },
        }
    }
}

fn io_err(prefix: &str, path: &String) -> (e: SeerError)
    ensures
        e@ == io_error(prefix@, path@),
{
    let mut m = owned(prefix);
    push_str(&mut m, path.as_str());
    SeerError::Io(m)
}

fn bytes_of(b: &[u8], from: usize, to: usize) -> (r: Vec<u8>)
    requires
        from <= to <= b@.len(),
    ensures
        r@ == b@.subrange(from as int, to as int),
{
    let mut r: Vec<u8> = Vec::new();
    let mut k = from;
    while k < to
        invariant
            from <= k <= to <= b@.len(),
            r@ == b@.subrange(from as int, k as int),
        decreases to - k,
    {
        r.push(b[k]);
        assert(r@ =~= b@.subrange(from as int, k + 1));
        k = k + 1;
    }
    r
}

pub open spec fn pairs_view(v: Seq<(String, String)>) -> Seq<(Seq<char>, Seq<char>)> {
    v.map_values(|p: (String, String)| (p.0@, p.1@))
}

/// Parses the output of `git cat-file --batch` for `paths`, in order.
pub fn parse_blob_batch(bytes: &[u8], paths: &[String]) -> (r: Result<Vec<(String, String)>, SeerError>)
    ensures
        match r {
            Ok(files) => batch_from(bytes@, paths@.map_values(|p: String| p@), 0, 0) == Ok::<Seq<(Seq<char>, Seq<char>)>, ErrorView>(pairs_view(files@)),
            Err(e) => batch_from(bytes@, paths@.map_values(|p: String| p@), 0, 0) == Err::<Seq<(Seq<char>, Seq<char>)>, ErrorView>(e@),
        },
{
    let ghost pv = paths@.map_values(|p: String| p@);
    let ghost bv = bytes@;
    let mut pos: usize = 0;
    let mut files: Vec<(String, String)> = Vec::new();
    let mut k: usize = 0;
    while k < paths.len()
        invariant
            k <= paths@.len(),
            pv == paths@.map_values(|p: String| p@),
            bv == bytes@,
            pos <= bytes@.len(),
            batch_from(bv, pv, 0, 0) == match batch_from(bv, pv, k as int, pos as int) {
                Err(e) => Err(e),
                Ok(rest) => Ok(pairs_view(files@) + rest),
            },
        decreases paths@.len() - k,
    {
        let path = &paths[k];
        assert(pv[k as int] == path@);
        let mut nl = pos;
        while nl < bytes.len() && bytes[nl] != 10u8
            invariant
                pos <= nl <= bytes@.len(),
                bv == bytes@,
                find_lf(bv, pos as int) == find_lf(bv, nl as int),
            decreases bytes@.len() - nl,
        {
            nl = nl + 1;
        }
        if nl == bytes.len() {
            return Err(io_err("truncated git cat-file header: ", path));
        }
        let hb = bytes_of(bytes, pos, nl);
        let header = match utf8_text(hb) {
            Some(h) => h,
            None => {
                return Err(io_err("invalid git cat-file header: ", path));
            },
        };
        let start = nl + 1;
        if ends_with(header.as_str(), " missing") {
            return Err(io_err("missing blob: ", path));
        }
        let hc = chars_of(header.as_str());
        let mut q = hc.len();
        while q > 0 && hc[q - 1] != ' '
            invariant
                q <= hc@.len(),
                hc@ == header@,
                after_last_space(header@, header@.len() as int) == after_last_space(header@, q as int),
            decreases q,
        {
            q = q - 1;
        }
        let last = if q == 0 {
            header.clone()
        } else {
            string_of(&hc, q, hc.len())
        };
        assert(last@ == after_last_space(header@, header@.len() as int)) by {
            if q > 0 {
                assert(hc@.subrange(q as int, hc@.len() as int) =~= header@.skip(q as int));
            }
        }
        let size = match parse_usize(last.as_str()) {
            Some(s) => s,
            None => {
                return Err(io_err("bad git cat-file header: ", path));
            },
        };
        let end = match start.checked_add(size) {
            Some(e) => e,
            None => {
                return Err(SeerError::Io(owned("blob too large")));
            },
        };
        if end > bytes.len() {
            return Err(io_err("truncated git cat-file blob: ", path));
        }
        let content = bytes_of(bytes, start, end);
        let src = match utf8_text(content) {
            Some(s) => s,
            None => {
                return Err(io_err("invalid utf-8: ", path));
            },
        };
        if end >= bytes.len() || bytes[end] != 10u8 {
            return Err(io_err("missing LF after blob: ", path));
        }
        let ghost before = pairs_view(files@);
        files.push((path.clone(), src));
        proof {
            assert(pairs_view(files@) =~= before.push((path@, decode_utf8(bv.subrange(start as int, end as int)))));
            match batch_from(bv, pv, k + 1, end + 1) {
                Err(e) => {},
                Ok(rest) => {
                    assert(before + (seq![(path@, decode_utf8(bv.subrange(start as int, end as int)))] + rest) =~= pairs_view(files@) + rest);
                },
            }
        }
        pos = end + 1;
        k = k + 1;
    }
    assert(pairs_view(files@) + Seq::<(Seq<char>, Seq<char>)>::empty() =~= pairs_view(files@));
    Ok(files)
}

/// The sources of a revision: the blobs of `paths` parsed from a `git
/// cat-file --batch` output, ordered by path.
pub fn revision_sources(bytes: &[u8], paths: &[String]) -> (r: Result<Vec<(String, String)>, SeerError>)
    ensures
        match r {
            Ok(files) => batch_from(bytes@, paths@.map_values(|p: String| p@), 0, 0) matches Ok(d) && crate::graph::pairs_view(files@) == crate::sort::sorted_by(
                d,
                |a: (Seq<char>, Seq<char>), b: (Seq<char>, Seq<char>)| crate::graph::path_less(a, b),
            ),
            Err(e) => batch_from(bytes@, paths@.map_values(|p: String| p@), 0, 0) == Err::<Seq<(Seq<char>, Seq<char>)>, ErrorView>(e@),
        },
{
    match parse_blob_batch(bytes, paths) {
        Ok(files) => {
            assert(pairs_view(files@) == crate::graph::pairs_view(files@));
            Ok(crate::graph::sort_by_path(files))
        },
        Err(e) => Err(e),
    }
}

pub open spec fn found_under(found: Seq<(Seq<char>, Seq<u8>)>, filters: Seq<Seq<char>>) -> Seq<(Seq<char>, Seq<u8>)>
    decreases found.len(),
{
    if found.len() == 0 {
        Seq::empty()
    } else {
        found_under(found.drop_last(), filters) + if under_any(found.last().0, filters) {
            seq![found.last()]
        } else {
            Seq::empty()
        }
    }
}

/// The sources of the worktree: the files a walk of the repository read,
/// within the path filters, decoded and ordered by path as
/// [`crate::collect::collect_source_files`] does.
pub fn worktree_sources(found: Vec<(String, Vec<u8>)>, filters: &Vec<String>) -> (r: Result<Vec<(String, String)>, SeerError>)
    ensures
        match r {
            Ok(files) => crate::collect::decoded_from(found_under(crate::collect::found_view(found@), filters.deep_view())) matches Ok(d)
                && crate::graph::pairs_view(files@) == crate::sort::sorted_by(
                d,
                |a: (Seq<char>, Seq<char>), b: (Seq<char>, Seq<char>)| crate::graph::path_less(a, b),
            ),
            Err(e) => crate::collect::decoded_from(found_under(crate::collect::found_view(found@), filters.deep_view()))
                == Err::<Seq<(Seq<char>, Seq<char>)>, ErrorView>(e@),
        },
{
    let ghost fv = crate::collect::found_view(found@);
    let mut kept: Vec<(String, Vec<u8>)> = Vec::new();
    let mut k: usize = 0;
    let mut found = found;
    let n = found.len();
    assert(crate::collect::found_view(kept@) =~= Seq::<(Seq<char>, Seq<u8>)>::empty());
    assert(fv.take(0) =~= Seq::<(Seq<char>, Seq<u8>)>::empty());
    while k < n
        invariant
            k <= n == fv.len(),
            found@.len() == n - k,
            forall|i: int| 0 <= i < n - k ==> (#[trigger] found@[i].0@, found@[i].1@) == fv[k + i],
            crate::collect::found_view(kept@) == found_under(fv.take(k as int), filters.deep_view()),
        decreases n - k,
    {
        let ghost f0 = found@;
        let item = found.remove(0);
        assert((item.0@, item.1@) == fv[k as int]);
        assert forall|i: int| 0 <= i < n - k - 1 implies (#[trigger] found@[i].0@, found@[i].1@) == fv[k + 1 + i] by {
            assert(found@[i] == f0[i + 1]);
        }
        assert(fv.take(k + 1).drop_last() =~= fv.take(k as int));
        let ghost before = crate::collect::found_view(kept@);
        if file_is_under_any_path(item.0.as_str(), filters) {
            kept.push(item);
            assert(crate::collect::found_view(kept@) =~= before + seq![fv[k as int]]);
        } else {
            assert(crate::collect::found_view(kept@) =~= before + Seq::<(Seq<char>, Seq<u8>)>::empty());
        }
        k = k + 1;
    }
    assert(fv.take(n as int) =~= fv);
    crate::collect::collect_source_files(kept)
}

} // verus!
