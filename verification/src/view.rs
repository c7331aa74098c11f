//! What the terminal viewer of outline diffs computes: commits from the git
//! log, the revisions to compare, and the side-by-side rows of a diff.
use vstd::prelude::*;

use crate::text::{
    chars_of, has_prefix, has_suffix, is_white_space, owned, push_char, push_str, starts_with, str_eq,
    string_of, white_space,
};

verus! {

pub const RED: &'static str = "\x1b[31m";
pub const GREEN: &'static str = "\x1b[32m";
pub const DIM: &'static str = "\x1b[2m";
pub const RESET: &'static str = "\x1b[0m";

/// One line of `git log --format=%h\t%P\t%s`.
#[derive(Clone, Debug, PartialEq, Eq)]
pub struct Commit {
    pub hash: String,
    pub parent: Option<String>,
    pub subject: String,
}

pub struct CommitView {
    pub hash: Seq<char>,
    pub parent: Option<Seq<char>>,
    pub subject: Seq<char>,
}

impl View for Commit {
    type V = CommitView;

    open spec fn view(&self) -> CommitView {
        CommitView {
            hash: self.hash@,
            parent: match self.parent {
                Some(p) => Some(p@),
                None => None,
            },
            subject: self.subject@,
        }
    }
}

/// First index at or after `k` holding `c`.
pub open spec fn find_char(s: Seq<char>, c: char, k: int) -> Option<int>
    decreases s.len() - k,
{
    if k < 0 || k >= s.len() {
        None
    } else if s[k] == c {
        Some(k)
    } else {
        find_char(s, c, k + 1)
    }
}

/// First index at or after `k` that is (when `ws`) or is not white space.
pub open spec fn scan_ws(s: Seq<char>, k: int, ws: bool) -> int
    decreases s.len() - k,
{
    if k < 0 || k >= s.len() {
        if k < 0 {
            0
        } else {
            s.len() as int
        }
    } else if is_white_space(s[k]) == ws {
        k
    } else {
        scan_ws(s, k + 1, ws)
    }
}

/// First white-space separated word of `s`.
pub open spec fn first_word(s: Seq<char>) -> Option<Seq<char>> {
    let a = scan_ws(s, 0, false);
    if a >= s.len() {
        None
    } else {
        Some(s.subrange(a, scan_ws(s, a, true)))
    }
}

/// Commit of a log line `hash\tparents\tsubject`: the first parent, and the
/// subject with any further tabs; absent when the hash is empty.
pub open spec fn log_line_commit(line: Seq<char>) -> Option<CommitView> {
    match find_char(line, '\t', 0) {
        None => if line.len() == 0 {
            None
        } else {
            Some(CommitView { hash: line, parent: None, subject: Seq::empty() })
        },
        Some(t1) => if t1 == 0 {
            None
        } else {
            let rest = line.skip(t1 + 1);
            let (parents, subject) = match find_char(rest, '\t', 0) {
                None => (rest, Seq::<char>::empty()),
                Some(t2) => (rest.take(t2), rest.skip(t2 + 1)),
            };
            Some(CommitView { hash: line.take(t1), parent: first_word(parents), subject })
        },
    }
}

fn find_char_exec(cs: &Vec<char>, c: char, from: usize) -> (r: Option<usize>)
    requires
        from <= cs@.len(),
    ensures
        match r {
            Some(k) => find_char(cs@, c, from as int) == Some(k as int) && from <= k < cs@.len(),
            None => find_char(cs@, c, from as int) is None,
        },
{
    let mut k = from;
    while k < cs.len()
        invariant
            from <= k <= cs@.len(),
            find_char(cs@, c, from as int) == find_char(cs@, c, k as int),
        decreases cs@.len() - k,
    {
        if cs[k] == c {
            return Some(k);
        }
        k = k + 1;
    }
    None
}

fn first_word_of(cs: &Vec<char>, from: usize, to: usize) -> (r: Option<String>)
    requires
        from <= to <= cs@.len(),
    ensures
        match r {
            Some(w) => first_word(cs@.subrange(from as int, to as int)) == Some(w@),
            None => first_word(cs@.subrange(from as int, to as int)) is None,
        },
{
    let ghost s = cs@.subrange(from as int, to as int);
    let mut a = from;
    while a < to && white_space(cs[a])
        invariant
            from <= a <= to <= cs@.len(),
            s == cs@.subrange(from as int, to as int),
            scan_ws(s, 0, false) == scan_ws(s, a - from, false),
        decreases to - a,
    {
        assert(s[a - from] == cs@[a as int]);
        a = a + 1;
    }
    proof {
        if a < to {
            assert(s[a - from] == cs@[a as int]);
        }
    }
    if a == to {
        return None;
    }
    let mut b = a;
    while b < to && !white_space(cs[b])
        invariant
            from <= a <= b <= to <= cs@.len(),
            s == cs@.subrange(from as int, to as int),
            scan_ws(s, a - from, true) == scan_ws(s, b - from, true),
        decreases to - b,
    {
        assert(s[b - from] == cs@[b as int]);
        b = b + 1;
    }
    proof {
        if b < to {
            assert(s[b - from] == cs@[b as int]);
        }
        assert(s.subrange(a - from, b - from) =~= cs@.subrange(a as int, b as int));
    }
    Some(string_of(cs, a, b))
}

/// Commit of a `git log --format=%h\t%P\t%s` line; `None` when the hash is
/// empty. The parent is the first listed, the subject keeps further tabs.
pub fn parse_log_line(line: &str) -> (r: Option<Commit>)
    ensures
        match r {
            Some(c) => log_line_commit(line@) == Some(c@),
            None => log_line_commit(line@) is None,
        },
{
    let cs = chars_of(line);
    let n = cs.len();
    match find_char_exec(&cs, '\t', 0) {
        None => {
            if n == 0 {
                return None;
            }
            assert(cs@.subrange(0, n as int) =~= line@);
            let hash = string_of(&cs, 0, n);
            let c = Commit { hash, parent: None, subject: String::new() };
            assert(c@.subject =~= Seq::<char>::empty());
            Some(c)
        },
        Some(t1) => {
            if t1 == 0 {
                return None;
            }
            let hash = string_of(&cs, 0, t1);
            let ghost rest = line@.skip(t1 + 1);
            proof {
                assert forall|k: int| 0 <= k <= rest.len() implies find_char(rest, '\t', k) == match find_char(cs@, '\t', t1 + 1 + k) {
                    Some(x) => Some(x - (t1 + 1)),
                    None => None::<int>,
                } by {
                    lemma_find_char_shift(cs@, '\t', t1 + 1, k);
                }
            }
            let (p_end, s_start) = match find_char_exec(&cs, '\t', t1 + 1) {
                None => (n, n),
                Some(t2) => (t2, t2 + 1),
            };
            let parent = first_word_of(&cs, t1 + 1, p_end);
            let subject = string_of(&cs, s_start, n);
            proof {
                assert(cs@.subrange(0, t1 as int) =~= line@.take(t1 as int));
                match find_char(rest, '\t', 0) {
                    None => {
                        assert(cs@.subrange(t1 + 1, p_end as int) =~= rest);
                        assert(cs@.subrange(s_start as int, n as int) =~= Seq::<char>::empty());
                    },
                    Some(t2) => {
                        assert(cs@.subrange(t1 + 1, p_end as int) =~= rest.take(t2));
                        assert(cs@.subrange(s_start as int, n as int) =~= rest.skip(t2 + 1));
                    },
                }
            }
            let c = Commit { hash, parent, subject };
            Some(c)
        },
    }
}

proof fn lemma_find_char_shift(s: Seq<char>, c: char, d: int, k: int)
    requires
        0 <= d <= s.len(),
        0 <= k <= s.len() - d,
    ensures
        find_char(s.skip(d), c, k) == match find_char(s, c, d + k) {
            Some(x) => Some(x - d),
            None => None::<int>,
        },
    decreases s.len() - d - k,
{
    if k < s.len() - d {
        assert(s.skip(d)[k] == s[d + k]);
        if s[d + k] != c {
            lemma_find_char_shift(s, c, d, k + 1);
        }
    }
}

/// Revisions to compare for the log selection `lo..=hi`, with the two
/// titles. Index 0 is the worktree; `k > 0` is `commits[k - 1]`, newest
/// first. A single commit is compared with its first parent.
pub open spec fn revs_for(commits: Seq<CommitView>, lo: int, hi: int) -> Option<(Seq<Seq<char>>, Seq<char>, Seq<char>)> {
    if lo == hi {
        if lo == 0 {
            Some((Seq::empty(), "HEAD"@, "WORKTREE"@))
        } else if lo - 1 >= commits.len() {
            None
        } else {
            let c = commits[lo - 1];
            match c.parent {
                None => None,
                Some(p) => Some((seq![p, c.hash], p, c.hash)),
            }
        }
    } else if lo == 0 {
        if hi - 1 >= commits.len() || hi < 1 {
            None
        } else {
            let c = commits[hi - 1];
            Some((seq![c.hash], c.hash, "WORKTREE"@))
        }
    } else if lo - 1 >= commits.len() || hi - 1 >= commits.len() || hi < 1 {
        None
    } else {
        let newer = commits[lo - 1];
        let older = commits[hi - 1];
        Some((seq![older.hash, newer.hash], older.hash, newer.hash))
    }
}

pub open spec fn commits_view(v: Seq<Commit>) -> Seq<CommitView> {
    v.map_values(|c: Commit| c@)
}

pub fn diff_revs(commits: &Vec<Commit>, lo: usize, hi: usize) -> (r: Option<(Vec<String>, String, String)>)
    ensures
        match r {
            Some((revs, a, b)) => revs_for(commits_view(commits@), lo as int, hi as int) == Some((revs.deep_view(), a@, b@)),
            None => revs_for(commits_view(commits@), lo as int, hi as int) is None,
        },
{
    let ghost cv = commits_view(commits@);
    if lo == hi {
        if lo == 0 {
            let v: Vec<String> = Vec::new();
            assert(v.deep_view() =~= Seq::<Seq<char>>::empty());
            return Some((v, owned("HEAD"), owned("WORKTREE")));
        }
        if lo - 1 >= commits.len() {
            return None;
        }
        let c = &commits[lo - 1];
        assert(cv[lo - 1] == c@);
        match &c.parent {
            None => None,
            Some(p) => {
                let mut v: Vec<String> = Vec::new();
                v.push(p.clone());
                v.push(c.hash.clone());
                assert(v.deep_view() =~= seq![p@, c.hash@]);
                Some((v, p.clone(), c.hash.clone()))
            },
        }
    } else if lo == 0 {
        if hi < 1 || hi - 1 >= commits.len() {
            return None;
        }
        let c = &commits[hi - 1];
        assert(cv[hi - 1] == c@);
        let mut v: Vec<String> = Vec::new();
        v.push(c.hash.clone());
        assert(v.deep_view() =~= seq![c.hash@]);
        Some((v, c.hash.clone(), owned("WORKTREE")))
    } else {
        if hi < 1 || lo - 1 >= commits.len() || hi - 1 >= commits.len() {
            return None;
        }
        let newer = &commits[lo - 1];
        let older = &commits[hi - 1];
        assert(cv[lo - 1] == newer@);
        assert(cv[hi - 1] == older@);
        let mut v: Vec<String> = Vec::new();
        v.push(older.hash.clone());
        v.push(newer.hash.clone());
        assert(v.deep_view() =~= seq![older.hash@, newer.hash@]);
        Some((v, older.hash.clone(), newer.hash.clone()))
    }
}

/// Path filters of the viewer's arguments: those after `--`, or else the
/// arguments that name an existing path (`exists[k]` for `rest[k]`).
pub open spec fn arg_paths(rest: Seq<Seq<char>>, exists: Seq<bool>) -> Seq<Seq<char>> {
    match find_dashdash(rest, 0) {
        Some(i) => rest.skip(i + 1),
        None => existing(rest, exists, rest.len() as int),
    }
}

pub open spec fn find_dashdash(rest: Seq<Seq<char>>, k: int) -> Option<int>
    decreases rest.len() - k,
{
    if k < 0 || k >= rest.len() {
        None
    } else if rest[k] == "--"@ {
        Some(k)
    } else {
        find_dashdash(rest, k + 1)
    }
}

pub open spec fn existing(rest: Seq<Seq<char>>, exists: Seq<bool>, k: int) -> Seq<Seq<char>>
    decreases k,
{
    if k <= 0 || k > rest.len() {
        Seq::empty()
    } else {
        existing(rest, exists, k - 1) + if k - 1 < exists.len() && exists[k - 1] {
            seq![rest[k - 1]]
        } else {
            Seq::empty()
        }
    }
}

fn dashdash(rest: &Vec<String>) -> (r: Option<usize>)
    ensures
        match r {
            Some(i) => find_dashdash(rest.deep_view(), 0) == Some(i as int) && i < rest@.len(),
            None => find_dashdash(rest.deep_view(), 0) is None,
        },
{
    let ghost rv = rest.deep_view();
    let mut k: usize = 0;
    while k < rest.len()
        invariant
            k <= rest@.len(),
            rv == rest.deep_view(),
            find_dashdash(rv, 0) == find_dashdash(rv, k as int),
        decreases rest@.len() - k,
    {
        if str_eq(rest[k].as_str(), "--") {
            return Some(k);
        }
        k = k + 1;
    }
    None
}

/// Path filters of the viewer's arguments; `exists[k]` tells whether
/// `rest[k]` names an existing path.
pub fn paths_from_args(rest: &Vec<String>, exists: &Vec<bool>) -> (out: Vec<String>)
    ensures
        out.deep_view() == arg_paths(rest.deep_view(), exists@),
{
    let ghost rv = rest.deep_view();
    match dashdash(rest) {
        Some(i) => {
            let n = rest.len();
            assert(i < n);
            let mut out: Vec<String> = Vec::new();
            let mut k = i + 1;
            while k < rest.len()
                invariant
                    i < rest@.len(),
                    i + 1 <= k <= rest@.len(),
                    rv == rest.deep_view(),
                    out.deep_view() == rv.subrange(i + 1, k as int),
                decreases rest@.len() - k,
            {
                let ghost before = out.deep_view();
                out.push(rest[k].clone());
                assert(out.deep_view() =~= before.push(rv[k as int]));
                assert(rv.subrange(i + 1, k + 1) =~= rv.subrange(i + 1, k as int).push(rv[k as int]));
                k = k + 1;
            }
            assert(rv.subrange(i + 1, rest@.len() as int) =~= rv.skip(i + 1));
            out
        },
        None => {
            let mut out: Vec<String> = Vec::new();
            let mut k: usize = 0;
            assert(out.deep_view() =~= Seq::<Seq<char>>::empty());
            while k < rest.len()
                invariant
                    k <= rest@.len(),
                    rv == rest.deep_view(),
                    out.deep_view() == existing(rv, exists@, k as int),
                decreases rest@.len() - k,
            {
                let ghost before = out.deep_view();
                if k < exists.len() && exists[k] {
                    out.push(rest[k].clone());
                    assert(out.deep_view() =~= before + seq![rv[k as int]]);
                } else {
                    assert(out.deep_view() =~= before + Seq::<Seq<char>>::empty());
                }
                k = k + 1;
            }
            out
        },
    }
}

/// Revisions among the viewer's arguments: at most two, before `--`, that
/// name no existing path.
pub open spec fn arg_revs(rest: Seq<Seq<char>>, exists: Seq<bool>, k: int, acc: Seq<Seq<char>>) -> Seq<Seq<char>>
    decreases rest.len() - k,
{
    if k < 0 || k >= rest.len() || acc.len() >= 2 || rest[k] == "--"@ {
        acc
    } else if k < exists.len() && exists[k] {
        arg_revs(rest, exists, k + 1, acc)
    } else {
        arg_revs(rest, exists, k + 1, acc.push(rest[k]))
    }
}

/// Titles of the two sides: `HEAD`/`WORKTREE`, `REV`/`WORKTREE`, or the two
/// revisions.
pub open spec fn arg_titles(rest: Seq<Seq<char>>, exists: Seq<bool>) -> (Seq<char>, Seq<char>) {
    let revs = arg_revs(rest, exists, 0, Seq::empty());
    if revs.len() == 0 {
        ("HEAD"@, "WORKTREE"@)
    } else if revs.len() == 1 {
        (revs[0], "WORKTREE"@)
    } else {
        (revs[0], revs[1])
    }
}

pub fn titles_from_args(rest: &Vec<String>, exists: &Vec<bool>) -> (r: (String, String))
    ensures
        (r.0@, r.1@) == arg_titles(rest.deep_view(), exists@),
{
    let ghost rv = rest.deep_view();
    let mut revs: Vec<String> = Vec::new();
    let mut k: usize = 0;
    assert(revs.deep_view() =~= Seq::<Seq<char>>::empty());
    while k < rest.len() && revs.len() < 2 && !str_eq(rest[k].as_str(), "--")
        invariant
            k <= rest@.len(),
            rv == rest.deep_view(),
            revs@.len() <= 2,
            arg_revs(rv, exists@, 0, Seq::empty()) == arg_revs(rv, exists@, k as int, revs.deep_view()),
        decreases rest@.len() - k,
    {
        if !(k < exists.len() && exists[k]) {
            let ghost before = revs.deep_view();
            revs.push(rest[k].clone());
            assert(revs.deep_view() =~= before.push(rv[k as int]));
        }
        k = k + 1;
    }
    assert(arg_revs(rv, exists@, k as int, revs.deep_view()) == revs.deep_view());
    if revs.len() == 0 {
        (owned("HEAD"), owned("WORKTREE"))
    } else if revs.len() == 1 {
        (revs[0].clone(), owned("WORKTREE"))
    } else {
        (revs[0].clone(), revs[1].clone())
    }
}

/// The list item of the first hit at or after `k` drawn on screen row `row`.
pub open spec fn row_hit(hits: Seq<(u16, usize)>, row: u16, k: int) -> Option<usize>
    decreases hits.len() - k,
{
    if k < 0 || k >= hits.len() {
        None
    } else if hits[k].0 == row {
        Some(hits[k].1)
    } else {
        row_hit(hits, row, k + 1)
    }
}

/// Index of the list item drawn on screen row `row`.
pub fn list_index_at_row(hits: &Vec<(u16, usize)>, row: u16) -> (r: Option<usize>)
    ensures
        r == row_hit(hits@, row, 0),
{
    let mut k: usize = 0;
    while k < hits.len()
        invariant
            k <= hits@.len(),
            row_hit(hits@, row, 0) == row_hit(hits@, row, k as int),
        decreases hits@.len() - k,
    {
        if hits[k].0 == row {
            return Some(hits[k].1);
        }
        k = k + 1;
    }
    None
}

/// Screen rows of the visible items of a list drawn from row `top` with
/// `height` rows, scrolled to `offset`, holding `len` items.
pub fn visible_list_rows(top: u16, height: u16, offset: usize, len: usize) -> (out: Vec<(u16, usize)>)
    requires
        top + height <= u16::MAX,
    ensures
        out@.len() == (if len > offset { if len - offset < height { len - offset } else { height as int } } else { 0 }),
        forall|i: int| 0 <= i < out@.len() ==> #[trigger] out@[i] == ((top + i) as u16, (offset + i) as usize),
{
    let avail = if len > offset { len - offset } else { 0 };
    let n: usize = if avail < height as usize { avail } else { height as usize };
    let mut out: Vec<(u16, usize)> = Vec::new();
    let mut i: usize = 0;
    while i < n
        invariant
            i <= n,
            n <= height,
            n <= avail,
            avail == (if len > offset { len - offset } else { 0 }),
            top + height <= u16::MAX,
            out@.len() == i,
            forall|j: int| 0 <= j < i ==> #[trigger] out@[j] == ((top + j) as u16, (offset + j) as usize),
        decreases n - i,
    {
        out.push((top + i as u16, offset + i));
        i = i + 1;
    }
    out
}

/// Whether a diff line's first word names a source path.
pub open spec fn path_like(s: Seq<char>) -> bool {
    s == "<stdin>"@ || s.contains('/') || has_suffix(s, ".rs"@) || has_suffix(s, ".java"@)
        || has_suffix(s, ".ts"@) || has_suffix(s, ".tsx"@) || has_suffix(s, ".mts"@) || has_suffix(
        s,
        ".cts"@,
    )
}

pub fn looks_like_path(s: &str) -> (r: bool)
    ensures
        r == path_like(s@),
{
    if str_eq(s, "<stdin>") {
        return true;
    }
    let cs = chars_of(s);
    let mut k: usize = 0;
    while k < cs.len()
        invariant
            cs@ == s@,
            k <= cs@.len(),
            forall|j: int| 0 <= j < k ==> cs@[j] != '/',
        decreases cs@.len() - k,
    {
        if cs[k] == '/' {
            assert(s@.contains('/')) by {
                assert(s@[k as int] == '/');
            }
            return true;
        }
        k = k + 1;
    }
    crate::text::ends_with(s, ".rs") || crate::text::ends_with(s, ".java") || crate::text::ends_with(s, ".ts")
        || crate::text::ends_with(s, ".tsx") || crate::text::ends_with(s, ".mts") || crate::text::ends_with(s, ".cts")
}

/// The path that a diff line starts with: its first word up to any `:`,
/// when that looks like a path.
pub open spec fn path_in_line(text: Seq<char>) -> Option<Seq<char>> {
    match first_word(text) {
        None => None,
        Some(w) => {
            let stem = match find_char(w, ':', 0) {
                Some(c) => w.take(c),
                None => w,
            };
            if path_like(stem) {
                Some(stem)
            } else {
                None
            }
        },
    }
}

pub fn file_path_in_diff_line(text: &str) -> (r: Option<String>)
    ensures
        match r {
            Some(p) => path_in_line(text@) == Some(p@),
            None => path_in_line(text@) is None,
        },
{
    let cs = chars_of(text);
    assert(cs@.subrange(0, cs@.len() as int) =~= text@);
    match first_word_of(&cs, 0, cs.len()) {
        None => None,
        Some(w) => {
            let wc = chars_of(w.as_str());
            let stem = match find_char_exec(&wc, ':', 0) {
                Some(c) => string_of(&wc, 0, c),
                None => w,
            };
            proof {
                match find_char(w@, ':', 0) {
                    Some(c) => {
                        assert(wc@.subrange(0, c) =~= w@.take(c));
                    },
                    None => {},
                }
            }
            if looks_like_path(stem.as_str()) {
                Some(stem)
            } else {
                None
            }
        },
    }
}

#[derive(Clone, Copy, Debug, PartialEq, Eq, Structural)]
pub enum Kind {
    Context,
    Change,
}

/// One side-by-side row: the old and new text and the file it belongs to.
#[derive(Clone, Debug, PartialEq, Eq)]
pub struct Row {
    pub left: String,
    pub right: String,
    pub kind: Kind,
    pub file: String,
}

pub struct RowView {
    pub left: Seq<char>,
    pub right: Seq<char>,
    pub kind: Kind,
    pub file: Seq<char>,
}

impl View for Row {
    type V = RowView;

    open spec fn view(&self) -> RowView {
        RowView { left: self.left@, right: self.right@, kind: self.kind, file: self.file@ }
    }
}

#[derive(Clone, Debug, PartialEq, Eq)]
pub struct SideBySide {
    pub left_title: String,
    pub right_title: String,
    pub rows: Vec<Row>,
}

pub open spec fn rows_view(v: Seq<Row>) -> Seq<RowView> {
    v.map_values(|r: Row| r@)
}

/// File shown for a row; rows before any path line belong to `(outline)`.
pub open spec fn row_file_spec(r: RowView) -> Seq<char> {
    if r.file.len() == 0 {
        "(outline)"@
    } else {
        r.file
    }
}

pub fn row_file(row: &Row) -> (f: String)
    ensures
        f@ == row_file_spec(row@),
{
    if row.file.as_str().unicode_len() == 0 {
        owned("(outline)")
    } else {
        row.file.clone()
    }
}

/// Files of the changed rows, each once, in order.
pub open spec fn changed_files_spec(rows: Seq<RowView>, k: int, acc: Seq<Seq<char>>) -> Seq<Seq<char>>
    decreases rows.len() - k,
{
    if k < 0 || k >= rows.len() {
        acc
    } else if rows[k].kind == Kind::Change && !acc.contains(row_file_spec(rows[k])) {
        changed_files_spec(rows, k + 1, acc.push(row_file_spec(rows[k])))
    } else {
        changed_files_spec(rows, k + 1, acc)
    }
}

pub fn changed_files(rows: &Vec<Row>) -> (files: Vec<String>)
    ensures
        files.deep_view() == changed_files_spec(rows_view(rows@), 0, Seq::empty()),
{
    let ghost rv = rows_view(rows@);
    let mut files: Vec<String> = Vec::new();
    let mut k: usize = 0;
    assert(files.deep_view() =~= Seq::<Seq<char>>::empty());
    while k < rows.len()
        invariant
            k <= rows@.len(),
            rv == rows_view(rows@),
            changed_files_spec(rv, 0, Seq::empty()) == changed_files_spec(rv, k as int, files.deep_view()),
        decreases rows@.len() - k,
    {
        assert(rv[k as int] == rows@[k as int]@);
        if rows[k].kind == Kind::Change {
            let name = row_file(&rows[k]);
            let mut present = false;
            let mut q: usize = 0;
            while q < files.len()
                invariant
                    q <= files@.len(),
                    present == exists|t: int| 0 <= t < q && files.deep_view()[t] == name@,
                decreases files@.len() - q,
            {
                assert(files.deep_view()[q as int] == files@[q as int]@);
                if str_eq(files[q].as_str(), name.as_str()) {
                    present = true;
                }
                q = q + 1;
            }
            proof {
                if files.deep_view().contains(name@) {
                    let t = choose|t: int| 0 <= t < files.deep_view().len() && files.deep_view()[t] == name@;
                    assert(present);
                }
            }
            if !present {
                let ghost before = files.deep_view();
                files.push(name);
                assert(files.deep_view() =~= before.push(row_file_spec(rv[k as int])));
            }
        }
        k = k + 1;
    }
    files
}

/// Inline form of the rows: ` text` for context, `-old` then `+new` for a
/// change, an empty side left out.
pub open spec fn inline_text(rows: Seq<RowView>) -> Seq<Seq<char>>
    decreases rows.len(),
{
    if rows.len() == 0 {
        Seq::empty()
    } else {
        let r = rows.last();
        inline_text(rows.drop_last()) + match r.kind {
            Kind::Context => seq![seq![' '] + r.left],
            Kind::Change => (if r.left.len() > 0 {
                seq![seq!['-'] + r.left]
            } else {
                Seq::empty()
            }) + (if r.right.len() > 0 {
                seq![seq!['+'] + r.right]
            } else {
                Seq::empty()
            }),
        }
    }
}

fn marked(mark: char, s: &String) -> (r: String)
    ensures
        r@ == seq![mark] + s@,
{
    let mut r = String::new();
    push_char(&mut r, mark);
    push_str(&mut r, s.as_str());
    r
}

pub fn inline_plain_text(rows: &Vec<Row>) -> (out: Vec<String>)
    ensures
        out.deep_view() == inline_text(rows_view(rows@)),
{
    let ghost rv = rows_view(rows@);
    let mut out: Vec<String> = Vec::new();
    let mut k: usize = 0;
    assert(rv.take(0) =~= Seq::<RowView>::empty());
    assert(out.deep_view() =~= Seq::<Seq<char>>::empty());
    while k < rows.len()
        invariant
            k <= rows@.len(),
            rv == rows_view(rows@),
            out.deep_view() == inline_text(rv.take(k as int)),
        decreases rows@.len() - k,
    {
        let row = &rows[k];
        assert(rv[k as int] == row@);
        assert(rv.take(k + 1).drop_last() =~= rv.take(k as int));
        let ghost before = out.deep_view();
        match row.kind {
            Kind::Context => {
                out.push(marked(' ', &row.left));
                assert(out.deep_view() =~= before + seq![seq![' '] + row.left@]);
            },
            Kind::Change => {
                let l = row.left.as_str().unicode_len() > 0;
                let r = row.right.as_str().unicode_len() > 0;
                if l {
                    out.push(marked('-', &row.left));
                }
                let ghost mid = out.deep_view();
                if r {
                    out.push(marked('+', &row.right));
                }
                assert(out.deep_view() =~= before + ((if row.left@.len() > 0 {
                    seq![seq!['-'] + row.left@]
                } else {
                    Seq::<Seq<char>>::empty()
                }) + (if row.right@.len() > 0 {
                    seq![seq!['+'] + row.right@]
                } else {
                    Seq::<Seq<char>>::empty()
                })));
            },
        }
        k = k + 1;
    }
    assert(rv.take(rows@.len() as int) =~= rv);
    out
}

pub open spec fn repeat_char(c: char, n: nat) -> Seq<char> {
    Seq::new(n, |i: int| c)
}

/// `s` cut to `width` characters with a final `…`, or padded with spaces.
pub open spec fn padded(s: Seq<char>, width: nat) -> Seq<char> {
    if s.len() > width {
        s.take(if width >= 1 { width - 1 } else { 0 }) + seq!['…']
    } else {
        s + repeat_char(' ', (width - s.len()) as nat)
    }
}

fn push_repeat(out: &mut String, c: char, n: usize)
    ensures
        final(out)@ == old(out)@ + repeat_char(c, n as nat),
{
    let mut k: usize = 0;
    while k < n
        invariant
            k <= n,
            out@ == old(out)@ + repeat_char(c, k as nat),
        decreases n - k,
    {
        push_char(out, c);
        assert(out@ =~= old(out)@ + repeat_char(c, (k + 1) as nat));
        k = k + 1;
    }
}

pub fn pad_or_truncate(s: &str, width: usize) -> (out: String)
    ensures
        out@ == padded(s@, width as nat),
{
    let cs = chars_of(s);
    let n = cs.len();
    if n > width {
        let take = if width >= 1 { width - 1 } else { 0 };
        let mut out = string_of(&cs, 0, take);
        push_char(&mut out, '…');
        assert(cs@.subrange(0, take as int) =~= s@.take(take as int));
        out
    } else {
        let mut out = owned(s);
        push_repeat(&mut out, ' ', width - n);
        out
    }
}

/// The rule under the titles: `2 * col + 2` dashes.
pub open spec fn rule_text(col: nat, color: bool) -> Seq<char> {
    let line = repeat_char('┄', col) + seq!['┄'] + seq!['┄'] + repeat_char('┄', col);
    if color {
        DIM@ + line + RESET@ + seq!['\n']
    } else {
        line + seq!['\n']
    }
}

pub fn format_rule(col: usize, color: bool) -> (out: String)
    ensures
        out@ == rule_text(col as nat, color),
{
    let mut out = String::new();
    if color {
        push_str(&mut out, DIM);
    }
    let ghost start = out@;
    push_repeat(&mut out, '┄', col);
    push_char(&mut out, '┄');
    push_char(&mut out, '┄');
    push_repeat(&mut out, '┄', col);
    if color {
        push_str(&mut out, RESET);
    }
    push_char(&mut out, '\n');
    assert(out@ =~= rule_text(col as nat, color));
    out
}

/// One row: both sides padded to `col`, colored when asked and changed
/// (an empty side dim), joined by ` │ `.
pub open spec fn row_text(left: Seq<char>, right: Seq<char>, col: nat, color: bool, kind: Kind) -> Seq<char> {
    let l = padded(left, col);
    let r = padded(right, col);
    let (l2, r2) = if color && kind == Kind::Change {
        (
            (if left.len() == 0 { DIM@ } else { RED@ }) + l + RESET@,
            (if right.len() == 0 { DIM@ } else { GREEN@ }) + r + RESET@,
        )
    } else {
        (l, r)
    };
    l2 + " │ "@ + r2 + seq!['\n']
}

pub fn format_row(left: &str, right: &str, col: usize, color: bool, kind: Kind) -> (out: String)
    ensures
        out@ == row_text(left@, right@, col as nat, color, kind),
{
    let l = pad_or_truncate(left, col);
    let r = pad_or_truncate(right, col);
    let mut out = String::new();
    let change = color && kind == Kind::Change;
    if change {
        push_str(&mut out, if left.unicode_len() == 0 { DIM } else { RED });
    }
    push_str(&mut out, l.as_str());
    if change {
        push_str(&mut out, RESET);
    }
    push_str(&mut out, " │ ");
    if change {
        push_str(&mut out, if right.unicode_len() == 0 { DIM } else { GREEN });
    }
    push_str(&mut out, r.as_str());
    if change {
        push_str(&mut out, RESET);
    }
    push_char(&mut out, '\n');
    assert(out@ =~= row_text(left@, right@, col as nat, color, kind));
    out
}

/// Column width for a terminal of `width` columns: half of what the
/// separator leaves, at least 8.
pub open spec fn column_width(width: nat) -> nat {
    let half = (if width >= 3 { width - 3 } else { 0 }) / 2;
    if half < 8 {
        8
    } else {
        half as nat
    }
}

pub open spec fn rows_text(rows: Seq<RowView>, col: nat, color: bool) -> Seq<char>
    decreases rows.len(),
{
    if rows.len() == 0 {
        Seq::empty()
    } else {
        rows_text(rows.drop_last(), col, color) + row_text(rows.last().left, rows.last().right, col, color, rows.last().kind)
    }
}

pub open spec fn side_by_side_text(left_title: Seq<char>, right_title: Seq<char>, rows: Seq<RowView>, width: nat, color: bool) -> Seq<char> {
    let col = column_width(width);
    row_text(left_title, right_title, col, color, Kind::Context) + rule_text(col, color) + rows_text(rows, col, color)
}

/// Side-by-side text of a diff for a terminal `width` columns wide.
pub fn render_side_by_side(view: &SideBySide, width: usize, color: bool) -> (out: String)
    ensures
        out@ == side_by_side_text(view.left_title@, view.right_title@, rows_view(view.rows@), width as nat, color),
{
    let half = (if width >= 3 { width - 3 } else { 0 }) / 2;
    let col = if half < 8 { 8 } else { half };
    let mut out = format_row(view.left_title.as_str(), view.right_title.as_str(), col, color, Kind::Context);
    let rule = format_rule(col, color);
    push_str(&mut out, rule.as_str());
    let ghost head = out@;
    let ghost rv = rows_view(view.rows@);
    let mut k: usize = 0;
    assert(rv.take(0) =~= Seq::<RowView>::empty());
    while k < view.rows.len()
        invariant
            k <= view.rows@.len(),
            rv == rows_view(view.rows@),
            col == column_width(width as nat),
            out@ == head + rows_text(rv.take(k as int), col as nat, color),
        decreases view.rows@.len() - k,
    {
        let row = &view.rows[k];
        assert(rv[k as int] == row@);
        assert(rv.take(k + 1).drop_last() =~= rv.take(k as int));
        let line = format_row(row.left.as_str(), row.right.as_str(), col, color, row.kind);
        push_str(&mut out, line.as_str());
        assert(out@ =~= head + rows_text(rv.take(k + 1), col as nat, color));
        k = k + 1;
    }
    assert(rv.take(view.rows@.len() as int) =~= rv);
    out
}

/// `l` without one trailing `\n`.
pub open spec fn chomp(l: Seq<char>) -> Seq<char> {
    if l.len() > 0 && l.last() == '\n' {
        l.drop_last()
    } else {
        l
    }
}

/// `l` without its line end: one trailing `\n`, with a `\r` just before it.
pub open spec fn line_body(l: Seq<char>) -> Seq<char> {
    if l.len() > 0 && l.last() == '\n' {
        let m = l.drop_last();
        if m.len() > 0 && m.last() == '\r' {
            m.drop_last()
        } else {
            m
        }
    } else {
        l
    }
}

/// Lines of `s` as `str::lines` splits them: at each `\n`, without their
/// `\n` or `\r\n`; a last line without one is kept.
pub open spec fn text_lines(s: Seq<char>) -> Seq<Seq<char>> {
    crate::diff::lines_of(s).map_values(|l: Seq<char>| line_body(l))
}

/// `l` without its line end.
pub(crate) fn strip_line_end(l: &str) -> (r: String)
    ensures
        r@ == line_body(l@),
{
    let cs = chars_of(l);
    let n = cs.len();
    if n > 0 && cs[n - 1] == '\n' {
        if n > 1 && cs[n - 2] == '\r' {
            let r = string_of(&cs, 0, n - 2);
            assert(r@ =~= l@.drop_last().drop_last());
            r
        } else {
            let r = string_of(&cs, 0, n - 1);
            assert(r@ =~= l@.drop_last());
            r
        }
    } else {
        owned(l)
    }
}

/// Lines of a diff text, without their line ends.
pub open spec fn diff_lines(diff: Seq<char>) -> Seq<Seq<char>> {
    crate::diff::lines_of(diff).map_values(|l: Seq<char>| chomp(l))
}

pub open spec fn is_removed(l: Seq<char>) -> bool {
    l.len() > 0 && l[0] == '-' && !has_prefix(l, "--- "@)
}

pub open spec fn is_added(l: Seq<char>) -> bool {
    l.len() > 0 && l[0] == '+' && !has_prefix(l, "+++ "@)
}

/// End of the run of removed (`minus`) or added lines from `j`.
pub open spec fn run_end(lines: Seq<Seq<char>>, j: int, minus: bool) -> int
    decreases lines.len() - j,
{
    if j < 0 || j >= lines.len() {
        j
    } else if (minus && is_removed(lines[j])) || (!minus && is_added(lines[j])) {
        run_end(lines, j + 1, minus)
    } else {
        j
    }
}

pub proof fn lemma_run_end(lines: Seq<Seq<char>>, j: int, minus: bool)
    requires
        0 <= j <= lines.len(),
    ensures
        j <= run_end(lines, j, minus) <= lines.len(),
    decreases lines.len() - j,
{
    if j < lines.len() && ((minus && is_removed(lines[j])) || (!minus && is_added(lines[j]))) {
        lemma_run_end(lines, j + 1, minus);
    }
}

pub open spec fn tail_text(l: Seq<char>) -> Seq<char> {
    l.skip(1)
}

/// Pairs `(a[k], b[k])` up to the longer length, a missing side `None`.
pub open spec fn zip_longest(a: Seq<Seq<char>>, b: Seq<Seq<char>>) -> Seq<(Option<Seq<char>>, Option<Seq<char>>)> {
    let n = if a.len() > b.len() { a.len() } else { b.len() };
    Seq::new(
        n,
        |k: int|
            (
                if k < a.len() {
                    Some(a[k])
                } else {
                    None
                },
                if k < b.len() {
                    Some(b[k])
                } else {
                    None
                },
            ),
    )
}

/// Old and new text of the diff lines from `i`: a run of removed lines is
/// paired with the added run that follows it, headers are skipped.
pub open spec fn pairs_from(lines: Seq<Seq<char>>, i: int) -> Seq<(Option<Seq<char>>, Option<Seq<char>>)>
    decreases lines.len() - i,
{
    if i < 0 || i >= lines.len() {
        Seq::empty()
    } else {
        let l = lines[i];
        if has_prefix(l, "--- "@) || has_prefix(l, "+++ "@) || has_prefix(l, "@@"@) {
            pairs_from(lines, i + 1)
        } else if is_removed(l) {
            let r = run_end(lines, i, true);
            let a = run_end(lines, r, false);
            proof {
                lemma_run_end(lines, i + 1, true);
                lemma_run_end(lines, r, false);
            }
            zip_longest(
                lines.subrange(i, r).map_values(|x: Seq<char>| tail_text(x)),
                lines.subrange(r, a).map_values(|x: Seq<char>| tail_text(x)),
            ) + pairs_from(lines, a)
        } else if is_added(l) {
            seq![(None, Some(l.skip(1)))] + pairs_from(lines, i + 1)
        } else {
            let t = if has_prefix(l, " "@) {
                l.skip(1)
            } else {
                l
            };
            seq![(Some(t), Some(t))] + pairs_from(lines, i + 1)
        }
    }
}

/// Rest of the last line among `lines[..k]` that starts with `p`.
pub open spec fn last_title(lines: Seq<Seq<char>>, p: Seq<char>, k: int, default: Seq<char>) -> Seq<char>
    decreases k,
{
    if k <= 0 || k > lines.len() {
        default
    } else if has_prefix(lines[k - 1], p) {
        lines[k - 1].skip(p.len() as int)
    } else {
        last_title(lines, p, k - 1, default)
    }
}

pub open spec fn text_or_empty(o: Option<Seq<char>>) -> Seq<char> {
    match o {
        Some(t) => t,
        None => Seq::empty(),
    }
}

/// Rows of `pairs[k..]`; `cur` is the file of the latest path line.
pub open spec fn rows_from(pairs: Seq<(Option<Seq<char>>, Option<Seq<char>>)>, k: int, cur: Seq<char>) -> Seq<RowView>
    decreases pairs.len() - k,
{
    if k < 0 || k >= pairs.len() {
        Seq::empty()
    } else {
        let left = text_or_empty(pairs[k].0);
        let right = text_or_empty(pairs[k].1);
        let cur1 = match path_in_line(left) {
            Some(f) => f,
            None => match path_in_line(right) {
                Some(f) => f,
                None => cur,
            },
        };
        seq![RowView {
            left,
            right,
            kind: if left == right { Kind::Context } else { Kind::Change },
            file: cur1,
        }] + rows_from(pairs, k + 1, cur1)
    }
}

pub struct SideBySideView {
    pub left_title: Seq<char>,
    pub right_title: Seq<char>,
    pub rows: Seq<RowView>,
}

/// Side-by-side form of a unified diff: titles from the last `---` and
/// `+++` lines (`old` and `new` by default), and the rows.
pub open spec fn parsed_diff(diff: Seq<char>) -> SideBySideView {
    let lines = diff_lines(diff);
    SideBySideView {
        left_title: last_title(lines, "--- "@, lines.len() as int, "old"@),
        right_title: last_title(lines, "+++ "@, lines.len() as int, "new"@),
        rows: rows_from(pairs_from(lines, 0), 0, Seq::empty()),
    }
}

pub open spec fn pair_view(p: (Option<String>, Option<String>)) -> (Option<Seq<char>>, Option<Seq<char>>) {
    (
        match p.0 {
            Some(s) => Some(s@),
            None => None,
        },
        match p.1 {
            Some(s) => Some(s@),
            None => None,
        },
    )
}

pub open spec fn pairs_view(v: Seq<(Option<String>, Option<String>)>) -> Seq<(Option<Seq<char>>, Option<Seq<char>>)> {
    v.map_values(|p: (Option<String>, Option<String>)| pair_view(p))
}

fn after(s: &String, n: usize) -> (r: String)
    requires
        n <= s@.len(),
    ensures
        r@ == s@.skip(n as int),
{
    let cs = chars_of(s.as_str());
    let r = string_of(&cs, n, cs.len());
    assert(r@ =~= s@.skip(n as int));
    r
}

fn removed_line(l: &String) -> (r: bool)
    ensures
        r == is_removed(l@),
{
    let cs = chars_of(l.as_str());
    cs.len() > 0 && cs[0] == '-' && !starts_with(l.as_str(), "--- ")
}

fn added_line(l: &String) -> (r: bool)
    ensures
        r == is_added(l@),
{
    let cs = chars_of(l.as_str());
    cs.len() > 0 && cs[0] == '+' && !starts_with(l.as_str(), "+++ ")
}

/// Side-by-side rows of a unified diff.
pub fn parse_diff(diff: &str) -> (view: SideBySide)
    ensures
        view.left_title@ == parsed_diff(diff@).left_title,
        view.right_title@ == parsed_diff(diff@).right_title,
        rows_view(view.rows@) == parsed_diff(diff@).rows,
{
    let raw = crate::diff::split_keepends(diff);
    let mut lines: Vec<String> = Vec::new();
    let mut q: usize = 0;
    while q < raw.len()
        invariant
            q <= raw@.len(),
            lines.deep_view() == raw.deep_view().take(q as int).map_values(|l: Seq<char>| chomp(l)),
        decreases raw@.len() - q,
    {
        let cs = chars_of(raw[q].as_str());
        let n = cs.len();
        let line = if n > 0 && cs[n - 1] == '\n' {
            string_of(&cs, 0, n - 1)
        } else {
            raw[q].clone()
        };
        assert(line@ == chomp(raw.deep_view()[q as int])) by {
            if n > 0 && cs@[n - 1] == '\n' {
                assert(cs@.subrange(0, n - 1) =~= raw@[q as int]@.drop_last());
            }
        }
        let ghost before = lines.deep_view();
        lines.push(line);
        assert(lines.deep_view() =~= before.push(chomp(raw.deep_view()[q as int])));
        assert(raw.deep_view().take(q + 1).map_values(|l: Seq<char>| chomp(l)) =~= raw.deep_view().take(q as int).map_values(|l: Seq<char>| chomp(l)).push(chomp(raw.deep_view()[q as int])));
        q = q + 1;
    }
    assert(raw.deep_view().take(raw@.len() as int) =~= raw.deep_view());
    let ghost lv = lines.deep_view();
    assert(lv == diff_lines(diff@));
    let mut left_title = owned("old");
    let mut right_title = owned("new");
    let mut pairs: Vec<(Option<String>, Option<String>)> = Vec::new();
    let mut i: usize = 0;
    assert(pairs_view(pairs@) =~= Seq::<(Option<Seq<char>>, Option<Seq<char>>)>::empty());
    while i < lines.len()
        invariant
            i <= lines@.len(),
            lv == lines.deep_view(),
            pairs_from(lv, 0) == pairs_view(pairs@) + pairs_from(lv, i as int),
            left_title@ == last_title(lv, "--- "@, i as int, "old"@),
            right_title@ == last_title(lv, "+++ "@, i as int, "new"@),
        decreases lines@.len() - i,
    {
        let line = &lines[i];
        assert(lv[i as int] == line@);
        let ghost pv = pairs_view(pairs@);
        if starts_with(line.as_str(), "--- ") {
            proof {
                reveal_strlit("--- ");
            }
            left_title = after(line, 4);
            assert(last_title(lv, "+++ "@, i + 1, "new"@) == right_title@) by {
                reveal_strlit("+++ ");
                reveal_strlit("--- ");
                crate::text::lemma_prefix_at(line@, "--- "@, 0);
                if has_prefix(line@, "+++ "@) {
                    crate::text::lemma_prefix_at(line@, "+++ "@, 0);
                }
            }
            i = i + 1;
        } else if starts_with(line.as_str(), "+++ ") {
            proof {
                reveal_strlit("+++ ");
            }
            right_title = after(line, 4);
            i = i + 1;
        } else if starts_with(line.as_str(), "@@") {
            i = i + 1;
        } else if removed_line(line) {
            let mut r = i;
            while r < lines.len() && removed_line(&lines[r])
                invariant
                    i <= r <= lines@.len(),
                    lv == lines.deep_view(),
                    run_end(lv, i as int, true) == run_end(lv, r as int, true),
                    forall|t: int| i <= t < r ==> is_removed(#[trigger] lv[t]),
                decreases lines@.len() - r,
            {
                assert(lv[r as int] == lines@[r as int]@);
                r = r + 1;
            }
            proof {
                if r < lines@.len() {
                    assert(lv[r as int] == lines@[r as int]@);
                }
            }
            let mut a = r;
            while a < lines.len() && added_line(&lines[a])
                invariant
                    r <= a <= lines@.len(),
                    lv == lines.deep_view(),
                    run_end(lv, r as int, false) == run_end(lv, a as int, false),
                    forall|t: int| r <= t < a ==> is_added(#[trigger] lv[t]),
                decreases lines@.len() - a,
            {
                assert(lv[a as int] == lines@[a as int]@);
                a = a + 1;
            }
            proof {
                if a < lines@.len() {
                    assert(lv[a as int] == lines@[a as int]@);
                }
                assert(!has_prefix(line@, "--- "@) && !has_prefix(line@, "+++ "@) && !has_prefix(line@, "@@"@)) by {
                    reveal_strlit("--- ");
                    reveal_strlit("+++ ");
                    reveal_strlit("@@");
                }
            }
            let nr = r - i;
            let na = a - r;
            let n = if nr > na { nr } else { na };
            let ghost z = zip_longest(
                lv.subrange(i as int, r as int).map_values(|x: Seq<char>| tail_text(x)),
                lv.subrange(r as int, a as int).map_values(|x: Seq<char>| tail_text(x)),
            );
            let mut k: usize = 0;
            while k < n
                invariant
                    k <= n,
                    i <= r <= a <= lines@.len(),
                    nr == r - i,
                    na == a - r,
                    n == (if nr > na { nr } else { na }),
                    lv == lines.deep_view(),
                    z.len() == n,
                    forall|t: int| i <= t < r ==> is_removed(#[trigger] lv[t]),
                    forall|t: int| r <= t < a ==> is_added(#[trigger] lv[t]),
                    z == zip_longest(
                        lv.subrange(i as int, r as int).map_values(|x: Seq<char>| tail_text(x)),
                        lv.subrange(r as int, a as int).map_values(|x: Seq<char>| tail_text(x)),
                    ),
                    pairs_view(pairs@) == pv + z.take(k as int),
                decreases n - k,
            {
                let left = if k < nr {
                    assert(lv[i + k] == lines@[i + k]@);
                    Some(after(&lines[i + k], 1))
                } else {
                    None
                };
                let right = if k < na {
                    assert(lv[r + k] == lines@[r + k]@);
                    Some(after(&lines[r + k], 1))
                } else {
                    None
                };
                let ghost before = pairs_view(pairs@);
                pairs.push((left, right));
                assert(pairs_view(pairs@) =~= before.push(z[k as int]));
                assert(z.take(k + 1) =~= z.take(k as int).push(z[k as int]));
                k = k + 1;
            }
            assert(z.take(n as int) =~= z);
            assert(pairs_from(lv, i as int) == z + pairs_from(lv, a as int));
            assert(pv + (z + pairs_from(lv, a as int)) =~= (pv + z) + pairs_from(lv, a as int));
            proof {
                reveal_strlit("--- ");
                reveal_strlit("+++ ");
                assert forall|t: int| i <= t < a implies !has_prefix(lv[t], "--- "@) && !has_prefix(lv[t], "+++ "@) by {
                    if t < r {
                        assert(is_removed(lv[t]));
                        if has_prefix(lv[t], "+++ "@) {
                            crate::text::lemma_prefix_at(lv[t], "+++ "@, 0);
                        }
                    } else {
                        assert(is_added(lv[t]));
                        if has_prefix(lv[t], "--- "@) {
                            crate::text::lemma_prefix_at(lv[t], "--- "@, 0);
                        }
                    }
                }
                lemma_last_title_skip(lv, "--- "@, i as int, a as int, "old"@);
                lemma_last_title_skip(lv, "+++ "@, i as int, a as int, "new"@);
            }
            i = a;
        } else if added_line(line) {
            proof {
                reveal_strlit("--- ");
                reveal_strlit("+++ ");
                reveal_strlit("@@");
            }
            let text = after(line, 1);
            let ghost before = pairs_view(pairs@);
            pairs.push((None, Some(text)));
            assert(pairs_view(pairs@) =~= before.push((None, Some(line@.skip(1)))));
            assert(pv + (seq![(None::<Seq<char>>, Some(line@.skip(1)))] + pairs_from(lv, i + 1)) =~= pairs_view(pairs@) + pairs_from(lv, i + 1));
            i = i + 1;
        } else {
            proof {
                reveal_strlit("--- ");
                reveal_strlit("+++ ");
                reveal_strlit("@@");
            }
            let text = if starts_with(line.as_str(), " ") {
                proof {
                    reveal_strlit(" ");
                }
                after(line, 1)
            } else {
                line.clone()
            };
            let ghost before = pairs_view(pairs@);
            pairs.push((Some(text.clone()), Some(text)));
            assert(pairs_view(pairs@) =~= before.push((Some(text@), Some(text@))));
            assert(pv + (seq![(Some(text@), Some(text@))] + pairs_from(lv, i + 1)) =~= pairs_view(pairs@) + pairs_from(lv, i + 1));
            i = i + 1;
        }
    }
    assert(pairs_view(pairs@) + Seq::<(Option<Seq<char>>, Option<Seq<char>>)>::empty() =~= pairs_view(pairs@));
    let ghost pv = pairs_view(pairs@);
    let mut rows: Vec<Row> = Vec::new();
    let mut cur = String::new();
    let mut k: usize = 0;
    assert(rows_view(rows@) =~= Seq::<RowView>::empty());
    while k < pairs.len()
        invariant
            k <= pairs@.len(),
            pv == pairs_view(pairs@),
            rows_from(pv, 0, Seq::empty()) == rows_view(rows@) + rows_from(pv, k as int, cur@),
        decreases pairs@.len() - k,
    {
        let left = match &pairs[k].0 {
            Some(t) => t.clone(),
            None => String::new(),
        };
        let right = match &pairs[k].1 {
            Some(t) => t.clone(),
            None => String::new(),
        };
        assert(left@ == text_or_empty(pv[k as int].0));
        assert(right@ == text_or_empty(pv[k as int].1));
        match file_path_in_diff_line(left.as_str()) {
            Some(f) => {
                cur = f;
            },
            None => match file_path_in_diff_line(right.as_str()) {
                Some(f) => {
                    cur = f;
                },
                None => {},
            },
        }
        let kind = if str_eq(left.as_str(), right.as_str()) {
            Kind::Context
        } else {
            Kind::Change
        };
        let ghost before = rows_view(rows@);
        let row = Row { left, right, kind, file: cur.clone() };
        let ghost rowv = row@;
        rows.push(row);
        assert(rows_view(rows@) =~= before.push(rowv));
        assert(before + (seq![rowv] + rows_from(pv, k + 1, cur@)) =~= rows_view(rows@) + rows_from(pv, k + 1, cur@));
        k = k + 1;
    }
    assert(rows_view(rows@) + Seq::<RowView>::empty() =~= rows_view(rows@));
    SideBySide { left_title, right_title, rows }
}

proof fn lemma_last_title_skip(lines: Seq<Seq<char>>, p: Seq<char>, i: int, a: int, d: Seq<char>)
    requires
        0 <= i <= a <= lines.len(),
        forall|t: int| i <= t < a ==> !has_prefix(lines[t], p),
    ensures
        last_title(lines, p, a, d) == last_title(lines, p, i, d),
    decreases a - i,
{
    if a > i {
        lemma_last_title_skip(lines, p, i, a - 1, d);
    }
}

/// Width to render at: `COLUMNS` when it parses as a number of at least 20,
/// else 80.
pub open spec fn width_of(columns: Option<Seq<char>>) -> int {
    match columns {
        Some(c) => match crate::text::parsed_usize(c) {
            Some(n) => if n >= 20 {
                n as int
            } else {
                80
            },
            None => 80,
        },
        None => 80,
    }
}

pub fn terminal_width(columns: Option<&str>) -> (w: usize)
    ensures
        w as int == width_of(match columns {
            Some(c) => Some(c@),
            None => None,
        }),
{
    match columns {
        Some(c) => match crate::text::parse_usize(c) {
            Some(n) => if n >= 20 {
                n
            } else {
                80
            },
            None => 80,
        },
        None => 80,
    }
}

/// Arguments of the `seer diff` run that loads the revisions `revs`,
/// limited to `paths` when there are any.
pub open spec fn diff_args_of(revs: Seq<Seq<char>>, paths: Seq<Seq<char>>) -> Seq<Seq<char>> {
    seq!["seer"@, "diff"@] + revs + if paths.len() > 0 {
        seq!["--"@] + paths
    } else {
        Seq::empty()
    }
}

pub fn diff_command_args(revs: &Vec<String>, paths: &Vec<String>) -> (args: Vec<String>)
    ensures
        args.deep_view() == diff_args_of(revs.deep_view(), paths.deep_view()),
{
    let mut args: Vec<String> = Vec::new();
    args.push(owned("seer"));
    args.push(owned("diff"));
    let mut k: usize = 0;
    while k < revs.len()
        invariant
            k <= revs@.len(),
            args.deep_view() == seq!["seer"@, "diff"@] + revs.deep_view().take(k as int),
        decreases revs@.len() - k,
    {
        let ghost before = args.deep_view();
        args.push(revs[k].clone());
        assert(args.deep_view() =~= before.push(revs.deep_view()[k as int]));
        assert(revs.deep_view().take(k + 1) =~= revs.deep_view().take(k as int).push(revs.deep_view()[k as int]));
        k = k + 1;
    }
    assert(revs.deep_view().take(revs@.len() as int) =~= revs.deep_view());
    let ghost head = args.deep_view();
    if paths.len() > 0 {
        args.push(owned("--"));
        let mut q: usize = 0;
        while q < paths.len()
            invariant
                q <= paths@.len(),
                args.deep_view() == head + seq!["--"@] + paths.deep_view().take(q as int),
            decreases paths@.len() - q,
        {
            let ghost before = args.deep_view();
            args.push(paths[q].clone());
            assert(args.deep_view() =~= before.push(paths.deep_view()[q as int]));
            assert(paths.deep_view().take(q + 1) =~= paths.deep_view().take(q as int).push(paths.deep_view()[q as int]));
            q = q + 1;
        }
        assert(paths.deep_view().take(paths@.len() as int) =~= paths.deep_view());
        assert(args.deep_view() =~= head + (seq!["--"@] + paths.deep_view()));
    } else {
        assert(args.deep_view() =~= head + Seq::<Seq<char>>::empty());
    }
    args
}

/// `p` occurs in `s`.
pub open spec fn has_infix(s: Seq<char>, p: Seq<char>) -> bool {
    exists|i: int| 0 <= i && i + p.len() <= s.len() && #[trigger] s.subrange(i, i + p.len()) == p
}

fn matches_at(a: &Vec<char>, b: &Vec<char>, i: usize) -> (r: bool)
    requires
        i + b@.len() <= a@.len(),
    ensures
        r == (a@.subrange(i as int, i + b@.len()) == b@),
{
    let n = a.len();
    let mut k: usize = 0;
    while k < b.len()
        invariant
            n == a@.len(),
            i + b@.len() <= a@.len(),
            k <= b@.len(),
            forall|q: int| 0 <= q < k ==> a@[i + q] == b@[q],
        decreases b@.len() - k,
    {
        if a[i + k] != b[k] {
            assert(a@.subrange(i as int, i + b@.len())[k as int] != b@[k as int]);
            return false;
        }
        k = k + 1;
    }
    assert(a@.subrange(i as int, i + b@.len()) =~= b@);
    true
}

fn contains_text(s: &str, p: &str) -> (r: bool)
    ensures
        r == has_infix(s@, p@),
{
    let a = chars_of(s);
    let b = chars_of(p);
    if b.len() > a.len() {
        return false;
    }
    let n = a.len();
    let last = n - b.len();
    let mut i: usize = 0;
    while i <= last
        invariant
            n == a@.len(),
            last == a@.len() - b@.len(),
            a@ == s@,
            b@ == p@,
            b@.len() <= a@.len(),
            i <= last + 1,
            forall|j: int| 0 <= j < i ==> #[trigger] s@.subrange(j, j + p@.len()) != p@,
        decreases last + 1 - i,
    {
        if matches_at(&a, &b, i) {
            return true;
        }
        if b.len() == 0 {
            assert(a@.subrange(i as int, i as int) =~= b@);
        }
        i = i + 1;
    }
    assert forall|j: int| 0 <= j && j + p@.len() <= s@.len() implies #[trigger] s@.subrange(j, j + p@.len()) != p@ by {
        assert(j < i);
    }
    false
}

/// Message for a failed `git log`: its trimmed error output, or `not a git
/// repository` when that is empty or says so.
pub open spec fn log_failure_text(stderr: Seq<char>) -> Seq<char> {
    let m = crate::text::class_trimmed(stderr, true);
    if m.len() == 0 || has_infix(m, "not a git"@) {
        "not a git repository"@
    } else {
        m
    }
}

pub fn log_failure_message(stderr: &str) -> (m: String)
    ensures
        m@ == log_failure_text(stderr@),
{
    let t = crate::text::trim_class_chars(stderr, true);
    if t.as_str().unicode_len() == 0 || contains_text(t.as_str(), "not a git") {
        owned("not a git repository")
    } else {
        t
    }
}

/// Commits of the lines of a `git log` output, skipping lines without one.
pub open spec fn log_commits(lines: Seq<Seq<char>>) -> Seq<CommitView>
    decreases lines.len(),
{
    if lines.len() == 0 {
        Seq::empty()
    } else {
        log_commits(lines.drop_last()) + match log_line_commit(lines.last()) {
            Some(c) => seq![c],
            None => Seq::empty(),
        }
    }
}

pub fn parse_log(text: &str) -> (commits: Vec<Commit>)
    ensures
        commits_view(commits@) == log_commits(text_lines(text@)),
{
    let raw = crate::diff::split_keepends(text);
    let ghost lines = raw.deep_view().map_values(|l: Seq<char>| line_body(l));
    assert(lines == text_lines(text@));
    let mut out: Vec<Commit> = Vec::new();
    let mut k: usize = 0;
    assert(commits_view(out@) =~= Seq::<CommitView>::empty());
    while k < raw.len()
        invariant
            k <= raw@.len(),
            lines == raw.deep_view().map_values(|l: Seq<char>| line_body(l)),
            commits_view(out@) == log_commits(lines.take(k as int)),
        decreases raw@.len() - k,
    {
        let line = strip_line_end(raw[k].as_str());
        assert(line@ == lines[k as int]);
        assert(lines.take(k + 1).drop_last() =~= lines.take(k as int));
        let ghost before = commits_view(out@);
        match parse_log_line(line.as_str()) {
            Some(c) => {
                out.push(c);
                assert(commits_view(out@) =~= before + seq![out@[out@.len() - 1]@]);
            },
            None => {
                assert(commits_view(out@) =~= before + Seq::<CommitView>::empty());
            },
        }
        k = k + 1;
    }
    assert(lines.take(raw@.len() as int) =~= lines);
    out
}

/// `view` with a diff's default titles `old` and `new` replaced.
pub fn titled(view: SideBySide, left: String, right: String) -> (v: SideBySide)
    ensures
        v.left_title@ == (if view.left_title@ == "old"@ { left@ } else { view.left_title@ }),
        v.right_title@ == (if view.right_title@ == "new"@ { right@ } else { view.right_title@ }),
        v.rows == view.rows,
{
    let mut v = view;
    if str_eq(v.left_title.as_str(), "old") {
        v.left_title = left;
    }
    if str_eq(v.right_title.as_str(), "new") {
        v.right_title = right;
    }
    v
}

/// How a line of the diff is drawn.
#[derive(Clone, Copy, Debug, PartialEq, Eq)]
pub enum Tone {
    Plain,
    Removed,
    Added,
    Faint,
}

/// Tone of one side of a row: changes red on the left and green on the
/// right, an empty side of a change faint.
pub open spec fn side_tone_of(kind: Kind, empty: bool, left: bool) -> Tone {
    match kind {
        Kind::Context => Tone::Plain,
        Kind::Change => if empty {
            Tone::Faint
        } else if left {
            Tone::Removed
        } else {
            Tone::Added
        },
    }
}

pub fn side_tone(kind: Kind, text: &str, left: bool) -> (t: Tone)
    ensures
        t == side_tone_of(kind, text@.len() == 0, left),
{
    match kind {
        Kind::Context => Tone::Plain,
        Kind::Change => if text.unicode_len() == 0 {
            Tone::Faint
        } else if left {
            Tone::Removed
        } else {
            Tone::Added
        },
    }
}

/// Tone of an inline line, by its first character.
pub fn inline_tone(line: &str) -> (t: Tone)
    ensures
        t == (if line@.len() > 0 && line@[0] == '-' {
            Tone::Removed
        } else if line@.len() > 0 && line@[0] == '+' {
            Tone::Added
        } else {
            Tone::Plain
        }),
{
    let cs = chars_of(line);
    if cs.len() > 0 && cs[0] == '-' {
        Tone::Removed
    } else if cs.len() > 0 && cs[0] == '+' {
        Tone::Added
    } else {
        Tone::Plain
    }
}

} // verus!
