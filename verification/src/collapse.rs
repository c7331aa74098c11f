//! Whitespace collapsing of source snippets and std-prefix stripping.
use vstd::prelude::*;

use crate::syntax::{char_span, lemma_char_index_bounds, lemma_subtree_end_bounds, subtree_end, NodeView, SyntaxTree, TreeView};
use crate::text::{
    byte_offset, char_width, chars_of, is_white_space, lemma_byte_offset_mono,
    lemma_byte_offset_step, push_char, white_space,
};

verus! {

/// Output so far and whether a whitespace run is pending, after the first `k`
/// characters: each run of whitespace outside literals becomes one space.
pub open spec fn fold_ws(cs: Seq<char>, lit: Seq<bool>, k: int) -> (Seq<char>, bool)
    decreases k,
{
    if k <= 0 {
        (Seq::empty(), false)
    } else {
        let (out, ws) = fold_ws(cs, lit, k - 1);
        let c = cs[k - 1];
        if !lit[k - 1] && is_white_space(c) {
            (out, true)
        } else {
            ((if ws {
                out.push(' ')
            } else {
                out
            }).push(c), false)
        }
    }
}

/// `s` without leading spaces.
pub open spec fn trim_start_spaces(s: Seq<char>) -> Seq<char>
    decreases s.len(),
{
    if s.len() > 0 && s[0] == ' ' {
        trim_start_spaces(s.drop_first())
    } else {
        s
    }
}

/// `s` without trailing spaces.
pub open spec fn trim_end_spaces(s: Seq<char>) -> Seq<char>
    decreases s.len(),
{
    if s.len() > 0 && s.last() == ' ' {
        trim_end_spaces(s.drop_last())
    } else {
        s
    }
}

/// `s` without leading or trailing spaces.
pub open spec fn trim_spaces(s: Seq<char>) -> Seq<char> {
    trim_end_spaces(trim_start_spaces(s))
}

/// `cs` with each whitespace run outside literal characters (`lit`) collapsed
/// to one space, then trimmed of spaces.
pub open spec fn collapse_flags(cs: Seq<char>, lit: Seq<bool>) -> Seq<char> {
    trim_spaces(fold_ws(cs, lit, cs.len() as int).0)
}

proof fn lemma_trim_start(s: Seq<char>)
    ensures
        trim_start_spaces(s).len() == 0 || trim_start_spaces(s)[0] != ' ',
    decreases s.len(),
{
    if s.len() > 0 && s[0] == ' ' {
        lemma_trim_start(s.drop_first());
    }
}

proof fn lemma_trim_end(s: Seq<char>)
    ensures
        trim_end_spaces(s) == s.take(trim_end_spaces(s).len() as int),
        trim_end_spaces(s).len() <= s.len(),
        trim_end_spaces(s).len() == 0 || trim_end_spaces(s).last() != ' ',
    decreases s.len(),
{
    if s.len() > 0 && s.last() == ' ' {
        lemma_trim_end(s.drop_last());
        let t = trim_end_spaces(s.drop_last());
        assert(s.drop_last().take(t.len() as int) =~= s.take(t.len() as int));
    } else {
        assert(s.take(s.len() as int) =~= s);
    }
}

/// Law: a collapsed text neither starts nor ends with a space.
pub proof fn law_collapsed_is_trimmed(s: Seq<char>, ranges: Seq<(usize, usize)>)
    ensures
        collapsed(s, ranges).len() > 0 ==> collapsed(s, ranges)[0] != ' ' && collapsed(s, ranges).last() != ' ',
{
    let lit = literal_flags(s, ranges);
    let x = fold_ws(s, lit, s.len() as int).0;
    let y = trim_start_spaces(x);
    lemma_trim_start(x);
    lemma_trim_end(y);
    let t = trim_end_spaces(y);
    if t.len() > 0 {
        assert(t[0] == y.take(t.len() as int)[0]);
    }
}

/// Byte offset `b` falls inside one of `ranges` (half-open).
pub open spec fn in_ranges(b: int, ranges: Seq<(usize, usize)>) -> bool {
    exists|j: int| 0 <= j < ranges.len() && ranges[j].0 <= b && b < ranges[j].1
}

/// Literal flag of each character of `s`: its byte offset lies in one of `ranges`.
pub open spec fn literal_flags(s: Seq<char>, ranges: Seq<(usize, usize)>) -> Seq<bool> {
    Seq::new(s.len(), |k: int| in_ranges(byte_offset(s, k) as int, ranges))
}

/// What [`collapse`] returns.
pub open spec fn collapsed(s: Seq<char>, ranges: Seq<(usize, usize)>) -> Seq<char> {
    collapse_flags(s, literal_flags(s, ranges))
}

fn in_ranges_exec(b: usize, ranges: &[(usize, usize)]) -> (r: bool)
    ensures
        r == in_ranges(b as int, ranges@),
{
    let mut j: usize = 0;
    while j < ranges.len()
        invariant
            j <= ranges@.len(),
            forall|m: int| 0 <= m < j ==> !(ranges@[m].0 <= b && b < ranges@[m].1),
        decreases ranges@.len() - j,
    {
        let (a, e) = ranges[j];
        if a <= b && b < e {
            return true;
        }
        j = j + 1;
    }
    false
}

/// Removes leading and trailing spaces of `v[..]`.
fn trimmed(v: &Vec<char>) -> (r: String)
    ensures
        r@ == trim_spaces(v@),
{
    let n = v.len();
    let mut a: usize = 0;
    assert(v@.skip(0) =~= v@);
    while a < n && v[a] == ' '
        invariant
            a <= n == v@.len(),
            trim_start_spaces(v@) == trim_start_spaces(v@.skip(a as int)),
        decreases n - a,
    {
        assert(v@.skip(a as int).drop_first() =~= v@.skip(a + 1));
        a = a + 1;
    }
    assert(trim_start_spaces(v@) == v@.skip(a as int));
    let mut b: usize = n;
    while b > a && v[b - 1] == ' '
        invariant
            a <= b <= n == v@.len(),
            trim_start_spaces(v@) == v@.skip(a as int),
            trim_spaces(v@) == trim_end_spaces(v@.subrange(a as int, b as int)),
        decreases b,
    {
        assert(v@.subrange(a as int, b as int).drop_last() =~= v@.subrange(a as int, b - 1));
        b = b - 1;
    }
    assert(v@.skip(a as int) =~= v@.subrange(a as int, n as int));
    assert(trim_spaces(v@) == v@.subrange(a as int, b as int));
    crate::text::string_of(v, a, b)
}

/// Collapses `cs[from..to]`, where character `from + k` counts as literal when
/// `flag(k)` holds; the flags are given as a vector.
fn collapse_run(cs: &Vec<char>, from: usize, to: usize, lit: &Vec<bool>) -> (r: String)
    requires
        from <= to <= cs@.len(),
        lit@.len() == to - from,
    ensures
        r@ == collapse_flags(cs@.subrange(from as int, to as int), lit@),
{
    let ghost s = cs@.subrange(from as int, to as int);
    let mut out: Vec<char> = Vec::new();
    let mut ws = false;
    let mut k: usize = 0;
    while k < to - from
        invariant
            from <= to <= cs@.len(),
            lit@.len() == to - from,
            s == cs@.subrange(from as int, to as int),
            k <= to - from,
            (out@, ws) == fold_ws(s, lit@, k as int),
        decreases to - from - k,
    {
        let c = cs[from + k];
        assert(c == s[k as int]);
        if !lit[k] && white_space(c) {
            ws = true;
        } else {
            if ws {
                out.push(' ');
            }
            out.push(c);
            ws = false;
        }
        k = k + 1;
    }
    trimmed(&out)
}

/// Collapses whitespace runs of `src` to single spaces and trims spaces, copying
/// the characters whose byte offsets fall in `literal_ranges` verbatim.
pub fn collapse(src: &str, literal_ranges: &[(usize, usize)]) -> (out: String)
    ensures
        out@ == collapsed(src@, literal_ranges@),
{
    let cs = chars_of(src);
    let total = src.as_bytes().len();
    let mut flags: Vec<bool> = Vec::new();
    let mut off: usize = 0;
    let mut k: usize = 0;
    while k < cs.len()
        invariant
            k <= cs@.len(),
            cs@ == src@,
            total == crate::text::byte_len(src@),
            off == byte_offset(src@, k as int),
            flags@.len() == k,
            forall|j: int| 0 <= j < k ==> flags@[j] == in_ranges(byte_offset(src@, j) as int, literal_ranges@),
        decreases cs@.len() - k,
    {
        proof {
            lemma_byte_offset_step(src@, k as int);
            lemma_byte_offset_mono(src@, k + 1, src@.len() as int);
            assert(src@.take(src@.len() as int) =~= src@);
        }
        flags.push(in_ranges_exec(off, literal_ranges));
        off = off + char_width(cs[k]);
        k = k + 1;
    }
    assert(flags@ =~= literal_flags(src@, literal_ranges@));
    assert(cs@.subrange(0, cs@.len() as int) =~= src@);
    collapse_run(&cs, 0, cs.len(), &flags)
}

/// `s` with a leading `::` dropped, then at most one of `std::`, `core::`,
/// `alloc::`.
pub open spec fn std_stripped(s: Seq<char>) -> Seq<char> {
    let s1 = if crate::text::has_prefix(s, seq![':', ':']) {
        s.skip(2)
    } else {
        s
    };
    if crate::text::has_prefix(s1, seq!['s', 't', 'd', ':', ':']) {
        s1.skip(5)
    } else if crate::text::has_prefix(s1, seq!['c', 'o', 'r', 'e', ':', ':']) {
        s1.skip(6)
    } else if crate::text::has_prefix(s1, seq!['a', 'l', 'l', 'o', 'c', ':', ':']) {
        s1.skip(7)
    } else {
        s1
    }
}

fn has_prefix_at(cs: &Vec<char>, from: usize, p: &[char]) -> (r: bool)
    requires
        from <= cs@.len(),
    ensures
        r == crate::text::has_prefix(cs@.skip(from as int), p@),
{
    if p.len() > cs.len() - from {
        return false;
    }
    let mut i: usize = 0;
    while i < p.len()
        invariant
            i <= p@.len(),
            from + p@.len() <= cs.len(),
            forall|k: int| 0 <= k < i ==> cs@[from + k] == p@[k],
        decreases p@.len() - i,
    {
        if cs[from + i] != p[i] {
            assert(cs@.skip(from as int).take(p@.len() as int)[i as int] != p@[i as int]);
            return false;
        }
        i = i + 1;
    }
    assert(cs@.skip(from as int).take(p@.len() as int) =~= p@);
    true
}

/// Drops a leading `::`, then at most one of `std::` / `core::` / `alloc::`.
pub fn strip_std(s: &str) -> (out: String)
    ensures
        out@ == std_stripped(s@),
{
    let cs = chars_of(s);
    let colons = [':', ':'];
    let from: usize = if has_prefix_at(&cs, 0, colons.as_slice()) {
        2
    } else {
        0
    };
    assert(cs@.skip(0) =~= cs@);
    let ghost s1 = if crate::text::has_prefix(s@, seq![':', ':']) { s@.skip(2) } else { s@ };
    assert(s1 =~= cs@.skip(from as int));
    let std_p = ['s', 't', 'd', ':', ':'];
    let core_p = ['c', 'o', 'r', 'e', ':', ':'];
    let alloc_p = ['a', 'l', 'l', 'o', 'c', ':', ':'];
    assert(std_p@ =~= seq!['s', 't', 'd', ':', ':']);
    assert(core_p@ =~= seq!['c', 'o', 'r', 'e', ':', ':']);
    assert(alloc_p@ =~= seq!['a', 'l', 'l', 'o', 'c', ':', ':']);
    let skip: usize = if has_prefix_at(&cs, from, std_p.as_slice()) {
        5
    } else if has_prefix_at(&cs, from, core_p.as_slice()) {
        6
    } else if has_prefix_at(&cs, from, alloc_p.as_slice()) {
        7
    } else {
        0
    };
    let r = crate::text::string_of(&cs, from + skip, cs.len());
    assert(r@ =~= std_stripped(s@));
    r
}

/// Kinds of literal nodes whose text is kept verbatim.
pub open spec fn is_literal_kind(k: Seq<char>) -> bool {
    k == "string_literal"@ || k == "raw_string_literal"@ || k == "char_literal"@ || k
        == "character_literal"@ || k == "text_block"@ || k == "string"@ || k == "template_string"@
}

fn literal_kind(k: &str) -> (r: bool)
    ensures
        r == is_literal_kind(k@),
{
    crate::text::str_eq(k, "string_literal") || crate::text::str_eq(k, "raw_string_literal")
        || crate::text::str_eq(k, "char_literal") || crate::text::str_eq(k, "character_literal")
        || crate::text::str_eq(k, "text_block") || crate::text::str_eq(k, "string")
        || crate::text::str_eq(k, "template_string")
}

/// Byte ranges of the literal nodes among `[k, e)`.
pub open spec fn literal_ranges_from(r: Seq<NodeView>, k: int, e: int) -> Seq<(int, int)>
    decreases e - k,
{
    if k < 0 || k >= e || k >= r.len() {
        Seq::empty()
    } else {
        (if is_literal_kind(r[k].kind) {
            seq![(r[k].start, r[k].end)]
        } else {
            Seq::empty()
        }) + literal_ranges_from(r, k + 1, e)
    }
}

/// Byte ranges of the literal nodes inside node `i` (itself included).
pub open spec fn node_literal_ranges(r: Seq<NodeView>, i: int) -> Seq<(int, int)> {
    literal_ranges_from(r, i, subtree_end(r, i))
}

pub open spec fn in_spans(b: int, spans: Seq<(int, int)>) -> bool {
    exists|j: int| 0 <= j < spans.len() && spans[j].0 <= b && b < spans[j].1
}

/// Literal flags of the characters `s[a..b]`.
pub open spec fn span_flags(s: Seq<char>, a: int, b: int, lits: Seq<(int, int)>) -> Seq<bool> {
    Seq::new((b - a) as nat, |k: int| in_spans(byte_offset(s, a + k) as int, lits))
}

/// Collapsed text of characters `[a, b)` of the tree's source.
pub open spec fn collapsed_chars(s: Seq<char>, a: int, b: int, lits: Seq<(int, int)>) -> Seq<char> {
    collapse_flags(s.subrange(a, b), span_flags(s, a, b, lits))
}

/// Collapsed text of node `i`, literals kept verbatim.
pub open spec fn node_collapsed(t: TreeView, i: int) -> Seq<char> {
    match char_span(t.text(), t.recs()[i].start, t.recs()[i].end) {
        Some((a, b)) => collapsed_chars(t.text(), a, b, node_literal_ranges(t.recs(), i)),
        None => Seq::empty(),
    }
}

pub open spec fn spans_view(v: Seq<(usize, usize)>) -> Seq<(int, int)> {
    v.map_values(|p: (usize, usize)| (p.0 as int, p.1 as int))
}

/// Literal byte ranges inside node `i`.
pub fn literal_ranges(t: &SyntaxTree, i: usize) -> (out: Vec<(usize, usize)>)
    requires
        t.wf(),
        i < t.len(),
    ensures
        spans_view(out@) == node_literal_ranges(t.recs(), i as int),
{
    let ghost r = t.recs();
    let e = t.end_of(i);
    let mut out: Vec<(usize, usize)> = Vec::new();
    let mut k = i;
    while k < e
        invariant
            t.wf(),
            r == t.recs(),
            i <= k <= e,
            e == subtree_end(r, i as int),
            e <= t.len(),
            literal_ranges_from(r, i as int, e as int) == spans_view(out@) + literal_ranges_from(r, k as int, e as int),
        decreases e - k,
    {
        let ghost prev = out@;
        if literal_kind(t.kind(k)) {
            out.push((t.nodes[k].start, t.nodes[k].end));
        }
        proof {
            assert(spans_view(out@) =~= spans_view(prev) + (if is_literal_kind(r[k as int].kind) { seq![(r[k as int].start, r[k as int].end)] } else { Seq::empty() }));
        }
        k = k + 1;
    }
    assert(literal_ranges_from(r, e as int, e as int) =~= Seq::<(int, int)>::empty());
    assert(spans_view(out@) + Seq::<(int, int)>::empty() =~= spans_view(out@));
    out
}

fn in_spans_exec(b: usize, lits: &Vec<(usize, usize)>) -> (r: bool)
    ensures
        r == in_spans(b as int, spans_view(lits@)),
{
    let ghost sv = spans_view(lits@);
    let mut j: usize = 0;
    while j < lits.len()
        invariant
            j <= lits@.len(),
            sv == spans_view(lits@),
            forall|m: int| 0 <= m < j ==> !(sv[m].0 <= b && b < sv[m].1),
        decreases lits@.len() - j,
    {
        let (a, e) = lits[j];
        if a <= b && b < e {
            assert(sv[j as int].0 <= b && b < sv[j as int].1);
            return true;
        }
        j = j + 1;
    }
    false
}

/// Collapses characters `[a, b)` of the tree's source, keeping those inside
/// `lits` verbatim.
pub fn collapse_chars(t: &SyntaxTree, a: usize, b: usize, lits: &Vec<(usize, usize)>) -> (out: String)
    requires
        t.wf(),
        a <= b <= t.text().len(),
    ensures
        out@ == collapsed_chars(t.text(), a as int, b as int, spans_view(lits@)),
{
    let mut flags: Vec<bool> = Vec::new();
    let mut k: usize = a;
    while k < b
        invariant
            t.wf(),
            a <= k <= b <= t.text().len(),
            flags@.len() == k - a,
            forall|j: int| 0 <= j < k - a ==> flags@[j] == in_spans(byte_offset(t.text(), a + j) as int, spans_view(lits@)),
        decreases b - k,
    {
        flags.push(in_spans_exec(t.pos[k], lits));
        k = k + 1;
    }
    assert(flags@ =~= span_flags(t.text(), a as int, b as int, spans_view(lits@)));
    collapse_run(&t.src, a, b, &flags)
}

/// Collapsed text of node `i`.
pub fn collapse_node(t: &SyntaxTree, i: usize) -> (out: String)
    requires
        t.wf(),
        i < t.len(),
    ensures
        out@ == node_collapsed(t@, i as int),
{
    proof {
        lemma_char_index_bounds(t.text(), t.recs()[i as int].start);
        lemma_char_index_bounds(t.text(), t.recs()[i as int].end);
    }
    match t.spans[i] {
        Some((a, b)) => {
            let lits = literal_ranges(t, i);
            collapse_chars(t, a, b, &lits)
        },
        None => String::new(),
    }
}

} // verus!
