//! Unified line diff in the format of Python's `difflib.unified_diff`
//! (three lines of context, line ends kept).
use vstd::prelude::*;

use crate::text::{chars_of, decimal, push_char, push_decimal, push_str, str_eq, string_of};

verus! {

/// Lines of `s[k..]`, each with its `\n`; `cur` is the unfinished line so far.
pub open spec fn lines_from(s: Seq<char>, k: int, cur: Seq<char>) -> Seq<Seq<char>>
    decreases s.len() - k,
{
    if k < 0 || k >= s.len() {
        if cur.len() > 0 {
            seq![cur]
        } else {
            Seq::empty()
        }
    } else if s[k] == '\n' {
        seq![cur.push('\n')] + lines_from(s, k + 1, Seq::empty())
    } else {
        lines_from(s, k + 1, cur.push(s[k]))
    }
}

/// Lines of `s`, each keeping its `\n`; a last line without one is kept too.
pub open spec fn lines_of(s: Seq<char>) -> Seq<Seq<char>> {
    lines_from(s, 0, Seq::empty())
}

/// Concatenation of `ls`.
pub open spec fn joined(ls: Seq<Seq<char>>) -> Seq<char>
    decreases ls.len(),
{
    if ls.len() == 0 {
        Seq::empty()
    } else {
        joined(ls.drop_last()) + ls.last()
    }
}

pub proof fn lemma_joined_concat(a: Seq<Seq<char>>, b: Seq<Seq<char>>)
    ensures
        joined(a + b) == joined(a) + joined(b),
    decreases b.len(),
{
    if b.len() == 0 {
        assert(a + b =~= a);
        assert(joined(a) + Seq::<char>::empty() =~= joined(a));
    } else {
        assert((a + b).drop_last() =~= a + b.drop_last());
        lemma_joined_concat(a, b.drop_last());
        assert(joined(a) + joined(b.drop_last()) + b.last() =~= joined(a) + (joined(b.drop_last()) + b.last()));
    }
}

/// The lines put back together give the text.
pub proof fn lemma_lines_from_joined(s: Seq<char>, k: int, cur: Seq<char>)
    requires
        0 <= k <= s.len(),
    ensures
        joined(lines_from(s, k, cur)) == cur + s.skip(k),
    decreases s.len() - k,
{
    if k >= s.len() {
        if cur.len() > 0 {
            assert(seq![cur].drop_last() =~= Seq::<Seq<char>>::empty());
            assert(joined(seq![cur]) == joined(Seq::<Seq<char>>::empty()) + cur);
            assert(Seq::<char>::empty() + cur =~= cur);
        }
        assert(cur + s.skip(k) =~= cur);
    } else if s[k] == '\n' {
        lemma_lines_from_joined(s, k + 1, Seq::empty());
        lemma_joined_concat(seq![cur.push('\n')], lines_from(s, k + 1, Seq::empty()));
        assert(seq![cur.push('\n')].drop_last() =~= Seq::<Seq<char>>::empty());
        assert(joined(seq![cur.push('\n')]) == joined(Seq::<Seq<char>>::empty()) + cur.push('\n'));
        assert(Seq::<char>::empty() + cur.push('\n') =~= cur.push('\n'));
        assert(cur.push('\n') + (Seq::<char>::empty() + s.skip(k + 1)) =~= cur + s.skip(k));
    } else {
        lemma_lines_from_joined(s, k + 1, cur.push(s[k]));
        assert(cur.push(s[k]) + s.skip(k + 1) =~= cur + s.skip(k));
    }
}

pub proof fn lemma_lines_determine_text(a: Seq<char>, b: Seq<char>)
    requires
        lines_of(a) == lines_of(b),
    ensures
        a == b,
{
    lemma_lines_from_joined(a, 0, Seq::empty());
    lemma_lines_from_joined(b, 0, Seq::empty());
    assert(Seq::<char>::empty() + a.skip(0) =~= a);
    assert(Seq::<char>::empty() + b.skip(0) =~= b);
}

/// A line that ends with its only `\n`.
pub open spec fn complete_line(l: Seq<char>) -> bool {
    &&& l.len() > 0
    &&& l.last() == '\n'
    &&& forall|i: int| 0 <= i < l.len() - 1 ==> l[i] != '\n'
}

proof fn lemma_lines_shift(p: Seq<char>, t: Seq<char>, j: int, cur: Seq<char>)
    requires
        0 <= j <= t.len(),
    ensures
        lines_from(p + t, p.len() + j, cur) == lines_from(t, j, cur),
    decreases t.len() - j,
{
    if j < t.len() {
        assert((p + t)[p.len() + j] == t[j]);
        if t[j] == '\n' {
            lemma_lines_shift(p, t, j + 1, Seq::empty());
        } else {
            lemma_lines_shift(p, t, j + 1, cur.push(t[j]));
        }
    }
}

proof fn lemma_line_prefix(l: Seq<char>, t: Seq<char>, k: int)
    requires
        complete_line(l),
        0 <= k < l.len(),
    ensures
        lines_from(l + t, k, l.take(k)) == seq![l] + lines_from(l + t, l.len() as int, Seq::empty()),
    decreases l.len() - k,
{
    assert((l + t)[k] == l[k]);
    if k == l.len() - 1 {
        assert(l.take(k).push('\n') =~= l);
    } else {
        assert(l.take(k).push(l[k]) =~= l.take(k + 1));
        lemma_line_prefix(l, t, k + 1);
    }
}

/// A complete line in front of `t` adds just that line to the lines of `t`.
pub proof fn lemma_lines_of_line_then(l: Seq<char>, t: Seq<char>)
    requires
        complete_line(l),
    ensures
        lines_of(l + t) == seq![l] + lines_of(t),
{
    assert(l.take(0) =~= Seq::<char>::empty());
    lemma_line_prefix(l, t, 0);
    lemma_lines_shift(l, t, 0, Seq::empty());
}

/// Complete lines in front of `t` add just those lines to the lines of `t`.
pub proof fn lemma_lines_of_joined_then(ls: Seq<Seq<char>>, t: Seq<char>)
    requires
        forall|i: int| 0 <= i < ls.len() ==> complete_line(#[trigger] ls[i]),
    ensures
        lines_of(joined(ls) + t) == ls + lines_of(t),
    decreases ls.len(),
{
    if ls.len() == 0 {
        assert(joined(ls) + t =~= t);
        assert(ls + lines_of(t) =~= lines_of(t));
    } else {
        assert(complete_line(ls[ls.len() - 1]));
        lemma_lines_of_line_then(ls.last(), t);
        assert forall|i: int| 0 <= i < ls.drop_last().len() implies complete_line(#[trigger] ls.drop_last()[i]) by {
            assert(ls.drop_last()[i] == ls[i]);
        }
        lemma_lines_of_joined_then(ls.drop_last(), ls.last() + t);
        assert(joined(ls) + t =~= joined(ls.drop_last()) + (ls.last() + t));
        assert(ls.drop_last() + (seq![ls.last()] + lines_of(t)) =~= ls + lines_of(t));
    }
}

/// Every line of `lines_from` but the last is complete.
pub proof fn lemma_lines_from_complete(s: Seq<char>, k: int, cur: Seq<char>)
    requires
        0 <= k <= s.len(),
        forall|i: int| 0 <= i < cur.len() ==> cur[i] != '\n',
    ensures
        forall|i: int| 0 <= i < lines_from(s, k, cur).len() - 1 ==> complete_line(#[trigger] lines_from(s, k, cur)[i]),
    decreases s.len() - k,
{
    if k < s.len() {
        if s[k] == '\n' {
            lemma_lines_from_complete(s, k + 1, Seq::empty());
            let rest = lines_from(s, k + 1, Seq::empty());
            let all = seq![cur.push('\n')] + rest;
            assert(lines_from(s, k, cur) == all);
            assert forall|i: int| 0 <= i < all.len() - 1 implies complete_line(#[trigger] all[i]) by {
                if i == 0 {
                    assert(all[0] == cur.push('\n'));
                    assert forall|j: int| 0 <= j < cur.push('\n').len() - 1 implies cur.push('\n')[j] != '\n' by {
                        assert(cur.push('\n')[j] == cur[j]);
                    }
                } else {
                    assert(all[i] == rest[i - 1]);
                }
            }
        } else {
            assert forall|i: int| 0 <= i < cur.push(s[k]).len() implies cur.push(s[k])[i] != '\n' by {
                if i < cur.len() {
                    assert(cur.push(s[k])[i] == cur[i]);
                }
            }
            lemma_lines_from_complete(s, k + 1, cur.push(s[k]));
            assert(lines_from(s, k, cur) == lines_from(s, k + 1, cur.push(s[k])));
        }
    } else {
        assert(lines_from(s, k, cur).len() <= 1);
    }
}

/// Splits `s` into lines that keep their line ends.
pub fn split_keepends(s: &str) -> (lines: Vec<String>)
    ensures
        lines.deep_view() == lines_of(s@),
{
    let cs = chars_of(s);
    let mut lines: Vec<String> = Vec::new();
    let mut start: usize = 0;
    let mut k: usize = 0;
    assert(s@.subrange(0, 0) =~= Seq::<char>::empty());
    assert(lines.deep_view() =~= Seq::<Seq<char>>::empty());
    while k < cs.len()
        invariant
            cs@ == s@,
            start <= k <= cs@.len(),
            lines_of(s@) == lines.deep_view() + lines_from(s@, k as int, s@.subrange(start as int, k as int)),
        decreases cs@.len() - k,
    {
        if cs[k] == '\n' {
            let line = string_of(&cs, start, k + 1);
            assert(s@.subrange(start as int, k + 1) =~= s@.subrange(start as int, k as int).push('\n'));
            let ghost prev = lines.deep_view();
            lines.push(line);
            assert(lines.deep_view() =~= prev + seq![s@.subrange(start as int, k as int).push('\n')]);
            assert(s@.subrange(k + 1, k + 1) =~= Seq::<char>::empty());
            assert(prev + (seq![s@.subrange(start as int, k as int).push('\n')] + lines_from(s@, k + 1, Seq::empty())) =~= lines.deep_view() + lines_from(s@, k + 1, Seq::empty()));
            start = k + 1;
        } else {
            assert(s@.subrange(start as int, k + 1) =~= s@.subrange(start as int, k as int).push(s@[k as int]));
        }
        k = k + 1;
    }
    if start < cs.len() {
        let line = string_of(&cs, start, cs.len());
        let ghost prev = lines.deep_view();
        lines.push(line);
        assert(lines.deep_view() =~= prev + seq![s@.subrange(start as int, k as int)]);
    } else {
        assert(s@.subrange(start as int, k as int) =~= Seq::<char>::empty());
        assert(lines.deep_view() + Seq::<Seq<char>>::empty() =~= lines.deep_view());
    }
    lines
}

#[derive(Clone, Copy, Debug, PartialEq, Eq, Structural)]
pub enum Tag {
    Equal,
    Replace,
    Delete,
    Insert,
}

/// One edit step: `a[i1..i2]` becomes `b[j1..j2]`.
#[derive(Clone, Copy, Debug)]
pub struct Opcode {
    pub tag: Tag,
    pub i1: usize,
    pub i2: usize,
    pub j1: usize,
    pub j2: usize,
}

/// A matching block `a[i..i + k] == b[j..j + k]`.
pub open spec fn is_match(a: Seq<Seq<char>>, b: Seq<Seq<char>>, i: int, j: int, k: int) -> bool {
    &&& 0 <= i && i + k <= a.len()
    &&& 0 <= j && j + k <= b.len()
    &&& 0 <= k
    &&& forall|p: int| i <= p < i + k ==> #[trigger] a[p] == b[p - i + j]
}

/// An opcode is well shaped, in bounds, and equal ranges hold equal lines.
pub open spec fn op_ok(a: Seq<Seq<char>>, b: Seq<Seq<char>>, op: Opcode) -> bool {
    &&& op.i1 <= op.i2 <= a.len()
    &&& op.j1 <= op.j2 <= b.len()
    &&& match op.tag {
        Tag::Equal => op.i2 - op.i1 == op.j2 - op.j1 && is_match(
            a,
            b,
            op.i1 as int,
            op.j1 as int,
            op.i2 - op.i1,
        ),
        Tag::Replace => op.i1 < op.i2 && op.j1 < op.j2,
        Tag::Delete => op.i1 < op.i2 && op.j1 == op.j2,
        Tag::Insert => op.i1 == op.i2 && op.j1 < op.j2,
    }
}

/// The opcodes walk both sequences from `(i, j)` to their ends without gaps.
pub open spec fn tiles_from(a: Seq<Seq<char>>, b: Seq<Seq<char>>, ops: Seq<Opcode>, i: int, j: int) -> bool
    decreases ops.len(),
{
    if ops.len() == 0 {
        i == a.len() && j == b.len()
    } else {
        &&& op_ok(a, b, ops[0])
        &&& ops[0].i1 == i
        &&& ops[0].j1 == j
        &&& tiles_from(a, b, ops.skip(1), ops[0].i2 as int, ops[0].j2 as int)
    }
}

pub open spec fn all_equal(ops: Seq<Opcode>) -> bool {
    forall|k: int| 0 <= k < ops.len() ==> (#[trigger] ops[k]).tag == Tag::Equal
}

/// Equal-only opcodes that tile both sequences mean the sequences are equal.
pub proof fn lemma_equal_tiling(a: Seq<Seq<char>>, b: Seq<Seq<char>>, ops: Seq<Opcode>, i: int, j: int)
    requires
        tiles_from(a, b, ops, i, j),
        all_equal(ops),
        0 <= i <= a.len(),
        0 <= j <= b.len(),
    ensures
        a.skip(i) == b.skip(j),
    decreases ops.len(),
{
    if ops.len() == 0 {
        assert(a.skip(i) =~= Seq::<Seq<char>>::empty());
        assert(b.skip(j) =~= Seq::<Seq<char>>::empty());
    } else {
        let op = ops[0];
        assert(op.tag == Tag::Equal);
        assert forall|k: int| 0 <= k < ops.skip(1).len() implies (#[trigger] ops.skip(1)[k]).tag == Tag::Equal by {
            assert(ops.skip(1)[k] == ops[k + 1]);
        }
        lemma_equal_tiling(a, b, ops.skip(1), op.i2 as int, op.j2 as int);
        let n = op.i2 - op.i1;
        assert(a.skip(i) =~= a.subrange(i, op.i2 as int) + a.skip(op.i2 as int));
        assert(b.skip(j) =~= b.subrange(j, op.j2 as int) + b.skip(op.j2 as int));
        assert(a.subrange(i, op.i2 as int) =~= b.subrange(j, op.j2 as int)) by {
            assert forall|t: int| 0 <= t < n implies a.subrange(i, op.i2 as int)[t] == b.subrange(j, op.j2 as int)[t] by {
                assert(a[i + t] == b[(i + t) - i + j]);
            }
        }
    }
}

/// The lines of `a` that an edit script keeps or removes, in order.
pub open spec fn old_side(a: Seq<Seq<char>>, ops: Seq<Opcode>) -> Seq<Seq<char>>
    decreases ops.len(),
{
    if ops.len() == 0 {
        Seq::empty()
    } else {
        let op = ops[0];
        (if op.tag == Tag::Insert {
            Seq::empty()
        } else {
            a.subrange(op.i1 as int, op.i2 as int)
        }) + old_side(a, ops.skip(1))
    }
}

/// The lines that an edit script keeps from `a` or adds from `b`, in order.
pub open spec fn new_side(a: Seq<Seq<char>>, b: Seq<Seq<char>>, ops: Seq<Opcode>) -> Seq<Seq<char>>
    decreases ops.len(),
{
    if ops.len() == 0 {
        Seq::empty()
    } else {
        let op = ops[0];
        (if op.tag == Tag::Equal {
            a.subrange(op.i1 as int, op.i2 as int)
        } else if op.tag == Tag::Delete {
            Seq::empty()
        } else {
            b.subrange(op.j1 as int, op.j2 as int)
        }) + new_side(a, b, ops.skip(1))
    }
}

/// Law: an edit script that tiles `a` and `b` turns one into the other: its
/// kept and removed lines are the lines of `a`, its kept and added lines
/// those of `b`.
pub proof fn law_edit_script_rebuilds(a: Seq<Seq<char>>, b: Seq<Seq<char>>, ops: Seq<Opcode>, i: int, j: int)
    requires
        tiles_from(a, b, ops, i, j),
        0 <= i <= a.len(),
        0 <= j <= b.len(),
    ensures
        old_side(a, ops) == a.skip(i),
        new_side(a, b, ops) == b.skip(j),
    decreases ops.len(),
{
    if ops.len() == 0 {
        assert(a.skip(i) =~= Seq::<Seq<char>>::empty());
        assert(b.skip(j) =~= Seq::<Seq<char>>::empty());
    } else {
        let op = ops[0];
        law_edit_script_rebuilds(a, b, ops.skip(1), op.i2 as int, op.j2 as int);
        assert(a.skip(i) =~= a.subrange(i, op.i2 as int) + a.skip(op.i2 as int));
        assert(b.skip(j) =~= b.subrange(j, op.j2 as int) + b.skip(op.j2 as int));
        if op.tag == Tag::Insert {
            assert(a.subrange(i, op.i2 as int) =~= Seq::<Seq<char>>::empty());
        }
        if op.tag == Tag::Delete {
            assert(b.subrange(j, op.j2 as int) =~= Seq::<Seq<char>>::empty());
        }
        if op.tag == Tag::Equal {
            assert(a.subrange(i, op.i2 as int) =~= b.subrange(j, op.j2 as int)) by {
                assert forall|t: int| 0 <= t < op.i2 - i implies a.subrange(i, op.i2 as int)[t] == b.subrange(j, op.j2 as int)[t] by {
                    assert(a[i + t] == b[(i + t) - i + j]);
                }
            }
        }
    }
}

fn lines_equal(x: &String, y: &String) -> (r: bool)
    ensures
        r == (x@ == y@),
{
    str_eq(x.as_str(), y.as_str())
}

/// Whether line `b[j]` is popular: with 200 or more lines, one that occurs
/// more than `len / 100 + 1` times (difflib's autojunk).
pub open spec fn count_line(b: Seq<Seq<char>>, x: Seq<char>, n: int) -> nat
    decreases n,
{
    if n <= 0 || n > b.len() {
        0
    } else {
        count_line(b, x, n - 1) + if b[n - 1] == x {
            1nat
        } else {
            0nat
        }
    }
}

pub open spec fn popular(b: Seq<Seq<char>>, j: int) -> bool {
    b.len() >= 200 && count_line(b, b[j], b.len() as int) > b.len() / 100 + 1
}

fn popular_lines(b: &Vec<String>) -> (pop: Vec<bool>)
    ensures
        pop@.len() == b@.len(),
        forall|j: int| 0 <= j < b@.len() ==> pop@[j] == popular(b.deep_view(), j),
{
    let ghost bv = b.deep_view();
    let n = b.len();
    let mut pop: Vec<bool> = Vec::new();
    let mut j: usize = 0;
    while j < n
        invariant
            n == b@.len(),
            bv == b.deep_view(),
            j <= n,
            pop@.len() == j,
            forall|q: int| 0 <= q < j ==> pop@[q] == popular(bv, q),
        decreases n - j,
    {
        if n < 200 {
            pop.push(false);
        } else {
            let mut count: usize = 0;
            let mut m: usize = 0;
            while m < n
                invariant
                    n == b@.len(),
                    bv == b.deep_view(),
                    j < n,
                    m <= n,
                    count == count_line(bv, bv[j as int], m as int),
                    count <= m,
                decreases n - m,
            {
                if lines_equal(&b[m], &b[j]) {
                    count = count + 1;
                }
                m = m + 1;
            }
            pop.push(count > n / 100 + 1);
        }
        j = j + 1;
    }
    pop
}

/// Lines `a[p]` and `b[q]` are equal and `b[q]` is not popular.
pub open spec fn pair_matches(a: Seq<Seq<char>>, b: Seq<Seq<char>>, pop: Seq<bool>, p: int, q: int) -> bool {
    a[p] == b[q] && !pop[q]
}

/// No line of `a[i0..i1]` equals a line of `b[j0..j1]` that is not popular.
pub open spec fn no_match_in(a: Seq<Seq<char>>, b: Seq<Seq<char>>, pop: Seq<bool>, i0: int, i1: int, j0: int, j1: int) -> bool {
    forall|p: int, q: int| i0 <= p < i1 && j0 <= q < j1 ==> !#[trigger] pair_matches(a, b, pop, p, q)
}

/// A diagonal run of `n` matching pairs (see [`pair_matches`]) that ends at
/// `(p, q)` and starts at or after `(alo, blo)`.
pub open spec fn ends_run(a: Seq<Seq<char>>, b: Seq<Seq<char>>, pop: Seq<bool>, p: int, q: int, n: int, alo: int, blo: int) -> bool {
    &&& 0 <= n
    &&& p - n + 1 >= alo
    &&& q - n + 1 >= blo
    &&& forall|x: int, y: int| x - y == p - q && p - n < x <= p ==> #[trigger] pair_matches(a, b, pop, x, y)
}

/// No run of matching pairs within `a[alo..ahi]` and `b[blo..bhi]` is
/// longer than `k`.
pub open spec fn runs_at_most(a: Seq<Seq<char>>, b: Seq<Seq<char>>, pop: Seq<bool>, alo: int, ahi: int, blo: int, bhi: int, k: int) -> bool {
    forall|p: int, q: int, n: int| p < ahi && q < bhi && #[trigger] ends_run(a, b, pop, p, q, n, alo, blo) ==> n <= k
}

/// Row `r - 1` of the run table: `arr[q + 1]` is at least the length of any
/// run ending at `(r - 1, q)`, for `blo <= q < jmax`.
pub open spec fn row_runs(a: Seq<Seq<char>>, b: Seq<Seq<char>>, pop: Seq<bool>, arr: Seq<usize>, r: int, alo: int, blo: int, jmax: int) -> bool {
    forall|p: int, q: int, n: int| p + 1 == r && blo <= q < jmax && #[trigger] ends_run(a, b, pop, p, q, n, alo, blo) ==> arr[q + 1] >= n
}

/// Runs ending in rows `[alo, pend)`, and in row `pend` before column `jmax`,
/// are no longer than `best`.
pub open spec fn best_covers(a: Seq<Seq<char>>, b: Seq<Seq<char>>, pop: Seq<bool>, alo: int, pend: int, blo: int, bhi: int, jmax: int, best: int) -> bool {
    forall|p: int, q: int, n: int|
        #[trigger] ends_run(a, b, pop, p, q, n, alo, blo) && q < bhi && (p < pend || (p == pend && q < jmax)) ==> n <= best
}

/// The gaps that the blocks `bl` leave, from `(i, j)` up to `(ahi, bhi)`,
/// hold no equal pair of lines whose `b` line is not popular.
pub open spec fn gaps_free(
    a: Seq<Seq<char>>,
    b: Seq<Seq<char>>,
    pop: Seq<bool>,
    bl: Seq<(usize, usize, usize)>,
    i: int,
    j: int,
    ahi: int,
    bhi: int,
) -> bool
    decreases bl.len(),
{
    if bl.len() == 0 {
        no_match_in(a, b, pop, i, ahi, j, bhi)
    } else {
        &&& no_match_in(a, b, pop, i, bl[0].0 as int, j, bl[0].1 as int)
        &&& gaps_free(a, b, pop, bl.skip(1), bl[0].0 + bl[0].2, bl[0].1 + bl[0].2, ahi, bhi)
    }
}

proof fn lemma_gaps_concat(
    a: Seq<Seq<char>>,
    b: Seq<Seq<char>>,
    pop: Seq<bool>,
    x: Seq<(usize, usize, usize)>,
    y: Seq<(usize, usize, usize)>,
    i: int,
    j: int,
    mi: int,
    mj: int,
    ahi: int,
    bhi: int,
)
    requires
        gaps_free(a, b, pop, x, i, j, mi, mj),
        gaps_free(a, b, pop, y, mi, mj, ahi, bhi),
        y.len() > 0,
        y[0].0 == mi,
        y[0].1 == mj,
    ensures
        gaps_free(a, b, pop, x + y, i, j, ahi, bhi),
    decreases x.len(),
{
    if x.len() == 0 {
        assert(x + y =~= y);
    } else {
        assert((x + y).skip(1) =~= x.skip(1) + y);
        assert((x + y)[0] == x[0]);
        lemma_gaps_concat(a, b, pop, x.skip(1), y, x[0].0 + x[0].2, x[0].1 + x[0].2, mi, mj, ahi, bhi);
    }
}

/// Run lengths of one row: `arr[q] = L > 0` records a run of `L` equal
/// lines ending just before row `r` and at column `q - 1`.
pub open spec fn row_ok(a: Seq<Seq<char>>, b: Seq<Seq<char>>, arr: Seq<usize>, r: int, alo: int, blo: int, bhi: int) -> bool {
    forall|q: int|
        1 <= q < arr.len() ==> #[trigger] arr[q] <= r - alo && (arr[q] > 0 ==> (blo <= q - 1 < bhi && q
            - arr[q] >= blo && is_match(a, b, r - arr[q], q - arr[q], arr[q] as int)))
}

/// Each positive entry `arr[q]` of row `r - 1` is the length of a run that
/// ends at `(r - 1, q - 1)`.
pub open spec fn row_real(a: Seq<Seq<char>>, b: Seq<Seq<char>>, pop: Seq<bool>, arr: Seq<usize>, r: int, alo: int, blo: int) -> bool {
    forall|q: int| 1 <= q < arr.len() && #[trigger] arr[q] > 0 ==> ends_run(a, b, pop, r - 1, q - 1, arr[q] as int, alo, blo)
}

/// `(i1, j1)` comes no later than `(i2, j2)`: first by `i`, then by `j`.
pub open spec fn lex_le(i1: int, j1: int, i2: int, j2: int) -> bool {
    i1 < i2 || (i1 == i2 && j1 <= j2)
}

/// Runs of length `k` that end in rows before `pend`, or in row `pend`
/// before column `jmax`, start no earlier than `(i, j)`.
pub open spec fn first_among(
    a: Seq<Seq<char>>,
    b: Seq<Seq<char>>,
    pop: Seq<bool>,
    alo: int,
    blo: int,
    bhi: int,
    pend: int,
    jmax: int,
    i: int,
    j: int,
    k: int,
) -> bool {
    forall|p: int, q: int|
        #[trigger] ends_run(a, b, pop, p, q, k, alo, blo) && k > 0 && q < bhi && (p < pend || (p == pend && q < jmax))
            ==> lex_le(i, j, p - k + 1, q - k + 1)
}

/// `(i, j, k)` is the block that difflib's search settles on before
/// widening: `k` is the length of the longest run of matching pairs (see
/// [`pair_matches`]) in `a[alo..ahi]` and `b[blo..bhi]`, and `(i, j)` the
/// start of the first such run, by `i` and then by `j`; `(alo, blo)` when
/// there is none.
pub open spec fn first_longest(
    a: Seq<Seq<char>>,
    b: Seq<Seq<char>>,
    pop: Seq<bool>,
    alo: int,
    ahi: int,
    blo: int,
    bhi: int,
    i: int,
    j: int,
    k: int,
) -> bool {
    &&& runs_at_most(a, b, pop, alo, ahi, blo, bhi, k)
    &&& k >= 0
    &&& (k == 0 ==> i == alo && j == blo)
    &&& (k > 0 ==> {
        &&& ends_run(a, b, pop, i + k - 1, j + k - 1, k, alo, blo)
        &&& i + k <= ahi
        &&& j + k <= bhi
        &&& first_among(a, b, pop, alo, blo, bhi, ahi, blo, i, j, k)
    })
}

/// Only one block is the first longest one.
pub proof fn lemma_first_longest_unique(
    a: Seq<Seq<char>>,
    b: Seq<Seq<char>>,
    pop: Seq<bool>,
    alo: int,
    ahi: int,
    blo: int,
    bhi: int,
    i: int,
    j: int,
    k: int,
    i2: int,
    j2: int,
    k2: int,
)
    requires
        first_longest(a, b, pop, alo, ahi, blo, bhi, i, j, k),
        first_longest(a, b, pop, alo, ahi, blo, bhi, i2, j2, k2),
    ensures
        i == i2 && j == j2 && k == k2,
{
    if k > 0 {
        assert(ends_run(a, b, pop, i + k - 1, j + k - 1, k, alo, blo));
    }
    if k2 > 0 {
        assert(ends_run(a, b, pop, i2 + k2 - 1, j2 + k2 - 1, k2, alo, blo));
    }
    assert(k == k2);
    if k > 0 {
        assert(lex_le(i, j, i2, j2));
        assert(lex_le(i2, j2, i, j));
    }
}

/// Widening to the left over equal lines.
pub open spec fn widen_back(a: Seq<Seq<char>>, b: Seq<Seq<char>>, alo: int, blo: int, i: int, j: int, k: int) -> (int, int, int)
    decreases i - alo,
{
    if i > alo && j > blo && a[i - 1] == b[j - 1] {
        widen_back(a, b, alo, blo, i - 1, j - 1, k + 1)
    } else {
        (i, j, k)
    }
}

/// Widening to the right over equal lines.
pub open spec fn widen_fwd(a: Seq<Seq<char>>, b: Seq<Seq<char>>, ahi: int, bhi: int, i: int, j: int, k: int) -> (int, int, int)
    decreases ahi - i - k,
{
    if i + k < ahi && j + k < bhi && a[i + k] == b[j + k] {
        widen_fwd(a, b, ahi, bhi, i, j, k + 1)
    } else {
        (i, j, k)
    }
}

/// difflib's `find_longest_match` with the popular lines of `b` as junk:
/// the first longest run of matching pairs, widened on both sides over
/// equal lines, popular or not.
pub open spec fn longest_match_spec(
    a: Seq<Seq<char>>,
    b: Seq<Seq<char>>,
    pop: Seq<bool>,
    alo: int,
    ahi: int,
    blo: int,
    bhi: int,
) -> (int, int, int) {
    let f = choose|f: (int, int, int)| first_longest(a, b, pop, alo, ahi, blo, bhi, f.0, f.1, f.2);
    let w = widen_back(a, b, alo, blo, f.0, f.1, f.2);
    widen_fwd(a, b, ahi, bhi, w.0, w.1, w.2)
}

/// A matching pair after a run of `prev` extends it by one.
proof fn lemma_run_extend(a: Seq<Seq<char>>, b: Seq<Seq<char>>, pop: Seq<bool>, i: int, j: int, prev: int, alo: int, blo: int)
    requires
        pair_matches(a, b, pop, i, j),
        alo <= i,
        blo <= j,
        0 <= prev <= i - alo,
        prev <= j - blo,
        prev > 0 ==> ends_run(a, b, pop, i - 1, j - 1, prev, alo, blo),
    ensures
        ends_run(a, b, pop, i, j, prev + 1, alo, blo),
{
    assert forall|x: int, y: int| x - y == i - j && i - (prev + 1) < x <= i implies #[trigger] pair_matches(a, b, pop, x, y) by {
        if x < i {
            assert(x - y == (i - 1) - (j - 1) && (i - 1) - prev < x <= i - 1);
        }
    }
}

/// A run through a matching pair `(i, j)` extends the run recorded for
/// `(i - 1, j - 1)` by one.
proof fn lemma_run_step(
    a: Seq<Seq<char>>,
    b: Seq<Seq<char>>,
    pop: Seq<bool>,
    arr: Seq<usize>,
    i: int,
    j: int,
    alo: int,
    blo: int,
    bhi: int,
    k: int,
)
    requires
        row_runs(a, b, pop, arr, i, alo, blo, bhi),
        blo <= j < bhi,
        arr.len() > j,
        k == arr[j] + 1,
    ensures
        forall|n: int| #[trigger] ends_run(a, b, pop, i, j, n, alo, blo) ==> n <= k,
{
    assert forall|n: int| #[trigger] ends_run(a, b, pop, i, j, n, alo, blo) implies n <= k by {
        if n >= 2 {
            assert(ends_run(a, b, pop, i - 1, j - 1, n - 1, alo, blo)) by {
                assert forall|x: int, y: int| x - y == (i - 1) - (j - 1) && (i - 1) - (n - 1) < x <= i - 1
                    implies #[trigger] pair_matches(a, b, pop, x, y) by {
                    assert(x - y == i - j && i - n < x <= i);
                }
            }
        }
    }
}

/// No run of positive length ends at a pair that does not match.
proof fn lemma_run_breaks(a: Seq<Seq<char>>, b: Seq<Seq<char>>, pop: Seq<bool>, i: int, j: int, alo: int, blo: int)
    requires
        !pair_matches(a, b, pop, i, j),
    ensures
        forall|n: int| #[trigger] ends_run(a, b, pop, i, j, n, alo, blo) ==> n == 0,
{
    assert forall|n: int| #[trigger] ends_run(a, b, pop, i, j, n, alo, blo) implies n == 0 by {
        if n > 0 {
            assert(i - j == i - j && i - n < i <= i);
            assert(pair_matches(a, b, pop, i, j));
        }
    }
}

/// difflib's `find_longest_match`: the longest run of equal lines in
/// `a[alo..ahi]` and `b[blo..bhi]` whose `b` lines are not popular, the one
/// that starts first (by `a`, then by `b`) among equals, `(alo, blo, 0)`
/// when there is none, then widened over equal neighbours.
#[verifier::rlimit(80)]
fn find_longest_match(
    a: &Vec<String>,
    b: &Vec<String>,
    pop: &Vec<bool>,
    alo: usize,
    ahi: usize,
    blo: usize,
    bhi: usize,
) -> (r: (usize, usize, usize))
    requires
        alo <= ahi <= a@.len(),
        blo <= bhi <= b@.len(),
        pop@.len() == b@.len(),
    ensures
        alo <= r.0,
        r.0 + r.2 <= ahi,
        blo <= r.1,
        r.1 + r.2 <= bhi,
        is_match(a.deep_view(), b.deep_view(), r.0 as int, r.1 as int, r.2 as int),
        r.2 == 0 ==> no_match_in(a.deep_view(), b.deep_view(), pop@, alo as int, ahi as int, blo as int, bhi as int),
        runs_at_most(a.deep_view(), b.deep_view(), pop@, alo as int, ahi as int, blo as int, bhi as int, r.2 as int),
        (r.0 as int, r.1 as int, r.2 as int) == longest_match_spec(
            a.deep_view(),
            b.deep_view(),
            pop@,
            alo as int,
            ahi as int,
            blo as int,
            bhi as int,
        ),
{
    let ghost av = a.deep_view();
    let ghost bv = b.deep_view();
    let ghost pv = pop@;
    let mut besti = alo;
    let mut bestj = blo;
    let mut bestsize: usize = 0;
    let lb = b.len();
    let mut j2len: Vec<usize> = Vec::new();
    j2len.push(0);
    let mut z: usize = 0;
    while z < lb
        invariant
            z <= lb,
            lb == b@.len(),
            j2len@.len() == z + 1,
            forall|q: int| 0 <= q <= z ==> j2len@[q] == 0,
        decreases lb - z,
    {
        j2len.push(0);
        z = z + 1;
    }
    let mut i = alo;
    while i < ahi
        invariant
            alo <= i <= ahi <= a@.len(),
            blo <= bhi <= b@.len(),
            lb == b@.len(),
            pop@.len() == b@.len(),
            av == a.deep_view(),
            bv == b.deep_view(),
            j2len@.len() == lb + 1,
            row_ok(av, bv, j2len@, i as int, alo as int, blo as int, bhi as int),
            j2len@[0] == 0,
            alo <= besti,
            besti + bestsize <= i,
            blo <= bestj,
            bestj + bestsize <= bhi,
            is_match(av, bv, besti as int, bestj as int, bestsize as int),
            pv == pop@,
            bestsize == 0 ==> no_match_in(av, bv, pv, alo as int, i as int, blo as int, bhi as int),
            row_runs(av, bv, pv, j2len@, i as int, alo as int, blo as int, bhi as int),
            best_covers(av, bv, pv, alo as int, i as int, blo as int, bhi as int, blo as int, bestsize as int),
            row_real(av, bv, pv, j2len@, i as int, alo as int, blo as int),
            bestsize > 0 ==> ends_run(av, bv, pv, besti + bestsize - 1, bestj + bestsize - 1, bestsize as int, alo as int, blo as int)
                && besti + bestsize - 1 < i,
            bestsize == 0 ==> besti == alo && bestj == blo,
            first_among(av, bv, pv, alo as int, blo as int, bhi as int, i as int, blo as int, besti as int, bestj as int, bestsize as int),
        decreases ahi - i,
    {
        let mut next: Vec<usize> = Vec::new();
        next.push(0);
        let mut z: usize = 0;
        while z < lb
            invariant
                z <= lb,
                lb == b@.len(),
                next@.len() == z + 1,
                forall|q: int| 0 <= q <= z ==> next@[q] == 0,
            decreases lb - z,
        {
            next.push(0);
            z = z + 1;
        }
        let mut j = blo;
        while j < bhi
            invariant
                alo <= i < ahi <= a@.len(),
                blo <= j <= bhi <= b@.len(),
                lb == b@.len(),
                pop@.len() == b@.len(),
                av == a.deep_view(),
                bv == b.deep_view(),
                j2len@.len() == lb + 1,
                next@.len() == lb + 1,
                row_ok(av, bv, j2len@, i as int, alo as int, blo as int, bhi as int),
                row_ok(av, bv, next@, i + 1, alo as int, blo as int, bhi as int),
                forall|q: int| j + 1 <= q <= lb ==> next@[q] == 0,
                j2len@[0] == 0,
                next@[0] == 0,
                alo <= besti,
                besti + bestsize <= i + 1,
                blo <= bestj,
                bestj + bestsize <= bhi,
                is_match(av, bv, besti as int, bestj as int, bestsize as int),
                pv == pop@,
                bestsize == 0 ==> no_match_in(av, bv, pv, alo as int, i as int, blo as int, bhi as int),
                bestsize == 0 ==> forall|q: int| blo <= q < j ==> !#[trigger] pair_matches(av, bv, pv, i as int, q),
                row_runs(av, bv, pv, j2len@, i as int, alo as int, blo as int, bhi as int),
                row_runs(av, bv, pv, next@, i + 1, alo as int, blo as int, j as int),
                best_covers(av, bv, pv, alo as int, i as int, blo as int, bhi as int, j as int, bestsize as int),
                row_real(av, bv, pv, j2len@, i as int, alo as int, blo as int),
                row_real(av, bv, pv, next@, i + 1, alo as int, blo as int),
                bestsize > 0 ==> ends_run(av, bv, pv, besti + bestsize - 1, bestj + bestsize - 1, bestsize as int, alo as int, blo as int)
                    && (besti + bestsize - 1 < i || (besti + bestsize - 1 == i && bestj + bestsize - 1 < j)),
                bestsize == 0 ==> besti == alo && bestj == blo,
                first_among(av, bv, pv, alo as int, blo as int, bhi as int, i as int, j as int, besti as int, bestj as int, bestsize as int),
            decreases bhi - j,
        {
            proof {
                assert(av[i as int] == a@[i as int]@);
                assert(bv[j as int] == b@[j as int]@);
            }
            if !pop[j] && lines_equal(&a[i], &b[j]) {
                let prev = j2len[j];
                proof {
                    let q = j as int;
                    if q >= 1 {
                        assert(j2len@[q] <= i - alo);
                    }
                }
                let k = prev + 1;
                proof {
                    assert(av[i as int] == a@[i as int]@);
                    assert(bv[j as int] == b@[j as int]@);
                    assert(is_match(av, bv, i + 1 - k, j + 1 - k, k as int)) by {
                        assert forall|p: int| i + 1 - k <= p < i + 1 implies #[trigger] av[p] == bv[p - (i + 1 - k) + (j + 1 - k)] by {
                            if p < i {
                                if prev > 0 {
                                    assert(is_match(av, bv, i - prev, j - prev, prev as int));
                                    assert(av[p] == bv[p - (i - prev) + (j - prev)]);
                                }
                            }
                        }
                    }
                }
                proof {
                    assert(pair_matches(av, bv, pv, i as int, j as int));
                    if prev > 0 {
                        assert(j2len@[j as int] > 0);
                    }
                    lemma_run_extend(av, bv, pv, i as int, j as int, prev as int, alo as int, blo as int);
                    lemma_run_step(av, bv, pv, j2len@, i as int, j as int, alo as int, blo as int, bhi as int, k as int);
                }
                let ghost before = next@;
                let ghost old_best = bestsize as int;
                next.set(j + 1, k);
                if k > bestsize {
                    besti = i + 1 - k;
                    bestj = j + 1 - k;
                    bestsize = k;
                    proof {
                        assert forall|p: int, q: int|
                            #[trigger] ends_run(av, bv, pv, p, q, bestsize as int, alo as int, blo as int) && bestsize > 0 && q < bhi
                                && (p < i || (p == i && q < j + 1)) implies lex_le(besti as int, bestj as int, p - bestsize + 1, q - bestsize + 1) by {
                            if p < i || (p == i && q < j) {
                                assert(bestsize <= old_best);
                            }
                        }
                    }
                } else {
                    proof {
                        assert forall|p: int, q: int|
                            #[trigger] ends_run(av, bv, pv, p, q, bestsize as int, alo as int, blo as int) && bestsize > 0 && q < bhi
                                && (p < i || (p == i && q < j + 1)) implies lex_le(besti as int, bestj as int, p - bestsize + 1, q - bestsize + 1) by {
                            if p == i && q == j {
                                assert(bestsize <= k);
                            }
                        }
                    }
                }
                proof {
                    assert forall|q: int| 1 <= q < next@.len() && #[trigger] next@[q] > 0 implies ends_run(av, bv, pv, i as int, q - 1, next@[q] as int, alo as int, blo as int) by {
                        if q != j + 1 {
                            assert(next@[q] == before[q]);
                        }
                    }
                    assert forall|p: int, q: int, n: int| p + 1 == i + 1 && blo <= q < j + 1 && #[trigger] ends_run(av, bv, pv, p, q, n, alo as int, blo as int)
                        implies next@[q + 1] >= n by {
                        if q < j {
                            assert(next@[q + 1] == before[q + 1]);
                        }
                    }
                }
            } else {
                proof {
                    assert(!pair_matches(av, bv, pv, i as int, j as int));
                    lemma_run_breaks(av, bv, pv, i as int, j as int, alo as int, blo as int);
                }
            }
            j = j + 1;
        }
        proof {
            if bestsize == 0 {
                assert forall|p: int, q: int| alo <= p < i + 1 && blo <= q < bhi implies !#[trigger] pair_matches(av, bv, pv, p, q) by {
                    if p < i {
                        assert(no_match_in(av, bv, pv, alo as int, i as int, blo as int, bhi as int));
                    }
                }
            }
        }
        j2len = next;
        i = i + 1;
    }
    proof {
        assert forall|p: int, q: int, n: int| p < ahi && q < bhi && #[trigger] ends_run(av, bv, pv, p, q, n, alo as int, blo as int)
            implies n <= bestsize by {
            if n > 0 && p < alo {
                assert(false);
            }
        }
    }
    let ghost pi = besti as int;
    let ghost pj = bestj as int;
    let ghost pk = bestsize as int;
    proof {
        assert forall|p: int, q: int|
            #[trigger] ends_run(av, bv, pv, p, q, pk, alo as int, blo as int) && pk > 0 && q < bhi && (p < ahi || (p == ahi && q < blo))
                implies lex_le(pi, pj, p - pk + 1, q - pk + 1) by {
            if p == ahi {
                assert(q - pk + 1 >= blo);
            }
        }
        assert(first_longest(av, bv, pv, alo as int, ahi as int, blo as int, bhi as int, pi, pj, pk));
    }
    while besti > alo && bestj > blo && lines_equal(&a[besti - 1], &b[bestj - 1])
        invariant
            alo <= besti,
            besti + bestsize <= ahi <= a@.len(),
            blo <= bestj,
            bestj + bestsize <= bhi <= b@.len(),
            av == a.deep_view(),
            bv == b.deep_view(),
            is_match(av, bv, besti as int, bestj as int, bestsize as int),
            bestsize == 0 ==> no_match_in(av, bv, pop@, alo as int, ahi as int, blo as int, bhi as int),
            runs_at_most(av, bv, pop@, alo as int, ahi as int, blo as int, bhi as int, bestsize as int),
            widen_back(av, bv, alo as int, blo as int, pi, pj, pk) == widen_back(av, bv, alo as int, blo as int, besti as int, bestj as int, bestsize as int),
        decreases besti,
    {
        proof {
            assert(av[besti - 1] == a@[besti - 1]@);
            assert(bv[bestj - 1] == b@[bestj - 1]@);
            assert forall|p: int| besti - 1 <= p < besti + bestsize implies #[trigger] av[p] == bv[p - (besti - 1) + (bestj - 1)] by {
                if p >= besti {
                    assert(av[p] == bv[p - besti + bestj]);
                }
            }
        }
        besti = besti - 1;
        bestj = bestj - 1;
        bestsize = bestsize + 1;
    }
    let ghost w = widen_back(av, bv, alo as int, blo as int, pi, pj, pk);
    proof {
        if besti > alo && bestj > blo {
            assert(av[besti - 1] == a@[besti - 1]@);
            assert(bv[bestj - 1] == b@[bestj - 1]@);
        }
        assert(w == (besti as int, bestj as int, bestsize as int));
    }
    while besti + bestsize < ahi && bestj + bestsize < bhi && lines_equal(&a[besti + bestsize], &b[bestj + bestsize])
        invariant
            alo <= besti,
            besti + bestsize <= ahi <= a@.len(),
            blo <= bestj,
            bestj + bestsize <= bhi <= b@.len(),
            av == a.deep_view(),
            bv == b.deep_view(),
            is_match(av, bv, besti as int, bestj as int, bestsize as int),
            bestsize == 0 ==> no_match_in(av, bv, pop@, alo as int, ahi as int, blo as int, bhi as int),
            runs_at_most(av, bv, pop@, alo as int, ahi as int, blo as int, bhi as int, bestsize as int),
            widen_fwd(av, bv, ahi as int, bhi as int, w.0, w.1, w.2) == widen_fwd(av, bv, ahi as int, bhi as int, besti as int, bestj as int, bestsize as int),
        decreases ahi - besti - bestsize,
    {
        proof {
            assert(av[besti + bestsize] == a@[besti + bestsize]@);
            assert(bv[bestj + bestsize] == b@[bestj + bestsize]@);
        }
        bestsize = bestsize + 1;
    }
    proof {
        if besti + bestsize < ahi && bestj + bestsize < bhi {
            assert(av[besti + bestsize] == a@[besti + bestsize]@);
            assert(bv[bestj + bestsize] == b@[bestj + bestsize]@);
        }
        let f = choose|f: (int, int, int)| first_longest(av, bv, pv, alo as int, ahi as int, blo as int, bhi as int, f.0, f.1, f.2);
        assert(first_longest(av, bv, pv, alo as int, ahi as int, blo as int, bhi as int, (pi, pj, pk).0, (pi, pj, pk).1, (pi, pj, pk).2));
        lemma_first_longest_unique(av, bv, pv, alo as int, ahi as int, blo as int, bhi as int, pi, pj, pk, f.0, f.1, f.2);
    }
    (besti, bestj, bestsize)
}

/// Blocks are in bounds, true matches, increasing and non-overlapping from
/// `(i, j)` on, ending within `(ahi, bhi)`.
pub open spec fn blocks_ok(a: Seq<Seq<char>>, b: Seq<Seq<char>>, bl: Seq<(usize, usize, usize)>, i: int, j: int, ahi: int, bhi: int) -> bool
    decreases bl.len(),
{
    if bl.len() == 0 {
        i <= ahi && j <= bhi
    } else {
        &&& i <= bl[0].0
        &&& j <= bl[0].1
        &&& is_match(a, b, bl[0].0 as int, bl[0].1 as int, bl[0].2 as int)
        &&& bl[0].2 > 0
        &&& blocks_ok(a, b, bl.skip(1), bl[0].0 + bl[0].2, bl[0].1 + bl[0].2, ahi, bhi)
    }
}

proof fn lemma_blocks_concat(
    a: Seq<Seq<char>>,
    b: Seq<Seq<char>>,
    x: Seq<(usize, usize, usize)>,
    y: Seq<(usize, usize, usize)>,
    i: int,
    j: int,
    mi: int,
    mj: int,
    ahi: int,
    bhi: int,
)
    requires
        blocks_ok(a, b, x, i, j, mi, mj),
        blocks_ok(a, b, y, mi, mj, ahi, bhi),
    ensures
        blocks_ok(a, b, x + y, i, j, ahi, bhi),
    decreases x.len(),
{
    if x.len() == 0 {
        assert(x + y =~= y);
        lemma_blocks_weaken(a, b, y, mi, mj, i, j, ahi, bhi);
    } else {
        assert((x + y).skip(1) =~= x.skip(1) + y);
        lemma_blocks_concat(a, b, x.skip(1), y, x[0].0 + x[0].2, x[0].1 + x[0].2, mi, mj, ahi, bhi);
    }
}

proof fn lemma_blocks_weaken(
    a: Seq<Seq<char>>,
    b: Seq<Seq<char>>,
    y: Seq<(usize, usize, usize)>,
    mi: int,
    mj: int,
    i: int,
    j: int,
    ahi: int,
    bhi: int,
)
    requires
        blocks_ok(a, b, y, mi, mj, ahi, bhi),
        i <= mi,
        j <= mj,
    ensures
        blocks_ok(a, b, y, i, j, ahi, bhi),
{
}

pub open spec fn blocks_view(bl: Seq<(usize, usize, usize)>) -> Seq<(int, int, int)> {
    bl.map_values(|x: (usize, usize, usize)| (x.0 as int, x.1 as int, x.2 as int))
}

/// difflib's matching blocks of `a[alo..ahi]` and `b[blo..bhi]` before
/// adjacent ones are merged, in order: the blocks before the longest match
/// (see [`longest_match_spec`]), that match, and the blocks after it;
/// none when the longest match is empty.
pub open spec fn matching_spec(
    a: Seq<Seq<char>>,
    b: Seq<Seq<char>>,
    pop: Seq<bool>,
    alo: int,
    ahi: int,
    blo: int,
    bhi: int,
) -> Seq<(int, int, int)>
    decreases (ahi - alo) + (bhi - blo),
{
    let m = longest_match_spec(a, b, pop, alo, ahi, blo, bhi);
    if m.2 > 0 && alo <= m.0 && m.0 + m.2 <= ahi && blo <= m.1 && m.1 + m.2 <= bhi {
        let left = if alo < m.0 && blo < m.1 {
            matching_spec(a, b, pop, alo, m.0, blo, m.1)
        } else {
            Seq::empty()
        };
        let right = if m.0 + m.2 < ahi && m.1 + m.2 < bhi {
            matching_spec(a, b, pop, m.0 + m.2, ahi, m.1 + m.2, bhi)
        } else {
            Seq::empty()
        };
        left + seq![m] + right
    } else {
        Seq::empty()
    }
}

/// Matching blocks of `a[alo..ahi]` and `b[blo..bhi]`, in order, as
/// difflib's `get_matching_blocks` finds them before it merges adjacent
/// blocks and adds the closing one (see [`matching_spec`]).
fn blocks_in(
    a: &Vec<String>,
    b: &Vec<String>,
    pop: &Vec<bool>,
    alo: usize,
    ahi: usize,
    blo: usize,
    bhi: usize,
) -> (bl: Vec<(usize, usize, usize)>)
    requires
        alo <= ahi <= a@.len(),
        blo <= bhi <= b@.len(),
        pop@.len() == b@.len(),
    ensures
        blocks_ok(a.deep_view(), b.deep_view(), bl@, alo as int, blo as int, ahi as int, bhi as int),
        gaps_free(a.deep_view(), b.deep_view(), pop@, bl@, alo as int, blo as int, ahi as int, bhi as int),
        bl@.len() > 0 ==> exists|m: int|
            0 <= m < bl@.len() && runs_at_most(
                a.deep_view(),
                b.deep_view(),
                pop@,
                alo as int,
                ahi as int,
                blo as int,
                bhi as int,
                (#[trigger] bl@[m]).2 as int,
            ),
        blocks_view(bl@) == matching_spec(a.deep_view(), b.deep_view(), pop@, alo as int, ahi as int, blo as int, bhi as int),
    decreases ahi - alo + bhi - blo,
{
    let (i, j, k) = find_longest_match(a, b, pop, alo, ahi, blo, bhi);
    let mut out: Vec<(usize, usize, usize)> = Vec::new();
    if k == 0 {
        assert(blocks_view(out@) =~= Seq::<(int, int, int)>::empty());
        return out;
    }
    if alo < i && blo < j {
        out = blocks_in(a, b, pop, alo, i, blo, j);
    } else {
        assert(gaps_free(a.deep_view(), b.deep_view(), pop@, out@, alo as int, blo as int, i as int, j as int));
    }
    let ghost left = out@;
    out.push((i, j, k));
    let right = if i + k < ahi && j + k < bhi {
        blocks_in(a, b, pop, i + k, ahi, j + k, bhi)
    } else {
        Vec::new()
    };
    proof {
        let av = a.deep_view();
        let bv = b.deep_view();
        let mid = seq![(i, j, k)];
        assert(blocks_ok(av, bv, right@, i + k, j + k, ahi as int, bhi as int));
        assert(mid.skip(1) =~= Seq::<(usize, usize, usize)>::empty());
        assert(blocks_ok(av, bv, mid + right@, i as int, j as int, ahi as int, bhi as int)) by {
            assert((mid + right@)[0] == (i, j, k));
            assert((mid + right@).skip(1) =~= right@);
        }
        lemma_blocks_concat(av, bv, left, mid + right@, alo as int, blo as int, i as int, j as int, ahi as int, bhi as int);
        let pv = pop@;
        if !(i + k < ahi && j + k < bhi) {
            assert(gaps_free(av, bv, pv, right@, i + k, j + k, ahi as int, bhi as int));
        }
        assert(gaps_free(av, bv, pv, mid + right@, i as int, j as int, ahi as int, bhi as int)) by {
            assert((mid + right@)[0] == (i, j, k));
            assert((mid + right@).skip(1) =~= right@);
        }
        lemma_gaps_concat(av, bv, pv, left, mid + right@, alo as int, blo as int, i as int, j as int, ahi as int, bhi as int);
        assert(left + (mid + right@) =~= out@ + right@);
    }
    let mut right = right;
    let ghost at = left.len() as int;
    let ghost rv = right@;
    out.append(&mut right);
    assert(out@[at] == (i, j, k));
    proof {
        if !(i + k < ahi && j + k < bhi) {
            assert(blocks_view(rv) =~= Seq::<(int, int, int)>::empty());
        }
        if !(alo < i && blo < j) {
            assert(blocks_view(left) =~= Seq::<(int, int, int)>::empty());
        }
        assert(blocks_view(out@) =~= blocks_view(left) + seq![(i as int, j as int, k as int)] + blocks_view(rv));
    }
    out
}

/// Adjacent blocks merged, as difflib's `get_matching_blocks` merges them:
/// from block `q` on, with the block `(i1, j1, k1)` still open and `acc`
/// already closed.
pub open spec fn merge_from(
    bl: Seq<(int, int, int)>,
    q: int,
    i1: int,
    j1: int,
    k1: int,
    acc: Seq<(int, int, int)>,
) -> Seq<(int, int, int)>
    decreases bl.len() - q,
{
    if q < 0 || q >= bl.len() {
        if k1 > 0 {
            acc.push((i1, j1, k1))
        } else {
            acc
        }
    } else {
        let x = bl[q];
        if i1 + k1 == x.0 && j1 + k1 == x.1 {
            merge_from(bl, q + 1, i1, j1, k1 + x.2, acc)
        } else {
            merge_from(
                bl,
                q + 1,
                x.0,
                x.1,
                x.2,
                if k1 > 0 {
                    acc.push((i1, j1, k1))
                } else {
                    acc
                },
            )
        }
    }
}

pub open spec fn merged_blocks(bl: Seq<(int, int, int)>) -> Seq<(int, int, int)> {
    merge_from(bl, 0, 0, 0, 0, Seq::empty())
}

/// difflib's `get_opcodes` from block `q` on, the previous block ending at
/// `(i, j)`: the change before each block, then the block itself.
pub open spec fn ops_from(bl: Seq<(int, int, int)>, q: int, i: int, j: int) -> Seq<Opcode>
    decreases bl.len() - q,
{
    if q < 0 || q >= bl.len() {
        Seq::empty()
    } else {
        let ai = bl[q].0;
        let bj = bl[q].1;
        let size = bl[q].2;
        let change = if i < ai && j < bj {
            seq![Opcode { tag: Tag::Replace, i1: i as usize, i2: ai as usize, j1: j as usize, j2: bj as usize }]
        } else if i < ai {
            seq![Opcode { tag: Tag::Delete, i1: i as usize, i2: ai as usize, j1: j as usize, j2: bj as usize }]
        } else if j < bj {
            seq![Opcode { tag: Tag::Insert, i1: i as usize, i2: ai as usize, j1: j as usize, j2: bj as usize }]
        } else {
            Seq::empty()
        };
        let same = if size > 0 {
            seq![Opcode { tag: Tag::Equal, i1: ai as usize, i2: (ai + size) as usize, j1: bj as usize, j2: (bj + size) as usize }]
        } else {
            Seq::empty()
        };
        change + same + ops_from(bl, q + 1, ai + size, bj + size)
    }
}

/// The popular lines of `b`.
pub open spec fn popular_of(b: Seq<Seq<char>>) -> Seq<bool> {
    Seq::new(b.len(), |j: int| popular(b, j))
}

/// The edit script of difflib's `SequenceMatcher(None, a, b).get_opcodes()`
/// (autojunk on): the merged matching blocks, closed by `(len a, len b, 0)`,
/// each preceded by the change that leads to it.
pub open spec fn difflib_opcodes(a: Seq<Seq<char>>, b: Seq<Seq<char>>) -> Seq<Opcode> {
    let blocks = merged_blocks(matching_spec(a, b, popular_of(b), 0, a.len() as int, 0, b.len() as int));
    ops_from(blocks.push((a.len() as int, b.len() as int, 0)), 0, 0, 0)
}

/// Opcodes turning `a` into `b`: difflib's `SequenceMatcher.get_opcodes`.
fn opcodes(a: &Vec<String>, b: &Vec<String>) -> (ops: Vec<Opcode>)
    ensures
        tiles_from(a.deep_view(), b.deep_view(), ops@, 0, 0),
        chained(ops@),
        ops@ == difflib_opcodes(a.deep_view(), b.deep_view()),
{
    let ghost av = a.deep_view();
    let ghost bv = b.deep_view();
    let la = a.len();
    let lb = b.len();
    let pop = popular_lines(b);
    assert(pop@ =~= popular_of(bv));
    let blocks = blocks_in(a, b, &pop, 0, la, 0, lb);
    let ghost bl = blocks_view(blocks@);
    // Merge adjacent blocks.
    let mut merged: Vec<(usize, usize, usize)> = Vec::new();
    let mut i1: usize = 0;
    let mut j1: usize = 0;
    let mut k1: usize = 0;
    let mut q: usize = 0;
    assert(blocks@.skip(0) =~= blocks@);
    assert(blocks_view(merged@) =~= Seq::<(int, int, int)>::empty());
    while q < blocks.len()
        invariant
            bl == blocks_view(blocks@),
            merged_blocks(bl) == merge_from(bl, q as int, i1 as int, j1 as int, k1 as int, blocks_view(merged@)),
            la == av.len(),
            lb == bv.len(),
            av == a.deep_view(),
            bv == b.deep_view(),
            q <= blocks@.len(),
            blocks_ok(av, bv, blocks@.skip(q as int), i1 + k1, j1 + k1, la as int, lb as int),
            is_match(av, bv, i1 as int, j1 as int, k1 as int),
            blocks_ok(av, bv, merged@, 0, 0, i1 as int, j1 as int),
            k1 == 0 ==> i1 == 0 && j1 == 0 && merged@.len() == 0,
        decreases blocks@.len() - q,
    {
        let (i2, j2, k2) = blocks[q];
        assert(bl[q as int] == (i2 as int, j2 as int, k2 as int));
        assert(blocks@.skip(q as int)[0] == blocks@[q as int]);
        assert(blocks@.skip(q as int).skip(1) =~= blocks@.skip(q + 1));
        if i1 + k1 == i2 && j1 + k1 == j2 {
            proof {
                assert forall|p: int| i1 <= p < i1 + k1 + k2 implies #[trigger] av[p] == bv[p - i1 + j1] by {
                    if p >= i1 + k1 {
                        assert(av[p] == bv[p - i2 + j2]);
                    }
                }
            }
            k1 = k1 + k2;
        } else {
            if k1 > 0 {
                let ghost before = merged@;
                merged.push((i1, j1, k1));
                proof {
                    let one = seq![(i1, j1, k1)];
                    assert(one.skip(1) =~= Seq::<(usize, usize, usize)>::empty());
                    assert(i1 + k1 <= i2 && j1 + k1 <= j2);
                    assert(blocks_ok(av, bv, one.skip(1), i1 + k1, j1 + k1, i2 as int, j2 as int));
                    assert(blocks_ok(av, bv, one, i1 as int, j1 as int, i2 as int, j2 as int));
                    lemma_blocks_concat(av, bv, before, one, 0, 0, i1 as int, j1 as int, i2 as int, j2 as int);
                    assert(merged@ =~= before + one);
                    assert(blocks_view(merged@) =~= blocks_view(before).push((i1 as int, j1 as int, k1 as int)));
                }
            } else {
                assert(blocks_ok(av, bv, merged@, 0, 0, i2 as int, j2 as int));
            }
            i1 = i2;
            j1 = j2;
            k1 = k2;
        }
        q = q + 1;
    }
    if k1 > 0 {
        let ghost before = merged@;
        merged.push((i1, j1, k1));
        proof {
            let one = seq![(i1, j1, k1)];
            assert(one.skip(1) =~= Seq::<(usize, usize, usize)>::empty());
            assert(blocks@.skip(q as int) =~= Seq::<(usize, usize, usize)>::empty());
            assert(blocks_ok(av, bv, one.skip(1), i1 + k1, j1 + k1, la as int, lb as int));
            assert(blocks_ok(av, bv, one, i1 as int, j1 as int, la as int, lb as int));
            lemma_blocks_concat(av, bv, before, one, 0, 0, i1 as int, j1 as int, la as int, lb as int);
            assert(merged@ =~= before + one);
            assert(blocks_view(merged@) =~= blocks_view(before).push((i1 as int, j1 as int, k1 as int)));
        }
    } else {
        assert(blocks@.skip(q as int) =~= Seq::<(usize, usize, usize)>::empty());
    }
    let ghost sv = blocks_view(merged@).push((la as int, lb as int, 0int));
    assert(sv == merged_blocks(bl).push((la as int, lb as int, 0int)));
    // Turn the blocks into opcodes.
    let mut ops: Vec<Opcode> = Vec::new();
    let mut i: usize = 0;
    let mut j: usize = 0;
    let mut m: usize = 0;
    assert(merged@.skip(0) =~= merged@);
    assert(ops_from(sv, 0, 0, 0) =~= ops@ + ops_from(sv, 0, 0, 0));
    while m < merged.len()
        invariant
            sv == blocks_view(merged@).push((la as int, lb as int, 0int)),
            ops_from(sv, 0, 0, 0) == ops@ + ops_from(sv, m as int, i as int, j as int),
            la == av.len(),
            lb == bv.len(),
            av == a.deep_view(),
            bv == b.deep_view(),
            m <= merged@.len(),
            blocks_ok(av, bv, merged@.skip(m as int), i as int, j as int, la as int, lb as int),
            forall|t: int| 0 <= t < ops@.len() ==> op_ok(av, bv, #[trigger] ops@[t]),
            ops@.len() == 0 ==> i == 0 && j == 0,
            ops@.len() > 0 ==> ops@[0].i1 == 0 && ops@[0].j1 == 0 && ops@.last().i2 == i && ops@.last().j2 == j,
            forall|t: int| 0 <= t < ops@.len() - 1 ==> #[trigger] ops@[t].i2 == ops@[t + 1].i1 && ops@[t].j2 == ops@[t + 1].j1,
        decreases merged@.len() - m,
    {
        let (ai, bj, size) = merged[m];
        let ghost ops0 = ops@;
        assert(sv[m as int] == (ai as int, bj as int, size as int));
        assert(merged@.skip(m as int)[0] == merged@[m as int]);
        assert(merged@.skip(m as int).skip(1) =~= merged@.skip(m + 1));
        let tag = if i < ai && j < bj {
            Some(Tag::Replace)
        } else if i < ai {
            Some(Tag::Delete)
        } else if j < bj {
            Some(Tag::Insert)
        } else {
            None
        };
        match tag {
            Some(tag) => {
                ops.push(Opcode { tag, i1: i, i2: ai, j1: j, j2: bj });
            },
            None => {},
        }
        let ghost i0 = i as int;
        let ghost j0 = j as int;
        i = ai + size;
        j = bj + size;
        ops.push(Opcode { tag: Tag::Equal, i1: ai, i2: i, j1: bj, j2: j });
        proof {
            let change = if i0 < ai && j0 < bj {
                seq![Opcode { tag: Tag::Replace, i1: i0 as usize, i2: ai as usize, j1: j0 as usize, j2: bj as usize }]
            } else if i0 < ai {
                seq![Opcode { tag: Tag::Delete, i1: i0 as usize, i2: ai as usize, j1: j0 as usize, j2: bj as usize }]
            } else if j0 < bj {
                seq![Opcode { tag: Tag::Insert, i1: i0 as usize, i2: ai as usize, j1: j0 as usize, j2: bj as usize }]
            } else {
                Seq::<Opcode>::empty()
            };
            let same = seq![Opcode { tag: Tag::Equal, i1: ai, i2: (ai + size) as usize, j1: bj, j2: (bj + size) as usize }];
            assert(ops@ =~= ops0 + change + same);
            assert(ops_from(sv, m as int, i0, j0) == change + same + ops_from(sv, m + 1, i as int, j as int));
            assert(ops0 + (change + same + ops_from(sv, m + 1, i as int, j as int)) =~= ops@ + ops_from(sv, m + 1, i as int, j as int));
        }
        m = m + 1;
    }
    assert(merged@.skip(m as int) =~= Seq::<(usize, usize, usize)>::empty());
    let tag = if i < la && j < lb {
        Some(Tag::Replace)
    } else if i < la {
        Some(Tag::Delete)
    } else if j < lb {
        Some(Tag::Insert)
    } else {
        None
    };
    let ghost ops0 = ops@;
    match tag {
        Some(tag) => {
            ops.push(Opcode { tag, i1: i, i2: la, j1: j, j2: lb });
        },
        None => {},
    }
    proof {
        lemma_chain_tiles(av, bv, ops@);
        let mm = merged@.len() as int;
        assert(sv[mm] == (la as int, lb as int, 0int));
        assert(ops_from(sv, mm + 1, la as int, lb as int) =~= Seq::<Opcode>::empty());
        let change = ops_from(sv, mm, i as int, j as int);
        assert(ops@ =~= ops0 + change);
        assert(blocks_view(blocks@) == matching_spec(av, bv, popular_of(bv), 0, la as int, 0, lb as int));
    }
    ops
}

/// Chained opcodes from `(0, 0)` to the ends tile both sequences.
proof fn lemma_chain_tiles(a: Seq<Seq<char>>, b: Seq<Seq<char>>, ops: Seq<Opcode>)
    requires
        forall|t: int| 0 <= t < ops.len() ==> op_ok(a, b, #[trigger] ops[t]),
        ops.len() == 0 ==> a.len() == 0 && b.len() == 0,
        ops.len() > 0 ==> ops[0].i1 == 0 && ops[0].j1 == 0 && ops.last().i2 == a.len() && ops.last().j2 == b.len(),
        forall|t: int| 0 <= t < ops.len() - 1 ==> #[trigger] ops[t].i2 == ops[t + 1].i1 && ops[t].j2 == ops[t + 1].j1,
    ensures
        tiles_from(a, b, ops, 0, 0),
{
    lemma_chain_tiles_from(a, b, ops, 0);
    assert(ops.skip(0) =~= ops);
}

proof fn lemma_chain_tiles_from(a: Seq<Seq<char>>, b: Seq<Seq<char>>, ops: Seq<Opcode>, s: int)
    requires
        0 <= s <= ops.len(),
        forall|t: int| 0 <= t < ops.len() ==> op_ok(a, b, #[trigger] ops[t]),
        ops.len() == 0 ==> a.len() == 0 && b.len() == 0,
        ops.len() > 0 ==> ops.last().i2 == a.len() && ops.last().j2 == b.len(),
        forall|t: int| 0 <= t < ops.len() - 1 ==> #[trigger] ops[t].i2 == ops[t + 1].i1 && ops[t].j2 == ops[t + 1].j1,
    ensures
        s < ops.len() ==> tiles_from(a, b, ops.skip(s), ops[s].i1 as int, ops[s].j1 as int),
        s == ops.len() && s > 0 ==> tiles_from(a, b, ops.skip(s), ops[s - 1].i2 as int, ops[s - 1].j2 as int),
        s == 0 && ops.len() == 0 ==> tiles_from(a, b, ops, 0, 0),
    decreases ops.len() - s,
{
    if s < ops.len() {
        lemma_chain_tiles_from(a, b, ops, s + 1);
        assert(ops.skip(s)[0] == ops[s]);
        assert(ops.skip(s).skip(1) =~= ops.skip(s + 1));
        if s + 1 < ops.len() {
            assert(ops[s].i2 == ops[s + 1].i1);
        }
    } else {
        assert(ops.skip(s) =~= Seq::<Opcode>::empty());
    }
}

proof fn lemma_tiles_in(a: Seq<Seq<char>>, b: Seq<Seq<char>>, ops: Seq<Opcode>, i: int, j: int)
    requires
        tiles_from(a, b, ops, i, j),
    ensures
        forall|t: int| 0 <= t < ops.len() ==> op_in(#[trigger] ops[t], a.len() as int, b.len() as int),
    decreases ops.len(),
{
    if ops.len() > 0 {
        lemma_tiles_in(a, b, ops.skip(1), ops[0].i2 as int, ops[0].j2 as int);
        assert forall|t: int| 0 <= t < ops.len() implies op_in(#[trigger] ops[t], a.len() as int, b.len() as int) by {
            if t > 0 {
                assert(ops[t] == ops.skip(1)[t - 1]);
            }
        }
    }
}

/// An opcode lies within sequences of lengths `la` and `lb`.
pub open spec fn op_in(op: Opcode, la: int, lb: int) -> bool {
    op.i1 <= op.i2 <= la && op.j1 <= op.j2 <= lb
}

pub open spec fn has_change(ops: Seq<Opcode>) -> bool {
    exists|k: int| 0 <= k < ops.len() && (#[trigger] ops[k]).tag != Tag::Equal
}

/// Each opcode ends where the next one starts, or before.
pub open spec fn chained(ops: Seq<Opcode>) -> bool {
    forall|t: int| 0 <= t < ops.len() - 1 ==> #[trigger] ops[t].i2 <= ops[t + 1].i1 && ops[t].j2 <= ops[t + 1].j1
}

/// The opcodes of a hunk: at least one, each in bounds, in order.
pub open spec fn group_ok(g: Seq<Opcode>, la: int, lb: int) -> bool {
    &&& g.len() > 0
    &&& forall|t: int| 0 <= t < g.len() ==> op_in(#[trigger] g[t], la, lb)
    &&& chained(g)
}

pub open spec fn views(gs: Seq<Vec<Opcode>>) -> Seq<Seq<Opcode>> {
    gs.map_values(|g: Vec<Opcode>| g@)
}

/// An opcode cut down to its last `n` lines on each side.
pub open spec fn clip_front(op: Opcode, n: int) -> Opcode {
    Opcode {
        tag: op.tag,
        i1: if op.i2 - n > op.i1 { (op.i2 - n) as usize } else { op.i1 },
        i2: op.i2,
        j1: if op.j2 - n > op.j1 { (op.j2 - n) as usize } else { op.j1 },
        j2: op.j2,
    }
}

/// An opcode cut down to its first `n` lines on each side.
pub open spec fn clip_back(op: Opcode, n: int) -> Opcode {
    Opcode {
        tag: op.tag,
        i1: op.i1,
        i2: if op.i2 - op.i1 > n { (op.i1 + n) as usize } else { op.i2 },
        j1: op.j1,
        j2: if op.j2 - op.j1 > n { (op.j1 + n) as usize } else { op.j2 },
    }
}

/// The opcodes with a leading equal run cut to its last `n` lines and a
/// trailing one cut to its first `n`.
pub open spec fn clipped(codes: Seq<Opcode>, n: int) -> Seq<Opcode> {
    let c = if codes.len() > 0 && codes[0].tag == Tag::Equal {
        codes.update(0, clip_front(codes[0], n))
    } else {
        codes
    };
    if c.len() > 0 && c.last().tag == Tag::Equal {
        c.update(c.len() - 1, clip_back(c.last(), n))
    } else {
        c
    }
}

/// One opcode added to the hunks: an equal run of more than `2n` lines
/// closes the open hunk with its first `n` lines and opens the next one with
/// its last `n`; any other opcode joins the open hunk.
pub open spec fn group_step(done: Seq<Seq<Opcode>>, open: Seq<Opcode>, op: Opcode, n: int) -> (
    Seq<Seq<Opcode>>,
    Seq<Opcode>,
) {
    if op.tag == Tag::Equal && op.i2 - op.i1 > 2 * n {
        (done.push(open.push(clip_back(op, n))), seq![clip_front(op, n)])
    } else {
        (done, open.push(op))
    }
}

/// The closed hunks and the open hunk after the first `k` opcodes.
pub open spec fn group_run(codes: Seq<Opcode>, n: int, k: int) -> (Seq<Seq<Opcode>>, Seq<Opcode>)
    decreases k,
{
    if k <= 0 {
        (Seq::empty(), Seq::empty())
    } else {
        let prev = group_run(codes, n, k - 1);
        group_step(prev.0, prev.1, codes[k - 1], n)
    }
}

/// The hunks of difflib's `get_grouped_opcodes(n)`: the open hunk left at
/// the end is kept unless it holds a single equal run.
pub open spec fn grouped(codes: Seq<Opcode>, n: int) -> Seq<Seq<Opcode>> {
    let c = clipped(codes, n);
    let run = group_run(c, n, c.len() as int);
    if run.1.len() > 0 && !(run.1.len() == 1 && run.1[0].tag == Tag::Equal) {
        run.0.push(run.1)
    } else {
        run.0
    }
}

/// Each opcode starts where the one before it ends.
pub open spec fn linked(ops: Seq<Opcode>) -> bool {
    forall|t: int| 0 <= t < ops.len() - 1 ==> #[trigger] ops[t].i2 == ops[t + 1].i1 && ops[t].j2 == ops[t + 1].j1
}

/// Well-formed opcodes, each starting where the one before it ends.
pub open spec fn script_ok(a: Seq<Seq<char>>, b: Seq<Seq<char>>, ops: Seq<Opcode>) -> bool {
    &&& forall|t: int| 0 <= t < ops.len() ==> op_ok(a, b, #[trigger] ops[t])
    &&& linked(ops)
}

proof fn lemma_tiles_script(a: Seq<Seq<char>>, b: Seq<Seq<char>>, ops: Seq<Opcode>, i: int, j: int)
    requires
        tiles_from(a, b, ops, i, j),
    ensures
        script_ok(a, b, ops),
    decreases ops.len(),
{
    if ops.len() > 0 {
        let rest = ops.skip(1);
        lemma_tiles_script(a, b, rest, ops[0].i2 as int, ops[0].j2 as int);
        assert forall|t: int| 0 <= t < ops.len() implies op_ok(a, b, #[trigger] ops[t]) by {
            if t > 0 {
                assert(ops[t] == rest[t - 1]);
            }
        }
        assert forall|t: int| 0 <= t < ops.len() - 1 implies #[trigger] ops[t].i2 == ops[t + 1].i1 && ops[t].j2 == ops[t + 1].j1 by {
            assert(ops[t + 1] == rest[t]);
            if t > 0 {
                assert(ops[t] == rest[t - 1]);
                assert(rest[t - 1].i2 == rest[t].i1);
            } else if rest.len() > 0 {
                assert(rest[0].i1 == ops[0].i2);
            }
        }
    }
}

proof fn lemma_clip_ok(a: Seq<Seq<char>>, b: Seq<Seq<char>>, op: Opcode, n: int)
    requires
        op_ok(a, b, op),
        op.tag == Tag::Equal,
        n >= 0,
    ensures
        op_ok(a, b, clip_front(op, n)),
        op_ok(a, b, clip_back(op, n)),
{
    let f = clip_front(op, n);
    assert forall|p: int| f.i1 <= p < f.i1 + (f.i2 - f.i1) implies #[trigger] a[p] == b[p - f.i1 + f.j1] by {
        assert(a[p] == b[p - op.i1 + op.j1]);
    }
    let k = clip_back(op, n);
    assert forall|p: int| k.i1 <= p < k.i1 + (k.i2 - k.i1) implies #[trigger] a[p] == b[p - k.i1 + k.j1] by {
        assert(a[p] == b[p - op.i1 + op.j1]);
    }
}

proof fn lemma_clipped_script(a: Seq<Seq<char>>, b: Seq<Seq<char>>, codes: Seq<Opcode>, n: int)
    requires
        script_ok(a, b, codes),
        n >= 0,
    ensures
        script_ok(a, b, clipped(codes, n)),
        clipped(codes, n).len() == codes.len(),
{
    let c0 = if codes.len() > 0 && codes[0].tag == Tag::Equal {
        codes.update(0, clip_front(codes[0], n))
    } else {
        codes
    };
    if codes.len() > 0 && codes[0].tag == Tag::Equal {
        lemma_clip_ok(a, b, codes[0], n);
    }
    assert(script_ok(a, b, c0)) by {
        assert forall|t: int| 0 <= t < c0.len() - 1 implies #[trigger] c0[t].i2 == c0[t + 1].i1 && c0[t].j2 == c0[t + 1].j1 by {
            assert(codes[t].i2 == codes[t + 1].i1);
        }
    }
    if c0.len() > 0 && c0.last().tag == Tag::Equal {
        lemma_clip_ok(a, b, c0.last(), n);
        let c1 = c0.update(c0.len() - 1, clip_back(c0.last(), n));
        assert forall|t: int| 0 <= t < c1.len() implies op_ok(a, b, #[trigger] c1[t]) by {
            if t < c0.len() - 1 {
                assert(c1[t] == c0[t]);
            }
        }
        assert forall|t: int| 0 <= t < c1.len() - 1 implies #[trigger] c1[t].i2 == c1[t + 1].i1 && c1[t].j2 == c1[t + 1].j1 by {
            assert(c0[t].i2 == c0[t + 1].i1);
        }
    }
}

proof fn lemma_group_run_script(a: Seq<Seq<char>>, b: Seq<Seq<char>>, c: Seq<Opcode>, n: int, k: int)
    requires
        script_ok(a, b, c),
        n >= 0,
        0 <= k <= c.len(),
    ensures
        forall|g: int| 0 <= g < group_run(c, n, k).0.len() ==> (#[trigger] group_run(c, n, k).0[g]).len() > 0 && script_ok(a, b, group_run(c, n, k).0[g]),
        script_ok(a, b, group_run(c, n, k).1),
        group_run(c, n, k).1.len() > 0 && k < c.len() ==> group_run(c, n, k).1.last().i2 == c[k].i1 && group_run(c, n, k).1.last().j2 == c[k].j1,
    decreases k,
{
    if k > 0 {
        lemma_group_run_script(a, b, c, n, k - 1);
        let prev = group_run(c, n, k - 1);
        let op = c[k - 1];
        assert(op_ok(a, b, op));
        if k < c.len() {
            assert(c[k - 1].i2 == c[k].i1);
        }
        if op.tag == Tag::Equal && op.i2 - op.i1 > 2 * n {
            lemma_clip_ok(a, b, op, n);
            let h = prev.1.push(clip_back(op, n));
            assert(script_ok(a, b, h)) by {
                assert forall|t: int| 0 <= t < h.len() implies op_ok(a, b, #[trigger] h[t]) by {
                    if t < prev.1.len() {
                        assert(h[t] == prev.1[t]);
                    }
                }
                assert forall|t: int| 0 <= t < h.len() - 1 implies #[trigger] h[t].i2 == h[t + 1].i1 && h[t].j2 == h[t + 1].j1 by {
                    assert(h[t] == prev.1[t]);
                    if t + 1 < prev.1.len() {
                        assert(prev.1[t].i2 == prev.1[t + 1].i1);
                    }
                }
            }
            let done = prev.0.push(h);
            assert forall|g: int| 0 <= g < done.len() implies (#[trigger] done[g]).len() > 0 && script_ok(a, b, done[g]) by {
                if g < prev.0.len() {
                    assert(done[g] == prev.0[g]);
                }
            }
            assert(group_run(c, n, k) == (done, seq![clip_front(op, n)]));
        } else {
            let o = prev.1.push(op);
            assert(script_ok(a, b, o)) by {
                assert forall|t: int| 0 <= t < o.len() implies op_ok(a, b, #[trigger] o[t]) by {
                    if t < prev.1.len() {
                        assert(o[t] == prev.1[t]);
                    }
                }
                assert forall|t: int| 0 <= t < o.len() - 1 implies #[trigger] o[t].i2 == o[t + 1].i1 && o[t].j2 == o[t + 1].j1 by {
                    assert(o[t] == prev.1[t]);
                    if t + 1 < prev.1.len() {
                        assert(prev.1[t].i2 == prev.1[t + 1].i1);
                    }
                }
            }
            assert(group_run(c, n, k) == (prev.0, o));
        }
    }
}

proof fn lemma_script_span(a: Seq<Seq<char>>, b: Seq<Seq<char>>, h: Seq<Opcode>, t: int)
    requires
        script_ok(a, b, h),
        0 <= t < h.len(),
    ensures
        h[0].i1 <= h[t].i2,
        h[0].j1 <= h[t].j2,
    decreases t,
{
    assert(op_ok(a, b, h[t]));
    if t > 0 {
        lemma_script_span(a, b, h, t - 1);
        assert(h[t - 1].i2 == h[t].i1);
    }
}

/// The kept and removed lines of a linked script are the lines of `a` it
/// spans; its kept and added lines are the lines of `b` it spans.
#[verifier::spinoff_prover]
#[verifier::rlimit(60)]
proof fn lemma_script_sides(a: Seq<Seq<char>>, b: Seq<Seq<char>>, h: Seq<Opcode>)
    requires
        script_ok(a, b, h),
        h.len() > 0,
    ensures
        old_side(a, h) == a.subrange(h[0].i1 as int, h.last().i2 as int),
        new_side(a, b, h) == b.subrange(h[0].j1 as int, h.last().j2 as int),
    decreases h.len(),
{
    let op = h[0];
    assert(op_ok(a, b, op));
    let rest = h.skip(1);
    let oldp = if op.tag == Tag::Insert {
        Seq::<Seq<char>>::empty()
    } else {
        a.subrange(op.i1 as int, op.i2 as int)
    };
    let newp = if op.tag == Tag::Equal {
        a.subrange(op.i1 as int, op.i2 as int)
    } else if op.tag == Tag::Delete {
        Seq::<Seq<char>>::empty()
    } else {
        b.subrange(op.j1 as int, op.j2 as int)
    };
    assert(oldp =~= a.subrange(op.i1 as int, op.i2 as int));
    assert(newp =~= b.subrange(op.j1 as int, op.j2 as int)) by {
        if op.tag == Tag::Equal {
            assert forall|t: int| 0 <= t < op.i2 - op.i1 implies a.subrange(op.i1 as int, op.i2 as int)[t] == b.subrange(op.j1 as int, op.j2 as int)[t] by {
                assert(a[op.i1 + t] == b[(op.i1 + t) - op.i1 + op.j1]);
            }
        }
    }
    if h.len() == 1 {
        assert(rest.len() == 0);
        assert(oldp + old_side(a, rest) =~= oldp);
        assert(newp + new_side(a, b, rest) =~= newp);
    } else {
        assert forall|t: int| 0 <= t < rest.len() implies op_ok(a, b, #[trigger] rest[t]) by {
            assert(rest[t] == h[t + 1]);
        }
        assert forall|t: int| 0 <= t < rest.len() - 1 implies #[trigger] rest[t].i2 == rest[t + 1].i1 && rest[t].j2 == rest[t + 1].j1 by {
            assert(rest[t] == h[t + 1] && rest[t + 1] == h[t + 2]);
            assert(h[t + 1].i2 == h[t + 2].i1);
        }
        lemma_script_sides(a, b, rest);
        assert(rest[0] == h[1]);
        assert(h[0].i2 == h[1].i1);
        assert(rest.last() == h.last());
        let r0 = rest[0];
        assert(op_ok(a, b, h.last()));
        lemma_script_span(a, b, rest, rest.len() - 1);
        assert(a.subrange(op.i1 as int, op.i2 as int) + a.subrange(r0.i1 as int, h.last().i2 as int) =~= a.subrange(op.i1 as int, h.last().i2 as int));
        assert(b.subrange(op.j1 as int, op.j2 as int) + b.subrange(r0.j1 as int, h.last().j2 as int) =~= b.subrange(op.j1 as int, h.last().j2 as int));
    }
}

/// Law: every hunk can be applied on its own: its kept and removed lines
/// are exactly the lines of `a` in its old range, and its kept and added
/// lines exactly those of `b` in its new range, for any script that turns
/// `a` into `b`.
pub proof fn law_hunks_apply(a: Seq<Seq<char>>, b: Seq<Seq<char>>, ops: Seq<Opcode>, n: int)
    requires
        tiles_from(a, b, ops, 0, 0),
        n >= 0,
    ensures
        forall|g: int|
            0 <= g < grouped(ops, n).len() ==> {
                let h = #[trigger] grouped(ops, n)[g];
                &&& h.len() > 0
                &&& old_side(a, h) == a.subrange(h[0].i1 as int, h.last().i2 as int)
                &&& new_side(a, b, h) == b.subrange(h[0].j1 as int, h.last().j2 as int)
            },
{
    lemma_tiles_script(a, b, ops, 0, 0);
    lemma_clipped_script(a, b, ops, n);
    let c = clipped(ops, n);
    lemma_group_run_script(a, b, c, n, c.len() as int);
    let run = group_run(c, n, c.len() as int);
    let gs = grouped(ops, n);
    assert forall|g: int| 0 <= g < gs.len() implies gs[g].len() > 0 && script_ok(a, b, gs[g]) by {
        if g < run.0.len() {
            assert(gs[g] == run.0[g]);
        }
    }
    assert forall|g: int| 0 <= g < gs.len() implies {
        let h = #[trigger] gs[g];
        &&& h.len() > 0
        &&& old_side(a, h) == a.subrange(h[0].i1 as int, h.last().i2 as int)
        &&& new_side(a, b, h) == b.subrange(h[0].j1 as int, h.last().j2 as int)
    } by {
        lemma_script_sides(a, b, gs[g]);
    }
}

/// Outside the hunks `gs`, from `(i, j)` up to `(ei, ej)`, `a` and `b`
/// agree: the stretch before each hunk, and the one after the last, hold
/// the same lines on both sides.
pub open spec fn gaps_agree(
    a: Seq<Seq<char>>,
    b: Seq<Seq<char>>,
    gs: Seq<Seq<Opcode>>,
    i: int,
    j: int,
    ei: int,
    ej: int,
) -> bool
    decreases gs.len(),
{
    if gs.len() == 0 {
        &&& 0 <= i <= ei <= a.len()
        &&& 0 <= j <= ej <= b.len()
        &&& a.subrange(i, ei) == b.subrange(j, ej)
    } else {
        let h = gs[0];
        &&& h.len() > 0
        &&& 0 <= i <= h[0].i1 <= a.len()
        &&& 0 <= j <= h[0].j1 <= b.len()
        &&& a.subrange(i, h[0].i1 as int) == b.subrange(j, h[0].j1 as int)
        &&& gaps_agree(a, b, gs.skip(1), h.last().i2 as int, h.last().j2 as int, ei, ej)
    }
}

/// `a` from line `i` on with the hunks `gs` applied: the lines outside the
/// hunks kept, and each hunk's lines replaced by its kept and added lines.
pub open spec fn apply_hunks(a: Seq<Seq<char>>, b: Seq<Seq<char>>, gs: Seq<Seq<Opcode>>, i: int) -> Seq<Seq<char>>
    decreases gs.len(),
{
    if gs.len() == 0 {
        a.subrange(i, a.len() as int)
    } else {
        let h = gs[0];
        a.subrange(i, h[0].i1 as int) + new_side(a, b, h) + apply_hunks(a, b, gs.skip(1), h.last().i2 as int)
    }
}

proof fn lemma_gaps_push(
    a: Seq<Seq<char>>,
    b: Seq<Seq<char>>,
    gs: Seq<Seq<Opcode>>,
    i: int,
    j: int,
    ei: int,
    ej: int,
    g: Seq<Opcode>,
    fi: int,
    fj: int,
)
    requires
        gaps_agree(a, b, gs, i, j, ei, ej),
        g.len() > 0,
        g[0].i1 == ei,
        g[0].j1 == ej,
        0 <= g.last().i2 <= fi <= a.len(),
        0 <= g.last().j2 <= fj <= b.len(),
        a.subrange(g.last().i2 as int, fi) == b.subrange(g.last().j2 as int, fj),
    ensures
        gaps_agree(a, b, gs.push(g), i, j, fi, fj),
    decreases gs.len(),
{
    let out = gs.push(g);
    if gs.len() == 0 {
        assert(out[0] == g);
        assert(out.skip(1) =~= Seq::<Seq<Opcode>>::empty());
        assert(gaps_agree(a, b, Seq::<Seq<Opcode>>::empty(), g.last().i2 as int, g.last().j2 as int, fi, fj));
        assert(gaps_agree(a, b, out.skip(1), g.last().i2 as int, g.last().j2 as int, fi, fj));
    } else {
        assert(out[0] == gs[0]);
        assert(out.skip(1) =~= gs.skip(1).push(g));
        lemma_gaps_push(a, b, gs.skip(1), gs[0].last().i2 as int, gs[0].last().j2 as int, ei, ej, g, fi, fj);
        assert(gaps_agree(a, b, out.skip(1), gs[0].last().i2 as int, gs[0].last().j2 as int, fi, fj));
    }
}

proof fn lemma_gaps_extend(
    a: Seq<Seq<char>>,
    b: Seq<Seq<char>>,
    gs: Seq<Seq<Opcode>>,
    i: int,
    j: int,
    ei: int,
    ej: int,
    fi: int,
    fj: int,
)
    requires
        gaps_agree(a, b, gs, i, j, ei, ej),
        ei <= fi <= a.len(),
        ej <= fj <= b.len(),
        a.subrange(ei, fi) == b.subrange(ej, fj),
    ensures
        gaps_agree(a, b, gs, i, j, fi, fj),
    decreases gs.len(),
{
    if gs.len() == 0 {
        assert(a.subrange(i, fi) =~= a.subrange(i, ei) + a.subrange(ei, fi));
        assert(b.subrange(j, fj) =~= b.subrange(j, ej) + b.subrange(ej, fj));
    } else {
        lemma_gaps_extend(a, b, gs.skip(1), gs[0].last().i2 as int, gs[0].last().j2 as int, ei, ej, fi, fj);
    }
}

proof fn lemma_gaps_prefix(a: Seq<Seq<char>>, b: Seq<Seq<char>>, gs: Seq<Seq<Opcode>>, i: int, j: int, ei: int, ej: int)
    requires
        gaps_agree(a, b, gs, i, j, ei, ej),
        a.subrange(0, i) == b.subrange(0, j),
    ensures
        gaps_agree(a, b, gs, 0, 0, ei, ej),
{
    if gs.len() == 0 {
        assert(a.subrange(0, ei) =~= a.subrange(0, i) + a.subrange(i, ei));
        assert(b.subrange(0, ej) =~= b.subrange(0, j) + b.subrange(j, ej));
    } else {
        let h = gs[0];
        assert(a.subrange(0, h[0].i1 as int) =~= a.subrange(0, i) + a.subrange(i, h[0].i1 as int));
        assert(b.subrange(0, h[0].j1 as int) =~= b.subrange(0, j) + b.subrange(j, h[0].j1 as int));
    }
}

/// The open hunk of the grouping starts where the stretch of agreement after
/// the closed hunks ends.
proof fn lemma_group_run_gaps(a: Seq<Seq<char>>, b: Seq<Seq<char>>, c: Seq<Opcode>, n: int, k: int)
    requires
        script_ok(a, b, c),
        n >= 0,
        0 <= k <= c.len(),
        c.len() > 0,
    ensures
        ({
            let r = group_run(c, n, k);
            let si = if r.1.len() > 0 { r.1[0].i1 as int } else { c[0].i1 as int };
            let sj = if r.1.len() > 0 { r.1[0].j1 as int } else { c[0].j1 as int };
            &&& gaps_agree(a, b, r.0, c[0].i1 as int, c[0].j1 as int, si, sj)
            &&& (r.1.len() == 0 <==> k == 0)
            &&& (k > 0 ==> r.1.last().i2 == c[k - 1].i2 && r.1.last().j2 == c[k - 1].j2)
        }),
    decreases k,
{
    assert(op_ok(a, b, c[0]));
    if k == 0 {
        assert(a.subrange(c[0].i1 as int, c[0].i1 as int) =~= b.subrange(c[0].j1 as int, c[0].j1 as int));
    } else {
        lemma_group_run_gaps(a, b, c, n, k - 1);
        lemma_group_run_script(a, b, c, n, k - 1);
        let prev = group_run(c, n, k - 1);
        let op = c[k - 1];
        assert(op_ok(a, b, op));
        let si = if prev.1.len() > 0 { prev.1[0].i1 as int } else { c[0].i1 as int };
        let sj = if prev.1.len() > 0 { prev.1[0].j1 as int } else { c[0].j1 as int };
        if k >= 2 {
            assert(c[k - 2].i2 == c[k - 1].i1);
        }
        if op.tag == Tag::Equal && op.i2 - op.i1 > 2 * n {
            lemma_clip_ok(a, b, op, n);
            let cb = clip_back(op, n);
            let cf = clip_front(op, n);
            let g = prev.1.push(cb);
            assert(g[0].i1 == si && g[0].j1 == sj);
            assert(g.last() == cb);
            assert(a.subrange(cb.i2 as int, cf.i1 as int) == b.subrange(cb.j2 as int, cf.j1 as int)) by {
                assert forall|t: int| 0 <= t < cf.i1 - cb.i2 implies a.subrange(cb.i2 as int, cf.i1 as int)[t] == b.subrange(
                    cb.j2 as int,
                    cf.j1 as int,
                )[t] by {
                    assert(a[cb.i2 + t] == b[(cb.i2 + t) - op.i1 + op.j1]);
                }
            }
            lemma_gaps_push(a, b, prev.0, c[0].i1 as int, c[0].j1 as int, si, sj, g, cf.i1 as int, cf.j1 as int);
            assert(group_run(c, n, k) == (prev.0.push(g), seq![cf]));
        } else {
            let o = prev.1.push(op);
            assert(o[0].i1 == si && o[0].j1 == sj);
            assert(group_run(c, n, k) == (prev.0, o));
        }
    }
}

proof fn lemma_tiles_last(a: Seq<Seq<char>>, b: Seq<Seq<char>>, ops: Seq<Opcode>, i: int, j: int)
    requires
        tiles_from(a, b, ops, i, j),
        ops.len() > 0,
    ensures
        ops.last().i2 == a.len(),
        ops.last().j2 == b.len(),
    decreases ops.len(),
{
    assert(tiles_from(a, b, ops.skip(1), ops[0].i2 as int, ops[0].j2 as int));
    if ops.len() > 1 {
        lemma_tiles_last(a, b, ops.skip(1), ops[0].i2 as int, ops[0].j2 as int);
        assert(ops.skip(1).last() == ops.last());
    } else {
        assert(ops.skip(1).len() == 0);
        assert(ops.last() == ops[0]);
    }
}

proof fn lemma_apply_hunks(a: Seq<Seq<char>>, b: Seq<Seq<char>>, gs: Seq<Seq<Opcode>>, i: int, j: int)
    requires
        gaps_agree(a, b, gs, i, j, a.len() as int, b.len() as int),
        forall|g: int| 0 <= g < gs.len() ==> script_ok(a, b, #[trigger] gs[g]),
    ensures
        apply_hunks(a, b, gs, i) == b.subrange(j, b.len() as int),
    decreases gs.len(),
{
    if gs.len() > 0 {
        let h = gs[0];
        assert(script_ok(a, b, gs[0]));
        lemma_script_sides(a, b, h);
        lemma_script_span(a, b, h, h.len() - 1);
        assert(op_ok(a, b, h.last()));
        assert forall|g: int| 0 <= g < gs.skip(1).len() implies script_ok(a, b, #[trigger] gs.skip(1)[g]) by {
            assert(gs.skip(1)[g] == gs[g + 1]);
        }
        lemma_apply_hunks(a, b, gs.skip(1), h.last().i2 as int, h.last().j2 as int);
        assert(b.subrange(j, b.len() as int) =~= b.subrange(j, h[0].j1 as int) + b.subrange(h[0].j1 as int, h.last().j2 as int)
            + b.subrange(h.last().j2 as int, b.len() as int));
    }
}

/// Law: the hunks, applied to `a`, give `b`: keeping the lines of `a`
/// outside the hunks and putting each hunk's kept and added lines in place
/// of its old range turns `a` into `b`, for any script that turns `a` into
/// `b` (with the hunks of [`law_hunks_apply`], whose kept and removed lines
/// are `a`'s lines in that range).
#[verifier::spinoff_prover]
#[verifier::rlimit(80)]
pub proof fn law_patch_applies(a: Seq<Seq<char>>, b: Seq<Seq<char>>, ops: Seq<Opcode>, n: int)
    requires
        tiles_from(a, b, ops, 0, 0),
        n >= 0,
    ensures
        apply_hunks(a, b, grouped(ops, n), 0) == b,
{
    lemma_tiles_script(a, b, ops, 0, 0);
    lemma_clipped_script(a, b, ops, n);
    let c = clipped(ops, n);
    let gs = grouped(ops, n);
    if ops.len() == 0 {
        assert(c.len() == 0);
        assert(group_run(c, n, 0) == (Seq::<Seq<Opcode>>::empty(), Seq::<Opcode>::empty()));
        assert(gs.len() == 0);
        assert(a.len() == 0 && b.len() == 0);
        assert(a.subrange(0, 0) =~= b);
    } else {
        let la = a.len() as int;
        let lb = b.len() as int;
        lemma_tiles_last(a, b, ops, 0, 0);
        let o0 = ops[0];
        let ol = ops.last();
        assert(op_ok(a, b, o0) && op_ok(a, b, ol));
        assert(o0.i1 == 0 && o0.j1 == 0);
        let c0 = c[0];
        let cl = c.last();
        assert(op_ok(a, b, c0) && op_ok(a, b, cl));
        // Before the first opcode and after the last, both sides agree.
        assert(a.subrange(0, c0.i1 as int) == b.subrange(0, c0.j1 as int)) by {
            assert forall|t: int| 0 <= t < c0.i1 implies a.subrange(0, c0.i1 as int)[t] == b.subrange(0, c0.j1 as int)[t] by {
                assert(a[t] == b[t - o0.i1 + o0.j1]);
            }
        }
        assert(a.subrange(cl.i2 as int, la) == b.subrange(cl.j2 as int, lb)) by {
            if ol.tag == Tag::Equal {
                assert forall|t: int| 0 <= t < la - cl.i2 implies a.subrange(cl.i2 as int, la)[t] == b.subrange(cl.j2 as int, lb)[t] by {
                    assert(a[cl.i2 + t] == b[(cl.i2 + t) - ol.i1 + ol.j1]);
                }
            }
        }
        lemma_group_run_gaps(a, b, c, n, c.len() as int);
        lemma_group_run_script(a, b, c, n, c.len() as int);
        let r = group_run(c, n, c.len() as int);
        let open = r.1;
        assert(open.len() > 0);
        assert(script_ok(a, b, open));
        lemma_script_span(a, b, open, open.len() - 1);
        assert(op_ok(a, b, open.last()));
        if open.len() > 0 && !(open.len() == 1 && open[0].tag == Tag::Equal) {
            lemma_gaps_push(a, b, r.0, c0.i1 as int, c0.j1 as int, open[0].i1 as int, open[0].j1 as int, open, la, lb);
            assert(gs == r.0.push(open));
        } else {
            let e = open[0];
            assert(op_ok(a, b, e));
            assert(open.last() == e);
            assert(a.subrange(e.i1 as int, la) == b.subrange(e.j1 as int, lb)) by {
                assert(a.subrange(e.i1 as int, e.i2 as int) =~= b.subrange(e.j1 as int, e.j2 as int)) by {
                    assert forall|t: int| 0 <= t < e.i2 - e.i1 implies a.subrange(e.i1 as int, e.i2 as int)[t] == b.subrange(e.j1 as int, e.j2 as int)[t] by {
                        assert(a[e.i1 + t] == b[(e.i1 + t) - e.i1 + e.j1]);
                    }
                }
                assert(a.subrange(e.i1 as int, la) =~= a.subrange(e.i1 as int, e.i2 as int) + a.subrange(e.i2 as int, la));
                assert(b.subrange(e.j1 as int, lb) =~= b.subrange(e.j1 as int, e.j2 as int) + b.subrange(e.j2 as int, lb));
            }
            lemma_gaps_extend(a, b, r.0, c0.i1 as int, c0.j1 as int, e.i1 as int, e.j1 as int, la, lb);
            assert(gs == r.0);
        }
        assert(gaps_agree(a, b, gs, c0.i1 as int, c0.j1 as int, la, lb));
        // Start the agreement at the top of both sides.
        assert(gaps_agree(a, b, gs, 0, 0, la, lb)) by {
            lemma_gaps_prefix(a, b, gs, c0.i1 as int, c0.j1 as int, la, lb);
        }
        assert forall|g: int| 0 <= g < gs.len() implies script_ok(a, b, #[trigger] gs[g]) by {
            if g < r.0.len() {
                assert(gs[g] == r.0[g]);
            } else {
                assert(gs[g] == open);
            }
        }
        lemma_apply_hunks(a, b, gs, 0, 0);
        assert(b.subrange(0, lb) =~= b);
    }
}

/// The first opcode of a hunk starts no later than its last one ends.
proof fn lemma_group_span(g: Seq<Opcode>, la: int, lb: int, t: int)
    requires
        group_ok(g, la, lb),
        0 <= t < g.len(),
    ensures
        g[0].i1 <= g[t].i2,
        g[0].j1 <= g[t].j2,
    decreases t,
{
    assert(op_in(g[t], la, lb));
    if t > 0 {
        lemma_group_span(g, la, lb, t - 1);
        assert(g[t - 1].i2 <= g[t].i1);
    }
}

/// Hunks of opcodes with `n` lines of context: difflib's
/// `SequenceMatcher.get_grouped_opcodes(n)`.
#[verifier::rlimit(40)]
fn grouped_opcodes(codes: Vec<Opcode>, n: usize, Ghost(la): Ghost<int>, Ghost(lb): Ghost<int>) -> (groups: Vec<Vec<Opcode>>)
    requires
        forall|t: int| 0 <= t < codes@.len() ==> op_in(#[trigger] codes@[t], la, lb),
        chained(codes@),
        n <= 1000,
    ensures
        views(groups@) == grouped(codes@, n as int),
        forall|g: int| 0 <= g < groups@.len() ==> group_ok(#[trigger] groups@[g]@, la, lb),
        has_change(codes@) ==> groups@.len() > 0,
{
    let mut codes = codes;
    let mut groups: Vec<Vec<Opcode>> = Vec::new();
    if codes.len() == 0 {
        assert(views(groups@) =~= grouped(codes@, n as int));
        return groups;
    }
    let ghost orig = codes@;
    if codes[0].tag == Tag::Equal {
        let mut op = codes[0];
        let lo = if op.i2 > n { op.i2 - n } else { 0 };
        if lo > op.i1 {
            op.i1 = lo;
        }
        let lo = if op.j2 > n { op.j2 - n } else { 0 };
        if lo > op.j1 {
            op.j1 = lo;
        }
        assert(op == clip_front(orig[0], n as int));
        codes.set(0, op);
    }
    let ghost front = codes@;
    assert(front == (if orig.len() > 0 && orig[0].tag == Tag::Equal {
        orig.update(0, clip_front(orig[0], n as int))
    } else {
        orig
    }));
    let last = codes.len() - 1;
    if codes[last].tag == Tag::Equal {
        let mut op = codes[last];
        if op.i2 - op.i1 > n {
            op.i2 = op.i1 + n;
        }
        if op.j2 - op.j1 > n {
            op.j2 = op.j1 + n;
        }
        assert(op == clip_back(front.last(), n as int));
        codes.set(last, op);
    }
    assert(codes@ == clipped(orig, n as int));
    assert(forall|t: int| 0 <= t < codes@.len() ==> codes@[t].tag == orig[t].tag);
    assert forall|t: int| 0 <= t < codes@.len() implies op_in(#[trigger] codes@[t], la, lb) by {
        assert(op_in(orig[t], la, lb));
    }
    assert forall|t: int| 0 <= t < codes@.len() - 1 implies #[trigger] codes@[t].i2 <= codes@[t + 1].i1
        && codes@[t].j2 <= codes@[t + 1].j1 by {
        assert(orig[t].i2 <= orig[t + 1].i1);
    }
    let nn = n + n;
    let mut group: Vec<Opcode> = Vec::new();
    let ghost mut changed = false;
    let mut k: usize = 0;
    assert(views(groups@) =~= Seq::<Seq<Opcode>>::empty());
    while k < codes.len()
        invariant
            k <= codes@.len(),
            n <= 1000,
            nn == n + n,
            codes@ == clipped(orig, n as int),
            forall|t: int| 0 <= t < codes@.len() ==> op_in(#[trigger] codes@[t], la, lb),
            chained(codes@),
            forall|t: int| 0 <= t < codes@.len() ==> codes@[t].tag == orig[t].tag,
            views(groups@) == group_run(codes@, n as int, k as int).0,
            group@ == group_run(codes@, n as int, k as int).1,
            forall|g: int| 0 <= g < groups@.len() ==> group_ok(#[trigger] groups@[g]@, la, lb),
            forall|t: int| 0 <= t < group@.len() ==> op_in(#[trigger] group@[t], la, lb),
            chained(group@),
            group@.len() > 0 && k < codes@.len() ==> group@.last().i2 <= codes@[k as int].i1
                && group@.last().j2 <= codes@[k as int].j1,
            changed == exists|t: int| 0 <= t < k && (#[trigger] orig[t]).tag != Tag::Equal,
            changed ==> groups@.len() > 0 || exists|t: int| 0 <= t < group@.len() && (#[trigger] group@[t]).tag != Tag::Equal,
        decreases codes@.len() - k,
    {
        let mut op = codes[k];
        let ghost code = op;
        let ghost prev_groups = views(groups@);
        proof {
            if k + 1 < codes@.len() {
                assert(codes@[k as int].i2 <= codes@[k + 1].i1);
            }
        }
        if op.tag == Tag::Equal && op.i2 - op.i1 > nn {
            let head = Opcode {
                tag: Tag::Equal,
                i1: op.i1,
                i2: if op.i2 - op.i1 > n { op.i1 + n } else { op.i2 },
                j1: op.j1,
                j2: if op.j2 - op.j1 > n { op.j1 + n } else { op.j2 },
            };
            assert(head == clip_back(code, n as int));
            let ghost open = group@;
            group.push(head);
            proof {
                assert forall|t: int| 0 <= t < group@.len() - 1 implies #[trigger] group@[t].i2 <= group@[t + 1].i1
                    && group@[t].j2 <= group@[t + 1].j1 by {
                    if t + 1 < open.len() {
                        assert(open[t].i2 <= open[t + 1].i1);
                    }
                }
            }
            let done = group;
            let ghost gs = groups@;
            let ghost done_view = done@;
            groups.push(done);
            proof {
                assert(views(groups@) =~= prev_groups.push(done_view));
                assert forall|g: int| 0 <= g < groups@.len() implies group_ok(#[trigger] groups@[g]@, la, lb) by {
                    if g < gs.len() {
                        assert(groups@[g] == gs[g]);
                    }
                }
            }
            group = Vec::new();
            let lo = if op.i2 > n { op.i2 - n } else { 0 };
            if lo > op.i1 {
                op.i1 = lo;
            }
            let lo = if op.j2 > n { op.j2 - n } else { 0 };
            if lo > op.j1 {
                op.j1 = lo;
            }
            assert(op == clip_front(code, n as int));
        }
        let ghost before = group@;
        group.push(op);
        proof {
            assert forall|t: int| 0 <= t < group@.len() - 1 implies #[trigger] group@[t].i2 <= group@[t + 1].i1
                && group@[t].j2 <= group@[t + 1].j1 by {
                if t + 1 < before.len() {
                    assert(before[t].i2 <= before[t + 1].i1);
                }
            }
            if orig[k as int].tag != Tag::Equal {
                assert(group@[group@.len() - 1].tag != Tag::Equal);
            }
            if changed && groups@.len() == 0 {
                let t = choose|t: int| 0 <= t < before.len() && (#[trigger] before[t]).tag != Tag::Equal;
                assert(group@[t] == before[t]);
            }
            changed = changed || orig[k as int].tag != Tag::Equal;
        }
        k = k + 1;
    }
    proof {
        if has_change(orig) {
            let t = choose|t: int| 0 <= t < orig.len() && (#[trigger] orig[t]).tag != Tag::Equal;
            assert(changed);
        }
    }
    if group.len() > 0 && !(group.len() == 1 && group[0].tag == Tag::Equal) {
        let ghost gs = groups@;
        let ghost open = group@;
        groups.push(group);
        proof {
            assert(views(groups@) =~= views(gs).push(open));
            assert forall|g: int| 0 <= g < groups@.len() implies group_ok(#[trigger] groups@[g]@, la, lb) by {
                if g < gs.len() {
                    assert(groups@[g] == gs[g]);
                }
            }
        }
    }
    groups
}

/// `start,length` of a hunk side, difflib's `_format_range_unified`: one
/// line is written as its number alone, an empty range starts one earlier.
pub open spec fn range_text(start: int, stop: int) -> Seq<char> {
    let length = stop - start;
    if length == 1 {
        decimal((start + 1) as nat)
    } else if length == 0 {
        decimal(start as nat) + ","@ + decimal(0)
    } else {
        decimal((start + 1) as nat) + ","@ + decimal(length as nat)
    }
}

fn push_range(out: &mut String, start: usize, stop: usize)
    requires
        start <= stop,
    ensures
        final(out)@ == old(out)@ + range_text(start as int, stop as int),
{
    let length = stop - start;
    if length == 1 {
        push_decimal(out, start + 1);
    } else if length == 0 {
        push_decimal(out, start);
        push_str(out, ",");
        push_decimal(out, 0);
        assert(final(out)@ =~= old(out)@ + range_text(start as int, stop as int));
    } else {
        push_decimal(out, start + 1);
        push_str(out, ",");
        push_decimal(out, length);
        assert(final(out)@ =~= old(out)@ + range_text(start as int, stop as int));
    }
}

/// `mark` and then the line, for each of `lines[from..to]`.
pub open spec fn marked(mark: char, lines: Seq<Seq<char>>, from: int, to: int) -> Seq<char>
    decreases to - from,
{
    if to <= from {
        Seq::empty()
    } else {
        marked(mark, lines, from, to - 1) + seq![mark] + lines[to - 1]
    }
}

/// The lines of one opcode: kept ones marked ` `, removed ones `-`, added ones `+`.
pub open spec fn op_text(a: Seq<Seq<char>>, b: Seq<Seq<char>>, op: Opcode) -> Seq<char> {
    match op.tag {
        Tag::Equal => marked(' ', a, op.i1 as int, op.i2 as int),
        Tag::Replace => marked('-', a, op.i1 as int, op.i2 as int) + marked('+', b, op.j1 as int, op.j2 as int),
        Tag::Delete => marked('-', a, op.i1 as int, op.i2 as int),
        Tag::Insert => marked('+', b, op.j1 as int, op.j2 as int),
    }
}

pub open spec fn ops_text(a: Seq<Seq<char>>, b: Seq<Seq<char>>, ops: Seq<Opcode>) -> Seq<char>
    decreases ops.len(),
{
    if ops.len() == 0 {
        Seq::empty()
    } else {
        ops_text(a, b, ops.drop_last()) + op_text(a, b, ops.last())
    }
}

/// One hunk: its `@@ -range +range @@` line, then the lines of its opcodes.
pub open spec fn hunk_text(a: Seq<Seq<char>>, b: Seq<Seq<char>>, g: Seq<Opcode>) -> Seq<char> {
    "@@ -"@ + range_text(g[0].i1 as int, g.last().i2 as int) + " +"@ + range_text(g[0].j1 as int, g.last().j2 as int)
        + " @@\n"@ + ops_text(a, b, g)
}

pub open spec fn hunks_text(a: Seq<Seq<char>>, b: Seq<Seq<char>>, gs: Seq<Seq<Opcode>>) -> Seq<char>
    decreases gs.len(),
{
    if gs.len() == 0 {
        Seq::empty()
    } else {
        hunks_text(a, b, gs.drop_last()) + hunk_text(a, b, gs.last())
    }
}

/// The `--- name_a` / `+++ name_b` header of a unified diff.
pub open spec fn diff_header(name_a: Seq<char>, name_b: Seq<char>) -> Seq<char> {
    "--- "@ + name_a + "\n"@ + "+++ "@ + name_b + "\n"@
}

/// The unified diff made of the hunks `gs`: nothing without a hunk, else the
/// header and the hunks.
pub open spec fn unified_text(
    a: Seq<Seq<char>>,
    b: Seq<Seq<char>>,
    gs: Seq<Seq<Opcode>>,
    name_a: Seq<char>,
    name_b: Seq<char>,
) -> Seq<char> {
    if gs.len() == 0 {
        Seq::empty()
    } else {
        diff_header(name_a, name_b) + hunks_text(a, b, gs)
    }
}

fn push_lines(out: &mut String, mark: char, lines: &Vec<String>, from: usize, to: usize)
    requires
        from <= to <= lines@.len(),
    ensures
        final(out)@ == old(out)@ + marked(mark, lines.deep_view(), from as int, to as int),
{
    let mut k = from;
    assert(old(out)@ + marked(mark, lines.deep_view(), from as int, from as int) =~= old(out)@);
    while k < to
        invariant
            from <= k <= to <= lines@.len(),
            out@ == old(out)@ + marked(mark, lines.deep_view(), from as int, k as int),
        decreases to - k,
    {
        push_char(out, mark);
        push_str(out, lines[k].as_str());
        assert(lines.deep_view()[k as int] == lines@[k as int]@);
        assert(out@ =~= old(out)@ + marked(mark, lines.deep_view(), from as int, k + 1));
        k = k + 1;
    }
}

/// Appends one hunk: its `@@` line, then the lines of its opcodes.
#[verifier::spinoff_prover]
#[verifier::rlimit(60)]
fn push_hunk(out: &mut String, a: &Vec<String>, b: &Vec<String>, group: &Vec<Opcode>, Ghost(la): Ghost<int>, Ghost(lb): Ghost<int>)
    requires
        group_ok(group@, la, lb),
        la == a@.len(),
        lb == b@.len(),
    ensures
        final(out)@ == old(out)@ + hunk_text(a.deep_view(), b.deep_view(), group@),
{
    let ghost av = a.deep_view();
    let ghost bv = b.deep_view();
    let ghost keep = out@;
    let first = group[0];
    let last = group[group.len() - 1];
    proof {
        lemma_group_span(group@, la, lb, group@.len() - 1);
    }
    push_str(out, "@@ -");
    push_range(out, first.i1, last.i2);
    push_str(out, " +");
    push_range(out, first.j1, last.j2);
    push_str(out, " @@\n");
    let ghost head = out@;
    assert(group@.take(0) =~= Seq::<Opcode>::empty());
    assert(head =~= head + ops_text(av, bv, group@.take(0)));
    let mut t: usize = 0;
    while t < group.len()
        invariant
            t <= group@.len(),
            forall|q: int| 0 <= q < group@.len() ==> op_in(#[trigger] group@[q], la, lb),
            out@ == head + ops_text(av, bv, group@.take(t as int)),
            av == a.deep_view(),
            bv == b.deep_view(),
            la == a@.len(),
            lb == b@.len(),
        decreases group@.len() - t,
    {
        let op = group[t];
        assert(op_in(group@[t as int], la, lb));
        let ghost before = out@;
        match op.tag {
            Tag::Equal => {
                push_lines(out, ' ', a, op.i1, op.i2);
            },
            Tag::Replace => {
                push_lines(out, '-', a, op.i1, op.i2);
                push_lines(out, '+', b, op.j1, op.j2);
            },
            Tag::Delete => {
                push_lines(out, '-', a, op.i1, op.i2);
            },
            Tag::Insert => {
                push_lines(out, '+', b, op.j1, op.j2);
            },
        }
        assert(out@ =~= before + op_text(av, bv, op));
        assert(group@.take(t + 1).drop_last() =~= group@.take(t as int));
        assert(group@.take(t + 1).last() == op);
        assert(out@ =~= head + ops_text(av, bv, group@.take(t + 1)));
        t = t + 1;
    }
    assert(group@.take(group@.len() as int) =~= group@);
    assert(out@ =~= keep + hunk_text(av, bv, group@));
}

fn unified_diff(a: &Vec<String>, b: &Vec<String>, name_a: &str, name_b: &str) -> (out: String)
    ensures
        out@ == unified_text(
            a.deep_view(),
            b.deep_view(),
            grouped(difflib_opcodes(a.deep_view(), b.deep_view()), 3),
            name_a@,
            name_b@,
        ),
        tiles_from(a.deep_view(), b.deep_view(), difflib_opcodes(a.deep_view(), b.deep_view()), 0, 0),
        a.deep_view() != b.deep_view() ==> out@.len() >= diff_header(name_a@, name_b@).len()
            && out@.subrange(0, diff_header(name_a@, name_b@).len() as int) == diff_header(name_a@, name_b@),
{
    let ghost av = a.deep_view();
    let ghost bv = b.deep_view();
    let ghost la = a@.len() as int;
    let ghost lb = b@.len() as int;
    let codes = opcodes(a, b);
    let ghost cv = codes@;
    proof {
        lemma_tiles_in(av, bv, cv, 0, 0);
        if !has_change(cv) {
            assert(all_equal(cv));
            lemma_equal_tiling(av, bv, cv, 0, 0);
            assert(av.skip(0) =~= av);
            assert(bv.skip(0) =~= bv);
        }
    }
    let groups = grouped_opcodes(codes, 3, Ghost(la), Ghost(lb));
    let ghost gv = views(groups@);
    let ghost hv = diff_header(name_a@, name_b@);
    let mut out = String::new();
    let mut g: usize = 0;
    while g < groups.len()
        invariant
            g <= groups@.len(),
            gv == views(groups@),
            forall|q: int| 0 <= q < groups@.len() ==> group_ok(#[trigger] groups@[q]@, la, lb),
            g == 0 ==> out@.len() == 0,
            g > 0 ==> out@ == hv + hunks_text(av, bv, gv.take(g as int)),
            hv == diff_header(name_a@, name_b@),
            av == a.deep_view(),
            bv == b.deep_view(),
            la == a@.len(),
            lb == b@.len(),
        decreases groups@.len() - g,
    {
        let group = &groups[g];
        assert(gv[g as int] == group@);
        assert(group_ok(group@, la, lb));
        if g == 0 {
            push_str(&mut out, "--- ");
            push_str(&mut out, name_a);
            push_str(&mut out, "\n");
            push_str(&mut out, "+++ ");
            push_str(&mut out, name_b);
            push_str(&mut out, "\n");
            assert(gv.take(0) =~= Seq::<Seq<Opcode>>::empty());
            assert(out@ =~= hv + hunks_text(av, bv, gv.take(0)));
        }
        let ghost keep = out@;
        push_hunk(&mut out, a, b, group, Ghost(la), Ghost(lb));
        assert(out@ =~= keep + hunk_text(av, bv, group@));
        assert(gv.take(g + 1).drop_last() =~= gv.take(g as int));
        assert(gv.take(g + 1).last() == group@);
        assert(out@ =~= hv + hunks_text(av, bv, gv.take(g + 1)));
        g = g + 1;
    }
    proof {
        assert(gv.take(groups@.len() as int) =~= gv);
        if groups@.len() == 0 {
            assert(out@ =~= unified_text(av, bv, grouped(cv, 3), name_a@, name_b@));
        } else {
            assert(out@.subrange(0, hv.len() as int) =~= hv);
        }
        assert(tiles_from(av, bv, cv, 0, 0));
    }
    out
}

/// Unified diff of two texts with three lines of context, laid out as
/// Python's `difflib.unified_diff(..., n=3, lineterm='\n')` lays it out.
/// Empty exactly when the texts are equal; otherwise the header and the
/// hunks that difflib's grouping makes of difflib's edit script between the
/// lines of `a` and those of `b`; applied to the lines of `a`, those hunks
/// give the lines of `b`.
pub fn diff_text(a: &str, b: &str, name_a: &str, name_b: &str) -> (out: String)
    ensures
        (out@.len() == 0) == (a@ == b@),
        a@ != b@ ==> out@ == unified_text(
            lines_of(a@),
            lines_of(b@),
            grouped(difflib_opcodes(lines_of(a@), lines_of(b@)), 3),
            name_a@,
            name_b@,
        ),
        a@ != b@ ==> tiles_from(lines_of(a@), lines_of(b@), difflib_opcodes(lines_of(a@), lines_of(b@)), 0, 0),
        a@ != b@ ==> apply_hunks(
            lines_of(a@),
            lines_of(b@),
            grouped(difflib_opcodes(lines_of(a@), lines_of(b@)), 3),
            0,
        ) == lines_of(b@),
        a@ != b@ ==> out@.len() >= diff_header(name_a@, name_b@).len() && out@.subrange(
            0,
            diff_header(name_a@, name_b@).len() as int,
        ) == diff_header(name_a@, name_b@),
{
    if str_eq(a, b) {
        return String::new();
    }
    let la = split_keepends(a);
    let lb = split_keepends(b);
    proof {
        if la.deep_view() == lb.deep_view() {
            lemma_lines_determine_text(a@, b@);
        }
        reveal_strlit("--- ");
    }
    let out = unified_diff(&la, &lb, name_a, name_b);
    proof {
        law_patch_applies(lines_of(a@), lines_of(b@), difflib_opcodes(lines_of(a@), lines_of(b@)), 3);
    }
    out
}

} // verus!
