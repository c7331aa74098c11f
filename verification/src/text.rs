use vstd::prelude::*;
use vstd::string::*;

verus! {

/// Byte length of the UTF-8 encoding of `s`.
pub open spec fn byte_len(s: Seq<char>) -> nat {
    vstd::utf8::encode_utf8(s).len()
}

/// Byte offset of the character at index `k` of `s`.
pub open spec fn byte_offset(s: Seq<char>, k: int) -> nat {
    byte_len(s.take(k))
}

/// Encoding a concatenation concatenates the encodings.
pub proof fn lemma_encode_concat(a: Seq<char>, b: Seq<char>)
    ensures
        vstd::utf8::encode_utf8(a + b) == vstd::utf8::encode_utf8(a) + vstd::utf8::encode_utf8(b),
    decreases a.len(),
{
    if a.len() == 0 {
        assert(a + b =~= b);
        assert(vstd::utf8::encode_utf8(a) =~= Seq::<u8>::empty());
        assert(Seq::<u8>::empty() + vstd::utf8::encode_utf8(b) =~= vstd::utf8::encode_utf8(b));
    } else {
        lemma_encode_concat(a.drop_first(), b);
        assert((a + b).drop_first() =~= a.drop_first() + b);
        assert((a + b)[0] == a[0]);
        let e0 = vstd::utf8::encode_scalar(a[0] as u32);
        assert(vstd::utf8::encode_utf8(a + b) == e0 + vstd::utf8::encode_utf8(a.drop_first() + b));
        assert(e0 + (vstd::utf8::encode_utf8(a.drop_first()) + vstd::utf8::encode_utf8(b))
            =~= (e0 + vstd::utf8::encode_utf8(a.drop_first())) + vstd::utf8::encode_utf8(b));
    }
}

/// Extending a prefix by one character adds that character's width.
pub proof fn lemma_byte_offset_step(s: Seq<char>, k: int)
    requires
        0 <= k < s.len(),
    ensures
        byte_offset(s, k + 1) == byte_offset(s, k) + vstd::utf8::encode_scalar(s[k] as u32).len(),
        byte_offset(s, k) < byte_offset(s, k + 1),
{
    assert(s.take(k + 1) =~= s.take(k) + seq![s[k]]);
    lemma_encode_concat(s.take(k), seq![s[k]]);
    assert(seq![s[k]].drop_first() =~= Seq::<char>::empty());
    assert(vstd::utf8::encode_utf8(Seq::<char>::empty()) =~= Seq::<u8>::empty());
    assert(vstd::utf8::encode_utf8(seq![s[k]]) =~= vstd::utf8::encode_scalar(s[k] as u32));
}

/// Byte offsets grow with the character index and never pass the full length.
pub proof fn lemma_byte_offset_mono(s: Seq<char>, j: int, k: int)
    requires
        0 <= j <= k <= s.len(),
    ensures
        byte_offset(s, j) <= byte_offset(s, k),
        j < k ==> byte_offset(s, j) < byte_offset(s, k),
        byte_offset(s, k) <= byte_len(s),
    decreases s.len() - j,
{
    if j < s.len() {
        lemma_byte_offset_step(s, j);
        if j < k {
            lemma_byte_offset_mono(s, j + 1, k);
        } else {
            lemma_byte_offset_mono(s, j + 1, j + 1);
        }
    } else {
        assert(s.take(j) =~= s);
    }
}

/// UTF-8 width of one character.
pub fn char_width(c: char) -> (w: usize)
    ensures
        w == vstd::utf8::encode_scalar(c as u32).len(),
        1 <= w <= 4,
{
    proof {
        vstd::utf8::char_is_scalar(c);
    }
    let v = c as u32;
    if v <= 0x7F {
        1
    } else if v <= 0x7FF {
        2
    } else if v <= 0xFFFF {
        3
    } else {
        4
    }
}

/// `String::push`: appends one character.
#[verifier::external_body]
pub(crate) fn push_char(s: &mut String, c: char)
    ensures
        final(s)@ == old(s)@.push(c),
{
    s.push(c)
}

/// A new string holding `s`.
pub fn owned(s: &str) -> (r: String)
    ensures
        r@ == s@,
{
    String::from_str(s)
}

/// Appends `t`.
pub fn push_str(s: &mut String, t: &str)
    ensures
        final(s)@ == old(s)@ + t@,
{
    s.append(t)
}

/// The string holding exactly `cs[from..to]`.
pub fn string_of(cs: &Vec<char>, from: usize, to: usize) -> (r: String)
    requires
        from <= to <= cs@.len(),
    ensures
        r@ == cs@.subrange(from as int, to as int),
{
    let mut r = String::new();
    let mut k = from;
    while k < to
        invariant
            from <= k <= to <= cs@.len(),
            r@ == cs@.subrange(from as int, k as int),
        decreases to - k,
    {
        push_char(&mut r, cs[k]);
        assert(cs@.subrange(from as int, k + 1) =~= cs@.subrange(from as int, k as int).push(cs@[k as int]));
        k = k + 1;
    }
    r
}

/// The characters of `s`, in order.
pub fn chars_of(s: &str) -> (out: Vec<char>)
    ensures
        out@ == s@,
{
    let mut out: Vec<char> = Vec::new();
    for c in it: s.chars()
        invariant
            out@ == it.seq().take(it.index() as int),
    {
        out.push(c);
    }
    out
}

/// `a` and `b` hold the same characters.
pub fn str_eq(a: &str, b: &str) -> (r: bool)
    ensures
        r == (a@ == b@),
{
    let x = a.as_bytes();
    let y = b.as_bytes();
    proof {
        vstd::utf8::encode_utf8_decode_utf8(a@);
        vstd::utf8::encode_utf8_decode_utf8(b@);
    }
    if x.len() != y.len() {
        return false;
    }
    let mut i: usize = 0;
    while i < x.len()
        invariant
            x@.len() == y@.len(),
            x@ == vstd::utf8::encode_utf8(a@),
            y@ == vstd::utf8::encode_utf8(b@),
            i <= x@.len(),
            forall|k: int| 0 <= k < i ==> x@[k] == y@[k],
        decreases x@.len() - i,
    {
        if x[i] != y[i] {
            assert(x@[i as int] != y@[i as int]);
            assert(a@ != b@) by {
                if a@ == b@ {
                    assert(x@ == vstd::utf8::encode_utf8(a@));
                    assert(y@ == vstd::utf8::encode_utf8(b@));
                }
            }
            return false;
        }
        i = i + 1;
    }
    assert(x@ =~= y@);
    true
}

/// Decimal digits of `n`, most significant first.
pub open spec fn decimal(n: nat) -> Seq<char>
    decreases n,
{
    if n < 10 {
        seq![digit_char(n)]
    } else {
        decimal(n / 10).push(digit_char(n % 10))
    }
}

pub open spec fn digit_char(d: nat) -> char {
    if d == 0 { '0' } else if d == 1 { '1' } else if d == 2 { '2' } else if d == 3 { '3' }
    else if d == 4 { '4' } else if d == 5 { '5' } else if d == 6 { '6' } else if d == 7 { '7' }
    else if d == 8 { '8' } else { '9' }
}

pub fn digit(d: usize) -> (c: char)
    requires
        d < 10,
    ensures
        c == digit_char(d as nat),
{
    if d == 0 { '0' } else if d == 1 { '1' } else if d == 2 { '2' } else if d == 3 { '3' }
    else if d == 4 { '4' } else if d == 5 { '5' } else if d == 6 { '6' } else if d == 7 { '7' }
    else if d == 8 { '8' } else { '9' }
}

/// Appends the decimal form of `n`.
pub fn push_decimal(s: &mut String, n: usize)
    ensures
        final(s)@ == old(s)@ + decimal(n as nat),
    decreases n,
{
    if n >= 10 {
        push_decimal(s, n / 10);
    }
    push_char(s, digit(n % 10));
    proof {
        if n >= 10 {
            assert(old(s)@ + decimal(n as nat) =~= (old(s)@ + decimal((n / 10) as nat)).push(digit_char((n % 10) as nat)));
        } else {
            assert(old(s)@ + decimal(n as nat) =~= old(s)@.push(digit_char((n % 10) as nat)));
        }
    }
}

/// Whether `c` has Unicode's White_Space property (what `char::is_whitespace` tests).
pub open spec fn is_white_space(c: char) -> bool {
    let v = c as u32;
    (0x09 <= v <= 0x0D) || v == 0x20 || v == 0x85 || v == 0xA0 || v == 0x1680 || (0x2000 <= v
        <= 0x200A) || v == 0x2028 || v == 0x2029 || v == 0x202F || v == 0x205F || v == 0x3000
}

pub fn white_space(c: char) -> (r: bool)
    ensures
        r == is_white_space(c),
{
    let v = c as u32;
    (0x09 <= v && v <= 0x0D) || v == 0x20 || v == 0x85 || v == 0xA0 || v == 0x1680 || (0x2000
        <= v && v <= 0x200A) || v == 0x2028 || v == 0x2029 || v == 0x202F || v == 0x205F || v
        == 0x3000
}

/// `p` is a prefix of `s`.
pub open spec fn has_prefix(s: Seq<char>, p: Seq<char>) -> bool {
    p.len() <= s.len() && s.take(p.len() as int) == p
}

pub proof fn lemma_prefix_at(s: Seq<char>, p: Seq<char>, i: int)
    requires
        has_prefix(s, p),
        0 <= i < p.len(),
    ensures
        s[i] == p[i],
{
    assert(s.take(p.len() as int)[i] == s[i]);
}

/// `p` is a suffix of `s`.
pub open spec fn has_suffix(s: Seq<char>, p: Seq<char>) -> bool {
    p.len() <= s.len() && s.skip(s.len() - p.len()) == p
}

/// Whether `s` starts with `p`.
pub fn starts_with(s: &str, p: &str) -> (r: bool)
    ensures
        r == has_prefix(s@, p@),
{
    let n = s.unicode_len();
    let m = p.unicode_len();
    if m > n {
        return false;
    }
    let mut i: usize = 0;
    while i < m
        invariant
            m == p@.len(),
            n == s@.len(),
            m <= n,
            i <= m,
            forall|k: int| 0 <= k < i ==> s@[k] == p@[k],
        decreases m - i,
    {
        if s.get_char(i) != p.get_char(i) {
            return false;
        }
        i = i + 1;
    }
    assert(s@.take(m as int) =~= p@);
    true
}

/// Whether `s` ends with `p`.
pub fn ends_with(s: &str, p: &str) -> (r: bool)
    ensures
        r == has_suffix(s@, p@),
{
    let n = s.unicode_len();
    let m = p.unicode_len();
    if m > n {
        return false;
    }
    let off = n - m;
    let mut i: usize = 0;
    while i < m
        invariant
            m == p@.len(),
            n == s@.len(),
            m <= n,
            off == n - m,
            i <= m,
            forall|k: int| 0 <= k < i ==> s@[off + k] == p@[k],
        decreases m - i,
    {
        if s.get_char(off + i) != p.get_char(i) {
            assert(s@.skip(off as int)[i as int] != p@[i as int]);
            return false;
        }
        i = i + 1;
    }
    assert(s@.skip(off as int) =~= p@);
    true
}

/// `a` and `b` hold the same strings, in the same order.
pub fn strings_eq(a: &Vec<String>, b: &Vec<String>) -> (r: bool)
    ensures
        r == (a.deep_view() == b.deep_view()),
{
    if a.len() != b.len() {
        proof {
            if a.deep_view() == b.deep_view() {
                assert(a.deep_view().len() == b.deep_view().len());
            }
        }
        return false;
    }
    let mut k: usize = 0;
    while k < a.len()
        invariant
            a@.len() == b@.len(),
            k <= a@.len(),
            forall|j: int| 0 <= j < k ==> a@[j]@ == b@[j]@,
        decreases a@.len() - k,
    {
        if !str_eq(a[k].as_str(), b[k].as_str()) {
            proof {
                if a.deep_view() == b.deep_view() {
                    assert(a.deep_view()[k as int] == b.deep_view()[k as int]);
                }
            }
            return false;
        }
        k = k + 1;
    }
    assert(a.deep_view() =~= b.deep_view());
    true
}

/// The non-empty pieces of `s[k..]` between `sep` characters, the first of
/// them continuing `cur`.
pub open spec fn pieces_from(s: Seq<char>, sep: char, k: int, cur: Seq<char>) -> Seq<Seq<char>>
    decreases s.len() - k,
{
    if k >= s.len() || k < 0 {
        if cur.len() > 0 {
            seq![cur]
        } else {
            Seq::empty()
        }
    } else if s[k] == sep {
        (if cur.len() > 0 {
            seq![cur]
        } else {
            Seq::empty()
        }) + pieces_from(s, sep, k + 1, Seq::empty())
    } else {
        pieces_from(s, sep, k + 1, cur.push(s[k]))
    }
}

/// The non-empty pieces of `s` between `sep` characters, in order.
pub open spec fn pieces(s: Seq<char>, sep: char) -> Seq<Seq<char>> {
    pieces_from(s, sep, 0, Seq::empty())
}

/// Splits `s` at each `sep` and keeps the non-empty pieces.
pub fn split_pieces(s: &str, sep: char) -> (out: Vec<String>)
    ensures
        out.deep_view() == pieces(s@, sep),
{
    let cs = chars_of(s);
    let mut out: Vec<String> = Vec::new();
    let mut cur = String::new();
    let mut filled = false;
    let mut k: usize = 0;
    while k < cs.len()
        invariant
            cs@ == s@,
            k <= cs@.len(),
            filled == (cur@.len() > 0),
            pieces(s@, sep) == out.deep_view() + pieces_from(s@, sep, k as int, cur@),
        decreases cs@.len() - k,
    {
        let c = cs[k];
        if c == sep {
            let ghost prev = out.deep_view();
            let ghost cv = cur@;
            if filled {
                out.push(cur);
                assert(out.deep_view() =~= prev + seq![cv]);
            } else {
                assert(out.deep_view() =~= prev + Seq::<Seq<char>>::empty());
            }
            cur = String::new();
            filled = false;
            assert(prev + ((if cv.len() > 0 { seq![cv] } else { Seq::<Seq<char>>::empty() }) + pieces_from(s@, sep, k + 1, Seq::empty())) =~= out.deep_view() + pieces_from(s@, sep, k + 1, cur@));
        } else {
            push_char(&mut cur, c);
            filled = true;
        }
        k = k + 1;
    }
    let ghost prev = out.deep_view();
    let ghost cv = cur@;
    if filled {
        out.push(cur);
        assert(out.deep_view() =~= prev + seq![cv]);
    } else {
        assert(out.deep_view() =~= prev + Seq::<Seq<char>>::empty());
    }
    out
}

/// `a` sorts before `b`: lexicographic order of the characters' code points,
/// a proper prefix first.
pub open spec fn seq_less(a: Seq<char>, b: Seq<char>) -> bool
    decreases a.len(),
{
    if a.len() == 0 {
        b.len() > 0
    } else if b.len() == 0 {
        false
    } else if a[0] == b[0] {
        seq_less(a.skip(1), b.skip(1))
    } else {
        (a[0] as u32) < (b[0] as u32)
    }
}

/// Distinct characters have distinct code points.
proof fn lemma_char_code(x: char, y: char)
    ensures
        (x == y) <==> ((x as u32) == (y as u32)),
{
}

/// `seq_less` is asymmetric.
pub proof fn lemma_seq_less_asym(a: Seq<char>, b: Seq<char>)
    requires
        seq_less(a, b),
    ensures
        !seq_less(b, a),
    decreases a.len(),
{
    if a.len() > 0 && b.len() > 0 && a[0] == b[0] {
        lemma_seq_less_asym(a.skip(1), b.skip(1));
    }
}

/// Two different sequences are ordered one way or the other.
pub proof fn lemma_seq_less_total(a: Seq<char>, b: Seq<char>)
    requires
        a != b,
    ensures
        seq_less(a, b) || seq_less(b, a),
    decreases a.len(),
{
    if a.len() > 0 && b.len() > 0 {
        lemma_char_code(a[0], b[0]);
        if a[0] == b[0] {
            assert(a =~= seq![a[0]] + a.skip(1));
            assert(b =~= seq![b[0]] + b.skip(1));
            lemma_seq_less_total(a.skip(1), b.skip(1));
        }
    } else if a.len() == 0 {
        assert(b.len() > 0) by {
            if b.len() == 0 {
                assert(a =~= b);
            }
        }
    }
}

/// `seq_less` is a strict total order on `a`, `b` and `c`.
pub proof fn lemma_seq_order(a: Seq<char>, b: Seq<char>, c: Seq<char>)
    ensures
        !seq_less(a, a),
        !seq_less(b, b),
        !seq_less(c, c),
        a != b ==> seq_less(a, b) || seq_less(b, a),
        b != c ==> seq_less(b, c) || seq_less(c, b),
        a != c ==> seq_less(a, c) || seq_less(c, a),
        seq_less(a, b) && seq_less(b, c) ==> seq_less(a, c),
        seq_less(c, b) && seq_less(b, a) ==> seq_less(c, a),
        seq_less(b, a) && seq_less(a, c) ==> seq_less(b, c),
        seq_less(c, a) && seq_less(a, b) ==> seq_less(c, b),
        seq_less(a, c) && seq_less(c, b) ==> seq_less(a, b),
        seq_less(b, c) && seq_less(c, a) ==> seq_less(b, a),
{
    if seq_less(a, a) {
        lemma_seq_less_asym(a, a);
    }
    if seq_less(b, b) {
        lemma_seq_less_asym(b, b);
    }
    if seq_less(c, c) {
        lemma_seq_less_asym(c, c);
    }
    if a != b {
        lemma_seq_less_total(a, b);
    }
    if b != c {
        lemma_seq_less_total(b, c);
    }
    if a != c {
        lemma_seq_less_total(a, c);
    }
    lemma_seq_trans(a, b, c);
    lemma_seq_trans(c, b, a);
    lemma_seq_trans(b, a, c);
    lemma_seq_trans(c, a, b);
    lemma_seq_trans(a, c, b);
    lemma_seq_trans(b, c, a);
}

proof fn lemma_seq_trans(a: Seq<char>, b: Seq<char>, c: Seq<char>)
    ensures
        seq_less(a, b) && seq_less(b, c) ==> seq_less(a, c),
{
    if seq_less(a, b) && seq_less(b, c) {
        lemma_seq_less_split(a, c, b);
        if seq_less(c, b) {
            lemma_seq_less_asym(b, c);
        }
    }
}

/// Whatever lies between two ordered sequences is after the first or
/// before the second.
pub proof fn lemma_seq_less_split(a: Seq<char>, b: Seq<char>, c: Seq<char>)
    requires
        seq_less(a, c),
    ensures
        seq_less(a, b) || seq_less(b, c),
    decreases a.len(),
{
    if a.len() > 0 && b.len() > 0 && c.len() > 0 {
        let a0 = a[0] as u32;
        let b0 = b[0] as u32;
        let c0 = c[0] as u32;
        lemma_char_code(a[0], b[0]);
        lemma_char_code(b[0], c[0]);
        lemma_char_code(a[0], c[0]);
        if a[0] == c[0] {
            if b[0] == a[0] {
                lemma_seq_less_split(a.skip(1), b.skip(1), c.skip(1));
            } else if a0 < b0 {
                assert(seq_less(a, b));
            } else {
                assert(c0 == a0);
                assert(b0 != a0);
                assert(b0 < c0);
                assert(b[0] != c[0]);
                assert(seq_less(b, c));
            }
        } else {
            assert(a0 < c0);
            if b[0] == a[0] {
                assert(b[0] != c[0]);
                assert(seq_less(b, c));
            } else if a0 < b0 {
                assert(seq_less(a, b));
            } else {
                assert(b0 < c0);
                assert(b[0] != c[0]);
                assert(seq_less(b, c));
            }
        }
    }
}

/// Whether `a` sorts before `b` (see [`seq_less`]).
pub fn str_less(a: &str, b: &str) -> (r: bool)
    ensures
        r == seq_less(a@, b@),
{
    let x = chars_of(a);
    let y = chars_of(b);
    let mut i: usize = 0;
    assert(a@.skip(0) =~= a@);
    assert(b@.skip(0) =~= b@);
    while i < x.len() && i < y.len() && x[i] == y[i]
        invariant
            x@ == a@,
            y@ == b@,
            i <= x@.len(),
            i <= y@.len(),
            seq_less(a@, b@) == seq_less(a@.skip(i as int), b@.skip(i as int)),
        decreases x@.len() - i,
    {
        assert(a@.skip(i as int).skip(1) =~= a@.skip(i + 1));
        assert(b@.skip(i as int).skip(1) =~= b@.skip(i + 1));
        i = i + 1;
    }
    if i == x.len() {
        i < y.len()
    } else if i == y.len() {
        false
    } else {
        assert(a@.skip(i as int)[0] == x@[i as int]);
        assert(b@.skip(i as int)[0] == y@[i as int]);
        (x[i] as u32) < (y[i] as u32)
    }
}

/// `String::from_utf8`: the text of `bytes` when they are valid UTF-8, which
/// then encodes back to exactly those bytes; `None` otherwise.
#[verifier::external_body]
pub(crate) fn utf8_text(bytes: Vec<u8>) -> (r: Option<String>)
    ensures
        r is Some <==> vstd::utf8::valid_utf8(bytes@),
        r matches Some(s) ==> s@ == vstd::utf8::decode_utf8(bytes@),
{
    String::from_utf8(bytes).ok()
}

/// ASCII digit value of `c`, if it is one.
pub open spec fn digit_value(c: char) -> Option<nat> {
    if '0' <= c <= '9' {
        Some((c as u32 - '0' as u32) as nat)
    } else {
        None
    }
}

pub open spec fn all_digits(s: Seq<char>) -> bool {
    forall|i: int| 0 <= i < s.len() ==> #[trigger] digit_value(s[i]) is Some
}

/// Value of a string of decimal digits.
pub open spec fn digits_value(s: Seq<char>) -> nat
    decreases s.len(),
{
    if s.len() == 0 {
        0
    } else {
        digits_value(s.drop_last()) * 10 + match digit_value(s.last()) {
            Some(d) => d,
            None => 0,
        }
    }
}

/// `usize::from_str`: an optional `+`, then one or more ASCII digits, whose
/// value fits in `usize`.
pub open spec fn parsed_usize(s: Seq<char>) -> Option<nat> {
    let d = if s.len() > 0 && s[0] == '+' {
        s.skip(1)
    } else {
        s
    };
    if d.len() == 0 || !all_digits(d) || digits_value(d) > usize::MAX {
        None
    } else {
        Some(digits_value(d))
    }
}

proof fn lemma_digits_value_mono(s: Seq<char>, k: int)
    requires
        0 <= k <= s.len(),
    ensures
        digits_value(s.take(k)) <= digits_value(s),
    decreases s.len() - k,
{
    if k < s.len() {
        lemma_digits_value_mono(s, k + 1);
        assert(s.take(k + 1).drop_last() =~= s.take(k));
    } else {
        assert(s.take(k) =~= s);
    }
}

/// Parses a `usize` as `usize::from_str` does.
pub fn parse_usize(s: &str) -> (r: Option<usize>)
    ensures
        match r {
            Some(v) => parsed_usize(s@) == Some(v as nat),
            None => parsed_usize(s@) is None,
        },
{
    let cs = chars_of(s);
    let start: usize = if cs.len() > 0 && cs[0] == '+' { 1 } else { 0 };
    let ghost d = if s@.len() > 0 && s@[0] == '+' { s@.skip(1) } else { s@ };
    assert(d =~= cs@.skip(start as int));
    if start >= cs.len() {
        return None;
    }
    let mut v: usize = 0;
    let mut k = start;
    assert(d.take(0) =~= Seq::<char>::empty());
    while k < cs.len()
        invariant
            start <= k <= cs@.len(),
            start < cs@.len(),
            cs@ == s@,
            d == (if s@.len() > 0 && s@[0] == '+' { s@.skip(1) } else { s@ }),
            d == cs@.skip(start as int),
            v == digits_value(d.take(k - start)),
            all_digits(d.take(k - start)),
        decreases cs@.len() - k,
    {
        let c = cs[k];
        assert(d[k - start] == c);
        if !('0' <= c && c <= '9') {
            assert(!all_digits(d)) by {
                assert(digit_value(d[k - start]) is None);
            }
            return None;
        }
        let dv = (c as u32 - '0' as u32) as usize;
        assert(d.take(k - start + 1).drop_last() =~= d.take(k - start));
        assert(d.take(k - start + 1).last() == c);
        if v > (usize::MAX - dv) / 10 {
            proof {
                assert(digits_value(d.take(k - start + 1)) == v * 10 + dv);
                assert(v * 10 + dv > usize::MAX) by (nonlinear_arith)
                    requires
                        v > (usize::MAX - dv) / 10,
                        dv <= 9,
                ;
                lemma_digits_value_mono(d, k - start + 1);
            }
            return None;
        }
        v = v * 10 + dv;
        proof {
            assert forall|i: int| 0 <= i < d.take(k - start + 1).len() implies #[trigger] digit_value(d.take(k - start + 1)[i]) is Some by {
                if i < k - start {
                    assert(d.take(k - start + 1)[i] == d.take(k - start)[i]);
                }
            }
        }
        k = k + 1;
    }
    assert(d.take(cs@.len() - start) =~= d);
    Some(v)
}

/// `s` without the run of `c` at its end.
pub open spec fn trimmed_end(s: Seq<char>, c: char) -> Seq<char>
    decreases s.len(),
{
    if s.len() > 0 && s.last() == c {
        trimmed_end(s.drop_last(), c)
    } else {
        s
    }
}

/// `s.trim_end_matches(c)`.
pub fn trim_end_char(s: &str, c: char) -> (r: String)
    ensures
        r@ == trimmed_end(s@, c),
{
    let cs = chars_of(s);
    let mut end = cs.len();
    assert(cs@.take(end as int) =~= cs@);
    while end > 0 && cs[end - 1] == c
        invariant
            end <= cs@.len(),
            cs@ == s@,
            trimmed_end(s@, c) == trimmed_end(cs@.take(end as int), c),
        decreases end,
    {
        assert(cs@.take(end as int).drop_last() =~= cs@.take(end - 1));
        end = end - 1;
    }
    let r = string_of(&cs, 0, end);
    assert(r@ =~= cs@.take(end as int));
    r
}

/// The characters that [`trim_class_chars`] strips: whitespace, or the
/// quote characters `"`, `'` and a backtick.
pub open spec fn in_trim_class(white: bool, c: char) -> bool {
    if white {
        is_white_space(c)
    } else {
        c == '"' || c == '\'' || c == '`'
    }
}

pub open spec fn start_trimmed(s: Seq<char>, white: bool) -> Seq<char>
    decreases s.len(),
{
    if s.len() > 0 && in_trim_class(white, s[0]) {
        start_trimmed(s.drop_first(), white)
    } else {
        s
    }
}

pub open spec fn end_trimmed(s: Seq<char>, white: bool) -> Seq<char>
    decreases s.len(),
{
    if s.len() > 0 && in_trim_class(white, s.last()) {
        end_trimmed(s.drop_last(), white)
    } else {
        s
    }
}

/// `s` without the characters of the class at either end.
pub open spec fn class_trimmed(s: Seq<char>, white: bool) -> Seq<char> {
    end_trimmed(start_trimmed(s, white), white)
}

fn in_class(white: bool, c: char) -> (r: bool)
    ensures
        r == in_trim_class(white, c),
{
    if white {
        white_space(c)
    } else {
        c == '"' || c == '\'' || c == '`'
    }
}

/// `s.trim()` (whitespace) or `s.trim_matches(['"', '\'', '`'])` (quotes).
pub fn trim_class_chars(s: &str, white: bool) -> (r: String)
    ensures
        r@ == class_trimmed(s@, white),
{
    let cs = chars_of(s);
    let n = cs.len();
    let mut a: usize = 0;
    assert(cs@.subrange(0, n as int) =~= cs@);
    while a < n && in_class(white, cs[a])
        invariant
            a <= n == cs@.len(),
            cs@ == s@,
            start_trimmed(s@, white) == start_trimmed(cs@.subrange(a as int, n as int), white),
        decreases n - a,
    {
        assert(cs@.subrange(a as int, n as int).drop_first() =~= cs@.subrange(a + 1, n as int));
        a = a + 1;
    }
    let ghost u = cs@.subrange(a as int, n as int);
    assert(start_trimmed(s@, white) == u);
    let mut b = n;
    assert(u =~= cs@.subrange(a as int, b as int));
    while b > a && in_class(white, cs[b - 1])
        invariant
            a <= b <= n == cs@.len(),
            end_trimmed(u, white) == end_trimmed(cs@.subrange(a as int, b as int), white),
        decreases b,
    {
        assert(cs@.subrange(a as int, b as int).drop_last() =~= cs@.subrange(a as int, b - 1));
        b = b - 1;
    }
    string_of(&cs, a, b)
}

} // verus!
