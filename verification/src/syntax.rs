//! Concrete syntax trees as plain values: the pre-order node records that
//! tree-sitter produces, with the navigation that the extractors use.
use vstd::prelude::*;

use crate::text::{str_eq, string_of, byte_len, byte_offset, char_width, chars_of, lemma_byte_offset_mono, lemma_byte_offset_step};

verus! {

/// Grammar used to parse a source text.
#[derive(Clone, Copy, Debug, PartialEq, Eq, Structural)]
pub enum Grammar {
    Rust,
    Java,
    TypeScript,
    Tsx,
}

/// One node of a parsed tree, listed in pre-order.
pub struct NodeRecord {
    /// Node kind, such as `function_item`.
    pub kind: String,
    /// Field name under which the node hangs from its parent.
    pub field: Option<String>,
    /// Named (as opposed to anonymous punctuation) node.
    pub named: bool,
    /// Byte offset where the node starts.
    pub start: usize,
    /// Exclusive byte offset where the node ends.
    pub end: usize,
    /// Distance from the root.
    pub depth: usize,
}

/// Mathematical value of a [`NodeRecord`].
pub struct NodeView {
    pub kind: Seq<char>,
    pub field: Option<Seq<char>>,
    pub named: bool,
    pub start: int,
    pub end: int,
    pub depth: int,
}

pub open spec fn opt_string_view(o: Option<String>) -> Option<Seq<char>> {
    match o {
        Some(s) => Some(s@),
        None => None,
    }
}

impl View for NodeRecord {
    type V = NodeView;

    open spec fn view(&self) -> NodeView {
        NodeView {
            kind: self.kind@,
            field: opt_string_view(self.field),
            named: self.named,
            start: self.start as int,
            end: self.end as int,
            depth: self.depth as int,
        }
    }
}

pub open spec fn records_view(v: Seq<NodeRecord>) -> Seq<NodeView> {
    v.map_values(|r: NodeRecord| r@)
}

/// The pre-order records of the tree that tree-sitter builds for `src` with `grammar`.
pub uninterp spec fn parsed_records(grammar: Grammar, src: Seq<char>) -> Seq<NodeView>;

/// A node as tree-sitter reports it: kind, field name, namedness, byte
/// range and depth.
pub type RawRecord = (String, Option<String>, bool, usize, usize, u32);

pub open spec fn raw_record_view(r: RawRecord) -> NodeView {
    NodeView {
        kind: r.0@,
        field: opt_string_view(r.1),
        named: r.2,
        start: r.3 as int,
        end: r.4 as int,
        depth: r.5 as int,
    }
}

/// Runs tree-sitter's `Parser::parse` on `src` with the bundled grammar and
/// lists the nodes of the resulting tree in pre-order
/// (`TreeCursor::goto_descendant`), each with its kind, field name,
/// namedness, byte range and depth. The contract says only that the list is
/// a function of the grammar and the text; what it holds is not stated.
/// `set_language` fails only for a grammar built for another tree-sitter
/// ABI, which the bundled grammars are not, and `parse` returns a tree
/// whenever a language is set.
#[verifier::external_body]
fn parse_records(grammar: Grammar, src: &str) -> (out: Vec<RawRecord>)
    ensures
        out@.map_values(|r: RawRecord| raw_record_view(r)) == parsed_records(grammar, src@),
{
    let language = match grammar {
        Grammar::Rust => tree_sitter_rust::LANGUAGE,
        Grammar::Java => tree_sitter_java::LANGUAGE,
        Grammar::TypeScript => tree_sitter_typescript::LANGUAGE_TYPESCRIPT,
        Grammar::Tsx => tree_sitter_typescript::LANGUAGE_TSX,
    };
    let mut parser = tree_sitter::Parser::new();
    parser.set_language(&language.into()).expect("bundled grammar");
    let tree = parser.parse(src, None).expect("language is set");
    let mut c = tree.walk();
    (0..tree.root_node().descendant_count()).map(|i| {
        c.goto_descendant(i);
        let n = c.node();
        (n.kind().into(), c.field_name().map(String::from), n.is_named(), n.start_byte(), n.end_byte(), c.depth())
    }).collect()
}

/// The records of `raw`, in order.
fn records_of(raw: Vec<RawRecord>) -> (out: Vec<NodeRecord>)
    ensures
        records_view(out@) == raw@.map_values(|r: RawRecord| raw_record_view(r)),
{
    let ghost rv = raw@.map_values(|r: RawRecord| raw_record_view(r));
    let mut out: Vec<NodeRecord> = Vec::new();
    let mut k: usize = 0;
    while k < raw.len()
        invariant
            k <= raw@.len(),
            rv == raw@.map_values(|r: RawRecord| raw_record_view(r)),
            records_view(out@) == rv.take(k as int),
        decreases raw@.len() - k,
    {
        let r = &raw[k];
        let field = match &r.1 {
            Some(f) => Some(f.clone()),
            None => None,
        };
        let ghost before = records_view(out@);
        out.push(NodeRecord { kind: r.0.clone(), field, named: r.2, start: r.3, end: r.4, depth: r.5 as usize });
        assert(records_view(out@) =~= before.push(rv[k as int]));
        assert(rv.take(k + 1) =~= rv.take(k as int).push(rv[k as int]));
        k = k + 1;
    }
    assert(rv.take(raw@.len() as int) =~= rv);
    out
}

/// First index at or after `k` whose depth is at most `d`.
pub open spec fn scan_end(r: Seq<NodeView>, d: int, k: int) -> int
    decreases r.len() - k,
{
    if k >= r.len() {
        r.len() as int
    } else if r[k].depth <= d {
        k
    } else {
        scan_end(r, d, k + 1)
    }
}

/// Exclusive end of the subtree rooted at node `i`.
pub open spec fn subtree_end(r: Seq<NodeView>, i: int) -> int {
    scan_end(r, r[i].depth, i + 1)
}

pub proof fn lemma_scan_end_bounds(r: Seq<NodeView>, d: int, k: int)
    requires
        0 <= k,
    ensures
        k <= scan_end(r, d, k) <= r.len() || (k > r.len() && scan_end(r, d, k) == r.len()),
        k <= r.len() ==> k <= scan_end(r, d, k) <= r.len(),
    decreases r.len() - k,
{
    if k < r.len() && r[k].depth > d {
        lemma_scan_end_bounds(r, d, k + 1);
    }
}

pub proof fn lemma_subtree_end_bounds(r: Seq<NodeView>, i: int)
    requires
        0 <= i < r.len(),
    ensures
        i < subtree_end(r, i) <= r.len(),
{
    lemma_scan_end_bounds(r, r[i].depth, i + 1);
}

/// Character index whose byte offset in `s` is `b`, if there is one.
pub open spec fn char_index(s: Seq<char>, b: int) -> Option<int> {
    if exists|k: int| 0 <= k <= s.len() && byte_offset(s, k) == b {
        Some(choose|k: int| 0 <= k <= s.len() && byte_offset(s, k) == b)
    } else {
        None
    }
}

/// Character span of the byte range `[start, end)`, when both ends fall on
/// character boundaries in order.
pub open spec fn char_span(s: Seq<char>, start: int, end: int) -> Option<(int, int)> {
    match (char_index(s, start), char_index(s, end)) {
        (Some(a), Some(b)) => if a <= b {
            Some((a, b))
        } else {
            None
        },
        _ => None,
    }
}

pub open spec fn span_view(o: Option<(usize, usize)>) -> Option<(int, int)> {
    match o {
        Some((a, b)) => Some((a as int, b as int)),
        None => None,
    }
}

/// A parsed source text.
pub struct SyntaxTree {
    pub nodes: Vec<NodeRecord>,
    /// Exclusive end index of each node's subtree.
    pub ends: Vec<usize>,
    /// Characters of the source.
    pub src: Vec<char>,
    /// Byte offset of each character index, one past the end included.
    pub pos: Vec<usize>,
    /// Character span of each node's text.
    pub spans: Vec<Option<(usize, usize)>>,
}

/// Mathematical value of a parsed source text: its node records and its
/// characters.
pub struct TreeView {
    pub recs: Seq<NodeView>,
    pub text: Seq<char>,
}

impl TreeView {
    pub open spec fn recs(&self) -> Seq<NodeView> {
        self.recs
    }

    pub open spec fn text(&self) -> Seq<char> {
        self.text
    }

    pub open spec fn len(&self) -> int {
        self.recs.len() as int
    }

    /// Source text of node `i`; empty when its byte range does not fall on
    /// character boundaries.
    pub open spec fn node_text(&self, i: int) -> Seq<char> {
        match char_span(self.text, self.recs[i].start, self.recs[i].end) {
            Some((a, b)) => self.text.subrange(a, b),
            None => Seq::empty(),
        }
    }
}

impl View for SyntaxTree {
    type V = TreeView;

    open spec fn view(&self) -> TreeView {
        TreeView { recs: self.recs(), text: self.text() }
    }
}

impl SyntaxTree {
    pub open spec fn recs(&self) -> Seq<NodeView> {
        records_view(self.nodes@)
    }

    pub open spec fn text(&self) -> Seq<char> {
        self.src@
    }

    pub open spec fn len(&self) -> int {
        self.nodes@.len() as int
    }

    pub open spec fn wf(&self) -> bool {
        &&& self.ends@.len() == self.nodes@.len()
        &&& forall|i: int|
            0 <= i < self.nodes@.len() ==> self.ends@[i] == subtree_end(self.recs(), i)
        &&& self.pos@.len() == self.src@.len() + 1
        &&& forall|k: int| 0 <= k <= self.src@.len() ==> self.pos@[k] == byte_offset(self.src@, k)
        &&& self.spans@.len() == self.nodes@.len()
        &&& forall|i: int|
            0 <= i < self.nodes@.len() ==> span_view(#[trigger] self.spans@[i]) == char_span(
                self.src@,
                self.recs()[i].start,
                self.recs()[i].end,
            )
    }

    /// Source text of node `i`.
    pub open spec fn node_text(&self, i: int) -> Seq<char> {
        self@.node_text(i)
    }
}

/// Byte offset of each character of `cs`, and of its end.
fn byte_positions(cs: &Vec<char>, total: usize) -> (pos: Vec<usize>)
    requires
        byte_len(cs@) == total,
    ensures
        pos@.len() == cs@.len() + 1,
        forall|k: int| 0 <= k <= cs@.len() ==> pos@[k] == byte_offset(cs@, k),
{
    let mut pos: Vec<usize> = Vec::new();
    let mut acc: usize = 0;
    assert(cs@.take(0) =~= Seq::<char>::empty());
    assert(vstd::utf8::encode_utf8(Seq::<char>::empty()) =~= Seq::<u8>::empty());
    pos.push(0);
    let mut k: usize = 0;
    while k < cs.len()
        invariant
            k <= cs@.len(),
            pos@.len() == k + 1,
            byte_len(cs@) == total,
            acc == byte_offset(cs@, k as int),
            forall|j: int| 0 <= j <= k ==> pos@[j] == byte_offset(cs@, j),
        decreases cs@.len() - k,
    {
        proof {
            lemma_byte_offset_step(cs@, k as int);
            lemma_byte_offset_mono(cs@, k + 1, k + 1);
            assert(cs@.take(cs@.len() as int) =~= cs@);
        }
        let w = char_width(cs[k]);
        acc = acc + w;
        pos.push(acc);
        k = k + 1;
    }
    pos
}

/// Character index at byte offset `b`, searching the strictly increasing `pos`.
fn char_at_byte(pos: &Vec<usize>, Ghost(s): Ghost<Seq<char>>, b: usize) -> (r: Option<usize>)
    requires
        pos@.len() == s.len() + 1,
        forall|k: int| 0 <= k <= s.len() ==> pos@[k] == byte_offset(s, k),
    ensures
        match r {
            Some(k) => char_index(s, b as int) == Some(k as int),
            None => char_index(s, b as int) is None,
        },
{
    let mut lo: usize = 0;
    let mut hi: usize = pos.len();
    while lo < hi
        invariant
            0 <= lo <= hi <= pos@.len(),
            pos@.len() == s.len() + 1,
            forall|k: int| 0 <= k <= s.len() ==> pos@[k] == byte_offset(s, k),
            forall|k: int| 0 <= k < lo ==> pos@[k] < b,
            forall|k: int| hi <= k < pos@.len() ==> pos@[k] > b,
        decreases hi - lo,
    {
        let mid = lo + (hi - lo) / 2;
        if pos[mid] == b {
            proof {
                assert forall|k: int| 0 <= k <= s.len() && byte_offset(s, k) == b implies k == mid by {
                    if k < mid {
                        lemma_byte_offset_mono(s, k, mid as int);
                    } else if k > mid {
                        lemma_byte_offset_mono(s, mid as int, k);
                    }
                }
                assert(byte_offset(s, mid as int) == b);
                let w = choose|k: int| 0 <= k <= s.len() && byte_offset(s, k) == b;
                assert(w == mid);
            }
            return Some(mid);
        } else if pos[mid] < b {
            proof {
                assert forall|k: int| 0 <= k <= mid implies pos@[k] < b by {
                    lemma_byte_offset_mono(s, k, mid as int);
                }
            }
            lo = mid + 1;
        } else {
            proof {
                assert forall|k: int| mid <= k < pos@.len() implies pos@[k] > b by {
                    lemma_byte_offset_mono(s, mid as int, k);
                }
            }
            hi = mid;
        }
    }
    proof {
        assert forall|k: int| 0 <= k <= s.len() implies byte_offset(s, k) != b by {
            assert(pos@[k] == byte_offset(s, k));
        }
    }
    None
}

/// Exclusive end of each node's subtree.
fn subtree_ends(nodes: &Vec<NodeRecord>) -> (ends: Vec<usize>)
    ensures
        ends@.len() == nodes@.len(),
        forall|i: int| 0 <= i < nodes@.len() ==> ends@[i] == subtree_end(records_view(nodes@), i),
{
    let ghost r = records_view(nodes@);
    let mut ends: Vec<usize> = Vec::new();
    let mut i: usize = 0;
    while i < nodes.len()
        invariant
            i <= nodes@.len(),
            r == records_view(nodes@),
            ends@.len() == i,
            forall|j: int| 0 <= j < i ==> ends@[j] == subtree_end(r, j),
        decreases nodes@.len() - i,
    {
        let d = nodes[i].depth;
        let mut k: usize = i + 1;
        while k < nodes.len() && nodes[k].depth > d
            invariant
                i < k <= nodes@.len(),
                r == records_view(nodes@),
                d == r[i as int].depth,
                scan_end(r, d as int, k as int) == subtree_end(r, i as int),
            decreases nodes@.len() - k,
        {
            k = k + 1;
        }
        ends.push(k);
        i = i + 1;
    }
    ends
}

/// Parses `src` with `grammar`.
pub fn parse_tree(grammar: Grammar, src: &str) -> (t: SyntaxTree)
    ensures
        t.wf(),
        t.recs() == parsed_records(grammar, src@),
        t.text() == src@,
{
    tree_from_records(src, parse_records(grammar, src))
}

/// The tree of `src` whose nodes are `raw`, in pre-order: each node's
/// subtree end and its byte range as a character range, where the range
/// falls on character boundaries.
pub fn tree_from_records(src: &str, raw: Vec<RawRecord>) -> (t: SyntaxTree)
    ensures
        t.wf(),
        t.recs() == raw@.map_values(|r: RawRecord| raw_record_view(r)),
        t.text() == src@,
{
    let nodes = records_of(raw);
    let cs = chars_of(src);
    let total = src.as_bytes().len();
    let pos = byte_positions(&cs, total);
    let ends = subtree_ends(&nodes);
    let mut spans: Vec<Option<(usize, usize)>> = Vec::new();
    let mut i: usize = 0;
    while i < nodes.len()
        invariant
            i <= nodes@.len(),
            pos@.len() == cs@.len() + 1,
            forall|k: int| 0 <= k <= cs@.len() ==> pos@[k] == byte_offset(cs@, k),
            spans@.len() == i,
            forall|j: int|
                0 <= j < i ==> span_view(#[trigger] spans@[j]) == char_span(
                    cs@,
                    records_view(nodes@)[j].start,
                    records_view(nodes@)[j].end,
                ),
        decreases nodes@.len() - i,
    {
        let a = char_at_byte(&pos, Ghost(cs@), nodes[i].start);
        let b = char_at_byte(&pos, Ghost(cs@), nodes[i].end);
        let span = match (a, b) {
            (Some(x), Some(y)) => if x <= y {
                Some((x, y))
            } else {
                None
            },
            _ => None,
        };
        spans.push(span);
        i = i + 1;
    }
    SyntaxTree { nodes, ends, src: cs, pos, spans }
}

/// Child indices in `[k, e)`, stepping from one subtree to the next.
pub open spec fn children_from(r: Seq<NodeView>, e: int, k: int) -> Seq<int>
    decreases r.len() - k,
{
    if k < 0 || k >= e || k >= r.len() {
        Seq::empty()
    } else {
        proof {
            lemma_subtree_end_bounds(r, k);
        }
        seq![k] + children_from(r, e, subtree_end(r, k))
    }
}

/// Children of node `i`, in order.
pub open spec fn children(r: Seq<NodeView>, i: int) -> Seq<int> {
    children_from(r, subtree_end(r, i), i + 1)
}

/// First child in `[k, e)` hanging under field `f`.
pub open spec fn field_child_from(r: Seq<NodeView>, e: int, k: int, f: Seq<char>) -> Option<int>
    decreases r.len() - k,
{
    if k < 0 || k >= e || k >= r.len() {
        None
    } else if r[k].field == Some(f) {
        Some(k)
    } else {
        proof {
            lemma_subtree_end_bounds(r, k);
        }
        field_child_from(r, e, subtree_end(r, k), f)
    }
}

/// First child of node `i` under field `f` (`child_by_field_name`).
pub open spec fn field_child(r: Seq<NodeView>, i: int, f: Seq<char>) -> Option<int> {
    field_child_from(r, subtree_end(r, i), i + 1, f)
}

/// First named child in `[k, e)` whose kind is one of `kinds`.
pub open spec fn named_kind_from(r: Seq<NodeView>, e: int, k: int, kinds: Seq<Seq<char>>) -> Option<int>
    decreases r.len() - k,
{
    if k < 0 || k >= e || k >= r.len() {
        None
    } else if r[k].named && kinds.contains(r[k].kind) {
        Some(k)
    } else {
        proof {
            lemma_subtree_end_bounds(r, k);
        }
        named_kind_from(r, e, subtree_end(r, k), kinds)
    }
}

/// First named child in `[k, e)`.
pub open spec fn first_named_from(r: Seq<NodeView>, e: int, k: int) -> Option<int>
    decreases r.len() - k,
{
    if k < 0 || k >= e || k >= r.len() {
        None
    } else if r[k].named {
        Some(k)
    } else {
        proof {
            lemma_subtree_end_bounds(r, k);
        }
        first_named_from(r, e, subtree_end(r, k))
    }
}

/// Last named child in `[k, e)`, if any, else `prev`.
pub open spec fn last_named_from(r: Seq<NodeView>, e: int, k: int, prev: Option<int>) -> Option<int>
    decreases r.len() - k,
{
    if k < 0 || k >= e || k >= r.len() {
        prev
    } else {
        proof {
            lemma_subtree_end_bounds(r, k);
        }
        last_named_from(r, e, subtree_end(r, k), if r[k].named { Some(k) } else { prev })
    }
}

/// Nearest earlier node with a smaller depth, scanning down from `k`.
pub open spec fn parent_from(r: Seq<NodeView>, d: int, k: int) -> Option<int>
    decreases k + 1,
{
    if k < 0 || k >= r.len() {
        None
    } else if r[k].depth < d {
        Some(k)
    } else {
        parent_from(r, d, k - 1)
    }
}

/// Parent of node `i`.
pub open spec fn parent(r: Seq<NodeView>, i: int) -> Option<int> {
    parent_from(r, r[i].depth, i - 1)
}

pub proof fn lemma_char_index_bounds(s: Seq<char>, b: int)
    ensures
        char_index(s, b) matches Some(k) ==> 0 <= k <= s.len() && byte_offset(s, k) == b,
{
}

pub proof fn lemma_field_child_from(r: Seq<NodeView>, e: int, k: int, f: Seq<char>)
    requires
        e <= r.len(),
    ensures
        field_child_from(r, e, k, f) matches Some(c) ==> k <= c < e && r[c].field == Some(f),
    decreases r.len() - k,
{
    if !(k < 0 || k >= e || k >= r.len()) && r[k].field != Some(f) {
        lemma_subtree_end_bounds(r, k);
        lemma_field_child_from(r, e, subtree_end(r, k), f);
    }
}

pub proof fn lemma_named_kind_from(r: Seq<NodeView>, e: int, k: int, kinds: Seq<Seq<char>>)
    requires
        e <= r.len(),
    ensures
        named_kind_from(r, e, k, kinds) matches Some(c) ==> k <= c < e && r[c].named && kinds.contains(r[c].kind),
    decreases r.len() - k,
{
    if !(k < 0 || k >= e || k >= r.len()) && !(r[k].named && kinds.contains(r[k].kind)) {
        lemma_subtree_end_bounds(r, k);
        lemma_named_kind_from(r, e, subtree_end(r, k), kinds);
    }
}

pub proof fn lemma_first_named_from(r: Seq<NodeView>, e: int, k: int)
    requires
        e <= r.len(),
    ensures
        first_named_from(r, e, k) matches Some(c) ==> k <= c < e && r[c].named,
    decreases r.len() - k,
{
    if !(k < 0 || k >= e || k >= r.len()) && !r[k].named {
        lemma_subtree_end_bounds(r, k);
        lemma_first_named_from(r, e, subtree_end(r, k));
    }
}

pub proof fn lemma_last_named_from(r: Seq<NodeView>, e: int, k: int, prev: Option<int>)
    requires
        e <= r.len(),
        prev matches Some(p) ==> 0 <= p < e,
    ensures
        last_named_from(r, e, k, prev) matches Some(c) ==> 0 <= c < e,
        last_named_from(r, e, k, prev) matches Some(c) ==> (c >= k || prev == Some(c)),
    decreases r.len() - k,
{
    if !(k < 0 || k >= e || k >= r.len()) {
        lemma_subtree_end_bounds(r, k);
        lemma_last_named_from(r, e, subtree_end(r, k), if r[k].named { Some(k) } else { prev });
    }
}

pub proof fn lemma_parent_from(r: Seq<NodeView>, d: int, k: int)
    ensures
        parent_from(r, d, k) matches Some(p) ==> 0 <= p <= k && p < r.len(),
    decreases k + 1,
{
    if !(k < 0 || k >= r.len()) && r[k].depth >= d {
        lemma_parent_from(r, d, k - 1);
    }
}

impl SyntaxTree {
    /// Kind of node `i` equals `k`.
    pub fn kind_is(&self, i: usize, k: &str) -> (r: bool)
        requires
            i < self.len(),
        ensures
            r == (self.recs()[i as int].kind == k@),
    {
        str_eq(self.nodes[i].kind.as_str(), k)
    }

    /// Kind of node `i`.
    pub fn kind(&self, i: usize) -> (r: &str)
        requires
            i < self.len(),
        ensures
            r@ == self.recs()[i as int].kind,
    {
        self.nodes[i].kind.as_str()
    }

    pub fn is_named(&self, i: usize) -> (r: bool)
        requires
            i < self.len(),
        ensures
            r == self.recs()[i as int].named,
    {
        self.nodes[i].named
    }

    /// Exclusive end of the subtree of node `i`.
    pub fn end_of(&self, i: usize) -> (e: usize)
        requires
            self.wf(),
            i < self.len(),
        ensures
            e == subtree_end(self.recs(), i as int),
            i < e <= self.len(),
    {
        proof {
            lemma_subtree_end_bounds(self.recs(), i as int);
        }
        self.ends[i]
    }

    /// First child of `i` under field `f`.
    pub fn child_by_field(&self, i: usize, f: &str) -> (c: Option<usize>)
        requires
            self.wf(),
            i < self.len(),
        ensures
            match c {
                Some(c) => field_child(self.recs(), i as int, f@) == Some(c as int) && i < c < self.len(),
                None => field_child(self.recs(), i as int, f@) is None,
            },
    {
        let ghost r = self.recs();
        let e = self.end_of(i);
        let mut j = i + 1;
        while j < e
            invariant
                self.wf(),
                r == self.recs(),
                i < j <= self.len(),
                e == subtree_end(r, i as int),
                e <= self.len(),
                field_child(r, i as int, f@) == field_child_from(r, e as int, j as int, f@),
            decreases self.len() - j,
        {
            let matched = match &self.nodes[j].field {
                Some(name) => str_eq(name.as_str(), f),
                None => false,
            };
            if matched {
                return Some(j);
            }
            j = self.end_of(j);
        }
        None
    }

    /// First named child of `i` whose kind is one of `kinds`.
    pub fn first_named_kind(&self, i: usize, kinds: &[&str]) -> (c: Option<usize>)
        requires
            self.wf(),
            i < self.len(),
        ensures
            match c {
                Some(c) => named_kind_from(self.recs(), subtree_end(self.recs(), i as int), i + 1, kinds@.map_values(|k: &str| k@)) == Some(c as int) && i < c < self.len(),
                None => named_kind_from(self.recs(), subtree_end(self.recs(), i as int), i + 1, kinds@.map_values(|k: &str| k@)) is None,
            },
    {
        let ghost r = self.recs();
        let ghost ks = kinds@.map_values(|k: &str| k@);
        let e = self.end_of(i);
        let mut j = i + 1;
        while j < e
            invariant
                self.wf(),
                r == self.recs(),
                ks == kinds@.map_values(|k: &str| k@),
                i < j <= self.len(),
                e == subtree_end(r, i as int),
                e <= self.len(),
                named_kind_from(r, e as int, i + 1, ks) == named_kind_from(r, e as int, j as int, ks),
            decreases self.len() - j,
        {
            if self.nodes[j].named {
                let mut m: usize = 0;
                let mut hit = false;
                while m < kinds.len()
                    invariant
                        m <= kinds@.len(),
                        j < self.len(),
                        r == self.recs(),
                        ks == kinds@.map_values(|k: &str| k@),
                        hit ==> ks.contains(r[j as int].kind),
                        !hit ==> forall|q: int| 0 <= q < m ==> ks[q] != r[j as int].kind,
                    decreases kinds@.len() - m,
                {
                    if str_eq(self.nodes[j].kind.as_str(), kinds[m]) {
                        assert(ks[m as int] == r[j as int].kind);
                        hit = true;
                    }
                    m = m + 1;
                }
                if hit {
                    assert(ks.contains(r[j as int].kind));
                    return Some(j);
                }
                assert(!ks.contains(r[j as int].kind));
            }
            j = self.end_of(j);
        }
        None
    }

    /// First named child of `i`.
    pub fn first_named(&self, i: usize) -> (c: Option<usize>)
        requires
            self.wf(),
            i < self.len(),
        ensures
            match c {
                Some(c) => first_named_from(self.recs(), subtree_end(self.recs(), i as int), i + 1) == Some(c as int) && i < c < self.len(),
                None => first_named_from(self.recs(), subtree_end(self.recs(), i as int), i + 1) is None,
            },
    {
        let ghost r = self.recs();
        let e = self.end_of(i);
        let mut j = i + 1;
        while j < e
            invariant
                self.wf(),
                r == self.recs(),
                i < j <= self.len(),
                e == subtree_end(r, i as int),
                e <= self.len(),
                first_named_from(r, e as int, i + 1) == first_named_from(r, e as int, j as int),
            decreases self.len() - j,
        {
            if self.nodes[j].named {
                return Some(j);
            }
            j = self.end_of(j);
        }
        None
    }

    /// Last named child of `i`.
    pub fn last_named(&self, i: usize) -> (c: Option<usize>)
        requires
            self.wf(),
            i < self.len(),
        ensures
            match c {
                Some(c) => last_named_from(self.recs(), subtree_end(self.recs(), i as int), i + 1, None) == Some(c as int) && i < c < self.len(),
                None => last_named_from(self.recs(), subtree_end(self.recs(), i as int), i + 1, None) is None,
            },
    {
        let ghost r = self.recs();
        let e = self.end_of(i);
        let mut j = i + 1;
        let mut last: Option<usize> = None;
        while j < e
            invariant
                self.wf(),
                r == self.recs(),
                i < j <= self.len(),
                e == subtree_end(r, i as int),
                e <= self.len(),
                last matches Some(p) ==> i < p < e,
                last_named_from(r, e as int, i + 1, None) == last_named_from(r, e as int, j as int, match last { Some(p) => Some(p as int), None => None }),
            decreases self.len() - j,
        {
            if self.nodes[j].named {
                last = Some(j);
            }
            j = self.end_of(j);
        }
        last
    }

    /// Parent of node `i`.
    pub fn parent_of(&self, i: usize) -> (p: Option<usize>)
        requires
            i < self.len(),
        ensures
            match p {
                Some(p) => parent(self.recs(), i as int) == Some(p as int) && p < i,
                None => parent(self.recs(), i as int) is None,
            },
    {
        let ghost r = self.recs();
        let d = self.nodes[i].depth;
        let mut k = i;
        while k > 0
            invariant
                k <= i < self.len(),
                r == self.recs(),
                d == r[i as int].depth,
                parent(r, i as int) == parent_from(r, d as int, k - 1),
            decreases k,
        {
            if self.nodes[k - 1].depth < d {
                return Some(k - 1);
            }
            k = k - 1;
        }
        None
    }

    /// Character index at byte offset `b` of the source.
    pub fn char_at(&self, b: usize) -> (k: Option<usize>)
        requires
            self.wf(),
        ensures
            match k {
                Some(k) => char_index(self.text(), b as int) == Some(k as int) && k <= self.text().len(),
                None => char_index(self.text(), b as int) is None,
            },
    {
        proof {
            lemma_char_index_bounds(self.text(), b as int);
        }
        char_at_byte(&self.pos, Ghost(self.src@), b)
    }

    /// Source text of node `i`.
    pub fn text_of(&self, i: usize) -> (s: String)
        requires
            self.wf(),
            i < self.len(),
        ensures
            s@ == self.node_text(i as int),
    {
        proof {
            lemma_char_index_bounds(self.text(), self.recs()[i as int].start);
            lemma_char_index_bounds(self.text(), self.recs()[i as int].end);
        }
        match self.spans[i] {
            Some((a, b)) => string_of(&self.src, a, b),
            None => String::new(),
        }
    }
}

} // verus!
