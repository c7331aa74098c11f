//! Data shared by extraction, resolution, expansion and printing.
use vstd::prelude::*;

use crate::text::{decimal, push_char, push_decimal, push_str};

verus! {

/// Identity of a function definition in the analyzed set.
#[derive(Clone, Debug, PartialEq, Eq, Hash)]
pub struct FnId {
    /// POSIX relative path, or `<stdin>`.
    pub file: String,
    pub start_byte: usize,
}

impl FnId {
    /// A copy of this identity.
    pub fn duplicate(&self) -> (r: FnId)
        ensures
            r@ == self@,
    {
        FnId { file: self.file.clone(), start_byte: self.start_byte }
    }
}

/// Mathematical value of a [`FnId`].
pub struct FnIdView {
    pub file: Seq<char>,
    pub start_byte: int,
}

impl View for FnId {
    type V = FnIdView;

    open spec fn view(&self) -> FnIdView {
        FnIdView { file: self.file@, start_byte: self.start_byte as int }
    }
}

#[derive(Clone, Copy, Debug, PartialEq, Eq, PartialOrd, Ord, Structural)]
pub enum FnKind {
    Free,
    Method,
}

/// Indexed function definition (with or without a body).
#[derive(Debug, PartialEq, Eq)]
pub struct FnDef {
    pub id: FnId,
    /// 1-based line of `id.start_byte`.
    pub start_line: usize,
    pub name: String,
    pub kind: FnKind,
    pub module: Vec<String>,
    pub nested: bool,
    pub has_body: bool,
    /// Exclusive UTF-8 end offset of the definition node.
    pub end_byte: usize,
    pub body: Vec<RawNode>,
}

/// Mathematical value of a [`FnDef`].
pub struct FnDefView {
    pub id: FnIdView,
    pub start_line: int,
    pub name: Seq<char>,
    pub kind: FnKind,
    pub module: Seq<Seq<char>>,
    pub nested: bool,
    pub has_body: bool,
    pub end_byte: int,
    pub body: Seq<RawView>,
}

pub open spec fn raws_view(v: Seq<RawNode>) -> Seq<RawView> {
    Seq::new(v.len(), |i: int| v[i]@)
}

impl View for FnDef {
    type V = FnDefView;

    open spec fn view(&self) -> FnDefView {
        FnDefView {
            id: self.id@,
            start_line: self.start_line as int,
            name: self.name@,
            kind: self.kind,
            module: self.module.deep_view(),
            nested: self.nested,
            has_body: self.has_body,
            end_byte: self.end_byte as int,
            body: raws_view(self.body@),
        }
    }
}

/// 1-based line of a byte offset: one more than the newlines before it.
pub open spec fn line_at(bytes: Seq<u8>, start_byte: int) -> int {
    let n = if start_byte < bytes.len() {
        start_byte
    } else {
        bytes.len() as int
    };
    count_byte(bytes.take(n), 10u8) + 1int
}

/// Occurrences of `b` in `s`.
pub open spec fn count_byte(s: Seq<u8>, b: u8) -> nat
    decreases s.len(),
{
    if s.len() == 0 {
        0
    } else {
        count_byte(s.drop_last(), b) + if s.last() == b {
            1nat
        } else {
            0nat
        }
    }
}

/// 1-based line of a byte offset, saturated at `usize::MAX`.
pub open spec fn line_number(bytes: Seq<u8>, start_byte: int) -> int {
    if line_at(bytes, start_byte) <= usize::MAX {
        line_at(bytes, start_byte)
    } else {
        usize::MAX as int
    }
}

/// 1-based line of a byte offset.
pub fn line_of(src: &str, start_byte: usize) -> (line: usize)
    ensures
        line == line_number(vstd::utf8::encode_utf8(src@), start_byte as int),
{
    let bytes = src.as_bytes();
    let n = if start_byte < bytes.len() {
        start_byte
    } else {
        bytes.len()
    };
    let mut count: usize = 0;
    let mut i: usize = 0;
    while i < n
        invariant
            n <= bytes@.len(),
            i <= n,
            count == count_byte(bytes@.take(i as int), 10u8),
            count <= i,
        decreases n - i,
    {
        proof {
            assert(bytes@.take(i + 1).drop_last() =~= bytes@.take(i as int));
        }
        if bytes[i] == 10u8 {
            count = count + 1;
        }
        i = i + 1;
    }
    if count < usize::MAX {
        count + 1
    } else {
        count
    }
}

/// File and 1-based line of a definition or resolved call.
#[derive(Clone, Debug, PartialEq, Eq)]
pub struct Loc {
    pub file: String,
    pub line: usize,
}

pub struct LocView {
    pub file: Seq<char>,
    pub line: int,
}

impl View for Loc {
    type V = LocView;

    open spec fn view(&self) -> LocView {
        LocView { file: self.file@, line: self.line as int }
    }
}

impl FnDef {
    pub fn source_location(&self) -> (loc: Loc)
        ensures
            loc@ == (LocView { file: self.id.file@, line: self.start_line as int }),
    {
        Loc { file: self.id.file.clone(), line: self.start_line }
    }
}

/// Printed labels of tree and flow output.
#[derive(Clone, Copy, Debug, PartialEq, Eq, Structural)]
pub enum Label {
    /// `path:line`: tree jump targets.
    Jump,
    /// `path` only: flow and diff stay quiet on line shifts.
    Flow,
}

#[derive(Debug, PartialEq, Eq)]
pub struct OutlineNode {
    pub text: String,
    pub loc: Option<Loc>,
    pub children: Vec<OutlineNode>,
}

/// Location of an outline node, when it has one.
pub enum Placement {
    Unplaced,
    Placed(LocView),
}

pub open spec fn placement(o: Option<Loc>) -> Placement {
    match o {
        Some(l) => Placement::Placed(l@),
        None => Placement::Unplaced,
    }
}

#[verifier::ext_equal]
pub struct OutlineView {
    pub text: Seq<char>,
    pub loc: Placement,
    pub children: Seq<OutlineView>,
}

impl View for OutlineNode {
    type V = OutlineView;

    open spec fn view(&self) -> OutlineView
        decreases self,
    {
        OutlineView {
            text: self.text@,
            loc: placement(self.loc),
            children: Seq::new(
                self.children@.len(),
                |i: int|
                    if 0 <= i < self.children@.len() {
                        self.children@[i].view()
                    } else {
                        OutlineView { text: Seq::empty(), loc: Placement::Unplaced, children: Seq::empty() }
                    },
            ),
        }
    }
}

pub proof fn lemma_outline_view(n: &OutlineNode)
    ensures
        n@.children.len() == n.children@.len(),
        forall|j: int| 0 <= j < n.children@.len() ==> #[trigger] n@.children[j] == n.children@[j]@,
        n@.text == n.text@,
{
    assert(n@.children.len() == n.children@.len());
}

pub open spec fn outlines_view(v: Seq<OutlineNode>) -> Seq<OutlineView> {
    Seq::new(v.len(), |i: int| v[i]@)
}

#[derive(Debug, PartialEq, Eq)]
pub struct Outline {
    pub roots: Vec<OutlineNode>,
}

/// Unexpanded extraction node.
#[derive(Debug, PartialEq, Eq)]
pub enum RawNode {
    Control { text: String, children: Vec<RawNode> },
    NestedFn { name: String, children: Vec<RawNode> },
    Call { site: CallSite },
}

#[verifier::ext_equal]
pub enum RawView {
    Control { text: Seq<char>, children: Seq<RawView> },
    NestedFn { name: Seq<char>, children: Seq<RawView> },
    Call { site: CallSiteView },
}

impl View for RawNode {
    type V = RawView;

    open spec fn view(&self) -> RawView
        decreases self,
    {
        match self {
            RawNode::Control { text, children } => RawView::Control {
                text: text@,
                children: Seq::new(
                    children@.len(),
                    |i: int|
                        if 0 <= i < children@.len() {
                            children@[i].view()
                        } else {
                            RawView::Control { text: Seq::empty(), children: Seq::empty() }
                        },
                ),
            },
            RawNode::NestedFn { name, children } => RawView::NestedFn {
                name: name@,
                children: Seq::new(
                    children@.len(),
                    |i: int|
                        if 0 <= i < children@.len() {
                            children@[i].view()
                        } else {
                            RawView::Control { text: Seq::empty(), children: Seq::empty() }
                        },
                ),
            },
            RawNode::Call { site } => RawView::Call { site: site@ },
        }
    }
}

#[derive(Clone, Debug, PartialEq, Eq)]
pub struct CallSite {
    /// Already collapsed and std-prefix-stripped.
    pub display: String,
    pub kind: CallKind,
    pub is_macro: bool,
    /// Same string as `FnId.file` of the source that contains this call.
    pub file: String,
}

pub struct CallSiteView {
    pub display: Seq<char>,
    pub kind: CallKindView,
    pub is_macro: bool,
    pub file: Seq<char>,
}

impl View for CallSite {
    type V = CallSiteView;

    open spec fn view(&self) -> CallSiteView {
        CallSiteView {
            display: self.display@,
            kind: self.kind@,
            is_macro: self.is_macro,
            file: self.file@,
        }
    }
}

#[derive(Clone, Debug, PartialEq, Eq)]
pub enum CallKind {
    /// `foo()`, `foo::bar()`, `crate::foo()`, `todo!()`
    Free { path: Vec<String> },
    /// `recv.method(...)`: name is the last segment
    Method { name: String },
}

pub enum CallKindView {
    Free { path: Seq<Seq<char>> },
    Method { name: Seq<char> },
}

impl View for CallKind {
    type V = CallKindView;

    open spec fn view(&self) -> CallKindView {
        match self {
            CallKind::Free { path } => CallKindView::Free { path: path.deep_view() },
            CallKind::Method { name } => CallKindView::Method { name: name@ },
        }
    }
}

/// `n` spaces.
pub open spec fn spaces(n: nat) -> Seq<char> {
    Seq::new(n, |i: int| ' ')
}

/// The printed line of one node (without its children).
pub open spec fn node_line(n: OutlineView, depth: nat, label: Label) -> Seq<char> {
    spaces(2 * depth) + match n.loc {
        Placement::Unplaced => n.text,
        Placement::Placed(loc) => loc.file + (if label == Label::Jump {
            seq![':'] + decimal(loc.line as nat)
        } else {
            Seq::empty()
        }) + seq![' '] + n.text,
    } + seq!['\n']
}

/// Lines of `n` and its descendants.
pub open spec fn tree_lines(n: OutlineView, depth: nat, label: Label) -> Seq<char>
    decreases n,
{
    node_line(n, depth, label) + forest_lines(n.children, depth + 1, label)
}

/// Lines of each tree of `ns`, in order.
pub open spec fn forest_lines(ns: Seq<OutlineView>, depth: nat, label: Label) -> Seq<char>
    decreases ns,
{
    if ns.len() == 0 {
        Seq::empty()
    } else {
        forest_lines(ns.drop_last(), depth, label) + tree_lines(ns.last(), depth, label)
    }
}

/// Trees separated by blank lines.
pub open spec fn outline_text(roots: Seq<OutlineView>, label: Label) -> Seq<char>
    decreases roots.len(),
{
    if roots.len() == 0 {
        Seq::empty()
    } else if roots.len() == 1 {
        tree_lines(roots[0], 0, label)
    } else {
        outline_text(roots.drop_last(), label) + seq!['\n'] + tree_lines(roots.last(), 0, label)
    }
}

proof fn lemma_tree_lines_newline(n: OutlineView, depth: nat, label: Label)
    ensures
        tree_lines(n, depth, label).len() > 0,
        tree_lines(n, depth, label).last() == '\n',
    decreases n, 1int,
{
    lemma_forest_lines_newline(n.children, depth + 1, label);
    let head = node_line(n, depth, label);
    let rest = forest_lines(n.children, depth + 1, label);
    if rest.len() == 0 {
        assert(head + rest =~= head);
    }
}

proof fn lemma_forest_lines_newline(ns: Seq<OutlineView>, depth: nat, label: Label)
    ensures
        forest_lines(ns, depth, label).len() == 0 || forest_lines(ns, depth, label).last() == '\n',
    decreases ns, 0int,
{
    if ns.len() > 0 {
        assert(ns.last() == ns[ns.len() - 1]);
        lemma_tree_lines_newline(ns.last(), depth, label);
        lemma_forest_lines_newline(ns.drop_last(), depth, label);
    }
}

/// Law: the printed outline of at least one tree is not empty and ends
/// with a newline; no trees print as nothing.
pub proof fn law_outline_text_ends_with_newline(roots: Seq<OutlineView>, label: Label)
    ensures
        roots.len() == 0 <==> outline_text(roots, label).len() == 0,
        roots.len() > 0 ==> outline_text(roots, label).last() == '\n',
    decreases roots.len(),
{
    if roots.len() == 1 {
        lemma_tree_lines_newline(roots[0], 0, label);
    } else if roots.len() > 1 {
        law_outline_text_ends_with_newline(roots.drop_last(), label);
        lemma_tree_lines_newline(roots.last(), 0, label);
    }
}

/// Both nodes sit in the same file, or neither is placed; lines may differ.
pub open spec fn same_file(a: Placement, b: Placement) -> bool {
    match (a, b) {
        (Placement::Unplaced, Placement::Unplaced) => true,
        (Placement::Placed(x), Placement::Placed(y)) => x.file == y.file,
        _ => false,
    }
}

/// `m` is the tree `n` with, at most, other line numbers.
pub open spec fn tree_shifted(n: OutlineView, m: OutlineView) -> bool
    decreases n,
{
    &&& n.text == m.text
    &&& same_file(n.loc, m.loc)
    &&& forest_shifted(n.children, m.children)
}

/// `ms` are the trees `ns`, one for one, with, at most, other line numbers.
pub open spec fn forest_shifted(ns: Seq<OutlineView>, ms: Seq<OutlineView>) -> bool
    decreases ns,
{
    if ns.len() == 0 {
        ms.len() == 0
    } else {
        &&& ms.len() == ns.len()
        &&& forest_shifted(ns.drop_last(), ms.drop_last())
        &&& tree_shifted(ns.last(), ms.last())
    }
}

proof fn lemma_tree_shift_quiet(n: OutlineView, m: OutlineView, depth: nat)
    requires
        tree_shifted(n, m),
    ensures
        tree_lines(n, depth, Label::Flow) == tree_lines(m, depth, Label::Flow),
    decreases n, 1int,
{
    lemma_forest_shift_quiet(n.children, m.children, depth + 1);
    assert(node_line(n, depth, Label::Flow) == node_line(m, depth, Label::Flow));
}

proof fn lemma_forest_shift_quiet(ns: Seq<OutlineView>, ms: Seq<OutlineView>, depth: nat)
    requires
        forest_shifted(ns, ms),
    ensures
        forest_lines(ns, depth, Label::Flow) == forest_lines(ms, depth, Label::Flow),
    decreases ns, 0int,
{
    if ns.len() > 0 {
        assert(ns.last() == ns[ns.len() - 1]);
        lemma_forest_shift_quiet(ns.drop_last(), ms.drop_last(), depth);
        lemma_tree_shift_quiet(ns.last(), ms.last(), depth);
    }
}

/// Law: flow labels carry no line numbers, so two outlines that differ only
/// in where their functions and calls sit print the same flow text.
pub proof fn law_flow_ignores_lines(roots: Seq<OutlineView>, moved: Seq<OutlineView>)
    requires
        forest_shifted(roots, moved),
    ensures
        outline_text(roots, Label::Flow) == outline_text(moved, Label::Flow),
    decreases roots.len(),
{
    if roots.len() == 1 {
        assert(roots.drop_last().len() == 0);
        assert(roots.last() == roots[0]);
        assert(moved.last() == moved[0]);
        lemma_tree_shift_quiet(roots[0], moved[0], 0);
    } else if roots.len() > 1 {
        law_flow_ignores_lines(roots.drop_last(), moved.drop_last());
        lemma_tree_shift_quiet(roots.last(), moved.last(), 0);
    }
}

pub fn print_outline(outline: &Outline, label: Label) -> (out: String)
    ensures
        out@ == outline_text(outlines_view(outline.roots@), label),
{
    let ghost roots = outlines_view(outline.roots@);
    let mut out = String::new();
    let mut i: usize = 0;
    while i < outline.roots.len()
        invariant
            i <= outline.roots@.len(),
            roots == outlines_view(outline.roots@),
            out@ == outline_text(roots.take(i as int), label),
        decreases outline.roots@.len() - i,
    {
        proof {
            assert(roots.take(i + 1).drop_last() =~= roots.take(i as int));
            assert(roots.take(i + 1).last() == roots[i as int]);
            if i == 0 {
                assert(roots.take(0) =~= Seq::<OutlineView>::empty());
            }
        }
        if i > 0 {
            push_char(&mut out, '\n');
        }
        let indent = String::new();
        assert(indent@ =~= spaces(0));
        write_outline_node(&outline.roots[i], &indent, Ghost(0), label, &mut out);
        proof {
            if i == 0 {
                assert(out@ =~= tree_lines(roots[0], 0, label));
            }
        }
        i = i + 1;
    }
    assert(roots.take(outline.roots@.len() as int) =~= roots);
    out
}

fn write_outline_node(
    node: &OutlineNode,
    indent: &String,
    Ghost(depth): Ghost<nat>,
    label: Label,
    out: &mut String,
)
    requires
        indent@ == spaces(2 * depth),
    ensures
        final(out)@ == old(out)@ + tree_lines(node@, depth, label),
    decreases node,
{
    push_str(out, indent.as_str());
    match &node.loc {
        None => push_str(out, node.text.as_str()),
        Some(loc) => {
            push_str(out, loc.file.as_str());
            if label == Label::Jump {
                push_char(out, ':');
                push_decimal(out, loc.line);
            }
            push_char(out, ' ');
            push_str(out, node.text.as_str());
        },
    }
    push_char(out, '\n');
    proof {
        let l = node@.loc;
        if l is Placed {
            if label == Label::Jump {
                assert(old(out)@ + node_line(node@, depth, label) =~= out@);
            } else {
                assert(old(out)@ + node_line(node@, depth, label) =~= out@);
            }
        } else {
            assert(old(out)@ + node_line(node@, depth, label) =~= out@);
        }
    }
    let mut inner = indent.clone();
    push_str(&mut inner, "  ");
    proof {
        reveal_strlit("  ");
        assert(inner@ =~= spaces(2 * (depth + 1)));
    }
    let ghost before = out@;
    let ghost kids = node@.children;
    proof {
        lemma_outline_view(node);
    }
    let mut k: usize = 0;
    while k < node.children.len()
        invariant
            k <= node.children@.len(),
            inner@ == spaces(2 * (depth + 1)),
            kids == node@.children,
            kids.len() == node.children@.len(),
            forall|j: int| 0 <= j < kids.len() ==> kids[j] == node.children@[j]@,
            out@ == before + forest_lines(kids.take(k as int), depth + 1, label),
        decreases node.children@.len() - k,
    {
        proof {
            assert(kids.take(k + 1).drop_last() =~= kids.take(k as int));
        }
        write_outline_node(&node.children[k], &inner, Ghost(depth + 1), label, out);
        proof {
            assert(before + forest_lines(kids.take(k + 1), depth + 1, label) =~= out@);
        }
        k = k + 1;
    }
    proof {
        assert(kids.take(kids.len() as int) =~= kids);
        assert(old(out)@ + tree_lines(node@, depth, label) =~= out@);
    }
}

} // verus!
