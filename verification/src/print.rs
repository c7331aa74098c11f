//! Plain outline printing: node texts only, two spaces per level.
use vstd::prelude::*;

use crate::ir::{
    lemma_outline_view, outline_text, outlines_view, print_outline, Label, Outline, OutlineNode,
    OutlineView, Placement,
};

verus! {

/// `n` with every location dropped.
pub open spec fn unplaced(n: OutlineView) -> OutlineView
    decreases n,
{
    OutlineView {
        text: n.text,
        loc: Placement::Unplaced,
        children: Seq::new(
            n.children.len(),
            |j: int|
                if 0 <= j < n.children.len() {
                    unplaced(n.children[j])
                } else {
                    OutlineView { text: Seq::empty(), loc: Placement::Unplaced, children: Seq::empty() }
                },
        ),
    }
}

/// Printed text of `roots` when only the node texts are shown.
pub open spec fn plain_text(roots: Seq<OutlineView>) -> Seq<char> {
    outline_text(roots.map_values(|n: OutlineView| unplaced(n)), Label::Jump)
}

fn strip_node(n: &OutlineNode) -> (m: OutlineNode)
    ensures
        m@ == unplaced(n@),
    decreases n,
{
    proof {
        lemma_outline_view(n);
    }
    let ghost kids = n@.children;
    let mut children: Vec<OutlineNode> = Vec::new();
    let mut k: usize = 0;
    while k < n.children.len()
        invariant
            k <= n.children@.len(),
            kids == n@.children,
            kids.len() == n.children@.len(),
            forall|j: int| 0 <= j < kids.len() ==> kids[j] == n.children@[j]@,
            children@.len() == k,
            forall|j: int| 0 <= j < k ==> #[trigger] children@[j]@ == unplaced(kids[j]),
        decreases n.children@.len() - k,
    {
        let c = strip_node(&n.children[k]);
        children.push(c);
        k = k + 1;
    }
    let m = OutlineNode { text: n.text.clone(), loc: None, children };
    proof {
        lemma_outline_view(&m);
        assert(m@.children =~= unplaced(n@).children);
        assert(m@ =~= unplaced(n@));
    }
    m
}

/// Prints the outline with node texts only: trees separated by a blank line,
/// each line indented two spaces per level and ended by a newline.
pub fn print(outline: &Outline) -> (out: String)
    ensures
        out@ == plain_text(outlines_view(outline.roots@)),
{
    let ghost rv = outlines_view(outline.roots@);
    let mut roots: Vec<OutlineNode> = Vec::new();
    let mut k: usize = 0;
    while k < outline.roots.len()
        invariant
            k <= outline.roots@.len(),
            rv == outlines_view(outline.roots@),
            roots@.len() == k,
            forall|j: int| 0 <= j < k ==> #[trigger] roots@[j]@ == unplaced(rv[j]),
        decreases outline.roots@.len() - k,
    {
        let c = strip_node(&outline.roots[k]);
        roots.push(c);
        k = k + 1;
    }
    let plain = Outline { roots };
    assert(outlines_view(plain.roots@) =~= rv.map_values(|n: OutlineView| unplaced(n)));
    print_outline(&plain, Label::Jump)
}

} // verus!
