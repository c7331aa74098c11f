//! Call graph of the analyzed set, and its Mermaid, JSON and HTML forms.
use vstd::prelude::*;

use crate::entry::{called_spec, called_targets, select_entries, select_entries_spec};
use crate::ir::{raws_view, FnIdView, RawNode, RawView};
use crate::omit::{omitted, should_omit_resolved, UseMap};
use crate::resolve::{
    contains_id, files_view, ids_view, index_files, index_of, resolve, resolve_spec, uses_of_file,
    IndexView, ResolveIndex,
};
use crate::sort::{insert_sorted, lemma_insert_sorted_at, sorted_by};
use crate::text::{
    chars_of, decimal, owned, push_char, push_decimal, push_str, seq_less, str_eq, str_less,
};

verus! {

#[derive(Clone, Debug, PartialEq, Eq)]
pub struct CallGraph {
    pub nodes: Vec<GraphNode>,
    pub edges: Vec<GraphEdge>,
}

#[derive(Clone, Debug, PartialEq, Eq)]
pub enum GraphNode {
    Function {
        id: String,
        name: String,
        file: String,
        line: usize,
        entry: bool,
        start_byte: usize,
        end_byte: usize,
    },
    Leaf { id: String, label: String },
}

#[derive(Clone, Debug, PartialEq, Eq)]
pub struct GraphEdge {
    pub from: String,
    pub to: String,
    pub label: String,
    /// 0-based index of this kept call in the enclosing function body.
    pub seq: usize,
}

pub enum GraphNodeView {
    Function {
        id: Seq<char>,
        name: Seq<char>,
        file: Seq<char>,
        line: int,
        entry: bool,
        start_byte: int,
        end_byte: int,
    },
    Leaf { id: Seq<char>, label: Seq<char> },
}

pub struct GraphEdgeView {
    pub from: Seq<char>,
    pub to: Seq<char>,
    pub label: Seq<char>,
    pub seq: int,
}

pub struct CallGraphView {
    pub nodes: Seq<GraphNodeView>,
    pub edges: Seq<GraphEdgeView>,
}

impl View for GraphNode {
    type V = GraphNodeView;

    open spec fn view(&self) -> GraphNodeView {
        match self {
            GraphNode::Function { id, name, file, line, entry, start_byte, end_byte } => GraphNodeView::Function {
                id: id@,
                name: name@,
                file: file@,
                line: *line as int,
                entry: *entry,
                start_byte: *start_byte as int,
                end_byte: *end_byte as int,
            },
            GraphNode::Leaf { id, label } => GraphNodeView::Leaf { id: id@, label: label@ },
        }
    }
}

impl View for GraphEdge {
    type V = GraphEdgeView;

    open spec fn view(&self) -> GraphEdgeView {
        GraphEdgeView { from: self.from@, to: self.to@, label: self.label@, seq: self.seq as int }
    }
}

pub open spec fn nodes_view(v: Seq<GraphNode>) -> Seq<GraphNodeView> {
    v.map_values(|n: GraphNode| n@)
}

pub open spec fn edges_view(v: Seq<GraphEdge>) -> Seq<GraphEdgeView> {
    v.map_values(|e: GraphEdge| e@)
}

impl View for CallGraph {
    type V = CallGraphView;

    open spec fn view(&self) -> CallGraphView {
        CallGraphView { nodes: nodes_view(self.nodes@), edges: edges_view(self.edges@) }
    }
}

pub open spec fn node_id(n: GraphNodeView) -> Seq<char> {
    match n {
        GraphNodeView::Function { id, .. } => id,
        GraphNodeView::Leaf { id, .. } => id,
    }
}

/// Graph identity of a function: `file:start_byte`.
pub open spec fn fn_node_id(id: FnIdView) -> Seq<char> {
    id.file + ":"@ + decimal(id.start_byte as nat)
}

/// Graph identity of an unresolved call.
pub open spec fn leaf_id(display: Seq<char>) -> Seq<char> {
    "leaf:"@ + display
}

/// State while collecting edges: nodes, edges, node identities so far, and
/// the index of the next kept call in the current function.
pub struct EdgeState {
    pub nodes: Seq<GraphNodeView>,
    pub edges: Seq<GraphEdgeView>,
    pub seen: Seq<Seq<char>>,
    pub seq: int,
}

/// The edge (and, when new, the leaf) for one call site of function `from`.
pub open spec fn call_edge(ix: IndexView, from: Seq<char>, site: crate::ir::CallSiteView, st: EdgeState) -> EdgeState {
    let target = resolve_spec(ix, site);
    if omitted(site, uses_of_file(ix, site.file), target is Some) {
        st
    } else {
        let to = match target {
            Some(id) => fn_node_id(id),
            None => leaf_id(site.display),
        };
        let st1 = if target is None && !st.seen.contains(to) {
            EdgeState {
                nodes: st.nodes.push(GraphNodeView::Leaf { id: to, label: site.display }),
                edges: st.edges,
                seen: st.seen.push(to),
                seq: st.seq,
            }
        } else {
            st
        };
        EdgeState {
            nodes: st1.nodes,
            edges: st1.edges.push(GraphEdgeView { from, to, label: site.display, seq: st1.seq }),
            seen: st1.seen,
            seq: st1.seq + 1,
        }
    }
}

/// Edges of the calls in `raws[k..]`; nested functions contribute none.
pub open spec fn edges_in(ix: IndexView, from: Seq<char>, raws: Seq<RawView>, k: int, st: EdgeState) -> EdgeState
    decreases raws, raws.len() - k,
{
    if k < 0 || k >= raws.len() {
        st
    } else {
        edges_in(ix, from, raws, k + 1, edges_of(ix, from, raws[k], st))
    }
}

pub open spec fn edges_of(ix: IndexView, from: Seq<char>, n: RawView, st: EdgeState) -> EdgeState
    decreases n, 0int,
{
    match n {
        RawView::Control { children, .. } => edges_in(ix, from, children, 0, st),
        RawView::NestedFn { .. } => st,
        RawView::Call { site } => call_edge(ix, from, site, st),
    }
}

/// Function nodes of the first `k` definitions that have a body.
pub open spec fn fn_nodes(ix: IndexView, entries: Seq<FnIdView>, k: int) -> Seq<GraphNodeView>
    decreases k,
{
    if k <= 0 || k > ix.defs.len() {
        Seq::empty()
    } else {
        let d = ix.defs[k - 1];
        fn_nodes(ix, entries, k - 1) + if d.has_body {
            seq![GraphNodeView::Function {
                id: fn_node_id(d.id),
                name: d.name,
                file: d.id.file,
                line: d.start_line,
                entry: entries.contains(d.id),
                start_byte: d.id.start_byte,
                end_byte: d.end_byte,
            }]
        } else {
            Seq::empty()
        }
    }
}

/// State after the edges of the first `k` definitions that have a body.
pub open spec fn edges_upto(ix: IndexView, k: int, st: EdgeState) -> EdgeState
    decreases k,
{
    if k <= 0 || k > ix.defs.len() {
        st
    } else {
        let st1 = edges_upto(ix, k - 1, st);
        let d = ix.defs[k - 1];
        if d.has_body {
            edges_in(
                ix,
                fn_node_id(d.id),
                d.body,
                0,
                EdgeState { nodes: st1.nodes, edges: st1.edges, seen: st1.seen, seq: 0 },
            )
        } else {
            st1
        }
    }
}

/// Functions first, by file then start offset; leaves by identity.
pub open spec fn node_less(a: GraphNodeView, b: GraphNodeView) -> bool {
    match a {
        GraphNodeView::Function { file: fa, start_byte: sa, .. } => match b {
            GraphNodeView::Function { file: fb, start_byte: sb, .. } => if fa != fb {
                seq_less(fa, fb)
            } else {
                sa < sb
            },
            GraphNodeView::Leaf { .. } => true,
        },
        GraphNodeView::Leaf { id: ia, .. } => match b {
            GraphNodeView::Function { .. } => false,
            GraphNodeView::Leaf { id: ib, .. } => seq_less(ia, ib),
        },
    }
}

/// Edges by source, target, label, then call index.
pub open spec fn edge_less(a: GraphEdgeView, b: GraphEdgeView) -> bool {
    if a.from != b.from {
        seq_less(a.from, b.from)
    } else if a.to != b.to {
        seq_less(a.to, b.to)
    } else if a.label != b.label {
        seq_less(a.label, b.label)
    } else {
        a.seq < b.seq
    }
}

/// The call graph of an index: a node per function with a body (flagged when
/// it is an entry point), a leaf per distinct unresolved call, and an edge per
/// kept call, in sorted order.
pub open spec fn call_graph_spec(ix: IndexView) -> CallGraphView {
    let entries = select_entries_spec(ix, called_spec(ix));
    let nodes = fn_nodes(ix, entries, ix.defs.len() as int);
    let st = edges_upto(
        ix,
        ix.defs.len() as int,
        EdgeState { nodes, edges: Seq::empty(), seen: nodes.map_values(|n: GraphNodeView| node_id(n)), seq: 0 },
    );
    CallGraphView {
        nodes: sorted_by(st.nodes, |a: GraphNodeView, b: GraphNodeView| node_less(a, b)),
        edges: sorted_by(st.edges, |a: GraphEdgeView, b: GraphEdgeView| edge_less(a, b)),
    }
}

/// Identities of `nodes`, in order.
pub open spec fn ids_of(nodes: Seq<GraphNodeView>) -> Seq<Seq<char>> {
    nodes.map_values(|n: GraphNodeView| node_id(n))
}

/// Every edge of `g` starts and ends at one of its nodes.
pub open spec fn edges_closed(g: CallGraphView) -> bool {
    forall|k: int|
        0 <= k < g.edges.len() ==> ids_of(g.nodes).contains(#[trigger] g.edges[k].from) && ids_of(
            g.nodes,
        ).contains(g.edges[k].to)
}

/// While collecting: the identities seen are those of the nodes, every
/// function with a body has its node, and every edge ends at nodes.
pub open spec fn state_ok(ix: IndexView, st: EdgeState) -> bool {
    &&& st.seen == ids_of(st.nodes)
    &&& forall|j: int|
        0 <= j < ix.defs.len() && ix.defs[j].has_body ==> ids_of(st.nodes).contains(
            #[trigger] fn_node_id(ix.defs[j].id),
        )
    &&& forall|k: int|
        0 <= k < st.edges.len() ==> ids_of(st.nodes).contains(#[trigger] st.edges[k].from) && ids_of(
            st.nodes,
        ).contains(st.edges[k].to)
}

/// Node identities only accumulate.
pub open spec fn grows(a: EdgeState, b: EdgeState) -> bool {
    forall|x: Seq<char>| ids_of(a.nodes).contains(x) ==> #[trigger] ids_of(b.nodes).contains(x)
}

proof fn lemma_ids_push(nodes: Seq<GraphNodeView>, n: GraphNodeView)
    ensures
        ids_of(nodes.push(n)) == ids_of(nodes).push(node_id(n)),
{
    assert(ids_of(nodes.push(n)) =~= ids_of(nodes).push(node_id(n)));
}

proof fn lemma_push_contains(s: Seq<Seq<char>>, a: Seq<char>, x: Seq<char>)
    ensures
        s.push(a).contains(x) <==> (s.contains(x) || x == a),
{
    if s.push(a).contains(x) {
        let k = choose|k: int| 0 <= k < s.push(a).len() && s.push(a)[k] == x;
        if k < s.len() {
            assert(s[k] == x);
        }
    }
    if s.contains(x) {
        let k = choose|k: int| 0 <= k < s.len() && s[k] == x;
        assert(s.push(a)[k] == x);
    }
    assert(s.push(a)[s.len() as int] == a);
}

proof fn lemma_call_edge(ix: IndexView, from: Seq<char>, site: crate::ir::CallSiteView, st: EdgeState)
    requires
        state_ok(ix, st),
        ids_of(st.nodes).contains(from),
    ensures
        state_ok(ix, call_edge(ix, from, site, st)),
        grows(st, call_edge(ix, from, site, st)),
{
    let target = resolve_spec(ix, site);
    if !omitted(site, uses_of_file(ix, site.file), target is Some) {
        let to = match target {
            Some(id) => fn_node_id(id),
            None => leaf_id(site.display),
        };
        let st1 = if target is None && !st.seen.contains(to) {
            EdgeState {
                nodes: st.nodes.push(GraphNodeView::Leaf { id: to, label: site.display }),
                edges: st.edges,
                seen: st.seen.push(to),
                seq: st.seq,
            }
        } else {
            st
        };
        if target is None && !st.seen.contains(to) {
            lemma_ids_push(st.nodes, GraphNodeView::Leaf { id: to, label: site.display });
            assert forall|x: Seq<char>| ids_of(st.nodes).contains(x) implies #[trigger] ids_of(st1.nodes).contains(x) by {
                lemma_push_contains(ids_of(st.nodes), to, x);
            }
            lemma_push_contains(ids_of(st.nodes), to, to);
        }
        assert(ids_of(st1.nodes).contains(to)) by {
            match target {
                Some(id) => {
                    crate::resolve::law_resolved_target_has_body(ix, site);
                    let j = choose|j: int| 0 <= j < ix.defs.len() && ix.defs[j].has_body && #[trigger] ix.defs[j].id == id;
                    assert(ids_of(st.nodes).contains(fn_node_id(ix.defs[j].id)));
                },
                None => {},
            }
        }
        let st2 = call_edge(ix, from, site, st);
        assert(st2.nodes == st1.nodes);
        assert(st2.edges == st1.edges.push(GraphEdgeView { from, to, label: site.display, seq: st1.seq }));
        assert forall|k: int| 0 <= k < st2.edges.len() implies ids_of(st2.nodes).contains(#[trigger] st2.edges[k].from) && ids_of(
            st2.nodes,
        ).contains(st2.edges[k].to) by {
            if k < st1.edges.len() {
                assert(st2.edges[k] == st1.edges[k]);
                assert(st1.edges[k] == st.edges[k]);
            }
        }
    }
}

proof fn lemma_edges_in(ix: IndexView, from: Seq<char>, raws: Seq<RawView>, k: int, st: EdgeState)
    requires
        state_ok(ix, st),
        ids_of(st.nodes).contains(from),
    ensures
        state_ok(ix, edges_in(ix, from, raws, k, st)),
        grows(st, edges_in(ix, from, raws, k, st)),
    decreases raws, raws.len() - k,
{
    if 0 <= k < raws.len() {
        let st1 = edges_of(ix, from, raws[k], st);
        lemma_edges_of(ix, from, raws[k], st);
        lemma_edges_in(ix, from, raws, k + 1, st1);
    }
}

proof fn lemma_edges_of(ix: IndexView, from: Seq<char>, n: RawView, st: EdgeState)
    requires
        state_ok(ix, st),
        ids_of(st.nodes).contains(from),
    ensures
        state_ok(ix, edges_of(ix, from, n, st)),
        grows(st, edges_of(ix, from, n, st)),
    decreases n, 0int,
{
    match n {
        RawView::Control { children, .. } => {
            lemma_edges_in(ix, from, children, 0, st);
        },
        RawView::NestedFn { .. } => {},
        RawView::Call { site } => {
            lemma_call_edge(ix, from, site, st);
        },
    }
}

proof fn lemma_edges_upto(ix: IndexView, k: int, st: EdgeState)
    requires
        state_ok(ix, st),
    ensures
        state_ok(ix, edges_upto(ix, k, st)),
    decreases k,
{
    if 0 < k <= ix.defs.len() {
        lemma_edges_upto(ix, k - 1, st);
        let st1 = edges_upto(ix, k - 1, st);
        let d = ix.defs[k - 1];
        if d.has_body {
            let st2 = EdgeState { nodes: st1.nodes, edges: st1.edges, seen: st1.seen, seq: 0 };
            assert(ids_of(st2.nodes).contains(fn_node_id(ix.defs[k - 1].id)));
            lemma_edges_in(ix, fn_node_id(d.id), d.body, 0, st2);
        }
    }
}

proof fn lemma_fn_nodes(ix: IndexView, entries: Seq<FnIdView>, k: int)
    requires
        0 <= k <= ix.defs.len(),
    ensures
        forall|j: int|
            0 <= j < k && j < ix.defs.len() && ix.defs[j].has_body ==> ids_of(fn_nodes(ix, entries, k)).contains(
                #[trigger] fn_node_id(ix.defs[j].id),
            ),
    decreases k,
{
    if 0 < k <= ix.defs.len() {
        lemma_fn_nodes(ix, entries, k - 1);
        let prev = fn_nodes(ix, entries, k - 1);
        let d = ix.defs[k - 1];
        let extra = if d.has_body {
            seq![GraphNodeView::Function {
                id: fn_node_id(d.id),
                name: d.name,
                file: d.id.file,
                line: d.start_line,
                entry: entries.contains(d.id),
                start_byte: d.id.start_byte,
                end_byte: d.end_byte,
            }]
        } else {
            Seq::empty()
        };
        assert(fn_nodes(ix, entries, k) == prev + extra);
        assert forall|j: int| 0 <= j < k && j < ix.defs.len() && ix.defs[j].has_body implies ids_of(fn_nodes(ix, entries, k)).contains(
            #[trigger] fn_node_id(ix.defs[j].id),
        ) by {
            let all = fn_nodes(ix, entries, k);
            if j < k - 1 {
                let i = choose|i: int| 0 <= i < ids_of(prev).len() && ids_of(prev)[i] == fn_node_id(ix.defs[j].id);
                assert(all[i] == prev[i]);
                assert(ids_of(all)[i] == fn_node_id(ix.defs[j].id));
            } else {
                assert(all[prev.len() as int] == extra[0]);
                assert(ids_of(all)[prev.len() as int] == fn_node_id(ix.defs[j].id));
            }
        }
    }
}

/// Law: every edge of the call graph of an index starts and ends at a node
/// of that graph, so each edge can be drawn between two drawn nodes.
pub proof fn law_edges_end_at_nodes(ix: IndexView)
    ensures
        edges_closed(call_graph_spec(ix)),
{
    let entries = select_entries_spec(ix, called_spec(ix));
    let nodes = fn_nodes(ix, entries, ix.defs.len() as int);
    let st0 = EdgeState { nodes, edges: Seq::empty(), seen: nodes.map_values(|n: GraphNodeView| node_id(n)), seq: 0 };
    lemma_fn_nodes(ix, entries, ix.defs.len() as int);
    assert(state_ok(ix, st0));
    lemma_edges_upto(ix, ix.defs.len() as int, st0);
    let st = edges_upto(ix, ix.defs.len() as int, st0);
    let g = call_graph_spec(ix);
    let nless = |a: GraphNodeView, b: GraphNodeView| node_less(a, b);
    let eless = |a: GraphEdgeView, b: GraphEdgeView| edge_less(a, b);
    assert(g.nodes == sorted_by(st.nodes, nless));
    assert(g.edges == sorted_by(st.edges, eless));
    assert forall|x: Seq<char>| ids_of(st.nodes).contains(x) implies #[trigger] ids_of(g.nodes).contains(x) by {
        let i = choose|i: int| 0 <= i < ids_of(st.nodes).len() && ids_of(st.nodes)[i] == x;
        assert(st.nodes.contains(st.nodes[i]));
        crate::sort::lemma_sorted_by_contains(st.nodes, nless, st.nodes[i]);
        let q = choose|q: int| 0 <= q < g.nodes.len() && g.nodes[q] == st.nodes[i];
        assert(ids_of(g.nodes)[q] == x);
    }
    assert forall|k: int| 0 <= k < g.edges.len() implies ids_of(g.nodes).contains(#[trigger] g.edges[k].from) && ids_of(
        g.nodes,
    ).contains(g.edges[k].to) by {
        crate::sort::lemma_sorted_by_contains(st.edges, eless, g.edges[k]);
        assert(g.edges.contains(g.edges[k]));
        let q = choose|q: int| 0 <= q < st.edges.len() && st.edges[q] == g.edges[k];
        assert(ids_of(st.nodes).contains(st.edges[q].from));
        assert(ids_of(st.nodes).contains(st.edges[q].to));
    }
}

fn function_node_id(id: &crate::ir::FnId) -> (s: String)
    ensures
        s@ == fn_node_id(id@),
{
    let mut s = id.file.clone();
    push_str(&mut s, ":");
    push_decimal(&mut s, id.start_byte);
    s
}

fn contains_string(v: &Vec<String>, s: &String) -> (r: bool)
    ensures
        r == v.deep_view().contains(s@),
{
    let ghost dv = v.deep_view();
    let mut k: usize = 0;
    while k < v.len()
        invariant
            k <= v@.len(),
            dv == v.deep_view(),
            forall|q: int| 0 <= q < k ==> dv[q] != s@,
        decreases v@.len() - k,
    {
        if str_eq(v[k].as_str(), s.as_str()) {
            assert(dv[k as int] == s@);
            return true;
        }
        k = k + 1;
    }
    false
}

pub open spec fn state_of(nodes: Seq<GraphNode>, edges: Seq<GraphEdge>, seen: Seq<String>, seq: usize) -> EdgeState {
    EdgeState {
        nodes: nodes_view(nodes),
        edges: edges_view(edges),
        seen: seen.map_values(|s: String| s@),
        seq: seq as int,
    }
}

fn collect_call_edges(
    raws: &Vec<RawNode>,
    from: &String,
    index: &ResolveIndex,
    nodes: &mut Vec<GraphNode>,
    edges: &mut Vec<GraphEdge>,
    seen: &mut Vec<String>,
    seq: &mut usize,
)
    requires
        *old(seq) <= old(edges)@.len(),
    ensures
        state_of(final(nodes)@, final(edges)@, final(seen)@, *final(seq)) == edges_in(
            index@,
            from@,
            raws_view(raws@),
            0,
            state_of(old(nodes)@, old(edges)@, old(seen)@, *old(seq)),
        ),
        *final(seq) <= final(edges)@.len(),
    decreases raws, 1int,
{
    let ghost rv = raws_view(raws@);
    let ghost st0 = state_of(nodes@, edges@, seen@, *seq);
    let mut k: usize = 0;
    while k < raws.len()
        invariant
            k <= raws@.len(),
            rv == raws_view(raws@),
            *seq <= edges@.len(),
            edges_in(index@, from@, rv, 0, st0) == edges_in(index@, from@, rv, k as int, state_of(nodes@, edges@, seen@, *seq)),
        decreases raws@.len() - k,
    {
        proof {
            assert(decreases_to!(raws => raws@));
            assert(decreases_to!(raws@ => raws@[k as int]));
        }
        collect_node_edges(&raws[k], from, index, nodes, edges, seen, seq);
        k = k + 1;
    }
}

fn collect_node_edges(
    raw: &RawNode,
    from: &String,
    index: &ResolveIndex,
    nodes: &mut Vec<GraphNode>,
    edges: &mut Vec<GraphEdge>,
    seen: &mut Vec<String>,
    seq: &mut usize,
)
    requires
        *old(seq) <= old(edges)@.len(),
    ensures
        state_of(final(nodes)@, final(edges)@, final(seen)@, *final(seq)) == edges_of(
            index@,
            from@,
            raw@,
            state_of(old(nodes)@, old(edges)@, old(seen)@, *old(seq)),
        ),
        *final(seq) <= final(edges)@.len(),
    decreases raw, 0int,
{
    match raw {
        RawNode::Control { children, .. } => {
            assert(raws_view(children@) =~= raw@->Control_children);
            collect_call_edges(children, from, index, nodes, edges, seen, seq);
        },
        RawNode::NestedFn { .. } => {},
        RawNode::Call { site } => {
            let ghost st = state_of(nodes@, edges@, seen@, *seq);
            let empty = UseMap::new();
            let uses = match index.uses_for_file(site.file.as_str()) {
                Some(u) => u,
                None => &empty,
            };
            let target = resolve(site, index);
            if should_omit_resolved(site, uses, target.is_some()) {
                return;
            }
            let to = match target {
                Some(id) => function_node_id(&id),
                None => {
                    let mut leaf = owned("leaf:");
                    push_str(&mut leaf, site.display.as_str());
                    assert(seen.deep_view() =~= seen@.map_values(|s: String| s@));
                    if !contains_string(seen, &leaf) {
                        let ghost n0 = nodes_view(nodes@);
                        let ghost s0 = seen@;
                        nodes.push(GraphNode::Leaf { id: leaf.clone(), label: site.display.clone() });
                        seen.push(leaf.clone());
                        assert(nodes_view(nodes@) =~= n0.push(GraphNodeView::Leaf { id: leaf@, label: site@.display }));
                        assert(seen@.map_values(|s: String| s@) =~= s0.map_values(|s: String| s@).push(leaf@));
                    }
                    leaf
                },
            };
            let ghost e0 = edges_view(edges@);
            edges.push(GraphEdge { from: from.clone(), to, label: site.display.clone(), seq: *seq });
            assert(edges_view(edges@) =~= e0.push(edges@.last()@));
            let count = edges.len();
            assert(*seq < count);
            *seq = *seq + 1;
        },
    }
}

fn node_less_exec(a: &GraphNode, b: &GraphNode) -> (r: bool)
    ensures
        r == node_less(a@, b@),
{
    match (a, b) {
        (GraphNode::Function { file: fa, start_byte: sa, .. }, GraphNode::Function { file: fb, start_byte: sb, .. }) => {
            if !str_eq(fa.as_str(), fb.as_str()) {
                str_less(fa.as_str(), fb.as_str())
            } else {
                *sa < *sb
            }
        },
        (GraphNode::Function { .. }, GraphNode::Leaf { .. }) => true,
        (GraphNode::Leaf { .. }, GraphNode::Function { .. }) => false,
        (GraphNode::Leaf { id: ia, .. }, GraphNode::Leaf { id: ib, .. }) => str_less(ia.as_str(), ib.as_str()),
    }
}

fn edge_less_exec(a: &GraphEdge, b: &GraphEdge) -> (r: bool)
    ensures
        r == edge_less(a@, b@),
{
    if !str_eq(a.from.as_str(), b.from.as_str()) {
        str_less(a.from.as_str(), b.from.as_str())
    } else if !str_eq(a.to.as_str(), b.to.as_str()) {
        str_less(a.to.as_str(), b.to.as_str())
    } else if !str_eq(a.label.as_str(), b.label.as_str()) {
        str_less(a.label.as_str(), b.label.as_str())
    } else {
        a.seq < b.seq
    }
}

fn copy_node(n: &GraphNode) -> (r: GraphNode)
    ensures
        r@ == n@,
{
    match n {
        GraphNode::Function { id, name, file, line, entry, start_byte, end_byte } => GraphNode::Function {
            id: id.clone(),
            name: name.clone(),
            file: file.clone(),
            line: *line,
            entry: *entry,
            start_byte: *start_byte,
            end_byte: *end_byte,
        },
        GraphNode::Leaf { id, label } => GraphNode::Leaf { id: id.clone(), label: label.clone() },
    }
}

fn sort_nodes(v: Vec<GraphNode>) -> (out: Vec<GraphNode>)
    ensures
        nodes_view(out@) == sorted_by(nodes_view(v@), |a: GraphNodeView, b: GraphNodeView| node_less(a, b)),
{
    let ghost less = |a: GraphNodeView, b: GraphNodeView| node_less(a, b);
    let ghost kv = nodes_view(v@);
    let mut out: Vec<GraphNode> = Vec::new();
    let mut k: usize = 0;
    let n = v.len();
    assert(kv.take(0) =~= Seq::<GraphNodeView>::empty());
    assert(nodes_view(out@) =~= Seq::<GraphNodeView>::empty());
    while k < n
        invariant
            n == v@.len(),
            k <= n,
            kv == nodes_view(v@),
            kv.len() == n,
            less == (|a: GraphNodeView, b: GraphNodeView| node_less(a, b)),
            nodes_view(out@) == sorted_by(kv.take(k as int), less),
        decreases n - k,
    {
        let x = copy_node(&v[k]);
        let ghost xv = kv[k as int];
        assert(x@ == xv);
        let ghost ov = nodes_view(out@);
        let mut p = out.len();
        while p > 0 && node_less_exec(&x, &out[p - 1])
            invariant
                p <= out@.len(),
                ov == nodes_view(out@),
                ov.len() == out@.len(),
                x@ == xv,
                less == (|a: GraphNodeView, b: GraphNodeView| node_less(a, b)),
                forall|q: int| p <= q < ov.len() ==> less(xv, #[trigger] ov[q]),
            decreases p,
        {
            assert(ov[p - 1] == out@[p - 1]@);
            p = p - 1;
        }
        proof {
            if p > 0 {
                assert(ov[p - 1] == out@[p - 1]@);
            }
            lemma_insert_sorted_at(ov, xv, less, p as int);
            assert(kv.take(k + 1).drop_last() =~= kv.take(k as int));
            assert(kv.take(k + 1).last() == xv);
        }
        out.insert(p, x);
        assert(nodes_view(out@) =~= ov.take(p as int).push(xv) + ov.skip(p as int));
        k = k + 1;
    }
    assert(kv.take(n as int) =~= kv);
    out
}

fn sort_edges(v: Vec<GraphEdge>) -> (out: Vec<GraphEdge>)
    ensures
        edges_view(out@) == sorted_by(edges_view(v@), |a: GraphEdgeView, b: GraphEdgeView| edge_less(a, b)),
{
    let ghost less = |a: GraphEdgeView, b: GraphEdgeView| edge_less(a, b);
    let ghost kv = edges_view(v@);
    let mut out: Vec<GraphEdge> = Vec::new();
    let mut k: usize = 0;
    let n = v.len();
    assert(kv.take(0) =~= Seq::<GraphEdgeView>::empty());
    assert(edges_view(out@) =~= Seq::<GraphEdgeView>::empty());
    while k < n
        invariant
            n == v@.len(),
            k <= n,
            kv == edges_view(v@),
            kv.len() == n,
            less == (|a: GraphEdgeView, b: GraphEdgeView| edge_less(a, b)),
            edges_view(out@) == sorted_by(kv.take(k as int), less),
        decreases n - k,
    {
        let x = GraphEdge { from: v[k].from.clone(), to: v[k].to.clone(), label: v[k].label.clone(), seq: v[k].seq };
        let ghost xv = kv[k as int];
        assert(x@ == xv);
        let ghost ov = edges_view(out@);
        let mut p = out.len();
        while p > 0 && edge_less_exec(&x, &out[p - 1])
            invariant
                p <= out@.len(),
                ov == edges_view(out@),
                ov.len() == out@.len(),
                x@ == xv,
                less == (|a: GraphEdgeView, b: GraphEdgeView| edge_less(a, b)),
                forall|q: int| p <= q < ov.len() ==> less(xv, #[trigger] ov[q]),
            decreases p,
        {
            assert(ov[p - 1] == out@[p - 1]@);
            p = p - 1;
        }
        proof {
            if p > 0 {
                assert(ov[p - 1] == out@[p - 1]@);
            }
            lemma_insert_sorted_at(ov, xv, less, p as int);
            assert(kv.take(k + 1).drop_last() =~= kv.take(k as int));
            assert(kv.take(k + 1).last() == xv);
        }
        out.insert(p, x);
        assert(edges_view(out@) =~= ov.take(p as int).push(xv) + ov.skip(p as int));
        k = k + 1;
    }
    assert(kv.take(n as int) =~= kv);
    out
}

fn build_call_graph(index: &ResolveIndex) -> (g: CallGraph)
    ensures
        g@ == call_graph_spec(index@),
{
    let ghost ix = index@;
    let called = called_targets(index);
    let entries = select_entries(index, &called);
    let ghost ev = ids_view(entries@);
    let mut nodes: Vec<GraphNode> = Vec::new();
    let mut seen: Vec<String> = Vec::new();
    let mut k: usize = 0;
    assert(nodes_view(nodes@) =~= Seq::<GraphNodeView>::empty());
    while k < index.defs.len()
        invariant
            ix == index@,
            ev == ids_view(entries@),
            ev == select_entries_spec(ix, called_spec(ix)),
            k <= index.defs@.len(),
            ix.defs.len() == index.defs@.len(),
            nodes_view(nodes@) == fn_nodes(ix, ev, k as int),
            seen@.map_values(|s: String| s@) == nodes_view(nodes@).map_values(|n: GraphNodeView| node_id(n)),
        decreases index.defs@.len() - k,
    {
        let d = &index.defs[k];
        assert(ix.defs[k as int] == d@);
        if d.has_body {
            let id = function_node_id(&d.id);
            let ghost n0 = nodes_view(nodes@);
            let ghost s0 = seen@;
            let node = GraphNode::Function {
                id: id.clone(),
                name: d.name.clone(),
                file: d.id.file.clone(),
                line: d.start_line,
                entry: contains_id(&entries, &d.id),
                start_byte: d.id.start_byte,
                end_byte: d.end_byte,
            };
            let ghost nv = node@;
            nodes.push(node);
            seen.push(id);
            assert(nodes_view(nodes@) =~= n0 + seq![nv]);
            assert(seen@.map_values(|s: String| s@) =~= s0.map_values(|s: String| s@).push(node_id(nv)));
            assert(nodes_view(nodes@).map_values(|n: GraphNodeView| node_id(n)) =~= n0.map_values(|n: GraphNodeView| node_id(n)).push(node_id(nv)));
        } else {
            assert(nodes_view(nodes@) =~= nodes_view(nodes@) + Seq::<GraphNodeView>::empty());
        }
        k = k + 1;
    }
    let mut edges: Vec<GraphEdge> = Vec::new();
    let ghost st0 = state_of(nodes@, edges@, seen@, 0);
    assert(st0.edges =~= Seq::<GraphEdgeView>::empty());
    assert(st0 == EdgeState {
        nodes: fn_nodes(ix, ev, ix.defs.len() as int),
        edges: Seq::empty(),
        seen: fn_nodes(ix, ev, ix.defs.len() as int).map_values(|n: GraphNodeView| node_id(n)),
        seq: 0,
    });
    let mut j: usize = 0;
    while j < index.defs.len()
        invariant
            ix == index@,
            j <= index.defs@.len(),
            ix.defs.len() == index.defs@.len(),
            edges_upto(ix, j as int, st0).nodes == nodes_view(nodes@),
            edges_upto(ix, j as int, st0).edges == edges_view(edges@),
            edges_upto(ix, j as int, st0).seen == seen@.map_values(|s: String| s@),
        decreases index.defs@.len() - j,
    {
        let d = &index.defs[j];
        assert(ix.defs[j as int] == d@);
        if d.has_body {
            let from = function_node_id(&d.id);
            let mut seq: usize = 0;
            collect_call_edges(&d.body, &from, index, &mut nodes, &mut edges, &mut seen, &mut seq);
        }
        j = j + 1;
    }
    let nodes = sort_nodes(nodes);
    let edges = sort_edges(edges);
    CallGraph { nodes, edges }
}

/// Call graph of `files` (POSIX relative path, source), as `outline_files`
/// takes them.
pub fn graph_files(files: &[(String, String)]) -> (g: CallGraph)
    ensures
        g@ == call_graph_spec(index_of(files_view(files@))),
{
    let index = index_files(files);
    build_call_graph(&index)
}

pub open spec fn hex_digit(d: nat) -> char {
    if d < 10 {
        crate::text::digit_char(d)
    } else if d == 10 {
        'a'
    } else if d == 11 {
        'b'
    } else if d == 12 {
        'c'
    } else if d == 13 {
        'd'
    } else if d == 14 {
        'e'
    } else {
        'f'
    }
}

/// Four lower-case hex digits of `n`.
pub open spec fn hex4(n: nat) -> Seq<char> {
    seq![hex_digit((n / 4096) % 16), hex_digit((n / 256) % 16), hex_digit((n / 16) % 16), hex_digit(n % 16)]
}

/// JSON escape of one character.
pub open spec fn json_char(c: char) -> Seq<char> {
    if c == '"' {
        seq!['\\', '"']
    } else if c == '\\' {
        seq!['\\', '\\']
    } else if c == '\n' {
        seq!['\\', 'n']
    } else if c == '\r' {
        seq!['\\', 'r']
    } else if c == '\t' {
        seq!['\\', 't']
    } else if (c as u32) < 0x20 {
        seq!['\\', 'u'] + hex4(c as nat)
    } else {
        seq![c]
    }
}

pub open spec fn json_chars(s: Seq<char>) -> Seq<char>
    decreases s.len(),
{
    if s.len() == 0 {
        Seq::empty()
    } else {
        json_chars(s.drop_last()) + json_char(s.last())
    }
}

/// `s` as a JSON string literal.
pub open spec fn json_string(s: Seq<char>) -> Seq<char> {
    seq!['"'] + json_chars(s) + seq!['"']
}

fn hex_char(d: u32) -> (c: char)
    requires
        d < 16,
    ensures
        c == hex_digit(d as nat),
{
    if d < 10 {
        crate::text::digit(d as usize)
    } else if d == 10 {
        'a'
    } else if d == 11 {
        'b'
    } else if d == 12 {
        'c'
    } else if d == 13 {
        'd'
    } else if d == 14 {
        'e'
    } else {
        'f'
    }
}

fn push_json_char(out: &mut String, c: char)
    ensures
        final(out)@ == old(out)@ + json_char(c),
{
    if c == '"' {
        push_char(out, '\\');
        push_char(out, '"');
    } else if c == '\\' {
        push_char(out, '\\');
        push_char(out, '\\');
    } else if c == '\n' {
        push_char(out, '\\');
        push_char(out, 'n');
    } else if c == '\r' {
        push_char(out, '\\');
        push_char(out, 'r');
    } else if c == '\t' {
        push_char(out, '\\');
        push_char(out, 't');
    } else if (c as u32) < 0x20 {
        let v = c as u32;
        push_char(out, '\\');
        push_char(out, 'u');
        push_char(out, hex_char((v / 4096) % 16));
        push_char(out, hex_char((v / 256) % 16));
        push_char(out, hex_char((v / 16) % 16));
        push_char(out, hex_char(v % 16));
    } else {
        push_char(out, c);
    }
    assert(final(out)@ =~= old(out)@ + json_char(c));
}

fn write_json_string(out: &mut String, s: &str)
    ensures
        final(out)@ == old(out)@ + json_string(s@),
{
    let cs = chars_of(s);
    let ghost start = out@;
    push_char(out, '"');
    let mut k: usize = 0;
    while k < cs.len()
        invariant
            cs@ == s@,
            k <= cs@.len(),
            out@ == start + seq!['"'] + json_chars(s@.take(k as int)),
        decreases cs@.len() - k,
    {
        assert(s@.take(k + 1).drop_last() =~= s@.take(k as int));
        push_json_char(out, cs[k]);
        k = k + 1;
    }
    assert(s@.take(cs@.len() as int) =~= s@);
    push_char(out, '"');
    assert(out@ =~= start + json_string(s@));
}

/// `items` separated by `,\n`.
pub open spec fn comma_lines(items: Seq<Seq<char>>) -> Seq<char>
    decreases items.len(),
{
    if items.len() == 0 {
        Seq::empty()
    } else if items.len() == 1 {
        items[0]
    } else {
        comma_lines(items.drop_last()) + ",\n"@ + items.last()
    }
}

pub open spec fn bool_text(b: bool) -> Seq<char> {
    if b {
        "true"@
    } else {
        "false"@
    }
}

pub open spec fn node_json(n: GraphNodeView) -> Seq<char> {
    match n {
        GraphNodeView::Function { id, name, file, line, entry, .. } => "    {\n      \"id\": "@ + json_string(id)
            + ",\n      \"kind\": \"function\",\n      \"name\": "@ + json_string(name) + ",\n      \"file\": "@
            + json_string(file) + ",\n      \"line\": "@ + decimal(line as nat) + ",\n      \"entry\": "@
            + bool_text(entry) + "\n    }"@,
        GraphNodeView::Leaf { id, label } => "    {\n      \"id\": "@ + json_string(id)
            + ",\n      \"kind\": \"leaf\",\n      \"label\": "@ + json_string(label) + "\n    }"@,
    }
}

pub open spec fn edge_json(e: GraphEdgeView) -> Seq<char> {
    "    {\n      \"from\": "@ + json_string(e.from) + ",\n      \"to\": "@ + json_string(e.to)
        + ",\n      \"label\": "@ + json_string(e.label) + ",\n      \"seq\": "@ + decimal(e.seq as nat)
        + "\n    }"@
}

/// JSON form of a graph; empty when it has no nodes.
pub open spec fn graph_json(g: CallGraphView) -> Seq<char> {
    if g.nodes.len() == 0 {
        Seq::empty()
    } else {
        "{\n  \"nodes\": [\n"@ + comma_lines(g.nodes.map_values(|n: GraphNodeView| node_json(n)))
            + "\n  ],\n  \"edges\": ["@ + if g.edges.len() == 0 {
            "]\n}\n"@
        } else {
            "\n"@ + comma_lines(g.edges.map_values(|e: GraphEdgeView| edge_json(e))) + "\n  ]\n}\n"@
        }
    }
}

fn push_node_json(out: &mut String, n: &GraphNode)
    ensures
        final(out)@ == old(out)@ + node_json(n@),
{
    match n {
        GraphNode::Function { id, name, file, line, entry, .. } => {
            push_str(out, "    {\n      \"id\": ");
            write_json_string(out, id.as_str());
            push_str(out, ",\n      \"kind\": \"function\",\n      \"name\": ");
            write_json_string(out, name.as_str());
            push_str(out, ",\n      \"file\": ");
            write_json_string(out, file.as_str());
            push_str(out, ",\n      \"line\": ");
            push_decimal(out, *line);
            push_str(out, ",\n      \"entry\": ");
            push_str(out, if *entry { "true" } else { "false" });
            push_str(out, "\n    }");
        },
        GraphNode::Leaf { id, label } => {
            push_str(out, "    {\n      \"id\": ");
            write_json_string(out, id.as_str());
            push_str(out, ",\n      \"kind\": \"leaf\",\n      \"label\": ");
            write_json_string(out, label.as_str());
            push_str(out, "\n    }");
        },
    }
    assert(final(out)@ =~= old(out)@ + node_json(n@));
}

fn push_edge_json(out: &mut String, e: &GraphEdge)
    ensures
        final(out)@ == old(out)@ + edge_json(e@),
{
    push_str(out, "    {\n      \"from\": ");
    write_json_string(out, e.from.as_str());
    push_str(out, ",\n      \"to\": ");
    write_json_string(out, e.to.as_str());
    push_str(out, ",\n      \"label\": ");
    write_json_string(out, e.label.as_str());
    push_str(out, ",\n      \"seq\": ");
    push_decimal(out, e.seq);
    push_str(out, "\n    }");
    assert(final(out)@ =~= old(out)@ + edge_json(e@));
}

/// JSON form of the graph: nodes then edges; empty when there are no nodes.
#[verifier::spinoff_prover]
#[verifier::rlimit(60)]
pub fn print_graph_json(graph: &CallGraph) -> (out: String)
    ensures
        out@ == graph_json(graph@),
{
    if graph.nodes.len() == 0 {
        return String::new();
    }
    let ghost items = graph@.nodes.map_values(|n: GraphNodeView| node_json(n));
    let mut out = owned("{\n  \"nodes\": [\n");
    let ghost head = out@;
    let mut k: usize = 0;
    while k < graph.nodes.len()
        invariant
            k <= graph.nodes@.len(),
            items == graph@.nodes.map_values(|n: GraphNodeView| node_json(n)),
            items.len() == graph.nodes@.len(),
            out@ == head + comma_lines(items.take(k as int)),
        decreases graph.nodes@.len() - k,
    {
        assert(items.take(k + 1).drop_last() =~= items.take(k as int));
        assert(items[k as int] == node_json(graph.nodes@[k as int]@));
        if k > 0 {
            push_str(&mut out, ",\n");
        }
        push_node_json(&mut out, &graph.nodes[k]);
        proof {
            if k == 0 {
                assert(comma_lines(items.take(0)) =~= Seq::<char>::empty());
            }
            assert(out@ =~= head + comma_lines(items.take(k + 1)));
        }
        k = k + 1;
    }
    assert(items.take(graph.nodes@.len() as int) =~= items);
    push_str(&mut out, "\n  ],\n  \"edges\": [");
    if graph.edges.len() == 0 {
        push_str(&mut out, "]\n}\n");
        assert(out@ =~= graph_json(graph@));
        return out;
    }
    push_str(&mut out, "\n");
    let ghost eitems = graph@.edges.map_values(|e: GraphEdgeView| edge_json(e));
    let ghost mid = out@;
    let mut j: usize = 0;
    while j < graph.edges.len()
        invariant
            j <= graph.edges@.len(),
            eitems == graph@.edges.map_values(|e: GraphEdgeView| edge_json(e)),
            eitems.len() == graph.edges@.len(),
            out@ == mid + comma_lines(eitems.take(j as int)),
        decreases graph.edges@.len() - j,
    {
        assert(eitems.take(j + 1).drop_last() =~= eitems.take(j as int));
        assert(eitems[j as int] == edge_json(graph.edges@[j as int]@));
        if j > 0 {
            push_str(&mut out, ",\n");
        }
        push_edge_json(&mut out, &graph.edges[j]);
        proof {
            if j == 0 {
                assert(comma_lines(eitems.take(0)) =~= Seq::<char>::empty());
            }
            assert(out@ =~= mid + comma_lines(eitems.take(j + 1)));
        }
        j = j + 1;
    }
    assert(eitems.take(graph.edges@.len() as int) =~= eitems);
    push_str(&mut out, "\n  ]\n}\n");
    assert(out@ =~= graph_json(graph@));
    out
}

/// Label of a node in Mermaid: `file:line name` for a function.
pub open spec fn node_label(n: GraphNodeView) -> Seq<char> {
    match n {
        GraphNodeView::Function { file, line, name, .. } => file + ":"@ + decimal(line as nat) + " "@ + name,
        GraphNodeView::Leaf { label, .. } => label,
    }
}

/// `s` with each `"` replaced by `'`.
pub open spec fn unquoted(s: Seq<char>) -> Seq<char> {
    s.map_values(|c: char| if c == '"' { '\'' } else { c })
}

/// Position of the first node with identity `id`.
pub open spec fn node_pos(nodes: Seq<GraphNodeView>, id: Seq<char>, k: int) -> Option<int>
    decreases nodes.len() - k,
{
    if k < 0 || k >= nodes.len() {
        None
    } else if node_id(nodes[k]) == id {
        Some(k)
    } else {
        node_pos(nodes, id, k + 1)
    }
}

pub open spec fn node_lines(nodes: Seq<GraphNodeView>) -> Seq<char>
    decreases nodes.len(),
{
    if nodes.len() == 0 {
        Seq::empty()
    } else {
        node_lines(nodes.drop_last()) + "  n"@ + decimal((nodes.len() - 1) as nat) + "[\""@ + unquoted(node_label(nodes.last())) + "\"]\n"@
    }
}

/// Arrow lines for `edges[..k]`, each (from, to) pair once, in order.
pub open spec fn arrow_lines(nodes: Seq<GraphNodeView>, edges: Seq<GraphEdgeView>, k: int) -> Seq<char>
    decreases k,
{
    if k <= 0 || k > edges.len() {
        Seq::empty()
    } else {
        let e = edges[k - 1];
        let earlier = exists|q: int| 0 <= q < k - 1 && edges[q].from == e.from && edges[q].to == e.to;
        arrow_lines(nodes, edges, k - 1) + if earlier {
            Seq::empty()
        } else {
            match (node_pos(nodes, e.from, 0), node_pos(nodes, e.to, 0)) {
                (Some(f), Some(t)) => "  n"@ + decimal(f as nat) + " --> n"@ + decimal(t as nat) + "\n"@,
                _ => Seq::empty(),
            }
        }
    }
}

/// Mermaid flowchart of a graph; empty when it has no nodes.
pub open spec fn graph_mermaid(g: CallGraphView) -> Seq<char> {
    if g.nodes.len() == 0 {
        Seq::empty()
    } else {
        "flowchart TD\n"@ + node_lines(g.nodes) + arrow_lines(g.nodes, g.edges, g.edges.len() as int)
    }
}

/// The node lines of a prefix of `nodes` begin the node lines of `nodes`.
proof fn lemma_node_lines_prefix(nodes: Seq<GraphNodeView>, k: int) -> (rest: Seq<char>)
    requires
        0 <= k <= nodes.len(),
    ensures
        node_lines(nodes) == node_lines(nodes.take(k)) + rest,
    decreases nodes.len(),
{
    if k == nodes.len() {
        assert(nodes.take(k) =~= nodes);
        assert(node_lines(nodes) + Seq::<char>::empty() =~= node_lines(nodes));
        Seq::empty()
    } else {
        let t = nodes.drop_last();
        assert(t.take(k) =~= nodes.take(k));
        let r = lemma_node_lines_prefix(t, k);
        let line = "  n"@ + decimal((nodes.len() - 1) as nat) + "[\""@ + unquoted(node_label(nodes.last())) + "\"]\n"@;
        assert(node_lines(nodes) == node_lines(t) + line);
        assert(node_lines(nodes) =~= node_lines(nodes.take(k)) + (r + line));
        r + line
    }
}

/// Law: a graph without nodes prints as empty Mermaid text.
pub proof fn law_mermaid_empty(g: CallGraphView)
    requires
        g.nodes.len() == 0,
    ensures
        graph_mermaid(g).len() == 0,
{
}

/// The line of node `i` stands in the node part of the Mermaid text.
proof fn lemma_mermaid_node_line(g: CallGraphView, i: int)
    requires
        0 <= i < g.nodes.len(),
    ensures
        "flowchart TD\n"@.is_prefix_of(graph_mermaid(g)),
        ({
            let line = "  n"@ + decimal(i as nat) + "[\""@ + unquoted(node_label(g.nodes[i])) + "\"]\n"@;
            exists|p: int|
                0 <= p && p + line.len() <= "flowchart TD\n"@.len() + node_lines(g.nodes).len()
                    && #[trigger] graph_mermaid(g).subrange(p, p + line.len()) == line
        }),
{
    let head = "flowchart TD\n"@;
    let m = graph_mermaid(g);
    let arrows = arrow_lines(g.nodes, g.edges, g.edges.len() as int);
    assert(m == head + node_lines(g.nodes) + arrows);
    let rest = lemma_node_lines_prefix(g.nodes, i + 1);
    let pre = g.nodes.take(i + 1);
    assert(pre.drop_last() =~= g.nodes.take(i));
    assert(pre.last() == g.nodes[i]);
    let line = "  n"@ + decimal(i as nat) + "[\""@ + unquoted(node_label(g.nodes[i])) + "\"]\n"@;
    let before = node_lines(g.nodes.take(i));
    assert(node_lines(pre) == before + line);
    let p: int = head.len() + before.len() as int;
    assert(m =~= head + before + line + (rest + arrows));
    assert(m.subrange(p, p + line.len()) =~= line);
    assert(m.take(head.len() as int) =~= head);
}

/// Law: the Mermaid text of a graph with nodes starts with `flowchart TD`,
/// and for each function node at position `i` it holds the line
/// `  n<i>["<file>:<line> <name>"]`, with each `"` in the label written as
/// `'`, before any arrow line.
pub proof fn law_mermaid_function_line(g: CallGraphView, i: int)
    requires
        0 <= i < g.nodes.len(),
        g.nodes[i] is Function,
    ensures
        "flowchart TD\n"@.is_prefix_of(graph_mermaid(g)),
        ({
            let n = g.nodes[i];
            let label = n->Function_file + ":"@ + decimal(n->Function_line as nat) + " "@ + n->Function_name;
            let line = "  n"@ + decimal(i as nat) + "[\""@ + label.map_values(
                |c: char| if c == '"' { '\'' } else { c },
            ) + "\"]\n"@;
            exists|p: int|
                0 <= p && p + line.len() <= "flowchart TD\n"@.len() + node_lines(g.nodes).len()
                    && #[trigger] graph_mermaid(g).subrange(p, p + line.len()) == line
        }),
{
    lemma_mermaid_node_line(g, i);
    let n = g.nodes[i];
    let label = n->Function_file + ":"@ + decimal(n->Function_line as nat) + " "@ + n->Function_name;
    assert(unquoted(node_label(n)) == label.map_values(|c: char| if c == '"' { '\'' } else { c }));
}

/// Law: for each unresolved-call leaf at position `i` the Mermaid text holds
/// the line `  n<i>["<call text>"]`, with each `"` written as `'`, before any
/// arrow line.
pub proof fn law_mermaid_leaf_line(g: CallGraphView, i: int)
    requires
        0 <= i < g.nodes.len(),
        g.nodes[i] is Leaf,
    ensures
        ({
            let line = "  n"@ + decimal(i as nat) + "[\""@ + g.nodes[i]->Leaf_label.map_values(
                |c: char| if c == '"' { '\'' } else { c },
            ) + "\"]\n"@;
            exists|p: int|
                0 <= p && p + line.len() <= "flowchart TD\n"@.len() + node_lines(g.nodes).len()
                    && #[trigger] graph_mermaid(g).subrange(p, p + line.len()) == line
        }),
{
    lemma_mermaid_node_line(g, i);
}

/// `node_pos` finds the first node with the identity.
proof fn lemma_node_pos_first(nodes: Seq<GraphNodeView>, id: Seq<char>, k: int, f: int)
    requires
        0 <= k <= f < nodes.len(),
        node_id(nodes[f]) == id,
        forall|q: int| k <= q < f ==> node_id(#[trigger] nodes[q]) != id,
    ensures
        node_pos(nodes, id, k) == Some(f),
    decreases f - k,
{
    if k < f {
        lemma_node_pos_first(nodes, id, k + 1, f);
    }
}

/// The arrow lines of fewer edges begin the arrow lines of more.
proof fn lemma_arrow_lines_prefix(nodes: Seq<GraphNodeView>, edges: Seq<GraphEdgeView>, k: int, j: int)
    requires
        0 <= k <= j <= edges.len(),
    ensures
        arrow_lines(nodes, edges, k).is_prefix_of(arrow_lines(nodes, edges, j)),
    decreases j - k,
{
    let a = arrow_lines(nodes, edges, k);
    if k < j {
        lemma_arrow_lines_prefix(nodes, edges, k, j - 1);
        let b = arrow_lines(nodes, edges, j - 1);
        let c = arrow_lines(nodes, edges, j);
        assert(b.is_prefix_of(c)) by {
            assert(c.take(b.len() as int) =~= b);
        }
        assert(c.take(a.len() as int) =~= a) by {
            assert forall|x: int| 0 <= x < a.len() implies c[x] == a[x] by {
                assert(b.take(a.len() as int)[x] == a[x]);
                assert(c.take(b.len() as int)[x] == b[x]);
            }
        }
    } else {
        assert(a.take(a.len() as int) =~= a);
    }
}

/// The first edge with the same caller and callee as edge `q`.
proof fn lemma_first_edge(edges: Seq<GraphEdgeView>, q: int) -> (q0: int)
    requires
        0 <= q < edges.len(),
    ensures
        0 <= q0 <= q,
        edges[q0].from == edges[q].from,
        edges[q0].to == edges[q].to,
        !(exists|r: int| 0 <= r < q0 && edges[r].from == edges[q0].from && edges[r].to == edges[q0].to),
    decreases q,
{
    if exists|r: int| 0 <= r < q && edges[r].from == edges[q].from && edges[r].to == edges[q].to {
        let r = choose|r: int| 0 <= r < q && edges[r].from == edges[q].from && edges[r].to == edges[q].to;
        lemma_first_edge(edges, r)
    } else {
        q
    }
}

/// Law: for each call edge between two nodes of the graph, the Mermaid text
/// holds, after the node lines, the arrow line `  n<f> --> n<t>`, where `f`
/// and `t` are the first positions of the caller and of the callee among
/// the nodes.
pub proof fn law_mermaid_arrow_line(g: CallGraphView, q: int, f: int, t: int)
    requires
        0 <= q < g.edges.len(),
        0 <= f < g.nodes.len(),
        0 <= t < g.nodes.len(),
        node_id(g.nodes[f]) == g.edges[q].from,
        node_id(g.nodes[t]) == g.edges[q].to,
        forall|k: int| 0 <= k < f ==> node_id(#[trigger] g.nodes[k]) != g.edges[q].from,
        forall|k: int| 0 <= k < t ==> node_id(#[trigger] g.nodes[k]) != g.edges[q].to,
    ensures
        ({
            let line = "  n"@ + decimal(f as nat) + " --> n"@ + decimal(t as nat) + "\n"@;
            exists|p: int|
                "flowchart TD\n"@.len() + node_lines(g.nodes).len() <= p && p + line.len() <= graph_mermaid(g).len()
                    && #[trigger] graph_mermaid(g).subrange(p, p + line.len()) == line
        }),
{
    let nodes = g.nodes;
    let edges = g.edges;
    let head = "flowchart TD\n"@;
    let m = graph_mermaid(g);
    let line = "  n"@ + decimal(f as nat) + " --> n"@ + decimal(t as nat) + "\n"@;
    let q0 = lemma_first_edge(edges, q);
    lemma_node_pos_first(nodes, edges[q].from, 0, f);
    lemma_node_pos_first(nodes, edges[q].to, 0, t);
    let before = arrow_lines(nodes, edges, q0);
    let upto = arrow_lines(nodes, edges, q0 + 1);
    let all = arrow_lines(nodes, edges, edges.len() as int);
    assert(upto == before + line);
    lemma_arrow_lines_prefix(nodes, edges, q0 + 1, edges.len() as int);
    let nl = node_lines(nodes);
    assert(m == head + nl + all);
    let p: int = head.len() + nl.len() + before.len() as int;
    assert(m.subrange(p, p + line.len()) =~= line) by {
        assert forall|x: int| 0 <= x < line.len() implies m.subrange(p, p + line.len())[x] == line[x] by {
            assert(all.take(upto.len() as int)[before.len() + x] == upto[before.len() + x]);
        }
    }
}

fn push_unquoted(out: &mut String, s: &str)
    ensures
        final(out)@ == old(out)@ + unquoted(s@),
{
    let cs = chars_of(s);
    let ghost start = out@;
    let mut k: usize = 0;
    while k < cs.len()
        invariant
            cs@ == s@,
            k <= cs@.len(),
            out@ == start + unquoted(s@.take(k as int)),
        decreases cs@.len() - k,
    {
        let c = cs[k];
        push_char(out, if c == '"' { '\'' } else { c });
        assert(unquoted(s@.take(k + 1)) =~= unquoted(s@.take(k as int)).push(if c == '"' { '\'' } else { c }));
        k = k + 1;
    }
    assert(s@.take(cs@.len() as int) =~= s@);
}

fn find_node(nodes: &Vec<GraphNode>, id: &String) -> (r: Option<usize>)
    ensures
        match r {
            Some(k) => node_pos(nodes_view(nodes@), id@, 0) == Some(k as int),
            None => node_pos(nodes_view(nodes@), id@, 0) is None,
        },
{
    let ghost nv = nodes_view(nodes@);
    let mut k: usize = 0;
    while k < nodes.len()
        invariant
            k <= nodes@.len(),
            nv == nodes_view(nodes@),
            node_pos(nv, id@, 0) == node_pos(nv, id@, k as int),
        decreases nodes@.len() - k,
    {
        let nid = match &nodes[k] {
            GraphNode::Function { id, .. } => id,
            GraphNode::Leaf { id, .. } => id,
        };
        assert(node_id(nv[k as int]) == nid@);
        if str_eq(nid.as_str(), id.as_str()) {
            return Some(k);
        }
        k = k + 1;
    }
    None
}

/// Mermaid flowchart: a line per node (`"` shown as `'`), then an arrow per
/// distinct (from, to) pair; empty when there are no nodes.
pub fn print_graph_mermaid(graph: &CallGraph) -> (out: String)
    ensures
        out@ == graph_mermaid(graph@),
{
    if graph.nodes.len() == 0 {
        return String::new();
    }
    let ghost nv = graph@.nodes;
    let ghost ev = graph@.edges;
    let mut out = owned("flowchart TD\n");
    let ghost head = out@;
    let mut k: usize = 0;
    while k < graph.nodes.len()
        invariant
            k <= graph.nodes@.len(),
            nv == graph@.nodes,
            nv.len() == graph.nodes@.len(),
            out@ == head + node_lines(nv.take(k as int)),
        decreases graph.nodes@.len() - k,
    {
        assert(nv.take(k + 1).drop_last() =~= nv.take(k as int));
        assert(nv[k as int] == graph.nodes@[k as int]@);
        push_str(&mut out, "  n");
        push_decimal(&mut out, k);
        push_str(&mut out, "[\"");
        match &graph.nodes[k] {
            GraphNode::Function { file, line, name, .. } => {
                let mut label = file.clone();
                push_str(&mut label, ":");
                push_decimal(&mut label, *line);
                push_str(&mut label, " ");
                push_str(&mut label, name.as_str());
                push_unquoted(&mut out, label.as_str());
            },
            GraphNode::Leaf { label, .. } => {
                push_unquoted(&mut out, label.as_str());
            },
        }
        push_str(&mut out, "\"]\n");
        assert(out@ =~= head + node_lines(nv.take(k + 1)));
        k = k + 1;
    }
    assert(nv.take(graph.nodes@.len() as int) =~= nv);
    let ghost mid = out@;
    let mut j: usize = 0;
    while j < graph.edges.len()
        invariant
            j <= graph.edges@.len(),
            nv == graph@.nodes,
            ev == graph@.edges,
            ev.len() == graph.edges@.len(),
            out@ == mid + arrow_lines(nv, ev, j as int),
        decreases graph.edges@.len() - j,
    {
        let e = &graph.edges[j];
        assert(ev[j as int] == e@);
        let mut dup = false;
        let mut r: usize = 0;
        while r < j
            invariant
                r <= j < graph.edges@.len(),
                ev == graph@.edges,
                ev[j as int] == e@,
                !dup ==> forall|t: int| 0 <= t < r ==> !(ev[t].from == e.from@ && ev[t].to == e.to@),
                dup ==> exists|t: int| 0 <= t < j && ev[t].from == e.from@ && ev[t].to == e.to@,
            decreases j - r,
        {
            let other = &graph.edges[r];
            assert(ev[r as int] == other@);
            if !dup && str_eq(other.from.as_str(), e.from.as_str()) && str_eq(other.to.as_str(), e.to.as_str()) {
                dup = true;
            }
            r = r + 1;
        }
        if !dup {
            match (find_node(&graph.nodes, &e.from), find_node(&graph.nodes, &e.to)) {
                (Some(f), Some(t)) => {
                    push_str(&mut out, "  n");
                    push_decimal(&mut out, f);
                    push_str(&mut out, " --> n");
                    push_decimal(&mut out, t);
                    push_str(&mut out, "\n");
                },
                _ => {},
            }
        }
        assert(out@ =~= mid + arrow_lines(nv, ev, j + 1));
        j = j + 1;
    }
    out
}

/// Style sheet of the HTML graph page.
pub const GRAPH_CSS: &'static str = "body { margin: 0; display: flex; height: 100vh; font: 13px system-ui, sans-serif; color: #222; }\n\
#panel { width: 320px; padding: 12px; overflow: auto; border-right: 1px solid #ccc; box-sizing: border-box; }\n\
#panel h1 { font-size: 16px; margin: 0 0 8px; }\n\
#hint { color: #555; }\n\
#detail { font-weight: 600; }\n\
#code { font: 12px ui-monospace, monospace; white-space: pre; background: #f6f6f6; padding: 8px; overflow: auto; }\n\
#stage { flex: 1; position: relative; overflow: hidden; }\n\
#canvas { width: 100%; height: 100%; display: block; }\n\
#zoom-bar { position: absolute; right: 12px; top: 12px; display: flex; gap: 4px; }\n\
";

/// Script of the HTML graph page: draws the call boxes from the embedded JSON.
pub const GRAPH_JS: &'static str = "(function () {\n\
  var graph = JSON.parse(document.getElementById('seer-graph').textContent);\n\
  var sources = JSON.parse(document.getElementById('seer-sources').textContent);\n\
  var byId = {};\n\
  graph.nodes.forEach(function (n) { byId[n.id] = n; });\n\
  var out = {};\n\
  graph.edges.slice().sort(function (a, b) { return a.seq - b.seq; }).forEach(function (e) {\n\
    (out[e.from] = out[e.from] || []).push(e);\n\
  });\n\
  var select = document.getElementById('entry');\n\
  graph.nodes.forEach(function (n) {\n\
    if (n.kind === 'function' && n.entry) {\n\
      var o = document.createElement('option');\n\
      o.value = n.id; o.textContent = n.file + ':' + n.line + ' ' + n.name;\n\
      select.appendChild(o);\n\
    }\n\
  });\n\
  var canvas = document.getElementById('canvas');\n\
  var ctx = canvas.getContext('2d');\n\
  var scale = 1, offsetY = 0, boxes = [], collapsed = {};\n\
  function label(n, e) { return n ? (n.kind === 'function' ? n.name : n.label) : e.label; }\n\
  function layout(id, path, x, y, edge) {\n\
    var n = byId[id];\n\
    var rec = path.indexOf(id) >= 0;\n\
    var kids = rec || collapsed[path.concat([id]).join('>')] ? [] : (out[id] || []);\n\
    var w = 0, h = 0, inner = [];\n\
    kids.forEach(function (k) {\n\
      var b = layout(k.to, path.concat([id]), x + 8 + w, y + 24, k);\n\
      inner.push(b); w += b.w + 8; h = Math.max(h, b.h);\n\
    });\n\
    var text = (rec ? '\\u21a9 ' : '') + label(n, edge || {});\n\
    var tw = ctx.measureText(text).width + 16;\n\
    var box = { id: id, key: path.concat([id]).join('>'), x: x, y: y, w: Math.max(tw, w + 8), h: 24 + h + (kids.length ? 8 : 0), text: text, rec: rec, kids: inner };\n\
    boxes.push(box);\n\
    return box;\n\
  }\n\
  function draw() {\n\
    canvas.width = canvas.clientWidth; canvas.height = canvas.clientHeight;\n\
    ctx.setTransform(scale, 0, 0, scale, 0, offsetY);\n\
    ctx.font = '12px sans-serif';\n\
    boxes = [];\n\
    var roots = select.value ? [select.value] : graph.nodes.filter(function (n) { return n.kind === 'function' && n.entry; }).map(function (n) { return n.id; });\n\
    var y = 8;\n\
    roots.forEach(function (r) { var b = layout(r, [], 8, y, null); y += b.h + 12; });\n\
    boxes.slice().reverse().forEach(function (b) {\n\
      ctx.setLineDash(b.rec ? [4, 3] : []);\n\
      ctx.strokeStyle = '#889'; ctx.fillStyle = 'rgba(90,110,160,0.06)';\n\
      ctx.fillRect(b.x, b.y, b.w, b.h); ctx.strokeRect(b.x, b.y, b.w, b.h);\n\
      ctx.fillStyle = '#222'; ctx.fillText(b.text, b.x + 8, b.y + 16);\n\
    });\n\
  }\n\
  canvas.addEventListener('click', function (ev) {\n\
    var x = ev.offsetX / scale, y = (ev.offsetY - offsetY) / scale, hit = null;\n\
    boxes.forEach(function (b) { if (x >= b.x && x <= b.x + b.w && y >= b.y && y <= b.y + b.h) { if (!hit || b.w < hit.w) { hit = b; } } });\n\
    if (!hit) { return; }\n\
    if (y <= hit.y + 24 && hit.kids.length) { collapsed[hit.key] = !collapsed[hit.key]; }\n\
    var n = byId[hit.id];\n\
    document.getElementById('detail').textContent = n && n.kind === 'function' ? n.file + ':' + n.line + ' ' + n.name : hit.text;\n\
    var span = sources.spans[hit.id], src = n ? sources.files[n.file] : null;\n\
    document.getElementById('code').textContent = span && src ? src.slice(span[0], span[1]) : '';\n\
    draw();\n\
  });\n\
  canvas.addEventListener('wheel', function (ev) { ev.preventDefault(); scale *= ev.deltaY < 0 ? 1.1 : 0.9; draw(); });\n\
  var drag = null;\n\
  canvas.addEventListener('mousedown', function (ev) { drag = ev.clientY - offsetY; });\n\
  window.addEventListener('mouseup', function () { drag = null; });\n\
  window.addEventListener('mousemove', function (ev) { if (drag !== null) { offsetY = ev.clientY - drag; draw(); } });\n\
  document.getElementById('zoom-in').onclick = function () { scale *= 1.2; draw(); };\n\
  document.getElementById('zoom-out').onclick = function () { scale /= 1.2; draw(); };\n\
  document.getElementById('zoom-fit').onclick = function () { scale = 1; offsetY = 0; draw(); };\n\
  window.addEventListener('keydown', function (ev) { if (ev.key === '+') { scale *= 1.2; draw(); } if (ev.key === '-') { scale /= 1.2; draw(); } });\n\
  select.onchange = draw;\n\
  window.addEventListener('resize', draw);\n\
  draw();\n\
})();\n\
";

/// Page text before the style sheet.
pub const HTML_HEAD: &'static str = "<!DOCTYPE html>\n\
<html lang=\"en\">\n\
<head>\n\
<meta charset=\"utf-8\">\n\
<meta name=\"viewport\" content=\"width=device-width, initial-scale=1\">\n\
<title>seer graph</title>\n\
<style>\n\
";

/// Page text between the style sheet and the embedded graph.
pub const HTML_MID: &'static str = "</style>\n\
</head>\n\
<body>\n\
<aside id=\"panel\">\n\
  <h1>seer graph</h1>\n\
  <p id=\"hint\">A box is a function; boxes inside it are the functions it calls, left to right. Nested calls start expanded; the triangle collapses a callee. A dashed box with ↩ is a recursive call back to a function already on this path. Drag to pan vertically. Scroll, +/−, or the buttons to zoom.</p>\n\
  <label>reachable from\n\
    <select id=\"entry\"><option value=\"\">all</option></select>\n\
  </label>\n\
  <p id=\"detail\">click a node</p>\n\
  <pre id=\"code\"></pre>\n\
</aside>\n\
<div id=\"stage\">\n\
<canvas id=\"canvas\" tabindex=\"0\"></canvas>\n\
<div id=\"zoom-bar\">\n\
  <button type=\"button\" id=\"zoom-out\" title=\"Zoom out\">−</button>\n\
  <button type=\"button\" id=\"zoom-fit\" title=\"Fit width\">fit</button>\n\
  <button type=\"button\" id=\"zoom-in\" title=\"Zoom in\">+</button>\n\
</div>\n\
</div>\n\
<script type=\"application/json\" id=\"seer-graph\">\n\
";

/// `s` with each `<` written as `\u003c`, so that embedded JSON cannot close
/// its script element.
pub open spec fn lt_escaped(s: Seq<char>) -> Seq<char>
    decreases s.len(),
{
    if s.len() == 0 {
        Seq::empty()
    } else {
        lt_escaped(s.drop_last()) + if s.last() == '<' {
            seq!['\\', 'u', '0', '0', '3', 'c']
        } else {
            seq![s.last()]
        }
    }
}

fn push_lt_escaped(out: &mut String, s: &str)
    ensures
        final(out)@ == old(out)@ + lt_escaped(s@),
{
    let cs = chars_of(s);
    let ghost start = out@;
    let mut k: usize = 0;
    while k < cs.len()
        invariant
            cs@ == s@,
            k <= cs@.len(),
            out@ == start + lt_escaped(s@.take(k as int)),
        decreases cs@.len() - k,
    {
        assert(s@.take(k + 1).drop_last() =~= s@.take(k as int));
        let c = cs[k];
        if c == '<' {
            push_char(out, '\\');
            push_char(out, 'u');
            push_char(out, '0');
            push_char(out, '0');
            push_char(out, '3');
            push_char(out, 'c');
        } else {
            push_char(out, c);
        }
        assert(out@ =~= start + lt_escaped(s@.take(k + 1)));
        k = k + 1;
    }
    assert(s@.take(cs@.len() as int) =~= s@);
}

/// Source of the first file entry whose path is `file`.
pub open spec fn first_source(files: Seq<(Seq<char>, Seq<char>)>, file: Seq<char>, k: int) -> Option<Seq<char>>
    decreases files.len() - k,
{
    if k < 0 || k >= files.len() {
        None
    } else if files[k].0 == file {
        Some(files[k].1)
    } else {
        first_source(files, file, k + 1)
    }
}

/// Files of function nodes `nodes[k..]`, each once and only when given, added
/// to `acc`.
pub open spec fn wanted_from(
    nodes: Seq<GraphNodeView>,
    files: Seq<(Seq<char>, Seq<char>)>,
    k: int,
    acc: Seq<(Seq<char>, Seq<char>)>,
) -> Seq<(Seq<char>, Seq<char>)>
    decreases nodes.len() - k,
{
    if k < 0 || k >= nodes.len() {
        acc
    } else {
        let acc1 = match nodes[k] {
            GraphNodeView::Function { file, .. } => if exists|q: int| 0 <= q < acc.len() && acc[q].0 == file {
                acc
            } else {
                match first_source(files, file, 0) {
                    Some(src) => acc.push((file, src)),
                    None => acc,
                }
            },
            GraphNodeView::Leaf { .. } => acc,
        };
        wanted_from(nodes, files, k + 1, acc1)
    }
}

pub open spec fn path_less(a: (Seq<char>, Seq<char>), b: (Seq<char>, Seq<char>)) -> bool {
    seq_less(a.0, b.0)
}

/// `items` separated by `sep`.
pub open spec fn joined_by(items: Seq<Seq<char>>, sep: Seq<char>) -> Seq<char>
    decreases items.len(),
{
    if items.len() == 0 {
        Seq::empty()
    } else if items.len() == 1 {
        items[0]
    } else {
        joined_by(items.drop_last(), sep) + sep + items.last()
    }
}

pub open spec fn file_entry(f: (Seq<char>, Seq<char>)) -> Seq<char> {
    "    "@ + json_string(f.0) + ": "@ + json_string(f.1)
}

/// Span entries of the function nodes among `nodes[..k]`.
pub open spec fn span_items(nodes: Seq<GraphNodeView>, k: int) -> Seq<Seq<char>>
    decreases k,
{
    if k <= 0 || k > nodes.len() {
        Seq::empty()
    } else {
        span_items(nodes, k - 1) + match nodes[k - 1] {
            GraphNodeView::Function { id, start_byte, end_byte, .. } => seq![
                "\n    "@ + json_string(id) + ": ["@ + decimal(start_byte as nat) + ", "@ + decimal(end_byte as nat) + "]"@,
            ],
            GraphNodeView::Leaf { .. } => Seq::empty(),
        }
    }
}

/// Sources of the graph's files (sorted by path) and the byte span of each
/// function, as JSON.
pub open spec fn source_payload(g: CallGraphView, files: Seq<(Seq<char>, Seq<char>)>) -> Seq<char> {
    let wanted = sorted_by(wanted_from(g.nodes, files, 0, Seq::empty()), |a: (Seq<char>, Seq<char>), b: (Seq<char>, Seq<char>)| path_less(a, b));
    if wanted.len() == 0 {
        "{\n  \"files\": {},\n  \"spans\": {}\n}\n"@
    } else {
        "{\n  \"files\": {\n"@ + joined_by(wanted.map_values(|f: (Seq<char>, Seq<char>)| file_entry(f)), ",\n"@)
            + "\n  },\n  \"spans\": {"@ + joined_by(span_items(g.nodes, g.nodes.len() as int), ","@)
            + "\n  }\n}\n"@
    }
}

/// Self-contained HTML page of a graph; empty when it has no nodes.
pub open spec fn graph_html(g: CallGraphView, files: Seq<(Seq<char>, Seq<char>)>) -> Seq<char> {
    if g.nodes.len() == 0 {
        Seq::empty()
    } else {
        HTML_HEAD@ + GRAPH_CSS@ + HTML_MID@ + lt_escaped(graph_json(g))
            + "</script>\n<script type=\"application/json\" id=\"seer-sources\">\n"@ + lt_escaped(
            source_payload(g, files),
        ) + "</script>\n<script>\n"@ + GRAPH_JS@ + "</script>\n</body>\n</html>\n"@
    }
}

pub open spec fn pairs_view(v: Seq<(String, String)>) -> Seq<(Seq<char>, Seq<char>)> {
    v.map_values(|p: (String, String)| (p.0@, p.1@))
}

fn find_source(files: &[(String, String)], file: &String) -> (r: Option<usize>)
    ensures
        match r {
            Some(k) => k < files@.len() && first_source(pairs_view(files@), file@, 0) == Some(files@[k as int].1@),
            None => first_source(pairs_view(files@), file@, 0) is None,
        },
{
    let ghost fv = pairs_view(files@);
    let mut k: usize = 0;
    while k < files.len()
        invariant
            k <= files@.len(),
            fv == pairs_view(files@),
            first_source(fv, file@, 0) == first_source(fv, file@, k as int),
        decreases files@.len() - k,
    {
        assert(fv[k as int] == (files@[k as int].0@, files@[k as int].1@));
        if str_eq(files[k].0.as_str(), file.as_str()) {
            return Some(k);
        }
        k = k + 1;
    }
    None
}

pub(crate) fn sort_by_path(v: Vec<(String, String)>) -> (out: Vec<(String, String)>)
    ensures
        pairs_view(out@) == sorted_by(pairs_view(v@), |a: (Seq<char>, Seq<char>), b: (Seq<char>, Seq<char>)| path_less(a, b)),
{
    let ghost less = |a: (Seq<char>, Seq<char>), b: (Seq<char>, Seq<char>)| path_less(a, b);
    let ghost kv = pairs_view(v@);
    let mut out: Vec<(String, String)> = Vec::new();
    let mut k: usize = 0;
    let n = v.len();
    assert(kv.take(0) =~= Seq::<(Seq<char>, Seq<char>)>::empty());
    assert(pairs_view(out@) =~= Seq::<(Seq<char>, Seq<char>)>::empty());
    while k < n
        invariant
            n == v@.len(),
            k <= n,
            kv == pairs_view(v@),
            kv.len() == n,
            less == (|a: (Seq<char>, Seq<char>), b: (Seq<char>, Seq<char>)| path_less(a, b)),
            pairs_view(out@) == sorted_by(kv.take(k as int), less),
        decreases n - k,
    {
        let x = (v[k].0.clone(), v[k].1.clone());
        let ghost xv = kv[k as int];
        assert((x.0@, x.1@) == xv);
        let ghost ov = pairs_view(out@);
        let mut p = out.len();
        while p > 0 && str_less(x.0.as_str(), out[p - 1].0.as_str())
            invariant
                p <= out@.len(),
                ov == pairs_view(out@),
                ov.len() == out@.len(),
                (x.0@, x.1@) == xv,
                less == (|a: (Seq<char>, Seq<char>), b: (Seq<char>, Seq<char>)| path_less(a, b)),
                forall|q: int| p <= q < ov.len() ==> less(xv, #[trigger] ov[q]),
            decreases p,
        {
            assert(ov[p - 1] == (out@[p - 1].0@, out@[p - 1].1@));
            p = p - 1;
        }
        proof {
            if p > 0 {
                assert(ov[p - 1] == (out@[p - 1].0@, out@[p - 1].1@));
            }
            lemma_insert_sorted_at(ov, xv, less, p as int);
            assert(kv.take(k + 1).drop_last() =~= kv.take(k as int));
            assert(kv.take(k + 1).last() == xv);
        }
        out.insert(p, x);
        assert(pairs_view(out@) =~= ov.take(p as int).push(xv) + ov.skip(p as int));
        k = k + 1;
    }
    assert(kv.take(n as int) =~= kv);
    out
}

/// Sources of the graph's files and the byte span of each function, as JSON.
fn print_source_payload(graph: &CallGraph, files: &[(String, String)]) -> (out: String)
    ensures
        out@ == source_payload(graph@, pairs_view(files@)),
{
    let ghost nv = graph@.nodes;
    let ghost fv = pairs_view(files@);
    let mut wanted: Vec<(String, String)> = Vec::new();
    let mut k: usize = 0;
    assert(pairs_view(wanted@) =~= Seq::<(Seq<char>, Seq<char>)>::empty());
    while k < graph.nodes.len()
        invariant
            k <= graph.nodes@.len(),
            nv == graph@.nodes,
            fv == pairs_view(files@),
            wanted_from(nv, fv, 0, Seq::empty()) == wanted_from(nv, fv, k as int, pairs_view(wanted@)),
        decreases graph.nodes@.len() - k,
    {
        assert(nv[k as int] == graph.nodes@[k as int]@);
        match &graph.nodes[k] {
            GraphNode::Function { file, .. } => {
                let ghost wv = pairs_view(wanted@);
                let mut present = false;
                let mut q: usize = 0;
                while q < wanted.len()
                    invariant
                        q <= wanted@.len(),
                        wv == pairs_view(wanted@),
                        present == exists|t: int| 0 <= t < q && wv[t].0 == file@,
                    decreases wanted@.len() - q,
                {
                    assert(wv[q as int].0 == wanted@[q as int].0@);
                    if str_eq(wanted[q].0.as_str(), file.as_str()) {
                        present = true;
                    }
                    q = q + 1;
                }
                if !present {
                    match find_source(files, file) {
                        Some(j) => {
                            wanted.push((file.clone(), files[j].1.clone()));
                            assert(pairs_view(wanted@) =~= wv.push((file@, files@[j as int].1@)));
                        },
                        None => {},
                    }
                }
            },
            GraphNode::Leaf { .. } => {},
        }
        k = k + 1;
    }
    let wanted = sort_by_path(wanted);
    let ghost ws = pairs_view(wanted@);
    if wanted.len() == 0 {
        return owned("{\n  \"files\": {},\n  \"spans\": {}\n}\n");
    }
    let ghost items = ws.map_values(|f: (Seq<char>, Seq<char>)| file_entry(f));
    let mut out = owned("{\n  \"files\": {\n");
    let ghost head = out@;
    let mut i: usize = 0;
    while i < wanted.len()
        invariant
            i <= wanted@.len(),
            ws == pairs_view(wanted@),
            items == ws.map_values(|f: (Seq<char>, Seq<char>)| file_entry(f)),
            items.len() == wanted@.len(),
            out@ == head + joined_by(items.take(i as int), ",\n"@),
        decreases wanted@.len() - i,
    {
        assert(items.take(i + 1).drop_last() =~= items.take(i as int));
        assert(ws[i as int] == (wanted@[i as int].0@, wanted@[i as int].1@));
        if i > 0 {
            push_str(&mut out, ",\n");
        }
        push_str(&mut out, "    ");
        write_json_string(&mut out, wanted[i].0.as_str());
        push_str(&mut out, ": ");
        write_json_string(&mut out, wanted[i].1.as_str());
        proof {
            if i == 0 {
                assert(joined_by(items.take(0), ",\n"@) =~= Seq::<char>::empty());
            }
            assert(out@ =~= head + joined_by(items.take(i + 1), ",\n"@));
        }
        i = i + 1;
    }
    assert(items.take(wanted@.len() as int) =~= items);
    push_str(&mut out, "\n  },\n  \"spans\": {");
    let ghost mid = out@;
    let mut first = true;
    let mut j: usize = 0;
    while j < graph.nodes.len()
        invariant
            j <= graph.nodes@.len(),
            nv == graph@.nodes,
            first == (span_items(nv, j as int).len() == 0),
            out@ == mid + joined_by(span_items(nv, j as int), ","@),
        decreases graph.nodes@.len() - j,
    {
        assert(nv[j as int] == graph.nodes@[j as int]@);
        match &graph.nodes[j] {
            GraphNode::Function { id, start_byte, end_byte, .. } => {
                if !first {
                    push_str(&mut out, ",");
                }
                first = false;
                let ghost before = out@;
                push_str(&mut out, "\n    ");
                write_json_string(&mut out, id.as_str());
                push_str(&mut out, ": [");
                push_decimal(&mut out, *start_byte);
                push_str(&mut out, ", ");
                push_decimal(&mut out, *end_byte);
                push_str(&mut out, "]");
                proof {
                    let item = "\n    "@ + json_string(id@) + ": ["@ + decimal(*start_byte as nat) + ", "@ + decimal(*end_byte as nat) + "]"@;
                    assert(span_items(nv, j + 1) == span_items(nv, j as int).push(item));
                    assert(span_items(nv, j + 1).drop_last() =~= span_items(nv, j as int));
                    if span_items(nv, j as int).len() == 0 {
                        assert(joined_by(span_items(nv, j as int), ","@) =~= Seq::<char>::empty());
                    }
                    assert(out@ =~= mid + joined_by(span_items(nv, j + 1), ","@));
                }
            },
            GraphNode::Leaf { .. } => {
                assert(span_items(nv, j + 1) =~= span_items(nv, j as int));
            },
        }
        j = j + 1;
    }
    push_str(&mut out, "\n  }\n}\n");
    assert(out@ =~= source_payload(graph@, pairs_view(files@)));
    out
}

/// Self-contained HTML page: the style sheet, the graph JSON and the sources
/// embedded (`<` written as `\u003c`), and the script that draws them; empty
/// when the graph has no nodes.
pub fn print_graph_html(graph: &CallGraph, files: &[(String, String)]) -> (out: String)
    ensures
        out@ == graph_html(graph@, pairs_view(files@)),
{
    if graph.nodes.len() == 0 {
        return String::new();
    }
    let json = print_graph_json(graph);
    let sources = print_source_payload(graph, files);
    let mut out = owned(HTML_HEAD);
    push_str(&mut out, GRAPH_CSS);
    push_str(&mut out, HTML_MID);
    push_lt_escaped(&mut out, json.as_str());
    push_str(&mut out, "</script>\n<script type=\"application/json\" id=\"seer-sources\">\n");
    push_lt_escaped(&mut out, sources.as_str());
    push_str(&mut out, "</script>\n<script>\n");
    push_str(&mut out, GRAPH_JS);
    push_str(&mut out, "</script>\n</body>\n</html>\n");
    assert(out@ =~= graph_html(graph@, pairs_view(files@)));
    out
}

/// `node_less` and `edge_less` are strict weak orders.
proof fn lemma_graph_orders()
    ensures
        crate::sort::weak_order(|a: GraphNodeView, b: GraphNodeView| node_less(a, b)),
        crate::sort::weak_order(|a: GraphEdgeView, b: GraphEdgeView| edge_less(a, b)),
{
    let nless = |a: GraphNodeView, b: GraphNodeView| node_less(a, b);
    let eless = |a: GraphEdgeView, b: GraphEdgeView| edge_less(a, b);
    assert forall|x: GraphNodeView, y: GraphNodeView| #[trigger] nless(x, y) implies !nless(y, x) by {
        lemma_node_keys(x, y, y);
    }
    assert forall|x: GraphNodeView, y: GraphNodeView, z: GraphNodeView|
        #![trigger nless(x, z), nless(x, y)]
        #![trigger nless(x, z), nless(y, z)]
        nless(x, z) implies nless(x, y) || nless(y, z) by {
        lemma_node_keys(x, y, z);
    }
    assert forall|x: GraphEdgeView, y: GraphEdgeView| #[trigger] eless(x, y) implies !eless(y, x) by {
        if crate::text::seq_less(x.from, y.from) {
            crate::text::lemma_seq_less_asym(x.from, y.from);
        }
        if crate::text::seq_less(x.to, y.to) {
            crate::text::lemma_seq_less_asym(x.to, y.to);
        }
        if crate::text::seq_less(x.label, y.label) {
            crate::text::lemma_seq_less_asym(x.label, y.label);
        }
    }
    assert forall|x: GraphEdgeView, y: GraphEdgeView, z: GraphEdgeView|
        #![trigger eless(x, z), eless(x, y)]
        #![trigger eless(x, z), eless(y, z)]
        eless(x, z) implies eless(x, y) || eless(y, z) by {
        crate::text::lemma_seq_order(x.from, y.from, z.from);
        crate::text::lemma_seq_order(x.to, y.to, z.to);
        crate::text::lemma_seq_order(x.label, y.label, z.label);
    }
}

proof fn lemma_node_keys(x: GraphNodeView, y: GraphNodeView, z: GraphNodeView)
    ensures
        node_less(x, y) ==> !node_less(y, x),
        node_less(x, z) ==> node_less(x, y) || node_less(y, z),
{
    match (x, y, z) {
        (
            GraphNodeView::Function { file: fx, .. },
            GraphNodeView::Function { file: fy, .. },
            GraphNodeView::Function { file: fz, .. },
        ) => {
            crate::text::lemma_seq_order(fx, fy, fz);
            if crate::text::seq_less(fx, fy) {
                crate::text::lemma_seq_less_asym(fx, fy);
            }
        },
        (GraphNodeView::Leaf { id: ix, .. }, GraphNodeView::Leaf { id: iy, .. }, GraphNodeView::Leaf { id: iz, .. }) => {
            crate::text::lemma_seq_order(ix, iy, iz);
            if crate::text::seq_less(ix, iy) {
                crate::text::lemma_seq_less_asym(ix, iy);
            }
        },
        (GraphNodeView::Function { file: fx, .. }, GraphNodeView::Function { file: fy, .. }, _) => {
            if crate::text::seq_less(fx, fy) {
                crate::text::lemma_seq_less_asym(fx, fy);
            }
        },
        (GraphNodeView::Leaf { id: ix, .. }, GraphNodeView::Leaf { id: iy, .. }, _) => {
            if crate::text::seq_less(ix, iy) {
                crate::text::lemma_seq_less_asym(ix, iy);
            }
        },
        _ => {},
    }
}

/// Law: the call graph lists its nodes in order (functions by file and
/// start, then leaves by id) and its edges in order (by source, target,
/// label, then call index).
pub proof fn law_graph_sorted(ix: IndexView)
    ensures
        crate::sort::sorted_wrt(call_graph_spec(ix).nodes, |a: GraphNodeView, b: GraphNodeView| node_less(a, b)),
        crate::sort::sorted_wrt(call_graph_spec(ix).edges, |a: GraphEdgeView, b: GraphEdgeView| edge_less(a, b)),
{
    lemma_graph_orders();
    let entries = select_entries_spec(ix, called_spec(ix));
    let nodes = fn_nodes(ix, entries, ix.defs.len() as int);
    let st = edges_upto(
        ix,
        ix.defs.len() as int,
        EdgeState { nodes, edges: Seq::empty(), seen: nodes.map_values(|n: GraphNodeView| node_id(n)), seq: 0 },
    );
    crate::sort::lemma_sorted_by_sorted(st.nodes, |a: GraphNodeView, b: GraphNodeView| node_less(a, b));
    crate::sort::lemma_sorted_by_sorted(st.edges, |a: GraphEdgeView, b: GraphEdgeView| edge_less(a, b));
}

/// A node's identity, as a function value.
pub open spec fn node_key() -> spec_fn(GraphNodeView) -> Seq<char> {
    |n: GraphNodeView| node_id(n)
}

/// No two functions with a body have the same node identity.
pub open spec fn fn_ids_distinct(ix: IndexView) -> bool {
    forall|i: int, j: int|
        0 <= i < ix.defs.len() && 0 <= j < ix.defs.len() && i != j && ix.defs[i].has_body && ix.defs[j].has_body
            ==> fn_node_id(#[trigger] ix.defs[i].id) != fn_node_id(#[trigger] ix.defs[j].id)
}

proof fn lemma_call_edge_distinct(ix: IndexView, from: Seq<char>, site: crate::ir::CallSiteView, st: EdgeState)
    requires
        state_ok(ix, st),
        crate::sort::distinct_by(st.nodes, node_key()),
    ensures
        crate::sort::distinct_by(call_edge(ix, from, site, st).nodes, node_key()),
{
    let target = resolve_spec(ix, site);
    if !omitted(site, uses_of_file(ix, site.file), target is Some) {
        let to = match target {
            Some(id) => fn_node_id(id),
            None => leaf_id(site.display),
        };
        if target is None && !st.seen.contains(to) {
            let leaf = GraphNodeView::Leaf { id: to, label: site.display };
            let out = st.nodes.push(leaf);
            assert(call_edge(ix, from, site, st).nodes == out);
            assert forall|i: int, j: int| 0 <= i < out.len() && 0 <= j < out.len() && i != j implies (node_key())(
                #[trigger] out[i],
            ) != (node_key())(#[trigger] out[j]) by {
                if i < st.nodes.len() && j < st.nodes.len() {
                    assert(out[i] == st.nodes[i] && out[j] == st.nodes[j]);
                } else if i < st.nodes.len() {
                    assert(out[i] == st.nodes[i]);
                    assert(st.seen[i] == node_id(st.nodes[i]));
                    assert(st.seen.contains(st.seen[i]));
                } else {
                    assert(out[j] == st.nodes[j]);
                    assert(st.seen[j] == node_id(st.nodes[j]));
                    assert(st.seen.contains(st.seen[j]));
                }
            }
        }
    }
}

proof fn lemma_edges_in_distinct(ix: IndexView, from: Seq<char>, raws: Seq<RawView>, k: int, st: EdgeState)
    requires
        state_ok(ix, st),
        ids_of(st.nodes).contains(from),
        crate::sort::distinct_by(st.nodes, node_key()),
    ensures
        crate::sort::distinct_by(edges_in(ix, from, raws, k, st).nodes, node_key()),
    decreases raws, raws.len() - k,
{
    if 0 <= k < raws.len() {
        let st1 = edges_of(ix, from, raws[k], st);
        lemma_edges_of(ix, from, raws[k], st);
        lemma_edges_of_distinct(ix, from, raws[k], st);
        lemma_edges_in_distinct(ix, from, raws, k + 1, st1);
    }
}

proof fn lemma_edges_of_distinct(ix: IndexView, from: Seq<char>, n: RawView, st: EdgeState)
    requires
        state_ok(ix, st),
        ids_of(st.nodes).contains(from),
        crate::sort::distinct_by(st.nodes, node_key()),
    ensures
        crate::sort::distinct_by(edges_of(ix, from, n, st).nodes, node_key()),
    decreases n, 0int,
{
    match n {
        RawView::Control { children, .. } => {
            lemma_edges_in_distinct(ix, from, children, 0, st);
        },
        RawView::NestedFn { .. } => {},
        RawView::Call { site } => {
            lemma_call_edge_distinct(ix, from, site, st);
        },
    }
}

proof fn lemma_edges_upto_distinct(ix: IndexView, k: int, st: EdgeState)
    requires
        state_ok(ix, st),
        crate::sort::distinct_by(st.nodes, node_key()),
    ensures
        crate::sort::distinct_by(edges_upto(ix, k, st).nodes, node_key()),
    decreases k,
{
    if 0 < k <= ix.defs.len() {
        lemma_edges_upto(ix, k - 1, st);
        lemma_edges_upto_distinct(ix, k - 1, st);
        let st1 = edges_upto(ix, k - 1, st);
        let d = ix.defs[k - 1];
        if d.has_body {
            let st2 = EdgeState { nodes: st1.nodes, edges: st1.edges, seen: st1.seen, seq: 0 };
            assert(ids_of(st2.nodes).contains(fn_node_id(ix.defs[k - 1].id)));
            lemma_edges_in_distinct(ix, fn_node_id(d.id), d.body, 0, st2);
        }
    }
}

/// `x` is the node identity of one of the first `k` functions with a body.
pub open spec fn body_fn_id(ix: IndexView, k: int, x: Seq<char>) -> bool {
    exists|m: int| 0 <= m < k && ix.defs[m].has_body && #[trigger] fn_node_id(ix.defs[m].id) == x
}

proof fn lemma_fn_nodes_distinct(ix: IndexView, entries: Seq<FnIdView>, k: int)
    requires
        0 <= k <= ix.defs.len(),
        fn_ids_distinct(ix),
    ensures
        crate::sort::distinct_by(fn_nodes(ix, entries, k), node_key()),
        forall|t: int| 0 <= t < fn_nodes(ix, entries, k).len() ==> body_fn_id(ix, k, node_id(#[trigger] fn_nodes(ix, entries, k)[t])),
    decreases k,
{
    if k > 0 {
        lemma_fn_nodes_distinct(ix, entries, k - 1);
        let prev = fn_nodes(ix, entries, k - 1);
        let d = ix.defs[k - 1];
        let cur = fn_nodes(ix, entries, k);
        assert forall|t: int| 0 <= t < prev.len() implies body_fn_id(ix, k, node_id(#[trigger] prev[t])) by {
            assert(body_fn_id(ix, k - 1, node_id(prev[t])));
            let m = choose|m: int| 0 <= m < k - 1 && ix.defs[m].has_body && #[trigger] fn_node_id(ix.defs[m].id) == node_id(prev[t]);
            assert(fn_node_id(ix.defs[m].id) == node_id(prev[t]));
        }
        if d.has_body {
            let node = GraphNodeView::Function {
                id: fn_node_id(d.id),
                name: d.name,
                file: d.id.file,
                line: d.start_line,
                entry: entries.contains(d.id),
                start_byte: d.id.start_byte,
                end_byte: d.end_byte,
            };
            assert(cur =~= prev.push(node));
            assert forall|t: int| 0 <= t < prev.len() implies node_id(#[trigger] prev[t]) != node_id(node) by {
                assert(body_fn_id(ix, k - 1, node_id(prev[t])));
                let m = choose|m: int| 0 <= m < k - 1 && ix.defs[m].has_body && #[trigger] fn_node_id(ix.defs[m].id) == node_id(prev[t]);
                assert(fn_node_id(ix.defs[m].id) != fn_node_id(ix.defs[k - 1].id));
            }
            assert forall|i: int, j: int| 0 <= i < cur.len() && 0 <= j < cur.len() && i != j implies (node_key())(
                #[trigger] cur[i],
            ) != (node_key())(#[trigger] cur[j]) by {
                if i < prev.len() && j < prev.len() {
                    assert(cur[i] == prev[i] && cur[j] == prev[j]);
                } else if i < prev.len() {
                    assert(cur[i] == prev[i]);
                } else {
                    assert(cur[j] == prev[j]);
                }
            }
            assert forall|t: int| 0 <= t < cur.len() implies body_fn_id(ix, k, node_id(#[trigger] cur[t])) by {
                if t < prev.len() {
                    assert(cur[t] == prev[t]);
                } else {
                    assert(cur[t] == node);
                    assert(fn_node_id(ix.defs[k - 1].id) == node_id(cur[t]));
                }
            }
        } else {
            assert(cur =~= prev);
        }
    }
}

/// Law: when no two functions with a body share a node identity, no two
/// nodes of the call graph share one: each call target and each distinct
/// unresolved call is drawn once.
pub proof fn law_graph_ids_unique(ix: IndexView)
    requires
        fn_ids_distinct(ix),
    ensures
        crate::sort::distinct_by(call_graph_spec(ix).nodes, node_key()),
{
    let entries = select_entries_spec(ix, called_spec(ix));
    let nodes = fn_nodes(ix, entries, ix.defs.len() as int);
    let st0 = EdgeState { nodes, edges: Seq::empty(), seen: nodes.map_values(|n: GraphNodeView| node_id(n)), seq: 0 };
    lemma_fn_nodes(ix, entries, ix.defs.len() as int);
    lemma_fn_nodes_distinct(ix, entries, ix.defs.len() as int);
    assert(state_ok(ix, st0));
    lemma_edges_upto_distinct(ix, ix.defs.len() as int, st0);
    let st = edges_upto(ix, ix.defs.len() as int, st0);
    crate::sort::lemma_sorted_by_distinct(st.nodes, |a: GraphNodeView, b: GraphNodeView| node_less(a, b), node_key());
}

/// An edge's source and call index, as a function value.
pub open spec fn edge_key() -> spec_fn(GraphEdgeView) -> (Seq<char>, int) {
    |e: GraphEdgeView| (e.from, e.seq)
}

/// Some edge from `f` has call index `s`.
pub open spec fn has_edge(edges: Seq<GraphEdgeView>, f: Seq<char>, s: int) -> bool {
    exists|y: int| 0 <= y < edges.len() && (#[trigger] edges[y]).from == f && edges[y].seq == s
}

/// The call indices of the edges from each function are distinct, not
/// negative, and leave no gap: they are `0..k` for some `k`.
pub open spec fn numbered(edges: Seq<GraphEdgeView>) -> bool {
    &&& crate::sort::distinct_by(edges, edge_key())
    &&& forall|x: int| 0 <= x < edges.len() ==> (#[trigger] edges[x]).seq >= 0
    &&& forall|x: int, s: int|
        #![trigger edges[x], has_edge(edges, edges[x].from, s)]
        0 <= x < edges.len() && 0 <= s < edges[x].seq ==> has_edge(edges, edges[x].from, s)
}

/// While collecting: edges numbered, every source a function among the
/// first `kk` with a body, and the current function `cur` has used exactly
/// the indices below `st.seq`.
pub open spec fn numbering(ix: IndexView, st: EdgeState, cur: Seq<char>, kk: int) -> bool {
    &&& numbered(st.edges)
    &&& forall|x: int| 0 <= x < st.edges.len() ==> body_fn_id(ix, kk, (#[trigger] st.edges[x]).from)
    &&& st.seq >= 0
    &&& forall|s: int| 0 <= s < st.seq ==> #[trigger] has_edge(st.edges, cur, s)
    &&& forall|x: int| 0 <= x < st.edges.len() && (#[trigger] st.edges[x]).from == cur ==> st.edges[x].seq < st.seq
}

proof fn lemma_call_edge_num(ix: IndexView, from: Seq<char>, site: crate::ir::CallSiteView, st: EdgeState, kk: int)
    requires
        numbering(ix, st, from, kk),
        body_fn_id(ix, kk, from),
    ensures
        numbering(ix, call_edge(ix, from, site, st), from, kk),
{
    let target = resolve_spec(ix, site);
    if !omitted(site, uses_of_file(ix, site.file), target is Some) {
        let to = match target {
            Some(id) => fn_node_id(id),
            None => leaf_id(site.display),
        };
        let e = GraphEdgeView { from, to, label: site.display, seq: st.seq };
        let es = st.edges.push(e);
        let st2 = call_edge(ix, from, site, st);
        assert(st2.edges == es);
        assert(st2.seq == st.seq + 1);
        assert forall|i: int, j: int| 0 <= i < es.len() && 0 <= j < es.len() && i != j implies (edge_key())(
            #[trigger] es[i],
        ) != (edge_key())(#[trigger] es[j]) by {
            if i < st.edges.len() && j < st.edges.len() {
                assert(es[i] == st.edges[i] && es[j] == st.edges[j]);
            } else if i < st.edges.len() {
                assert(es[i] == st.edges[i]);
                if st.edges[i].from == from {
                    assert(st.edges[i].seq < st.seq);
                }
            } else {
                assert(es[j] == st.edges[j]);
                if st.edges[j].from == from {
                    assert(st.edges[j].seq < st.seq);
                }
            }
        }
        assert forall|f: Seq<char>, s: int| has_edge(st.edges, f, s) implies #[trigger] has_edge(es, f, s) by {
            let y = choose|y: int| 0 <= y < st.edges.len() && (#[trigger] st.edges[y]).from == f && st.edges[y].seq == s;
            assert(es[y] == st.edges[y]);
        }
        assert(es[st.edges.len() as int] == e);
        assert(has_edge(es, from, st.seq));
        assert forall|x: int| 0 <= x < es.len() implies (#[trigger] es[x]).seq >= 0 by {
            if x < st.edges.len() {
                assert(es[x] == st.edges[x]);
            }
        }
        assert forall|x: int, s: int|
            #![trigger es[x], has_edge(es, es[x].from, s)]
            0 <= x < es.len() && 0 <= s < es[x].seq implies has_edge(es, es[x].from, s) by {
            if x < st.edges.len() {
                assert(es[x] == st.edges[x]);
                assert(has_edge(st.edges, st.edges[x].from, s));
            } else {
                assert(has_edge(st.edges, from, s));
            }
        }
        assert forall|x: int| 0 <= x < es.len() implies body_fn_id(ix, kk, (#[trigger] es[x]).from) by {
            if x < st.edges.len() {
                assert(es[x] == st.edges[x]);
            }
        }
        assert forall|s: int| 0 <= s < st.seq + 1 implies #[trigger] has_edge(es, from, s) by {
            if s < st.seq {
                assert(has_edge(st.edges, from, s));
            }
        }
        assert forall|x: int| 0 <= x < es.len() && (#[trigger] es[x]).from == from implies es[x].seq < st.seq + 1 by {
            if x < st.edges.len() {
                assert(es[x] == st.edges[x]);
            }
        }
    }
}

proof fn lemma_edges_in_num(ix: IndexView, from: Seq<char>, raws: Seq<RawView>, k: int, st: EdgeState, kk: int)
    requires
        numbering(ix, st, from, kk),
        body_fn_id(ix, kk, from),
    ensures
        numbering(ix, edges_in(ix, from, raws, k, st), from, kk),
    decreases raws, raws.len() - k,
{
    if 0 <= k < raws.len() {
        lemma_edges_of_num(ix, from, raws[k], st, kk);
        lemma_edges_in_num(ix, from, raws, k + 1, edges_of(ix, from, raws[k], st), kk);
    }
}

proof fn lemma_edges_of_num(ix: IndexView, from: Seq<char>, n: RawView, st: EdgeState, kk: int)
    requires
        numbering(ix, st, from, kk),
        body_fn_id(ix, kk, from),
    ensures
        numbering(ix, edges_of(ix, from, n, st), from, kk),
    decreases n, 0int,
{
    match n {
        RawView::Control { children, .. } => {
            lemma_edges_in_num(ix, from, children, 0, st, kk);
        },
        RawView::NestedFn { .. } => {},
        RawView::Call { site } => {
            lemma_call_edge_num(ix, from, site, st, kk);
        },
    }
}

proof fn lemma_edges_upto_num(ix: IndexView, k: int, st: EdgeState)
    requires
        fn_ids_distinct(ix),
        0 <= k <= ix.defs.len(),
        st.edges.len() == 0,
    ensures
        numbered(edges_upto(ix, k, st).edges),
        forall|x: int| 0 <= x < edges_upto(ix, k, st).edges.len() ==> body_fn_id(ix, k, (#[trigger] edges_upto(ix, k, st).edges[x]).from),
    decreases k,
{
    if k > 0 {
        lemma_edges_upto_num(ix, k - 1, st);
        let st1 = edges_upto(ix, k - 1, st);
        let d = ix.defs[k - 1];
        assert forall|x: int| 0 <= x < st1.edges.len() implies body_fn_id(ix, k, (#[trigger] st1.edges[x]).from) by {
            assert(body_fn_id(ix, k - 1, st1.edges[x].from));
            let m = choose|m: int| 0 <= m < k - 1 && ix.defs[m].has_body && #[trigger] fn_node_id(ix.defs[m].id) == st1.edges[x].from;
            assert(fn_node_id(ix.defs[m].id) == st1.edges[x].from);
        }
        if d.has_body {
            let cur = fn_node_id(d.id);
            let st2 = EdgeState { nodes: st1.nodes, edges: st1.edges, seen: st1.seen, seq: 0 };
            assert(fn_node_id(ix.defs[k - 1].id) == cur);
            assert(body_fn_id(ix, k, cur));
            assert forall|x: int| 0 <= x < st2.edges.len() && (#[trigger] st2.edges[x]).from == cur implies st2.edges[x].seq < st2.seq by {
                assert(body_fn_id(ix, k - 1, st1.edges[x].from));
                let m = choose|m: int| 0 <= m < k - 1 && ix.defs[m].has_body && #[trigger] fn_node_id(ix.defs[m].id) == st1.edges[x].from;
                assert(fn_node_id(ix.defs[m].id) != fn_node_id(ix.defs[k - 1].id));
            }
            assert(numbering(ix, st2, cur, k));
            lemma_edges_in_num(ix, cur, d.body, 0, st2, k);
        }
    } else {
        assert(edges_upto(ix, k, st) == st);
    }
}

/// Law: when no two functions with a body share a node identity, the call
/// indices of the edges from each function are `0, 1, …, k - 1`: distinct,
/// not negative, and without a gap.
pub proof fn law_edges_numbered(ix: IndexView)
    requires
        fn_ids_distinct(ix),
    ensures
        numbered(call_graph_spec(ix).edges),
{
    let entries = select_entries_spec(ix, called_spec(ix));
    let nodes = fn_nodes(ix, entries, ix.defs.len() as int);
    let st0 = EdgeState { nodes, edges: Seq::empty(), seen: nodes.map_values(|n: GraphNodeView| node_id(n)), seq: 0 };
    lemma_edges_upto_num(ix, ix.defs.len() as int, st0);
    let st = edges_upto(ix, ix.defs.len() as int, st0);
    let eless = |a: GraphEdgeView, b: GraphEdgeView| edge_less(a, b);
    let g = sorted_by(st.edges, eless);
    assert(call_graph_spec(ix).edges == g);
    crate::sort::lemma_sorted_by_distinct(st.edges, eless, edge_key());
    assert forall|x: int| 0 <= x < g.len() implies (#[trigger] g[x]).seq >= 0 by {
        crate::sort::lemma_sorted_by_contains(st.edges, eless, g[x]);
        assert(g.contains(g[x]));
        let y = choose|y: int| 0 <= y < st.edges.len() && st.edges[y] == g[x];
        assert(st.edges[y].seq >= 0);
    }
    assert forall|x: int, s: int|
        #![trigger g[x], has_edge(g, g[x].from, s)]
        0 <= x < g.len() && 0 <= s < g[x].seq implies has_edge(g, g[x].from, s) by {
        crate::sort::lemma_sorted_by_contains(st.edges, eless, g[x]);
        assert(g.contains(g[x]));
        let y = choose|y: int| 0 <= y < st.edges.len() && st.edges[y] == g[x];
        assert(has_edge(st.edges, st.edges[y].from, s));
        let z = choose|z: int| 0 <= z < st.edges.len() && (#[trigger] st.edges[z]).from == g[x].from && st.edges[z].seq == s;
        assert(st.edges.contains(st.edges[z]));
        crate::sort::lemma_sorted_by_contains(st.edges, eless, st.edges[z]);
        let w = choose|w: int| 0 <= w < g.len() && g[w] == st.edges[z];
        assert(g[w].from == g[x].from && g[w].seq == s);
    }
}

/// Value of a hexadecimal digit, in either case.
pub open spec fn hex_value(c: char) -> Option<nat> {
    if '0' <= c && c <= '9' {
        Some((c as u32 - '0' as u32) as nat)
    } else if 'a' <= c && c <= 'f' {
        Some((c as u32 - 'a' as u32 + 10) as nat)
    } else if 'A' <= c && c <= 'F' {
        Some((c as u32 - 'A' as u32 + 10) as nat)
    } else {
        None
    }
}

/// Value of four hexadecimal digits.
pub open spec fn hex4_value(t: Seq<char>) -> Option<nat> {
    if t.len() == 4 && hex_value(t[0]) is Some && hex_value(t[1]) is Some && hex_value(t[2]) is Some && hex_value(t[3]) is Some {
        Some(hex_value(t[0])->0 * 4096 + hex_value(t[1])->0 * 256 + hex_value(t[2])->0 * 16 + hex_value(t[3])->0)
    } else {
        None
    }
}

/// The code point that a one-letter escape `\e` stands for.
pub open spec fn json_simple_escape(e: char) -> Option<u32> {
    if e == '"' {
        Some(0x22)
    } else if e == '\\' {
        Some(0x5c)
    } else if e == '/' {
        Some(0x2f)
    } else if e == 'b' {
        Some(0x08)
    } else if e == 'f' {
        Some(0x0c)
    } else if e == 'n' {
        Some(0x0a)
    } else if e == 'r' {
        Some(0x0d)
    } else if e == 't' {
        Some(0x09)
    } else {
        None
    }
}

/// Decoding of the text between the quotes of a JSON string (RFC 8259), as
/// code points; `None` when it is not well formed. `\u` escapes are taken
/// one by one, without joining surrogate pairs.
pub open spec fn json_decode(t: Seq<char>) -> Option<Seq<u32>>
    decreases t.len(),
{
    if t.len() == 0 {
        Some(Seq::empty())
    } else if t[0] == '\\' {
        if t.len() < 2 {
            None
        } else {
            match json_simple_escape(t[1]) {
                Some(v) => match json_decode(t.skip(2)) {
                    Some(r) => Some(seq![v] + r),
                    None => None,
                },
                None => if t[1] == 'u' && t.len() >= 6 {
                    match hex4_value(t.subrange(2, 6)) {
                        Some(v) => match json_decode(t.skip(6)) {
                            Some(r) => Some(seq![v as u32] + r),
                            None => None,
                        },
                        None => None,
                    }
                } else {
                    None
                },
            }
        }
    } else if t[0] == '"' || (t[0] as u32) < 0x20 {
        None
    } else {
        match json_decode(t.skip(1)) {
            Some(r) => Some(seq![t[0] as u32] + r),
            None => None,
        }
    }
}

proof fn lemma_hex_digit_value(d: nat)
    requires
        d < 16,
    ensures
        hex_value(hex_digit(d)) == Some(d),
{
}

proof fn lemma_json_char_decodes(c: char, rest: Seq<char>, r: Seq<u32>)
    requires
        json_decode(rest) == Some(r),
    ensures
        json_decode(json_char(c) + rest) == Some(seq![c as u32] + r),
{
    let t = json_char(c) + rest;
    if c == '"' || c == '\\' || c == '\n' || c == '\r' || c == '\t' {
        assert(t.skip(2) =~= rest);
        assert(t[0] == '\\');
    } else if (c as u32) < 0x20 {
        let v = c as nat;
        assert(v / 4096 == 0 && v / 256 == 0 && v / 16 < 2) by (nonlinear_arith)
            requires
                v < 32,
        ;
        lemma_hex_digit_value(0);
        lemma_hex_digit_value((v / 16) % 16);
        lemma_hex_digit_value(v % 16);
        assert(t.subrange(2, 6) =~= hex4(v));
        assert(((v / 16) % 16) * 16 + v % 16 == v) by (nonlinear_arith)
            requires
                v < 32,
        ;
        assert(hex4_value(t.subrange(2, 6)) == Some(v));
        assert(t.skip(6) =~= rest);
        assert(t[0] == '\\');
        assert(t[1] == 'u');
        assert(json_simple_escape('u') is None);
    } else {
        assert(t.skip(1) =~= rest);
        assert(t[0] == c);
    }
}

proof fn lemma_json_chars_decode(s: Seq<char>, rest: Seq<char>, r: Seq<u32>)
    requires
        json_decode(rest) == Some(r),
    ensures
        json_decode(json_chars(s) + rest) == Some(s.map_values(|c: char| c as u32) + r),
    decreases s.len(),
{
    if s.len() == 0 {
        assert(json_chars(s) + rest =~= rest);
        assert(s.map_values(|c: char| c as u32) + r =~= r);
    } else {
        lemma_json_char_decodes(s.last(), rest, r);
        lemma_json_chars_decode(s.drop_last(), json_char(s.last()) + rest, seq![s.last() as u32] + r);
        assert(json_chars(s) + rest =~= json_chars(s.drop_last()) + (json_char(s.last()) + rest));
        assert(s.drop_last().map_values(|c: char| c as u32) + (seq![s.last() as u32] + r) =~= s.map_values(|c: char| c as u32) + r);
    }
}

/// Law: every string that the JSON printer writes, `json_string(s)`, is a
/// quote, a body that a JSON reader decodes to exactly the characters of
/// `s`, and a quote.
pub proof fn law_json_strings_decode(s: Seq<char>)
    ensures
        json_string(s) == seq!['"'] + json_chars(s) + seq!['"'],
        json_decode(json_chars(s)) == Some(s.map_values(|c: char| c as u32)),
{
    lemma_json_chars_decode(s, Seq::empty(), Seq::empty());
    assert(json_chars(s) + Seq::<char>::empty() =~= json_chars(s));
    assert(s.map_values(|c: char| c as u32) + Seq::<u32>::empty() =~= s.map_values(|c: char| c as u32));
}

} // verus!
