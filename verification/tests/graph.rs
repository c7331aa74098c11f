use seer::graph::{
    graph_files, print_graph_html, print_graph_json, print_graph_mermaid, CallGraph, GraphNode,
};

const PROCESS_HANDLE: &str = "\
fn process(items: &[Item]) {
    if items.is_empty() {
        log::warn(\"empty\");
        return;
    }
    for item in items {
        if item.valid() {
            handle(item);
        }
    }
}

fn handle(item: &Item) {
    if !item.ready() {
        return;
    }
    serde_json::to_string(item);
    std::fs::write(path, data);
}
";

fn html_seer_graph_json(html: &str) -> &str {
    let start = html
        .find("<script type=\"application/json\" id=\"seer-graph\">")
        .expect("seer-graph script");
    let after = html[start..]
        .find('\n')
        .map(|i| start + i + 1)
        .expect("script newline");
    let end = html[after..]
        .find("</script>")
        .map(|i| after + i)
        .expect("script close");
    &html[after..end]
}

fn graph(src: &str) -> CallGraph {
    graph_files(&[("input.rs".into(), src.into())])
}

fn node_id(n: &GraphNode) -> &str {
    match n {
        GraphNode::Function { id, .. } => id,
        GraphNode::Leaf { id, .. } => id,
    }
}

fn node_index(nodes: &[GraphNode], id: &str) -> usize {
    nodes
        .iter()
        .position(|n| node_id(n) == id)
        .expect("edge endpoint is a graph node")
}

fn fn_named<'a>(g: &'a CallGraph, name: &str) -> &'a GraphNode {
    g.nodes
        .iter()
        .find(|n| matches!(n, GraphNode::Function { name: n, .. } if n == name))
        .unwrap_or_else(|| panic!("missing function {name}"))
}

fn fn_id<'a>(g: &'a CallGraph, name: &str) -> &'a str {
    match fn_named(g, name) {
        GraphNode::Function { id, .. } => id,
        GraphNode::Leaf { .. } => unreachable!(),
    }
}

#[test]
fn graph_diamond_shares_d() {
    let g = graph("fn a() { b(); c(); }\nfn b() { d(); }\nfn c() { d(); }\nfn d() { return; }\n");
    let ds: Vec<_> = g
        .nodes
        .iter()
        .filter(|n| matches!(n, GraphNode::Function { name, .. } if name == "d"))
        .collect();
    assert_eq!(ds.len(), 1);
    let d = fn_id(&g, "d");
    let incoming = g.edges.iter().filter(|e| e.to == d).count();
    assert_eq!(incoming, 2);
}

#[test]
fn graph_recursive_self_edge() {
    let g = graph("fn walk() { walk(); }\n");
    assert_eq!(g.nodes.len(), 1);
    assert_eq!(g.edges.len(), 1);
    assert_eq!(g.edges[0].from, g.edges[0].to);
}

#[test]
fn graph_omit_println() {
    let g = graph("fn f() { println!(\"x\"); }\n");
    assert!(g.edges.is_empty());
    assert!(g.nodes.iter().all(|n| matches!(n, GraphNode::Function { .. })));
}

#[test]
fn graph_empty_print() {
    let g = graph("");
    assert_eq!(print_graph_mermaid(&g), "");
    assert_eq!(print_graph_json(&g), "");
    assert_eq!(print_graph_html(&g, &[]), "");
}

#[test]
fn graph_mermaid_coalesces_duplicate_edges() {
    let g = graph("fn f() { let x = compute(); let y = compute(); }\nfn compute() { return; }\n");
    let mmd = print_graph_mermaid(&g);
    let arrows: Vec<_> = mmd.lines().filter(|l| l.contains("-->")).collect();
    assert_eq!(arrows.len(), 1);
    let f = node_index(&g.nodes, fn_id(&g, "f"));
    let c = node_index(&g.nodes, fn_id(&g, "compute"));
    assert_eq!(arrows[0], format!("  n{f} --> n{c}"));
    let json_edges = g
        .edges
        .iter()
        .filter(|e| e.from == fn_id(&g, "f") && e.to == fn_id(&g, "compute"))
        .count();
    assert_eq!(json_edges, 2);
}

#[test]
fn graph_call_seq_follows_source_order() {
    let g = graph(
        "fn main() { a(); b(); c(); }\nfn a() { return; }\nfn b() { return; }\nfn c() { return; }\n",
    );
    let main = fn_id(&g, "main");
    let mut outgoing: Vec<_> = g.edges.iter().filter(|e| e.from == main).collect();
    outgoing.sort_by_key(|e| e.seq);
    assert_eq!(outgoing.iter().map(|e| e.seq).collect::<Vec<_>>(), vec![0, 1, 2]);
    assert_eq!(outgoing[0].to, fn_id(&g, "a"));
    assert_eq!(outgoing[1].to, fn_id(&g, "b"));
    assert_eq!(outgoing[2].to, fn_id(&g, "c"));
}

#[test]
fn graph_call_in_args_is_edge_from_caller() {
    let g = graph(
        "fn outer() { wrap(inner()); }\nfn wrap(_x: i32) { return; }\nfn inner() -> i32 { return 1; }\n",
    );
    let outer = fn_id(&g, "outer");
    let wrap = fn_id(&g, "wrap");
    let inner = fn_id(&g, "inner");
    let mut outgoing: Vec<_> = g.edges.iter().filter(|e| e.from == outer).collect();
    outgoing.sort_by_key(|e| e.seq);
    assert_eq!(outgoing.len(), 2);
    assert_eq!(outgoing[0].to, wrap);
    assert_eq!(outgoing[1].to, inner);
    assert!(g.edges.iter().all(|e| e.from == outer));
    match fn_named(&g, "inner") {
        GraphNode::Function { entry, .. } => assert!(!*entry),
        GraphNode::Leaf { .. } => panic!("inner is a function"),
    }
}

#[test]
fn graph_html_embeds_json() {
    let src = PROCESS_HANDLE;
    let files = [("input.rs".into(), src.to_string())];
    let g = graph_files(&files);
    let html = print_graph_html(&g, &files);
    assert!(html.starts_with("<!DOCTYPE html>\n"));
    assert!(!html.contains("<script src"));
    assert!(html.contains("id=\"seer-sources\""));
    assert!(html.contains("fn handle(item: &Item)"));
    let embedded = html_seer_graph_json(&html);
    let json = print_graph_json(&g).replace('<', "\\u003c");
    assert_eq!(embedded, json);
    let handle = fn_named(&g, "handle");
    match handle {
        GraphNode::Function { entry, .. } => assert!(!*entry),
        GraphNode::Leaf { .. } => panic!("handle is a function"),
    }
    let process = fn_named(&g, "process");
    match process {
        GraphNode::Function { entry, .. } => assert!(*entry),
        GraphNode::Leaf { .. } => panic!("process is a function"),
    }
}

#[test]
fn graph_edges_end_at_nodes() {
    let g = graph_files(&[("input.rs".into(), PROCESS_HANDLE.into())]);
    for e in &g.edges {
        node_index(&g.nodes, &e.from);
        node_index(&g.nodes, &e.to);
    }
    assert!(!g.edges.is_empty());
}

#[test]
fn graph_ids_are_unique_and_nodes_sorted() {
    let files = vec![
        ("b.rs".to_string(), "fn g() { ext(); ext(); h(); }\nfn h() { other(); }\n".to_string()),
        ("a.rs".to_string(), "fn f() { ext(); g(); }\n".to_string()),
    ];
    let graph = graph_files(&files);
    let ids: Vec<&str> = graph
        .nodes
        .iter()
        .map(|n| match n {
            GraphNode::Function { id, .. } => id.as_str(),
            GraphNode::Leaf { id, .. } => id.as_str(),
        })
        .collect();
    let mut dedup = ids.clone();
    dedup.sort();
    dedup.dedup();
    assert_eq!(dedup.len(), ids.len());
    let first_leaf = ids.iter().position(|id| id.starts_with("leaf:")).unwrap();
    assert!(ids[..first_leaf].iter().all(|id| !id.starts_with("leaf:")));
    assert!(ids[first_leaf..].iter().all(|id| id.starts_with("leaf:")));
    assert!(ids[0].starts_with("a.rs:"));
    let keys: Vec<(&str, &str, &str, usize)> =
        graph.edges.iter().map(|e| (e.from.as_str(), e.to.as_str(), e.label.as_str(), e.seq)).collect();
    let mut sorted = keys.clone();
    sorted.sort();
    assert_eq!(keys, sorted);
}

#[test]
fn edge_indices_run_from_zero_per_function() {
    let files = vec![(
        "a.rs".to_string(),
        "fn f() { x(); y(); g(); x(); }\nfn g() { z(); }\n".to_string(),
    )];
    let graph = graph_files(&files);
    let mut froms: Vec<&str> = graph.edges.iter().map(|e| e.from.as_str()).collect();
    froms.sort();
    froms.dedup();
    for f in froms {
        let mut seqs: Vec<usize> = graph.edges.iter().filter(|e| e.from == f).map(|e| e.seq).collect();
        seqs.sort();
        assert_eq!(seqs, (0..seqs.len()).collect::<Vec<_>>());
    }
    assert_eq!(graph.edges.iter().filter(|e| e.from.starts_with("a.rs:0")).count(), 4);
}

#[test]
fn json_strings_escape_quotes_backslashes_and_controls() {
    let g = CallGraph {
        nodes: vec![GraphNode::Leaf { id: "leaf:x".into(), label: "a\"b\\c\u{1}\n\té".into() }],
        edges: vec![],
    };
    let json = print_graph_json(&g);
    assert!(json.contains("\"a\\\"b\\\\c\\u0001\\n\\té\""), "{json}");
}
