use nested_set::cli::Format;
use nested_set::data::{Graph, Node};
use nested_set::error::Error;

fn node(id: &str, label: &str, parent: Option<&str>, leaf: bool) -> Node {
    Node {
        pid: None,
        node: id.to_owned(),
        origin: None,
        label: label.to_owned(),
        parent_node: parent.map(|p| p.to_owned()),
        parent_id: None,
        leaf,
        lft: None,
        rgt: None,
        count: None,
    }
}

fn clothing_catalog() -> Vec<Node> {
    vec![
        node("Clothing", "Clothing", None, false),
        node("Men's", "Men's", Some("Clothing"), false),
        node("Women's", "Women's", Some("Clothing"), false),
        node("Suits", "Suits", Some("Men's"), false),
        node("Slacks", "Slacks", Some("Suits"), true),
        node("Jackets", "Jackets", Some("Suits"), true),
        node("Dresses", "Dresses", Some("Women's"), false),
        node("Skirts", "Skirts", Some("Women's"), true),
        node("Blouses", "Blouses", Some("Women's"), true),
        node("Evening Gowns", "Evening Gowns", Some("Dresses"), true),
        node("Sun Dresses", "Sun Dresses", Some("Dresses"), true),
    ]
}

fn interval(nodes: &[Node], id: &str) -> (usize, usize) {
    let n = nodes.iter().find(|n| n.node == id).unwrap();
    (n.lft.unwrap(), n.rgt.unwrap())
}

#[test]
fn clothing_catalog_textbook_numbering() {
    let mut graph = Graph::new(clothing_catalog()).unwrap();
    assert!(!graph.is_dag());
    graph.build_index().unwrap();
    let nodes = &graph.nodes;

    assert_eq!(interval(nodes, "Clothing"), (1, 22));
    assert_eq!(interval(nodes, "Men's"), (2, 9));
    assert_eq!(interval(nodes, "Suits"), (3, 8));
    assert_eq!(interval(nodes, "Slacks"), (4, 5));
    assert_eq!(interval(nodes, "Jackets"), (6, 7));
    assert_eq!(interval(nodes, "Women's"), (10, 21));
    assert_eq!(interval(nodes, "Dresses"), (11, 16));
    assert_eq!(interval(nodes, "Evening Gowns"), (12, 13));
    assert_eq!(interval(nodes, "Sun Dresses"), (14, 15));
    assert_eq!(interval(nodes, "Skirts"), (17, 18));
    assert_eq!(interval(nodes, "Blouses"), (19, 20));

    // Every interval is strictly nested inside its parent's, and sibling
    // intervals are disjoint and ordered left to right as in the input.
    for n in nodes.iter() {
        if let Some(parent) = &n.parent_node {
            let (pl, pr) = interval(nodes, parent);
            assert!(pl < n.lft.unwrap());
            assert!(n.rgt.unwrap() < pr);
        }
    }
    let (sl, sr) = interval(nodes, "Men's");
    let (wl, _) = interval(nodes, "Women's");
    assert!(sl < sr && sr < wl);
}

#[test]
fn interval_width_counts_descendants() {
    let mut graph = Graph::new(clothing_catalog()).unwrap();
    graph.build_index().unwrap();
    let nodes = &graph.nodes;

    for n in nodes.iter() {
        let lft = n.lft.unwrap();
        let rgt = n.rgt.unwrap();
        assert_eq!((rgt - lft) % 2, 1);
        let descendants = nodes
            .iter()
            .filter(|m| lft < m.lft.unwrap() && m.rgt.unwrap() < rgt)
            .count();
        assert_eq!((rgt - lft - 1) / 2, descendants);
    }
}

#[test]
fn dag_detector_is_idempotent() {
    let graph = Graph::new(clothing_catalog()).unwrap();
    assert_eq!(graph.is_dag(), graph.is_dag());

    let shared = Graph::new(vec![
        node("R", "R", None, false),
        node("A", "A", Some("R"), false),
        node("A", "A", Some("R"), false),
    ])
    .unwrap();
    let first = shared.is_dag();
    let second = shared.is_dag();
    assert!(first);
    assert_eq!(first, second);
}

#[test]
fn unfolding_renames_second_occurrence_only() {
    let graph = Graph::new(vec![
        node("R", "R", None, false),
        node("A", "A", Some("R"), false),
        node("B", "B", Some("R"), false),
        node("X", "X", Some("A"), false),
        node("X", "X", Some("B"), false),
    ])
    .unwrap();
    assert!(graph.is_dag());

    let tree = graph.dag_to_tree().unwrap();
    assert!(!tree.is_dag());

    let with_x: Vec<&Node> = tree
        .nodes
        .iter()
        .filter(|n| !n.leaf && (n.node == "X" || n.node == "X__1"))
        .collect();
    assert_eq!(with_x.len(), 2);
    assert_eq!(with_x[0].node, "X".to_owned());
    assert_eq!(with_x[0].origin, None);
    assert_eq!(with_x[1].node, "X__1".to_owned());
    assert_eq!(with_x[1].origin, Some("X".to_owned()));
}

#[test]
fn unfolding_counts_in_decimal_past_nine() {
    let mut nodes = vec![node("R", "R", None, false)];
    for i in 0..12 {
        let id = format!("A{}", i);
        nodes.push(node(&id, &id, Some("R"), false));
    }
    for i in 0..12 {
        let parent = format!("A{}", i);
        nodes.push(node("X", "X", Some(&parent), false));
    }
    let graph = Graph::new(nodes).unwrap();
    assert!(graph.is_dag());

    let tree = graph.dag_to_tree().unwrap();
    assert!(!tree.is_dag());
    assert!(tree.nodes.iter().any(|n| n.node == "X__9"));
    assert!(tree.nodes.iter().any(|n| n.node == "X__10"));
    assert!(tree.nodes.iter().any(|n| n.node == "X__11"));
    assert!(!tree.nodes.iter().any(|n| n.node == "X__12"));
    let renamed = tree
        .nodes
        .iter()
        .filter(|n| n.origin == Some("X".to_owned()))
        .count();
    assert_eq!(renamed, 11);
}

#[test]
fn unfolding_a_tree_keeps_every_record() {
    let graph = Graph::new(clothing_catalog()).unwrap();
    assert!(!graph.is_dag());

    let tree = graph.dag_to_tree().unwrap();
    assert!(!tree.is_dag());
    assert_eq!(tree.nodes.len(), 11);
    assert_eq!(tree.root, 0);
    assert_eq!(tree.nodes[0].node, "Clothing".to_owned());
    assert!(tree.nodes.iter().all(|n| n.origin.is_none()));
}

#[test]
fn complement_deduplicates_shared_sibling_leaves() {
    let graph = Graph::new(vec![
        node("R", "R", None, false),
        node("L", "L", Some("R"), true),
        node("L", "L", Some("R"), true),
    ])
    .unwrap();

    let complemented = graph.complement_leaf().unwrap();
    let wrappers = complemented
        .nodes
        .iter()
        .filter(|n| n.node == "c__L")
        .count();
    assert_eq!(wrappers, 1);
    assert_eq!(complemented.nodes.len(), 4);
    assert_eq!(complemented.nodes[0].node, "c__R".to_owned());
    assert_eq!(complemented.nodes[0].parent_node, None);
}

#[test]
fn two_parentless_nodes_fail_with_multiple_roots() {
    let err = Graph::new(vec![
        node("A", "A", None, false),
        node("B", "B", None, false),
    ])
    .unwrap_err();
    assert!(matches!(err, Error::MultipleRootNodeError()));
}

#[test]
fn no_parentless_node_fails_with_root_not_found() {
    let err = Graph::new(vec![
        node("A", "A", Some("B"), false),
        node("B", "B", Some("A"), false),
    ])
    .unwrap_err();
    assert!(matches!(err, Error::RootNodeNotFoundError()));
}

#[test]
fn unresolved_parent_fails_with_parent_node_not_found() {
    let mut graph = Graph::new(vec![
        node("R", "R", None, false),
        node("C", "C", Some("missing"), false),
    ])
    .unwrap();
    let err = graph.build_index().unwrap_err();
    match err {
        Error::ParentNodeNotFoundError(p) => assert_eq!(p, "missing".to_owned()),
        other => panic!("unexpected error: {:?}", other),
    }
}

#[test]
fn single_node_input_gets_unit_interval() {
    let mut graph = Graph::new(vec![node("only", "only", None, false)]).unwrap();
    assert!(!graph.is_dag());
    graph.build_index().unwrap();
    let n = &graph.nodes[0];
    assert_eq!(n.pid, Some(1));
    assert_eq!(n.parent_id, None);
    assert_eq!(n.lft, Some(1));
    assert_eq!(n.rgt, Some(2));
    assert_eq!(n.count, Some(0));
}

#[test]
fn format_recognizes_known_extensions() {
    assert_eq!(Format::from_extension("csv"), Some(Format::CSV));
    assert_eq!(Format::from_extension("tsv"), Some(Format::TSV));
    assert_eq!(Format::from_extension("json"), Some(Format::JSON));
    assert_eq!(Format::from_extension("txt"), None);
    assert_eq!(Format::from_extension("CSV"), None);
    assert_eq!(Format::from_extension(""), None);
}

#[test]
fn error_messages_name_the_violation() {
    let err = Graph::new(vec![]).unwrap_err();
    assert_eq!(
        err.message(),
        "Root node not found. Remove `\"parent\"` from root node or set it to `null`"
    );

    let mut graph = Graph::new(vec![
        node("R", "R", None, false),
        node("C", "C", Some("gone"), false),
    ])
    .unwrap();
    let err = graph.build_index().unwrap_err();
    assert_eq!(err.message(), "Parent node not found: gone");
}
