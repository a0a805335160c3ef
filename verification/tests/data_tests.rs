use nested_set::data::{Graph, Node};

fn test_data() -> Vec<Node> {
    vec![
        Node {
            pid: None,
            node: "1".to_owned(),
            origin: None,
            label: "1".to_owned(),
            parent_node: None,
            parent_id: None,
            leaf: false,
            lft: None,
            rgt: None,
            count: None,
        },
        Node {
            pid: None,
            node: "2".to_owned(),
            origin: None,
            label: "2".to_owned(),
            parent_node: Some("1".to_owned()),
            parent_id: None,
            leaf: false,
            lft: None,
            rgt: None,
            count: None,
        },
        Node {
            pid: None,
            node: "3".to_owned(),
            origin: None,
            label: "3".to_owned(),
            parent_node: Some("2".to_owned()),
            parent_id: None,
            leaf: false,
            lft: None,
            rgt: None,
            count: None,
        },
        Node {
            pid: None,
            node: "4".to_owned(),
            origin: None,
            label: "4".to_owned(),
            parent_node: Some("3".to_owned()),
            parent_id: None,
            leaf: false,
            lft: None,
            rgt: None,
            count: None,
        },
        Node {
            pid: None,
            node: "4".to_owned(),
            origin: None,
            label: "4".to_owned(),
            parent_node: Some("1".to_owned()),
            parent_id: None,
            leaf: false,
            lft: None,
            rgt: None,
            count: None,
        },
        Node {
            pid: None,
            node: "5".to_owned(),
            origin: None,
            label: "5".to_owned(),
            parent_node: Some("3".to_owned()),
            parent_id: None,
            leaf: true,
            lft: None,
            rgt: None,
            count: None,
        },
        Node {
            pid: None,
            node: "5".to_owned(),
            origin: None,
            label: "5".to_owned(),
            parent_node: Some("4".to_owned()),
            parent_id: None,
            leaf: true,
            lft: None,
            rgt: None,
            count: None,
        },
    ]
}

#[test]
fn test_dag() {
    let graph = Graph::new(test_data()).unwrap();
    assert_eq!(graph.is_dag(), true);
    assert_eq!(graph.nodes.len(), 7);

    let mut graph = graph.dag_to_tree().unwrap();
    assert_eq!(graph.is_dag(), false);
    assert_eq!(graph.nodes.len(), 8);

    graph.build_index().unwrap();
    let nodes = &graph.nodes;
    {
        let node = nodes.get(0).unwrap();
        assert_eq!(node.pid, Some(1));
        assert_eq!(node.node, "1".to_owned());
        assert_eq!(node.origin, None);
        assert_eq!(node.label, "1".to_owned());
        assert_eq!(node.parent_node, None);
        assert_eq!(node.parent_id, None);
        assert_eq!(node.leaf, false);
        assert_eq!(node.lft, Some(1));
        assert_eq!(node.rgt, Some(16));
        assert_eq!(node.count, Some(2));
    }

    {
        let node = nodes.get(1).unwrap();
        assert_eq!(node.pid, Some(2));
        assert_eq!(node.node, "2".to_owned());
        assert_eq!(node.origin, None);
        assert_eq!(node.label, "2".to_owned());
        assert_eq!(node.parent_node, Some("1".to_owned()));
        assert_eq!(node.parent_id, Some(1));
        assert_eq!(node.leaf, false);
        assert_eq!(node.lft, Some(2));
        assert_eq!(node.rgt, Some(11));
        assert_eq!(node.count, Some(1));
    }

    {
        let node = nodes.get(2).unwrap();
        assert_eq!(node.pid, Some(3));
        assert_eq!(node.node, "4".to_owned());
        assert_eq!(node.origin, None);
        assert_eq!(node.label, "4".to_owned());
        assert_eq!(node.parent_node, Some("1".to_owned()));
        assert_eq!(node.parent_id, Some(1));
        assert_eq!(node.leaf, false);
        assert_eq!(node.lft, Some(12));
        assert_eq!(node.rgt, Some(15));
        assert_eq!(node.count, Some(1));
    }

    {
        let node = nodes.get(3).unwrap();
        assert_eq!(node.pid, Some(4));
        assert_eq!(node.node, "3".to_owned());
        assert_eq!(node.origin, None);
        assert_eq!(node.label, "3".to_owned());
        assert_eq!(node.parent_node, Some("2".to_owned()));
        assert_eq!(node.parent_id, Some(2));
        assert_eq!(node.leaf, false);
        assert_eq!(node.lft, Some(3));
        assert_eq!(node.rgt, Some(10));
        assert_eq!(node.count, Some(2));
    }

    {
        let node = nodes.get(4).unwrap();
        assert_eq!(node.pid, Some(5));
        assert_eq!(node.node, "5".to_owned());
        assert_eq!(node.origin, None);
        assert_eq!(node.label, "5".to_owned());
        assert_eq!(node.parent_node, Some("4".to_owned()));
        assert_eq!(node.parent_id, Some(3));
        assert_eq!(node.leaf, true);
        assert_eq!(node.lft, Some(13));
        assert_eq!(node.rgt, Some(14));
        assert_eq!(node.count, Some(0));
    }

    {
        let node = nodes.get(5).unwrap();
        assert_eq!(node.pid, Some(6));
        assert_eq!(node.node, "4__1".to_owned());
        assert_eq!(node.origin, Some("4".to_owned()));
        assert_eq!(node.label, "4".to_owned());
        assert_eq!(node.parent_node, Some("3".to_owned()));
        assert_eq!(node.parent_id, Some(4));
        assert_eq!(node.leaf, false);
        assert_eq!(node.lft, Some(4));
        assert_eq!(node.rgt, Some(7));
        assert_eq!(node.count, Some(1));
    }

    {
        let node = nodes.get(6).unwrap();
        assert_eq!(node.pid, Some(7));
        assert_eq!(node.node, "5".to_owned());
        assert_eq!(node.origin, None);
        assert_eq!(node.label, "5".to_owned());
        assert_eq!(node.parent_node, Some("3".to_owned()));
        assert_eq!(node.parent_id, Some(4));
        assert_eq!(node.leaf, true);
        assert_eq!(node.lft, Some(8));
        assert_eq!(node.rgt, Some(9));
        assert_eq!(node.count, Some(0));
    }

    {
        let node = nodes.get(7).unwrap();
        assert_eq!(node.pid, Some(8));
        assert_eq!(node.node, "5".to_owned());
        assert_eq!(node.origin, None);
        assert_eq!(node.label, "5".to_owned());
        assert_eq!(node.parent_node, Some("4__1".to_owned()));
        assert_eq!(node.parent_id, Some(6));
        assert_eq!(node.leaf, true);
        assert_eq!(node.lft, Some(5));
        assert_eq!(node.rgt, Some(6));
        assert_eq!(node.count, Some(0));
    }
}

#[test]
fn test_dag_complement_leaf() {
    let graph = Graph::new(test_data()).unwrap();
    assert_eq!(graph.nodes.len(), 7);

    let graph = graph.complement_leaf().unwrap();
    assert_eq!(graph.is_dag(), true);
    assert_eq!(graph.nodes.len(), 12);

    let mut graph = graph.dag_to_tree().unwrap();
    assert_eq!(graph.is_dag(), false);
    assert_eq!(graph.nodes.len(), 16);

    graph.build_index().unwrap();
    let nodes = &graph.nodes;
    {
        let node = nodes.get(0).unwrap();
        assert_eq!(node.pid, Some(1));
        assert_eq!(node.node, "c__1".to_owned());
        assert_eq!(node.origin, None);
        assert_eq!(node.label, "1".to_owned());
        assert_eq!(node.parent_node, None);
        assert_eq!(node.parent_id, None);
        assert_eq!(node.leaf, false);
        assert_eq!(node.lft, Some(1));
        assert_eq!(node.rgt, Some(32));
        assert_eq!(node.count, Some(3));
    }

    {
        let node = nodes.get(1).unwrap();
        assert_eq!(node.pid, Some(2));
        assert_eq!(node.node, "1".to_owned());
        assert_eq!(node.origin, None);
        assert_eq!(node.label, "1".to_owned());
        assert_eq!(node.parent_node, Some("c__1".to_owned()));
        assert_eq!(node.parent_id, Some(1));
        assert_eq!(node.leaf, true);
        assert_eq!(node.lft, Some(2));
        assert_eq!(node.rgt, Some(3));
        assert_eq!(node.count, Some(0));
    }

    {
        let node = nodes.get(2).unwrap();
        assert_eq!(node.pid, Some(3));
        assert_eq!(node.node, "c__2".to_owned());
        assert_eq!(node.origin, None);
        assert_eq!(node.label, "2".to_owned());
        assert_eq!(node.parent_node, Some("c__1".to_owned()));
        assert_eq!(node.parent_id, Some(1));
        assert_eq!(node.leaf, false);
        assert_eq!(node.lft, Some(4));
        assert_eq!(node.rgt, Some(23));
        assert_eq!(node.count, Some(2));
    }

    {
        let node = nodes.get(3).unwrap();
        assert_eq!(node.pid, Some(4));
        assert_eq!(node.node, "c__4".to_owned());
        assert_eq!(node.origin, None);
        assert_eq!(node.label, "4".to_owned());
        assert_eq!(node.parent_node, Some("c__1".to_owned()));
        assert_eq!(node.parent_id, Some(1));
        assert_eq!(node.leaf, false);
        assert_eq!(node.lft, Some(24));
        assert_eq!(node.rgt, Some(31));
        assert_eq!(node.count, Some(2));
    }

    {
        let node = nodes.get(4).unwrap();
        assert_eq!(node.pid, Some(5));
        assert_eq!(node.node, "2".to_owned());
        assert_eq!(node.origin, None);
        assert_eq!(node.label, "2".to_owned());
        assert_eq!(node.parent_node, Some("c__2".to_owned()));
        assert_eq!(node.parent_id, Some(3));
        assert_eq!(node.leaf, true);
        assert_eq!(node.lft, Some(5));
        assert_eq!(node.rgt, Some(6));
        assert_eq!(node.count, Some(0));
    }

    {
        let node = nodes.get(5).unwrap();
        assert_eq!(node.pid, Some(6));
        assert_eq!(node.node, "c__3".to_owned());
        assert_eq!(node.origin, None);
        assert_eq!(node.label, "3".to_owned());
        assert_eq!(node.parent_node, Some("c__2".to_owned()));
        assert_eq!(node.parent_id, Some(3));
        assert_eq!(node.leaf, false);
        assert_eq!(node.lft, Some(7));
        assert_eq!(node.rgt, Some(22));
        assert_eq!(node.count, Some(3));
    }

    {
        let node = nodes.get(6).unwrap();
        assert_eq!(node.pid, Some(7));
        assert_eq!(node.node, "4".to_owned());
        assert_eq!(node.origin, None);
        assert_eq!(node.label, "4".to_owned());
        assert_eq!(node.parent_node, Some("c__4".to_owned()));
        assert_eq!(node.parent_id, Some(4));
        assert_eq!(node.leaf, true);
        assert_eq!(node.lft, Some(25));
        assert_eq!(node.rgt, Some(26));
        assert_eq!(node.count, Some(0));
    }

    {
        let node = nodes.get(7).unwrap();
        assert_eq!(node.pid, Some(8));
        assert_eq!(node.node, "c__5".to_owned());
        assert_eq!(node.origin, None);
        assert_eq!(node.label, "5".to_owned());
        assert_eq!(node.parent_node, Some("c__4".to_owned()));
        assert_eq!(node.parent_id, Some(4));
        assert_eq!(node.leaf, false);
        assert_eq!(node.lft, Some(27));
        assert_eq!(node.rgt, Some(30));
        assert_eq!(node.count, Some(1));
    }

    {
        let node = nodes.get(8).unwrap();
        assert_eq!(node.pid, Some(9));
        assert_eq!(node.node, "3".to_owned());
        assert_eq!(node.origin, None);
        assert_eq!(node.label, "3".to_owned());
        assert_eq!(node.parent_node, Some("c__3".to_owned()));
        assert_eq!(node.parent_id, Some(6));
        assert_eq!(node.leaf, true);
        assert_eq!(node.lft, Some(8));
        assert_eq!(node.rgt, Some(9));
        assert_eq!(node.count, Some(0));
    }

    {
        let node = nodes.get(9).unwrap();
        assert_eq!(node.pid, Some(10));
        assert_eq!(node.node, "c__4__1".to_owned());
        assert_eq!(node.origin, Some("c__4".to_owned()));
        assert_eq!(node.label, "4".to_owned());
        assert_eq!(node.parent_node, Some("c__3".to_owned()));
        assert_eq!(node.parent_id, Some(6));
        assert_eq!(node.leaf, false);
        assert_eq!(node.lft, Some(10));
        assert_eq!(node.rgt, Some(17));
        assert_eq!(node.count, Some(2));
    }

    {
        let node = nodes.get(10).unwrap();
        assert_eq!(node.pid, Some(11));
        assert_eq!(node.node, "c__5__1".to_owned());
        assert_eq!(node.origin, Some("c__5".to_owned()));
        assert_eq!(node.label, "5".to_owned());
        assert_eq!(node.parent_node, Some("c__3".to_owned()));
        assert_eq!(node.parent_id, Some(6));
        assert_eq!(node.leaf, false);
        assert_eq!(node.lft, Some(18));
        assert_eq!(node.rgt, Some(21));
        assert_eq!(node.count, Some(1));
    }

    {
        let node = nodes.get(11).unwrap();
        assert_eq!(node.pid, Some(12));
        assert_eq!(node.node, "5".to_owned());
        assert_eq!(node.origin, None);
        assert_eq!(node.label, "5".to_owned());
        assert_eq!(node.parent_node, Some("c__5".to_owned()));
        assert_eq!(node.parent_id, Some(8));
        assert_eq!(node.leaf, true);
        assert_eq!(node.lft, Some(28));
        assert_eq!(node.rgt, Some(29));
        assert_eq!(node.count, Some(0));
    }

    {
        let node = nodes.get(12).unwrap();
        assert_eq!(node.pid, Some(13));
        assert_eq!(node.node, "4".to_owned());
        assert_eq!(node.origin, None);
        assert_eq!(node.label, "4".to_owned());
        assert_eq!(node.parent_node, Some("c__4__1".to_owned()));
        assert_eq!(node.parent_id, Some(10));
        assert_eq!(node.leaf, true);
        assert_eq!(node.lft, Some(11));
        assert_eq!(node.rgt, Some(12));
        assert_eq!(node.count, Some(0));
    }

    {
        let node = nodes.get(13).unwrap();
        assert_eq!(node.pid, Some(14));
        assert_eq!(node.node, "c__5__2".to_owned());
        assert_eq!(node.origin, Some("c__5".to_owned()));
        assert_eq!(node.label, "5".to_owned());
        assert_eq!(node.parent_node, Some("c__4__1".to_owned()));
        assert_eq!(node.parent_id, Some(10));
        assert_eq!(node.leaf, false);
        assert_eq!(node.lft, Some(13));
        assert_eq!(node.rgt, Some(16));
        assert_eq!(node.count, Some(1));
    }

    {
        let node = nodes.get(14).unwrap();
        assert_eq!(node.pid, Some(15));
        assert_eq!(node.node, "5".to_owned());
        assert_eq!(node.origin, None);
        assert_eq!(node.label, "5".to_owned());
        assert_eq!(node.parent_node, Some("c__5__1".to_owned()));
        assert_eq!(node.parent_id, Some(11));
        assert_eq!(node.leaf, true);
        assert_eq!(node.lft, Some(19));
        assert_eq!(node.rgt, Some(20));
        assert_eq!(node.count, Some(0));
    }

    {
        let node = nodes.get(15).unwrap();
        assert_eq!(node.pid, Some(16));
        assert_eq!(node.node, "5".to_owned());
        assert_eq!(node.origin, None);
        assert_eq!(node.label, "5".to_owned());
        assert_eq!(node.parent_node, Some("c__5__2".to_owned()));
        assert_eq!(node.parent_id, Some(14));
        assert_eq!(node.leaf, true);
        assert_eq!(node.lft, Some(14));
        assert_eq!(node.rgt, Some(15));
        assert_eq!(node.count, Some(0));
    }
}
