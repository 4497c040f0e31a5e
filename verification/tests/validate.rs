use hugr::extension_set::{ExtensionId, ExtensionSet};
use hugr::hugr::{Direction, EdgeKind, Hugr, HugrError, Node, NodeType, OpType, Port};
use hugr::validate::{ExtensionError, ExtensionValidator};

fn set(names: &[&str]) -> ExtensionSet {
    let ids: Vec<ExtensionId> = names.iter().map(|n| ExtensionId::new(n)).collect();
    ExtensionSet::from_ids(&ids)
}

fn closed(op: OpType, input: &[&str]) -> NodeType {
    NodeType {
        op,
        input_extensions: Some(set(input)),
    }
}

fn port(direction: Direction, offset: usize) -> Port {
    Port { direction, offset }
}

/// A region that adds "R": its input node, its output node, a node that adds
/// "R", one that needs other extensions, and one whose extensions are open.
fn example() -> (Hugr, [Node; 6]) {
    let mut hugr = Hugr::new(closed(OpType::dfg(set(&["R"])), &[]));
    let root = hugr.root();
    let input = hugr
        .add_node_with_parent(root, closed(OpType::input(), &[]))
        .unwrap();
    let output = hugr
        .add_node_with_parent(root, closed(OpType::output(), &["R"]))
        .unwrap();
    let add_r = hugr
        .add_node_with_parent(root, closed(OpType::leaf(set(&["R"])), &[]))
        .unwrap();
    let other = hugr
        .add_node_with_parent(root, closed(OpType::leaf(set(&[])), &["X", "R"]))
        .unwrap();
    let open = hugr
        .add_node_with_parent(root, NodeType::open_extensions(OpType::leaf(set(&[]))))
        .unwrap();
    (hugr, [root, input, output, add_r, other, open])
}

#[test]
fn declared_extensions_are_gathered() {
    let (hugr, [root, input, output, add_r, _, open]) = example();
    let validator = ExtensionValidator::new(&hugr);
    let query = |node, dir| validator.query_extensions(node, dir).unwrap().clone();
    assert_eq!(query(root, Direction::Incoming), set(&[]));
    assert_eq!(query(root, Direction::Outgoing), set(&["R"]));
    assert_eq!(query(input, Direction::Outgoing), set(&[]));
    assert_eq!(query(output, Direction::Incoming), set(&["R"]));
    assert_eq!(query(add_r, Direction::Incoming), set(&[]));
    assert_eq!(query(add_r, Direction::Outgoing), set(&["R"]));
    assert_eq!(
        validator.query_extensions(open, Direction::Incoming).err(),
        Some(ExtensionError::MissingInputExtensions(open))
    );
}

#[test]
fn gathering_one_node() {
    let mut validator = ExtensionValidator::default();
    let node = Node(7);
    validator.gather_extensions(&node, &NodeType::open_extensions(OpType::input()));
    assert!(validator.query_extensions(node, Direction::Incoming).is_err());
    validator.gather_extensions(&node, &closed(OpType::leaf(set(&["B"])), &["A"]));
    assert_eq!(
        *validator.query_extensions(node, Direction::Incoming).unwrap(),
        set(&["A"])
    );
    assert_eq!(
        *validator.query_extensions(node, Direction::Outgoing).unwrap(),
        set(&["A", "B"])
    );
    let copy = validator.clone();
    assert_eq!(
        *copy.query_extensions(node, Direction::Incoming).unwrap(),
        set(&["A"])
    );
}

#[test]
fn edges_are_compared() {
    let (hugr, [_, input, output, add_r, other, open]) = example();
    let validator = ExtensionValidator::new(&hugr);
    let from = port(Direction::Outgoing, 0);
    let to = port(Direction::Incoming, 1);
    assert_eq!(
        validator.check_extensions_compatible(&(input, from), &(add_r, to)),
        Ok(())
    );
    assert_eq!(
        validator.check_extensions_compatible(&(add_r, from), &(output, to)),
        Ok(())
    );
    assert_eq!(
        validator.check_extensions_compatible(&(add_r, from), &(other, to)),
        Err(ExtensionError::TgtExceedsSrcExtensions {
            from: add_r,
            from_offset: Some(from),
            from_extensions: set(&["R"]),
            to: other,
            to_offset: Some(to),
            to_extensions: set(&["R", "X"]),
        })
    );
    assert_eq!(
        validator.check_extensions_compatible(&(other, from), &(output, to)),
        Err(ExtensionError::SrcExceedsTgtExtensions {
            from: other,
            from_offset: Some(from),
            from_extensions: set(&["X", "R"]),
            to: output,
            to_offset: Some(to),
            to_extensions: set(&["R"]),
        })
    );
    assert_eq!(
        validator.check_extensions_compatible(&(open, from), &(output, to)),
        Err(ExtensionError::MissingInputExtensions(open))
    );
    assert_eq!(
        validator.check_extensions_compatible(&(input, from), &(open, to)),
        Err(ExtensionError::MissingInputExtensions(open))
    );
}

#[test]
fn io_nodes_are_compared_with_their_parent() {
    let (hugr, [root, input, output, add_r, _, open]) = example();
    let validator = ExtensionValidator::new(&hugr);
    assert_eq!(validator.validate_io_extensions(root, input, output), Ok(()));
    assert_eq!(
        validator.validate_io_extensions(root, output, input),
        Err(ExtensionError::ParentIOExtensionMismatch {
            parent: root,
            parent_extensions: set(&[]),
            child: output,
            child_extensions: set(&["R"]),
        })
    );
    // The input side of the child is like the parent, the output side is not.
    assert_eq!(
        validator.validate_io_extensions(root, add_r, output),
        Err(ExtensionError::ParentIOExtensionMismatch {
            parent: root,
            parent_extensions: set(&[]),
            child: add_r,
            child_extensions: set(&["R"]),
        })
    );
    assert_eq!(
        validator.validate_io_extensions(root, input, add_r),
        Err(ExtensionError::ParentIOExtensionMismatch {
            parent: root,
            parent_extensions: set(&["R"]),
            child: add_r,
            child_extensions: set(&[]),
        })
    );
    assert_eq!(
        validator.validate_io_extensions(open, input, output),
        Err(ExtensionError::MissingInputExtensions(open))
    );
    assert_eq!(
        validator.validate_io_extensions(root, open, output),
        Err(ExtensionError::MissingInputExtensions(open))
    );
    assert_eq!(
        validator.validate_io_extensions(root, input, open),
        Err(ExtensionError::MissingInputExtensions(open))
    );
}

#[test]
fn inferred_graph_passes_validation() {
    let mut hugr = Hugr::new(closed(OpType::dfg(set(&["R"])), &[]));
    let root = hugr.root();
    let input = hugr
        .add_node_with_parent(root, NodeType::open_extensions(OpType::input()))
        .unwrap();
    let output = hugr
        .add_node_with_parent(root, NodeType::open_extensions(OpType::output()))
        .unwrap();
    let add_r = hugr
        .add_node_with_parent(root, NodeType::open_extensions(OpType::leaf(set(&["R"]))))
        .unwrap();
    hugr.connect(input, add_r, EdgeKind::Value).unwrap();
    hugr.connect(add_r, output, EdgeKind::Value).unwrap();
    assert!(hugr.infer_extensions().unwrap().is_empty());
    let validator = ExtensionValidator::new(&hugr);
    assert_eq!(validator.validate_io_extensions(root, input, output), Ok(()));
    for edge in hugr.edges().iter() {
        let src = (edge.src, port(Direction::Outgoing, 0));
        let tgt = (edge.tgt, port(Direction::Incoming, 0));
        assert_eq!(validator.check_extensions_compatible(&src, &tgt), Ok(()));
    }
}

#[test]
fn any_instantiation_passes_validation() {
    let open = NodeType::open_extensions;
    for extra in [set(&[]), set(&["X"]), set(&["A", "X"])] {
        let mut hugr = Hugr::new(open(OpType::dfg(set(&["A", "B"]))));
        let root = hugr.root();
        let input = hugr.add_node_with_parent(root, open(OpType::input())).unwrap();
        let output = hugr.add_node_with_parent(root, open(OpType::output())).unwrap();
        let add_a = hugr
            .add_node_with_parent(root, open(OpType::leaf(set(&["A"]))))
            .unwrap();
        let add_b = hugr
            .add_node_with_parent(root, open(OpType::leaf(set(&["B"]))))
            .unwrap();
        hugr.connect(input, add_a, EdgeKind::Value).unwrap();
        hugr.connect(add_a, add_b, EdgeKind::Value).unwrap();
        hugr.connect(add_b, output, EdgeKind::Value).unwrap();
        let closure = hugr.infer_extensions().unwrap();
        assert_eq!(closure.len(), 10);
        for node in [root, input, output, add_a, add_b] {
            let found = closure.get(&(node, Direction::Incoming)).unwrap();
            hugr.set_input_extensions(node, found.union(&extra));
        }
        let validator = ExtensionValidator::new(&hugr);
        assert_eq!(validator.validate_io_extensions(root, input, output), Ok(()));
        for edge in hugr.edges().iter() {
            let src = (edge.src, port(Direction::Outgoing, 0));
            let tgt = (edge.tgt, port(Direction::Incoming, 0));
            assert_eq!(validator.check_extensions_compatible(&src, &tgt), Ok(()));
        }
        assert_eq!(
            validator.query_extensions(output, Direction::Incoming).unwrap(),
            &set(&["A", "B"]).union(&extra)
        );
    }
}

#[test]
fn failed_inference_leaves_the_graph() {
    let mut hugr = Hugr::new(closed(OpType::dfg(set(&["R"])), &[]));
    let root = hugr.root();
    let input = hugr
        .add_node_with_parent(root, NodeType::open_extensions(OpType::input()))
        .unwrap();
    let output = hugr
        .add_node_with_parent(root, NodeType::open_extensions(OpType::output()))
        .unwrap();
    hugr.connect(input, output, EdgeKind::Value).unwrap();
    assert!(hugr.infer_extensions().is_err());
    assert!(hugr.get_nodetype(input).signature().is_none());
    assert!(hugr.get_nodetype(output).signature().is_none());
}

#[test]
fn nodes_that_are_not_there() {
    let (mut hugr, [root, ..]) = example();
    let far = Node(77);
    let kind = EdgeKind::Value;
    let node_type = NodeType::pure(OpType::input());
    assert_eq!(
        hugr.add_node_with_parent(far, node_type),
        Err(HugrError::InvalidNode(far))
    );
    assert_eq!(hugr.connect(far, root, kind), Err(HugrError::InvalidNode(far)));
    assert_eq!(hugr.connect(root, far, kind), Err(HugrError::InvalidNode(far)));
    assert_eq!(hugr.edges().len(), 0);
    assert_eq!(hugr.get_parent(root), None);
    assert_eq!(hugr.get_parent(Node(1)), Some(root));
    assert_eq!(hugr.children(root).len(), 5);
    assert_eq!(hugr.node_count(), 6);
}
