use std::error::Error;
use std::fmt;

use hugr::extension_set::{ExtensionId, ExtensionSet};
use hugr::hugr::{Direction, EdgeKind, Hugr, HugrError, Node, NodeType, OpType};
use hugr::infer::context::{Constraint, UnificationContext};
use hugr::infer::eq_graph::{EqGraph, Meta};
use hugr::infer::error::{mismatch_error, InferExtensionError};
use hugr::infer::infer_extensions;
use hugr::validate::ExtensionError;

#[derive(Debug)]
enum TestError {
    Hugr(HugrError),
    Infer(InferExtensionError),
}

impl fmt::Display for TestError {
    fn fmt(&self, f: &mut fmt::Formatter<'_>) -> fmt::Result {
        fmt::Debug::fmt(self, f)
    }
}

impl Error for TestError {}

impl From<HugrError> for TestError {
    fn from(err: HugrError) -> Self {
        TestError::Hugr(err)
    }
}

impl From<InferExtensionError> for TestError {
    fn from(err: InferExtensionError) -> Self {
        TestError::Infer(err)
    }
}

fn id(name: &str) -> ExtensionId {
    ExtensionId::new(name)
}

fn set(names: &[&str]) -> ExtensionSet {
    let ids: Vec<ExtensionId> = names.iter().map(|n| id(n)).collect();
    ExtensionSet::from_ids(&ids)
}

fn open_dfg(names: &[&str]) -> NodeType {
    NodeType::open_extensions(OpType::dfg(set(names)))
}

fn closed(op: OpType, input: &[&str]) -> NodeType {
    NodeType {
        op,
        input_extensions: Some(set(input)),
    }
}

/// A graph with a root that declares no extensions.
fn default_hugr() -> Hugr {
    Hugr::new(NodeType::pure(OpType::module_op()))
}

/// A dataflow graph that adds `delta`, whose input and output nodes declare the
/// extensions of the root.
fn dfg_with_io(delta: &[&str]) -> Result<(Hugr, Node, Node), HugrError> {
    let mut hugr = Hugr::new(NodeType::pure(OpType::dfg(set(delta))));
    let root = hugr.root();
    let input = hugr.add_node_with_parent(root, NodeType::pure(OpType::input()))?;
    let output = hugr.add_node_with_parent(root, closed(OpType::output(), delta))?;
    Ok((hugr, input, output))
}

#[test]
// Build up a graph with some holes in its extension requirements, and infer
// them.
fn from_graph() -> Result<(), Box<dyn Error>> {
    let inner = || -> Result<(), TestError> {
        let mut hugr = Hugr::new(open_dfg(&["A", "B", "C"]));
        let root = hugr.root();

        let input = NodeType::open_extensions(OpType::input());
        let output = NodeType::open_extensions(OpType::output());
        let input = hugr.add_node_with_parent(root, input)?;
        let output = hugr.add_node_with_parent(root, output)?;

        assert!(matches!(hugr.get_io(root), Some(_)));

        let add_a = hugr.add_node_with_parent(root, open_dfg(&["A"]))?;
        let add_b = hugr.add_node_with_parent(root, open_dfg(&["B"]))?;
        let add_ab = hugr.add_node_with_parent(root, open_dfg(&["A", "B"]))?;
        let mult_c = hugr.add_node_with_parent(root, open_dfg(&["C"]))?;

        hugr.connect(input, add_a, EdgeKind::Value)?;
        hugr.connect(add_a, add_b, EdgeKind::Value)?;
        hugr.connect(add_b, mult_c, EdgeKind::Value)?;

        hugr.connect(input, add_ab, EdgeKind::Value)?;
        hugr.connect(add_ab, mult_c, EdgeKind::Value)?;

        hugr.connect(mult_c, output, EdgeKind::Value)?;

        let (_, closure) = infer_extensions(&hugr)?;
        let empty = ExtensionSet::new();
        let ab = set(&["A", "B"]);
        let abc = set(&["A", "B", "C"]);
        assert_eq!(*closure.get(&(root, Direction::Incoming)).unwrap(), empty);
        assert_eq!(*closure.get(&(root, Direction::Outgoing)).unwrap(), abc);
        assert_eq!(*closure.get(&(mult_c, Direction::Incoming)).unwrap(), ab);
        assert_eq!(*closure.get(&(mult_c, Direction::Outgoing)).unwrap(), abc);
        assert_eq!(*closure.get(&(add_ab, Direction::Incoming)).unwrap(), empty);
        assert_eq!(*closure.get(&(add_ab, Direction::Outgoing)).unwrap(), ab);
        assert_eq!(*closure.get(&(add_ab, Direction::Incoming)).unwrap(), empty);
        assert_eq!(
            *closure.get(&(add_b, Direction::Incoming)).unwrap(),
            ExtensionSet::singleton(&id("A"))
        );
        Ok(())
    };
    inner()?;
    Ok(())
}

#[test]
// Basic test that the `Plus` constraint works
fn plus() -> Result<(), InferExtensionError> {
    let hugr = default_hugr();
    let mut ctx = UnificationContext::new(&hugr);

    let metas: Vec<Meta> = (2..8)
        .map(|i| ctx.make_or_get_meta(Node(i), Direction::Incoming))
        .collect();

    ctx.add_solution(metas[2], ExtensionSet::singleton(&id("A")));
    ctx.add_constraint(metas[1], Constraint::Equal(metas[2]));
    ctx.add_constraint(metas[0], Constraint::Plus(id("B"), metas[2]));
    ctx.add_constraint(metas[4], Constraint::Plus(id("C"), metas[0]));
    ctx.add_constraint(metas[3], Constraint::Equal(metas[4]));
    ctx.add_constraint(metas[5], Constraint::Equal(metas[0]));
    ctx.main_loop()?;

    let a = ExtensionSet::singleton(&id("A"));
    let mut ab = a.clone();
    ab.insert(&id("B"));
    let mut abc = ab.clone();
    abc.insert(&id("C"));

    assert_eq!(ctx.get_solution(&metas[0]).unwrap(), &ab);
    assert_eq!(ctx.get_solution(&metas[1]).unwrap(), &a);
    assert_eq!(ctx.get_solution(&metas[2]).unwrap(), &a);
    assert_eq!(ctx.get_solution(&metas[3]).unwrap(), &abc);
    assert_eq!(ctx.get_solution(&metas[4]).unwrap(), &abc);
    assert_eq!(ctx.get_solution(&metas[5]).unwrap(), &ab);

    Ok(())
}

#[test]
// A wire between input and output nodes that should differ by an extension:
// a lift node is missing
fn missing_lift_node() -> Result<(), Box<dyn Error>> {
    let (mut hugr, input, output) = dfg_with_io(&["R"]).map_err(TestError::Hugr)?;
    hugr.connect(input, output, EdgeKind::Value)
        .map_err(TestError::Hugr)?;
    assert!(matches!(infer_extensions(&hugr), Err(_)));
    Ok(())
}

#[test]
// Tests that we can succeed even when all variables don't have concrete
// extension sets, and we have an open variable at the start of the graph.
fn open_variables() -> Result<(), InferExtensionError> {
    let mut ctx = UnificationContext::new(&default_hugr());
    // Some nonsense so that the constraints register as "live"
    let a = ctx.make_or_get_meta(Node(2), Direction::Outgoing);
    let b = ctx.make_or_get_meta(Node(3), Direction::Outgoing);
    let ab = ctx.make_or_get_meta(Node(4), Direction::Incoming);
    ctx.add_variable(a);
    ctx.add_variable(b);
    ctx.add_constraint(ab, Constraint::Plus(id("A"), b));
    ctx.add_constraint(ab, Constraint::Plus(id("B"), a));
    let solution = ctx.main_loop()?;
    // We'll only find concrete solutions for the Incoming/Outgoing sides of
    // the main node of the default graph
    assert_eq!(solution.len(), 2);
    Ok(())
}

#[test]
// Infer the extensions on a child node with no inputs
fn dangling_src() -> Result<(), Box<dyn Error>> {
    let inner = || -> Result<(), TestError> {
        let rs = ExtensionSet::singleton(&id("R"));
        let (mut hugr, input, output) = dfg_with_io(&["R"])?;
        let root = hugr.root();

        let add_r = hugr.add_node_with_parent(root, open_dfg(&["R"]))?;
        hugr.connect(input, add_r, EdgeKind::Value)?;

        // Dangling thingy
        let src = hugr.add_node_with_parent(root, open_dfg(&[]))?;

        // Mult has open extension requirements, which we should solve to be "R"
        let mult = hugr.add_node_with_parent(root, open_dfg(&[]))?;
        hugr.connect(add_r, mult, EdgeKind::Value)?;
        hugr.connect(src, mult, EdgeKind::Value)?;

        hugr.connect(mult, output, EdgeKind::Value)?;

        let closure = hugr.infer_extensions()?;
        assert!(closure.is_empty());
        assert_eq!(
            hugr.get_nodetype(src)
                .signature()
                .unwrap()
                .output_extensions(),
            rs
        );
        assert_eq!(
            hugr.get_nodetype(mult)
                .signature()
                .unwrap()
                .input_extensions,
            rs
        );
        assert_eq!(
            hugr.get_nodetype(mult)
                .signature()
                .unwrap()
                .output_extensions(),
            rs
        );
        Ok(())
    };
    inner()?;
    Ok(())
}

#[test]
fn resolve_test() -> Result<(), InferExtensionError> {
    let mut ctx = UnificationContext::new(&default_hugr());
    let m0 = ctx.fresh_meta();
    let m1 = ctx.fresh_meta();
    let m2 = ctx.fresh_meta();
    ctx.add_constraint(m0, Constraint::Equal(m1));
    ctx.main_loop()?;
    let mid0 = ctx.resolve(m0);
    assert_eq!(ctx.resolve(m0), ctx.resolve(m1));
    ctx.add_constraint(mid0, Constraint::Equal(m2));
    ctx.main_loop()?;
    assert_eq!(ctx.resolve(m0), ctx.resolve(m2));
    assert_eq!(ctx.resolve(m1), ctx.resolve(m2));
    assert!(ctx.resolve(m0) != mid0);
    Ok(())
}

#[test]
fn minus_test() -> Result<(), Box<dyn Error>> {
    let inner = || -> Result<(), TestError> {
        let abc = ["A", "B", "C"];

        // Parent graph is closed
        let mut hugr = Hugr::new(NodeType::pure(OpType::dfg(set(&abc))));
        let root = hugr.root();

        let _input = hugr.add_node_with_parent(root, NodeType::open_extensions(OpType::input()))?;
        let output = hugr.add_node_with_parent(root, NodeType::open_extensions(OpType::output()))?;

        let child = hugr.add_node_with_parent(root, open_dfg(&abc))?;
        let _ichild =
            hugr.add_node_with_parent(child, NodeType::open_extensions(OpType::input()))?;
        let ochild =
            hugr.add_node_with_parent(child, NodeType::open_extensions(OpType::output()))?;

        let const_node =
            hugr.add_node_with_parent(child, NodeType::open_extensions(OpType::module_op()))?;
        let lift_node = hugr.add_node_with_parent(
            child,
            NodeType::open_extensions(OpType::leaf(ExtensionSet::singleton(&id("C")))),
        )?;

        hugr.connect(const_node, lift_node, EdgeKind::Value)?;
        hugr.connect(lift_node, ochild, EdgeKind::Value)?;
        hugr.connect(child, output, EdgeKind::Value)?;

        let (sol, _) = infer_extensions(&hugr)?;

        // The solution for the const node should be {A, B}!
        assert_eq!(
            *sol.get(&(const_node, Direction::Outgoing)).unwrap(),
            set(&["A", "B"])
        );

        Ok(())
    };
    inner()?;
    Ok(())
}

#[test]
fn groups_of_an_equality_graph() {
    let mut graph = EqGraph::new();
    graph.register_eq(Meta::new(1), Meta::new(2));
    graph.register_eq(Meta::new(3), Meta::new(2));
    graph.register_eq(Meta::new(7), Meta::new(5));
    let mut groups: Vec<Vec<u32>> = graph
        .ccs()
        .iter()
        .map(|group| {
            let mut ids: Vec<u32> = group.iter().map(|m| m.0).collect();
            ids.sort();
            ids
        })
        .collect();
    groups.sort();
    assert_eq!(groups, vec![vec![1, 2, 3], vec![5, 7]]);
}

#[test]
fn solutions_fit_the_graph() {
    let (mut hugr, input, output) = dfg_with_io(&["A", "B"]).unwrap();
    let root = hugr.root();
    let a = hugr.add_node_with_parent(root, open_dfg(&["A"])).unwrap();
    let b = hugr.add_node_with_parent(root, open_dfg(&["B"])).unwrap();
    hugr.connect(input, a, EdgeKind::Value).unwrap();
    hugr.connect(a, b, EdgeKind::Value).unwrap();
    hugr.connect(b, output, EdgeKind::Value).unwrap();
    let (solution, closure) = infer_extensions(&hugr).unwrap();
    // Each side of each node has one set, in the solution or in the closure.
    assert_eq!(solution.len(), 10);
    assert!(closure.is_empty());
    let at = |node, dir| solution.get(&(node, dir)).unwrap().clone();
    assert_eq!(at(a, Direction::Incoming), set(&[]));
    assert_eq!(at(a, Direction::Outgoing), set(&["A"]));
    assert_eq!(at(b, Direction::Incoming), set(&["A"]));
    assert_eq!(at(b, Direction::Outgoing), set(&["A", "B"]));
    assert_eq!(at(root, Direction::Outgoing), set(&["A", "B"]));
    assert_eq!(at(input, Direction::Outgoing), set(&[]));
    assert_eq!(at(output, Direction::Incoming), set(&["A", "B"]));
}

#[test]
fn open_root_is_left_to_the_closure() {
    let hugr = Hugr::new(open_dfg(&["A"]));
    let root = hugr.root();
    let (solution, closure) = infer_extensions(&hugr).unwrap();
    assert!(solution.is_empty());
    assert_eq!(closure.len(), 2);
    assert_eq!(*closure.get(&(root, Direction::Incoming)).unwrap(), set(&[]));
    assert_eq!(
        *closure.get(&(root, Direction::Outgoing)).unwrap(),
        set(&["A"])
    );
}

#[test]
fn declared_graph_is_inferred() {
    let (mut hugr, input, output) = dfg_with_io(&[]).unwrap();
    hugr.connect(input, output, EdgeKind::Value).unwrap();
    let (solution, closure) = infer_extensions(&hugr).unwrap();
    assert_eq!(solution.len(), 6);
    assert!(closure.is_empty());
    assert_eq!(
        *solution.get(&(output, Direction::Incoming)).unwrap(),
        set(&[])
    );
}

#[test]
fn edge_mismatch_is_reported() {
    let (mut hugr, _, _) = dfg_with_io(&[]).unwrap();
    let root = hugr.root();
    let src = hugr
        .add_node_with_parent(root, closed(OpType::leaf(set(&["A"])), &[]))
        .unwrap();
    let tgt = hugr
        .add_node_with_parent(root, closed(OpType::leaf(set(&[])), &["A", "B"]))
        .unwrap();
    hugr.connect(src, tgt, EdgeKind::Value).unwrap();
    assert_eq!(
        infer_extensions(&hugr).err().unwrap(),
        InferExtensionError::EdgeMismatch(ExtensionError::TgtExceedsSrcExtensions {
            from: src,
            from_offset: None,
            from_extensions: set(&["A"]),
            to: tgt,
            to_offset: None,
            to_extensions: set(&["A", "B"]),
        })
    );
}

#[test]
fn only_ends_of_a_wire_are_an_edge() {
    let src = (Node(2), Direction::Outgoing);
    let tgt = (Node(3), Direction::Incoming);
    let a = set(&["A"]);
    let ab = set(&["A", "B"]);
    let apart = InferExtensionError::MismatchedConcreteWithLocations {
        expected_loc: src,
        expected: a.clone(),
        actual_loc: tgt,
        actual: ab.clone(),
    };
    let mut ctx = UnificationContext::new(&default_hugr());
    let m_src = ctx.make_or_get_meta(src.0, src.1);
    let m_tgt = ctx.make_or_get_meta(tgt.0, tgt.1);
    // No wire, then something else between the two, then a wire.
    assert_eq!(ctx.report_mismatch(m_src, m_tgt, a.clone(), ab.clone()), apart);
    ctx.add_constraint(m_tgt, Constraint::Equal(m_src));
    ctx.add_constraint(m_src, Constraint::Plus(id("A"), m_tgt));
    assert_eq!(ctx.report_mismatch(m_src, m_tgt, a.clone(), ab.clone()), apart);
    ctx.add_constraint(m_src, Constraint::Equal(m_tgt));
    let edge = InferExtensionError::EdgeMismatch(ExtensionError::TgtExceedsSrcExtensions {
        from: Node(2),
        from_offset: None,
        from_extensions: a.clone(),
        to: Node(3),
        to_offset: None,
        to_extensions: ab.clone(),
    });
    assert_eq!(ctx.report_mismatch(m_src, m_tgt, a.clone(), ab.clone()), edge);
    assert_eq!(ctx.report_mismatch(m_tgt, m_src, ab.clone(), a.clone()), edge);
    // Once the equality has been registered, the report is the same.
    assert_eq!(ctx.solve_meta(m_src), Ok(false));
    assert_eq!(ctx.report_mismatch(m_src, m_tgt, a, ab), edge);
}

#[test]
fn input_nodes_are_not_wired_to_their_region() {
    // No edges at all: the input node differs from the region that holds it.
    let mut hugr = Hugr::new(closed(OpType::dfg(set(&[])), &["A"]));
    let root = hugr.root();
    let input = hugr
        .add_node_with_parent(root, closed(OpType::input(), &["A", "B"]))
        .unwrap();
    hugr.add_node_with_parent(root, closed(OpType::output(), &["A"]))
        .unwrap();
    let mut ctx = UnificationContext::new(&hugr);
    let m_input = ctx.make_or_get_meta(input, Direction::Outgoing);
    let m_root = ctx.make_or_get_meta(root, Direction::Incoming);
    assert_eq!(
        ctx.report_mismatch(m_input, m_root, set(&["A", "B"]), set(&["A"])),
        InferExtensionError::MismatchedConcreteWithLocations {
            expected_loc: (input, Direction::Outgoing),
            expected: set(&["A", "B"]),
            actual_loc: (root, Direction::Incoming),
            actual: set(&["A"]),
        }
    );
    assert!(matches!(
        infer_extensions(&hugr),
        Err(InferExtensionError::MismatchedConcreteWithLocations { .. })
    ));
}

#[test]
fn sums_between_ends_are_no_wires() {
    let mut ctx = UnificationContext::new(&default_hugr());
    let part = ctx.make_or_get_meta(Node(2), Direction::Incoming);
    let sum = ctx.make_or_get_meta(Node(3), Direction::Outgoing);
    ctx.add_solution(part, set(&["A"]));
    ctx.add_solution(sum, set(&["B"]));
    ctx.add_constraint(sum, Constraint::Plus(id("C"), part));
    assert_eq!(
        ctx.main_loop().err().unwrap(),
        InferExtensionError::MismatchedConcreteWithLocations {
            expected_loc: (Node(3), Direction::Outgoing),
            expected: set(&["B"]),
            actual_loc: (Node(2), Direction::Incoming),
            actual: set(&["A", "C"]),
        }
    );
}

#[test]
fn mismatches_are_told_by_their_places() {
    let src = (Node(1), Direction::Outgoing);
    let tgt = (Node(2), Direction::Incoming);
    let a = set(&["A"]);
    let ab = set(&["A", "B"]);
    assert_eq!(
        mismatch_error(Some(src), Some(tgt), true, a.clone(), ab.clone()),
        InferExtensionError::EdgeMismatch(ExtensionError::TgtExceedsSrcExtensions {
            from: Node(1),
            from_offset: None,
            from_extensions: a.clone(),
            to: Node(2),
            to_offset: None,
            to_extensions: ab.clone(),
        })
    );
    assert_eq!(
        mismatch_error(Some(tgt), Some(src), true, a.clone(), ab.clone()),
        InferExtensionError::EdgeMismatch(ExtensionError::SrcExceedsTgtExtensions {
            from: Node(1),
            from_offset: None,
            from_extensions: ab.clone(),
            to: Node(2),
            to_offset: None,
            to_extensions: a.clone(),
        })
    );
    assert_eq!(
        mismatch_error(Some(src), Some(tgt), false, a.clone(), ab.clone()),
        InferExtensionError::MismatchedConcreteWithLocations {
            expected_loc: src,
            expected: a.clone(),
            actual_loc: tgt,
            actual: ab.clone(),
        }
    );
    assert_eq!(
        mismatch_error(None, Some(tgt), false, a.clone(), ab.clone()),
        InferExtensionError::MismatchedConcrete {
            expected: a,
            actual: ab,
        }
    );
}

#[test]
fn mismatch_without_locations() {
    let mut ctx = UnificationContext::new(&default_hugr());
    let m0 = ctx.fresh_meta();
    let m1 = ctx.fresh_meta();
    ctx.add_solution(m0, set(&["A"]));
    ctx.add_solution(m1, set(&["B"]));
    ctx.add_constraint(m0, Constraint::Equal(m1));
    assert!(matches!(
        ctx.main_loop(),
        Err(InferExtensionError::MismatchedConcrete { .. })
    ));
}

#[test]
fn sums_that_do_not_add_up() {
    let mut ctx = UnificationContext::new(&default_hugr());
    let m0 = ctx.make_or_get_meta(Node(2), Direction::Incoming);
    let m1 = ctx.make_or_get_meta(Node(3), Direction::Incoming);
    ctx.add_solution(m0, set(&["A"]));
    ctx.add_solution(m1, set(&["B"]));
    ctx.add_constraint(m1, Constraint::Plus(id("C"), m0));
    assert_eq!(
        ctx.main_loop().err().unwrap(),
        InferExtensionError::MismatchedConcreteWithLocations {
            expected_loc: (Node(3), Direction::Incoming),
            expected: set(&["B"]),
            actual_loc: (Node(2), Direction::Incoming),
            actual: set(&["A", "C"]),
        }
    );
}

#[test]
fn unsolved_location_is_reported() {
    let mut ctx = UnificationContext::new(&default_hugr());
    ctx.make_or_get_meta(Node(5), Direction::Outgoing);
    assert_eq!(
        ctx.main_loop().err().unwrap(),
        InferExtensionError::Unsolved {
            location: (Node(5), Direction::Outgoing),
        }
    );
}

#[test]
fn variables_are_instantiated_by_nothing() {
    let mut ctx = UnificationContext::new(&default_hugr());
    let a = ctx.make_or_get_meta(Node(2), Direction::Outgoing);
    let b = ctx.make_or_get_meta(Node(3), Direction::Outgoing);
    ctx.add_variable(a);
    ctx.add_constraint(b, Constraint::Plus(id("A"), a));
    assert_eq!(ctx.main_loop().unwrap().len(), 2);
    ctx.instantiate_variables();
    assert!(!ctx.is_variable(a));
    let solution = ctx.main_loop().unwrap();
    assert_eq!(solution.len(), 4);
    assert_eq!(ctx.get_solution(&a).unwrap(), &set(&[]));
    assert_eq!(ctx.get_solution(&b).unwrap(), &set(&["A"]));
}

#[test]
fn solving_takes_extensions_away() {
    let mut ctx = UnificationContext::new(&default_hugr());
    let sum = ctx.fresh_meta();
    let part = ctx.fresh_meta();
    ctx.add_solution(sum, set(&["A", "B"]));
    ctx.add_constraint(sum, Constraint::Plus(id("B"), part));
    assert_eq!(ctx.solve_meta(sum), Ok(true));
    assert_eq!(ctx.get_solution(&part).unwrap(), &set(&["A"]));
    assert_eq!(ctx.solve_meta(sum), Ok(false));
}

#[test]
fn sums_without_the_part_are_refused() {
    let mut ctx = UnificationContext::new(&default_hugr());
    let sum = ctx.fresh_meta();
    let part = ctx.fresh_meta();
    ctx.add_solution(sum, set(&["A"]));
    ctx.add_constraint(sum, Constraint::Plus(id("C"), part));
    assert!(matches!(
        ctx.solve_meta(sum),
        Err(InferExtensionError::MismatchedConcrete { .. })
    ));
    assert!(ctx.get_solution(&part).is_none());
}

#[test]
fn solving_many_stops_at_a_contradiction() {
    let mut ctx = UnificationContext::new(&default_hugr());
    let sum = ctx.fresh_meta();
    let part = ctx.fresh_meta();
    let apart = ctx.fresh_meta();
    ctx.add_solution(part, set(&["A"]));
    ctx.add_constraint(sum, Constraint::Plus(id("B"), part));
    let vars = [sum.0, part.0, apart.0].into_iter().collect();
    assert!(ctx.solve_constraints(&vars).is_ok());
    assert_eq!(ctx.get_solution(&sum).unwrap(), &set(&["A", "B"]));
    ctx.add_solution(apart, set(&[]));
    ctx.add_constraint(apart, Constraint::Plus(id("B"), part));
    assert!(ctx.solve_constraints(&vars).is_err());
}

#[test]
fn solving_many_tries_each() {
    let mut ctx = UnificationContext::new(&default_hugr());
    let part = ctx.fresh_meta();
    let first = ctx.fresh_meta();
    let second = ctx.fresh_meta();
    let idle = ctx.fresh_meta();
    ctx.add_solution(part, set(&["A"]));
    ctx.add_constraint(first, Constraint::Plus(id("B"), part));
    ctx.add_constraint(second, Constraint::Plus(id("C"), part));
    let vars = [part.0, first.0, second.0, idle.0].into_iter().collect();
    let solved = ctx.solve_constraints(&vars).unwrap();
    assert_eq!(solved.len(), 2);
    assert!(solved.contains(&first.0) && solved.contains(&second.0));
    assert_eq!(ctx.get_solution(&first).unwrap(), &set(&["A", "B"]));
    assert_eq!(ctx.get_solution(&second).unwrap(), &set(&["A", "C"]));
    assert!(ctx.get_solution(&idle).is_none());
    assert!(ctx.solve_constraints(&vars).unwrap().is_empty());
}

#[test]
fn solving_many_sees_what_contradicts_later() {
    let mut ctx = UnificationContext::new(&default_hugr());
    let part = ctx.fresh_meta();
    let sum = ctx.fresh_meta();
    let wrong = ctx.fresh_meta();
    ctx.add_solution(part, set(&["A"]));
    ctx.add_solution(wrong, set(&["B"]));
    ctx.add_constraint(sum, Constraint::Plus(id("B"), part));
    ctx.add_constraint(wrong, Constraint::Plus(id("B"), part));
    let vars = [part.0, sum.0, wrong.0].into_iter().collect();
    assert_eq!(
        ctx.solve_constraints(&vars).err().unwrap(),
        InferExtensionError::MismatchedConcrete {
            expected: set(&["B"]),
            actual: set(&["A", "B"]),
        }
    );
}

#[test]
fn merging_joins_what_is_known() {
    let mut ctx = UnificationContext::new(&default_hugr());
    let a = ctx.fresh_meta();
    let b = ctx.fresh_meta();
    let c = ctx.fresh_meta();
    ctx.add_solution(c, set(&["X"]));
    ctx.add_constraint(a, Constraint::Equal(b));
    ctx.add_constraint(b, Constraint::Equal(c));
    assert_eq!(ctx.solve_meta(a), Ok(false));
    assert_eq!(ctx.solve_meta(b), Ok(false));
    let (new, merged) = ctx.merge_equal_metas().unwrap();
    assert_eq!(new.len(), 1);
    assert_eq!(merged.len(), 3);
    assert!(ctx.is_merged(a) && ctx.is_merged(b) && ctx.is_merged(c));
    assert_eq!(ctx.get_solution(&a).unwrap(), &set(&["X"]));
    let (new, merged) = ctx.merge_equal_metas().unwrap();
    assert!(new.is_empty() && merged.is_empty());
}

#[test]
fn merging_again_changes_nothing() {
    let mut ctx = UnificationContext::new(&default_hugr());
    let a = ctx.fresh_meta();
    let b = ctx.fresh_meta();
    let c = ctx.fresh_meta();
    ctx.register_eq(a, b);
    let (new, merged) = ctx.merge_equal_metas().unwrap();
    assert_eq!((new.len(), merged.len()), (1, 2));
    let (new, merged) = ctx.merge_equal_metas().unwrap();
    assert!(new.is_empty() && merged.is_empty());
    // What is said of a metavariable that has been merged goes for all of them.
    ctx.add_solution(c, set(&["X"]));
    ctx.register_eq(c, a);
    ctx.merge_equal_metas().unwrap();
    assert_eq!(ctx.resolve(a), ctx.resolve(b));
    assert_eq!(ctx.resolve(a), ctx.resolve(c));
    assert_eq!(ctx.get_solution(&b).unwrap(), &set(&["X"]));
    let (new, merged) = ctx.merge_equal_metas().unwrap();
    assert!(new.is_empty() && merged.is_empty());
}

#[test]
fn merging_what_differs_is_refused() {
    let mut ctx = UnificationContext::new(&default_hugr());
    let a = ctx.fresh_meta();
    let b = ctx.fresh_meta();
    let c = ctx.fresh_meta();
    ctx.add_solution(a, set(&["X"]));
    ctx.add_solution(c, set(&["Y"]));
    ctx.register_eq(a, b);
    ctx.register_eq(b, c);
    assert!(matches!(
        ctx.merge_equal_metas(),
        Err(InferExtensionError::MismatchedConcrete { .. })
    ));
}

#[test]
fn live_metas_are_unsolved_at_locations() {
    let mut ctx = UnificationContext::new(&default_hugr());
    let a = ctx.make_or_get_meta(Node(2), Direction::Incoming);
    let b = ctx.make_or_get_meta(Node(2), Direction::Outgoing);
    let v = ctx.make_or_get_meta(Node(3), Direction::Incoming);
    let w = ctx.make_or_get_meta(Node(3), Direction::Outgoing);
    ctx.add_variable(v);
    ctx.add_constraint(b, Constraint::Plus(id("A"), a));
    ctx.add_constraint(w, Constraint::Plus(id("A"), v));
    assert_eq!(ctx.live_var(&b), Some(a));
    assert_eq!(ctx.live_var(&v), None);
    assert_eq!(ctx.live_var(&w), None);
    let live = ctx.live_metas();
    assert_eq!(live.len(), 2);
    assert!(live.contains(&a.0) && live.contains(&b.0));
}

#[test]
fn live_metas_may_depend_on_what_has_no_location() {
    let mut ctx = UnificationContext::new(&default_hugr());
    let m = ctx.make_or_get_meta(Node(2), Direction::Incoming);
    let x = ctx.fresh_meta();
    ctx.add_constraint(m, Constraint::Plus(id("A"), x));
    let live: Vec<u32> = ctx.live_metas().into_iter().collect();
    assert_eq!(live, vec![m.0]);
    assert_eq!(
        ctx.results().err().unwrap(),
        InferExtensionError::Unsolved {
            location: (Node(2), Direction::Incoming),
        }
    );
}

#[test]
fn solving_again_gives_the_same() {
    let mut ctx = UnificationContext::new(&default_hugr());
    let a = ctx.make_or_get_meta(Node(2), Direction::Incoming);
    let b = ctx.make_or_get_meta(Node(2), Direction::Outgoing);
    let c = ctx.make_or_get_meta(Node(3), Direction::Incoming);
    ctx.add_solution(a, set(&["X"]));
    ctx.add_constraint(b, Constraint::Plus(id("A"), a));
    ctx.add_constraint(b, Constraint::Equal(c));
    let first = ctx.main_loop().unwrap();
    let second = ctx.main_loop().unwrap();
    assert_eq!(first.len(), 5);
    assert_eq!(second.len(), 5);
    for node in [Node(0), Node(2), Node(3)] {
        for dir in [Direction::Incoming, Direction::Outgoing] {
            assert_eq!(first.get(&(node, dir)), second.get(&(node, dir)));
        }
    }
    assert_eq!(
        second.get(&(Node(3), Direction::Incoming)),
        Some(&set(&["A", "X"]))
    );
}

#[test]
fn solving_again_leaves_variables_open() {
    let hugr = Hugr::new(open_dfg(&["A", "B"]));
    let mut ctx = UnificationContext::new(&hugr);
    assert!(ctx.main_loop().unwrap().is_empty());
    assert!(ctx.main_loop().unwrap().is_empty());
    ctx.instantiate_variables();
    let first = ctx.main_loop().unwrap();
    let second = ctx.main_loop().unwrap();
    let output = (hugr.root(), Direction::Outgoing);
    assert_eq!((first.len(), second.len()), (2, 2));
    assert_eq!(first.get(&output), Some(&set(&["A", "B"])));
    assert_eq!(second.get(&output), first.get(&output));
}

#[test]
fn sets_that_cannot_fit_are_refused() {
    // The root gives {A}, and what is wired to its output adds C.
    let mut hugr = Hugr::new(NodeType::pure(OpType::dfg(set(&["A"]))));
    let root = hugr.root();
    let input = hugr
        .add_node_with_parent(root, NodeType::open_extensions(OpType::input()))
        .unwrap();
    let output = hugr
        .add_node_with_parent(root, NodeType::open_extensions(OpType::output()))
        .unwrap();
    let child = hugr.add_node_with_parent(root, open_dfg(&["C"])).unwrap();
    hugr.connect(child, output, EdgeKind::Value).unwrap();
    assert!(infer_extensions(&hugr).is_err());
    assert!(hugr.contains_node(input));
}

#[test]
fn equal_sets_in_any_order() {
    assert_eq!(set(&["A", "B", "A"]), set(&["B", "A"]));
    assert!(set(&["A"]) != set(&["B"]));
    assert!(set(&["A"]).is_subset(&set(&["B", "A"])));
    assert!(!set(&["C"]).is_subset(&set(&["B", "A"])));
    assert_eq!(set(&["A"]).union(&set(&["B"])), set(&["A", "B"]));
    assert_eq!(set(&["B"]).missing_from(&set(&["A", "B"])), set(&["A"]));
}
