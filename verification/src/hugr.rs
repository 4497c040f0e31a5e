//! Hierarchical graphs: a tree of nodes with edges between them, and the
//! extension requirements that each node declares.

use vstd::prelude::*;

use crate::extension_set::{ExtensionSet, Exts};

verus! {

/// A node of a graph, by its index.
#[derive(Clone, Copy, Debug, PartialEq, Eq, PartialOrd, Ord, Hash, Structural)]
pub struct Node(pub u32);

/// The two sides of a node.
#[derive(Clone, Copy, Debug, PartialEq, Eq, PartialOrd, Ord, Hash, Structural)]
pub enum Direction {
    Incoming,
    Outgoing,
}

/// One side of a node: where extension requirements are attached.
pub type Loc = (Node, Direction);

/// A port of a node: one of the edge ends on one of its sides.
#[derive(Clone, Copy, Debug, PartialEq, Eq, PartialOrd, Ord, Hash, Structural)]
pub struct Port {
    pub direction: Direction,
    pub offset: usize,
}

/// What an edge carries.
#[derive(Clone, Copy, Debug, PartialEq, Eq, PartialOrd, Ord, Hash, Structural)]
pub enum EdgeKind {
    ControlFlow,
    Value,
    Static,
    StateOrder,
}

/// A directed edge between two nodes.
#[derive(Clone, Copy, Debug, PartialEq, Eq, PartialOrd, Ord, Hash, Structural)]
pub struct Edge {
    pub src: Node,
    pub tgt: Node,
    pub kind: EdgeKind,
}

/// What the operation of a node asks for and allows.
#[derive(Debug)]
pub struct OpType {
    /// The extensions that the operation adds between its input and its output.
    pub extension_reqs: ExtensionSet,
    /// Whether the operation holds a dataflow region.
    pub dataflow_parent: bool,
    /// Whether the operation may stand in a dataflow region.
    pub dataflow_child: bool,
    /// Whether an order edge may end at the operation.
    pub order_input: bool,
    /// Whether an order edge may start at the operation.
    pub order_output: bool,
}

/// An operation together with the extensions required at its input, if they
/// are known.
#[derive(Debug)]
pub struct NodeType {
    pub op: OpType,
    pub input_extensions: Option<ExtensionSet>,
}

/// The extensions required on both sides of a node whose input is known.
#[derive(Debug)]
pub struct Signature {
    pub input_extensions: ExtensionSet,
    pub extension_reqs: ExtensionSet,
}

/// Reasons to refuse a request on a graph.
#[derive(Clone, Copy, Debug, PartialEq, Eq, Structural)]
pub enum HugrError {
    /// The node is not part of the graph.
    InvalidNode(Node),
}

/// What the contracts say of one node.
pub struct NodeModel {
    pub delta: Exts,
    pub input: Option<Exts>,
    pub dataflow_parent: bool,
    pub dataflow_child: bool,
    pub order_input: bool,
    pub order_output: bool,
    pub parent: Option<Node>,
    pub children: Seq<Node>,
}

/// What the contracts say of a graph: its nodes by index, and its edges.
pub struct HugrModel {
    pub nodes: Seq<NodeModel>,
    pub edges: Seq<Edge>,
}

impl OpType {
    /// A dataflow container that adds `extension_reqs`: it stands in a
    /// dataflow region, holds one, and takes part in ordering on both sides.
    pub fn dfg(extension_reqs: ExtensionSet) -> (op: OpType)
        ensures
            op.extension_reqs == extension_reqs,
            op.dataflow_parent && op.dataflow_child && op.order_input && op.order_output,
    {
        OpType {
            extension_reqs,
            dataflow_parent: true,
            dataflow_child: true,
            order_input: true,
            order_output: true,
        }
    }

    /// A leaf operation that adds `extension_reqs`.
    pub fn leaf(extension_reqs: ExtensionSet) -> (op: OpType)
        ensures
            op.extension_reqs == extension_reqs,
            !op.dataflow_parent && op.dataflow_child && op.order_input && op.order_output,
    {
        OpType {
            extension_reqs,
            dataflow_parent: false,
            dataflow_child: true,
            order_input: true,
            order_output: true,
        }
    }

    /// The input node of a dataflow region: nothing is ordered before it.
    pub fn input() -> (op: OpType)
        ensures
            op.extension_reqs@ == Set::<Seq<char>>::empty(),
            !op.dataflow_parent && op.dataflow_child && !op.order_input && op.order_output,
    {
        OpType {
            extension_reqs: ExtensionSet::new(),
            dataflow_parent: false,
            dataflow_child: true,
            order_input: false,
            order_output: true,
        }
    }

    /// The output node of a dataflow region: nothing is ordered after it.
    pub fn output() -> (op: OpType)
        ensures
            op.extension_reqs@ == Set::<Seq<char>>::empty(),
            !op.dataflow_parent && op.dataflow_child && op.order_input && !op.order_output,
    {
        OpType {
            extension_reqs: ExtensionSet::new(),
            dataflow_parent: false,
            dataflow_child: true,
            order_input: true,
            order_output: false,
        }
    }

    /// A definition or constant: it may be a child of any container, but is no
    /// part of a dataflow region's order.
    pub fn module_op() -> (op: OpType)
        ensures
            op.extension_reqs@ == Set::<Seq<char>>::empty(),
            !op.dataflow_parent && !op.dataflow_child && !op.order_input && !op.order_output,
    {
        OpType {
            extension_reqs: ExtensionSet::new(),
            dataflow_parent: false,
            dataflow_child: false,
            order_input: false,
            order_output: false,
        }
    }
}

impl NodeType {
    /// A node whose input extensions are left open.
    pub fn open_extensions(op: OpType) -> (node_type: NodeType)
        ensures
            node_type.op == op,
            node_type.input_extensions is None,
    {
        NodeType { op, input_extensions: None }
    }

    /// A node that requires no extension at its input.
    pub fn pure(op: OpType) -> (node_type: NodeType)
        ensures
            node_type.op == op,
            node_type.input_extensions matches Some(set) && set@ == Set::<Seq<char>>::empty(),
    {
        NodeType { op, input_extensions: Some(ExtensionSet::new()) }
    }

    /// The extensions on both sides, if those at the input are known.
    pub fn signature(&self) -> (signature: Option<Signature>)
        ensures
            signature is Some <==> self.input_extensions is Some,
            signature matches Some(sig) ==> {
                &&& sig.input_extensions@ == self.input_extensions->0@
                &&& sig.extension_reqs@ == self.op.extension_reqs@
            },
    {
        match &self.input_extensions {
            Some(input) => Some(
                Signature {
                    input_extensions: input.clone(),
                    extension_reqs: self.op.extension_reqs.clone(),
                },
            ),
            None => None,
        }
    }
}

impl Signature {
    /// The extensions at one side.
    pub open spec fn at(self, dir: Direction) -> Exts {
        match dir {
            Direction::Incoming => self.input_extensions@,
            Direction::Outgoing => self.input_extensions@.union(self.extension_reqs@),
        }
    }

    /// The extensions at the output: those at the input and those added.
    pub fn output_extensions(&self) -> (set: ExtensionSet)
        ensures
            set@ == self.at(Direction::Outgoing),
            forall|name: Seq<char>| #[trigger]
                set@.contains(name) <==> self.input_extensions@.contains(name)
                    || self.extension_reqs@.contains(name),
    {
        self.input_extensions.union(&self.extension_reqs)
    }

    /// The extensions at side `dir`.
    pub fn get_extension(&self, dir: &Direction) -> (set: ExtensionSet)
        ensures
            set@ == self.at(*dir),
            forall|name: Seq<char>| #[trigger]
                set@.contains(name) <==> self.input_extensions@.contains(name) || *dir
                    == Direction::Outgoing && self.extension_reqs@.contains(name),
    {
        match dir {
            Direction::Incoming => self.input_extensions.clone(),
            Direction::Outgoing => self.output_extensions(),
        }
    }
}

impl HugrModel {
    /// Whether `node` is part of the graph.
    pub open spec fn valid(self, node: Node) -> bool {
        node.0 < self.nodes.len()
    }

    /// What is known of `node`.
    pub open spec fn at(self, node: Node) -> NodeModel {
        self.nodes[node.0 as int]
    }

    /// The nodes form a tree in which each node but the first is listed once
    /// among the children of an older one, and edges join nodes.
    pub open spec fn wf(self) -> bool {
        &&& 0 < self.nodes.len() <= u32::MAX
        &&& self.nodes[0].parent is None
        &&& forall|i: int|
            0 < i < self.nodes.len() ==> {
                &&& (#[trigger] self.nodes[i]).parent matches Some(p)
                &&& p.0 < i
                &&& self.at(p).children.contains(Node(i as u32))
            }
        &&& forall|i: int|
            0 <= i < self.nodes.len() ==> (#[trigger] self.nodes[i]).children.no_duplicates()
        &&& forall|i: int, j: int|
            0 <= i < self.nodes.len() && 0 <= j < self.nodes[i].children.len() ==> {
                let child = #[trigger] self.nodes[i].children[j];
                &&& i < child.0 < self.nodes.len()
                &&& self.at(child).parent == Some(Node(i as u32))
            }
        &&& forall|e: int|
            0 <= e < self.edges.len() ==> {
                let edge = #[trigger] self.edges[e];
                self.valid(edge.src) && self.valid(edge.tgt)
            }
    }

    /// The input and output nodes of a dataflow region: the first two children
    /// of the node that holds it.
    pub open spec fn io(self, node: Node) -> Option<(Node, Node)> {
        if self.at(node).dataflow_parent && self.at(node).children.len() >= 2 {
            Some((self.at(node).children[0], self.at(node).children[1]))
        } else {
            None
        }
    }

    /// The extensions that a node declares at a side, if any.
    pub open spec fn declared(self, loc: Loc) -> Option<Exts> {
        match self.at(loc.0).input {
            Some(input) => Some(
                match loc.1 {
                    Direction::Incoming => input,
                    Direction::Outgoing => input.union(self.at(loc.0).delta),
                },
            ),
            None => None,
        }
    }

    /// Whether some edge leads from `src` to `tgt`.
    pub open spec fn joins(self, src: Node, tgt: Node) -> bool {
        exists|e: int|
            0 <= e < self.edges.len() && (#[trigger] self.edges[e]).src == src && self.edges[e].tgt
                == tgt
    }
}

/// Every node that holds a dataflow region and has two children or more has an
/// input and an output node, its first two children, whatever else it is and
/// whatever holds it; no other node has any.
pub proof fn law_regions_have_io(h: HugrModel, i: int)
    requires
        h.wf(),
        0 <= i < h.nodes.len(),
    ensures
        h.nodes[i].dataflow_parent && h.nodes[i].children.len() >= 2 ==> h.io(Node(i as u32))
            == Some((h.nodes[i].children[0], h.nodes[i].children[1])),
        !h.nodes[i].dataflow_parent || h.nodes[i].children.len() < 2 ==> h.io(
            Node(i as u32),
        ) is None,
{
}

/// A node declares sets at its sides just if it declares one at its input; at its
/// output it declares that one and what the node adds.
pub proof fn law_nodes_declare_both_sides(h: HugrModel, i: int)
    requires
        h.wf(),
        0 <= i < h.nodes.len(),
    ensures
        match h.nodes[i].input {
            Some(input) => {
                &&& h.declared((Node(i as u32), Direction::Incoming)) == Some(input)
                &&& h.declared((Node(i as u32), Direction::Outgoing)) == Some(
                    input.union(h.nodes[i].delta),
                )
            },
            None => forall|dir: Direction|
                (#[trigger] h.declared((Node(i as u32), dir))) is None,
        },
{
}

/// A node that is added is what its type says, a child of its parent, and the
/// last of its children; it has none itself.
pub proof fn law_node_types_are_kept(node_type: NodeType, parent: Option<Node>)
    ensures
        ({
            let model = node_type.model(parent);
            &&& model.delta == node_type.op.extension_reqs@
            &&& model.input is Some <==> node_type.input_extensions is Some
            &&& node_type.input_extensions matches Some(set) ==> model.input == Some(set@)
            &&& model.dataflow_parent == node_type.op.dataflow_parent
            &&& model.dataflow_child == node_type.op.dataflow_child
            &&& model.order_input == node_type.op.order_input
            &&& model.order_output == node_type.op.order_output
            &&& model.parent == parent
            &&& model.children.len() == 0
        }),
{
}

/// A node with its place in the tree.
#[derive(Debug)]
struct NodeData {
    node_type: NodeType,
    parent: Option<Node>,
    children: Vec<Node>,
}

impl NodeData {
    spec fn model(self) -> NodeModel {
        NodeModel {
            delta: self.node_type.op.extension_reqs@,
            input: match self.node_type.input_extensions {
                Some(set) => Some(set@),
                None => None,
            },
            dataflow_parent: self.node_type.op.dataflow_parent,
            dataflow_child: self.node_type.op.dataflow_child,
            order_input: self.node_type.op.order_input,
            order_output: self.node_type.op.order_output,
            parent: self.parent,
            children: self.children@,
        }
    }
}

/// A hierarchical graph. Its root is node 0.
#[derive(Debug)]
pub struct Hugr {
    nodes: Vec<NodeData>,
    edges: Vec<Edge>,
}

impl View for Hugr {
    type V = HugrModel;

    closed spec fn view(&self) -> HugrModel {
        HugrModel {
            nodes: self.nodes@.map_values(|data: NodeData| data.model()),
            edges: self.edges@,
        }
    }
}

impl NodeType {
    /// What the contracts say of a node of this type, as a child of `parent`
    /// without children of its own.
    pub open spec fn model(self, parent: Option<Node>) -> NodeModel {
        NodeModel {
            delta: self.op.extension_reqs@,
            input: match self.input_extensions {
                Some(set) => Some(set@),
                None => None,
            },
            dataflow_parent: self.op.dataflow_parent,
            dataflow_child: self.op.dataflow_child,
            order_input: self.op.order_input,
            order_output: self.op.order_output,
            parent,
            children: Seq::empty(),
        }
    }
}

impl Hugr {
    /// The graph with a root only.
    pub fn new(root: NodeType) -> (hugr: Hugr)
        ensures
            hugr@.wf(),
            hugr@ == (HugrModel { nodes: seq![root.model(None)], edges: Seq::empty() }),
    {
        let mut nodes: Vec<NodeData> = Vec::new();
        nodes.push(NodeData { node_type: root, parent: None, children: Vec::new() });
        let hugr = Hugr { nodes, edges: Vec::new() };
        assert(hugr@.nodes =~= seq![root.model(None)]);
        assert(hugr@.edges =~= Seq::<Edge>::empty());
        hugr
    }

    /// The node at the top of the tree.
    pub fn root(&self) -> (root: Node)
        requires
            self@.wf(),
        ensures
            root == Node(0),
            self@.valid(root),
    {
        Node(0)
    }

    /// The number of nodes.
    pub fn node_count(&self) -> (n: usize)
        ensures
            n == self@.nodes.len(),
    {
        self.nodes.len()
    }

    /// Whether `node` is part of the graph.
    pub fn contains_node(&self, node: Node) -> (found: bool)
        ensures
            found == self@.valid(node),
    {
        (node.0 as usize) < self.nodes.len()
    }

    /// Adds a node as the last child of `parent`.
    pub fn add_node_with_parent(&mut self, parent: Node, node_type: NodeType) -> (result: Result<
        Node,
        HugrError,
    >)
        requires
            old(self)@.wf(),
            old(self)@.nodes.len() < u32::MAX,
        ensures
            final(self)@.wf(),
            match result {
                Ok(node) => {
                    let n = old(self)@.nodes.len() as int;
                    let p = old(self)@.at(parent);
                    &&& old(self)@.valid(parent)
                    &&& node.0 == n
                    &&& final(self)@.edges == old(self)@.edges
                    &&& final(self)@.nodes == old(self)@.nodes.update(
                        parent.0 as int,
                        NodeModel { children: p.children.push(node), ..p },
                    ).push(node_type.model(Some(parent)))
                },
                Err(HugrError::InvalidNode(node)) => {
                    &&& !old(self)@.valid(parent)
                    &&& node == parent
                    &&& final(self)@ == old(self)@
                },
            },
    {
        if !self.contains_node(parent) {
            return Err(HugrError::InvalidNode(parent));
        }
        let ghost before = self@;
        let node = Node(self.nodes.len() as u32);
        let at: usize = parent.0 as usize;
        self.nodes[at].children.push(node);
        self.nodes.push(NodeData { node_type, parent: Some(parent), children: Vec::new() });
        proof {
            let p = before.at(parent);
            let expected = before.nodes.update(
                parent.0 as int,
                NodeModel { children: p.children.push(node), ..p },
            ).push(node_type.model(Some(parent)));
            assert(self@.nodes =~= expected);
            lemma_add_node_wf(before, self@, parent, node, node_type.model(Some(parent)));
        }
        Ok(node)
    }

    /// Adds an edge.
    pub fn connect(&mut self, src: Node, tgt: Node, kind: EdgeKind) -> (result: Result<
        (),
        HugrError,
    >)
        requires
            old(self)@.wf(),
        ensures
            final(self)@.wf(),
            match result {
                Ok(()) => {
                    &&& old(self)@.valid(src) && old(self)@.valid(tgt)
                    &&& final(self)@.nodes == old(self)@.nodes
                    &&& final(self)@.edges == old(self)@.edges.push(Edge { src, tgt, kind })
                },
                Err(HugrError::InvalidNode(node)) => {
                    &&& !old(self)@.valid(node)
                    &&& node == (if old(self)@.valid(src) {
                        tgt
                    } else {
                        src
                    })
                    &&& final(self)@ == old(self)@
                },
            },
    {
        if !self.contains_node(src) {
            return Err(HugrError::InvalidNode(src));
        }
        if !self.contains_node(tgt) {
            return Err(HugrError::InvalidNode(tgt));
        }
        self.edges.push(Edge { src, tgt, kind });
        Ok(())
    }

    /// The extensions that a node adds, in the order in which they are listed.
    pub closed spec fn delta_order(self, node: Node) -> Seq<Seq<char>> {
        self.nodes@[node.0 as int].node_type.op.extension_reqs.order()
    }

    /// The type of a node.
    pub fn get_nodetype(&self, node: Node) -> (node_type: &NodeType)
        requires
            self@.valid(node),
        ensures
            ({
                let n = self@.at(node);
                &&& node_type.model(n.parent) == (NodeModel { children: Seq::empty(), ..n })
                &&& node_type.op.extension_reqs.order() == self.delta_order(node)
            }),
            node_type.op.extension_reqs@ == self@.nodes[node.0 as int].delta,
            node_type.op.dataflow_parent == self@.nodes[node.0 as int].dataflow_parent,
            node_type.op.dataflow_child == self@.nodes[node.0 as int].dataflow_child,
            node_type.op.order_input == self@.nodes[node.0 as int].order_input,
            node_type.op.order_output == self@.nodes[node.0 as int].order_output,
            match node_type.input_extensions {
                Some(set) => self@.nodes[node.0 as int].input == Some(set@),
                None => self@.nodes[node.0 as int].input is None,
            },
    {
        &self.nodes[node.0 as usize].node_type
    }

    /// Declares the extensions at the input of `node`.
    pub fn set_input_extensions(&mut self, node: Node, input: ExtensionSet)
        requires
            old(self)@.wf(),
            old(self)@.valid(node),
        ensures
            final(self)@.wf(),
            final(self)@.edges == old(self)@.edges,
            final(self)@.nodes == old(self)@.nodes.update(
                node.0 as int,
                NodeModel { input: Some(input@), ..old(self)@.at(node) },
            ),
    {
        let ghost before = self@;
        let at: usize = node.0 as usize;
        self.nodes[at].node_type.input_extensions = Some(input);
        proof {
            let n = before.at(node);
            assert(self@.nodes =~= before.nodes.update(
                node.0 as int,
                NodeModel { input: Some(input@), ..n },
            ));
            assert forall|i: int| 0 <= i < before.nodes.len() implies (
            #[trigger] self@.nodes[i]).parent == before.nodes[i].parent && self@.nodes[i].children
                == before.nodes[i].children by {}
        }
    }

    /// The node that holds `node`, if it is not the root.
    pub fn get_parent(&self, node: Node) -> (parent: Option<Node>)
        requires
            self@.valid(node),
        ensures
            parent == self@.at(node).parent,
    {
        self.nodes[node.0 as usize].parent
    }

    /// The nodes directly below `node`.
    pub fn children(&self, node: Node) -> (children: &Vec<Node>)
        requires
            self@.valid(node),
        ensures
            children@ == self@.at(node).children,
    {
        &self.nodes[node.0 as usize].children
    }

    /// The edges in the order in which they were added.
    pub fn edges(&self) -> (edges: &Vec<Edge>)
        ensures
            edges@ == self@.edges,
    {
        &self.edges
    }

    /// The input and output nodes of the dataflow region that `node` holds, if
    /// it holds one.
    pub fn get_io(&self, node: Node) -> (io: Option<(Node, Node)>)
        requires
            self@.valid(node),
        ensures
            io == self@.io(node),
            ({
                let data = self@.nodes[node.0 as int];
                match io {
                    Some((input, output)) => {
                        &&& data.dataflow_parent && data.children.len() >= 2
                        &&& input == data.children[0] && output == data.children[1]
                    },
                    None => !data.dataflow_parent || data.children.len() < 2,
                }
            }),
    {
        let data = &self.nodes[node.0 as usize];
        if data.node_type.op.dataflow_parent && data.children.len() >= 2 {
            Some((data.children[0], data.children[1]))
        } else {
            None
        }
    }

    /// Whether some edge leads from `src` to `tgt`.
    pub fn has_edge(&self, src: Node, tgt: Node) -> (found: bool)
        ensures
            found == self@.joins(src, tgt),
            found <==> exists|e: int|
                0 <= e < self@.edges.len() && (#[trigger] self@.edges[e]).src == src
                    && self@.edges[e].tgt == tgt,
    {
        let mut e: usize = 0;
        while e < self.edges.len()
            invariant
                e <= self.edges@.len(),
                forall|k: int|
                    0 <= k < e ==> !((#[trigger] self.edges@[k]).src == src && self.edges@[k].tgt
                        == tgt),
            decreases self.edges@.len() - e,
        {
            if self.edges[e].src == src && self.edges[e].tgt == tgt {
                assert(self@.edges[e as int].src == src);
                return true;
            }
            e += 1;
        }
        false
    }
}

/// Adding a node keeps the tree well-formed.
proof fn lemma_add_node_wf(
    before: HugrModel,
    after: HugrModel,
    parent: Node,
    node: Node,
    model: NodeModel,
)
    requires
        before.wf(),
        before.nodes.len() < u32::MAX,
        before.valid(parent),
        node.0 == before.nodes.len(),
        model.parent == Some(parent),
        model.children == Seq::<Node>::empty(),
        after.edges == before.edges,
        after.nodes == before.nodes.update(
            parent.0 as int,
            NodeModel {
                children: before.at(parent).children.push(node),
                ..before.at(parent)
            },
        ).push(model),
    ensures
        after.wf(),
{
    let n = before.nodes.len() as int;
    let p = parent.0 as int;
    let listed = before.at(parent).children.push(node);
    assert(after.nodes[p].children == listed);
    assert forall|i: int| 0 <= i < n && i != p implies #[trigger] after.nodes[i]
        == before.nodes[i] by {}
    assert forall|i: int| 0 <= i < n implies (#[trigger] after.nodes[i]).parent
        == before.nodes[i].parent by {}
    assert forall|i: int| 0 < i < after.nodes.len() implies {
        &&& (#[trigger] after.nodes[i]).parent matches Some(q)
        &&& q.0 < i
        &&& after.at(q).children.contains(Node(i as u32))
    } by {
        if i == n {
            assert(listed[listed.len() - 1] == Node(i as u32));
        } else {
            assert(before.nodes[i].parent is Some);
            let q = before.nodes[i].parent->0;
            if q == parent {
                let old_list = before.at(parent).children;
                let j = choose|j: int| 0 <= j < old_list.len() && old_list[j] == Node(i as u32);
                assert(listed[j] == Node(i as u32));
            }
        }
    }
    assert forall|i: int| 0 <= i < after.nodes.len() implies (
    #[trigger] after.nodes[i]).children.no_duplicates() by {
        if i == p {
            let old_list = before.nodes[p].children;
            assert(old_list.no_duplicates());
            assert forall|j: int| 0 <= j < old_list.len() implies old_list[j] != node by {
                assert(before.nodes[p].children[j].0 < n);
            }
        } else if i < n {
            assert(before.nodes[i].children.no_duplicates());
        }
    }
    assert forall|i: int, j: int|
        0 <= i < after.nodes.len() && 0 <= j < after.nodes[i].children.len() implies {
        let child = #[trigger] after.nodes[i].children[j];
        &&& i < child.0 < after.nodes.len()
        &&& after.at(child).parent == Some(Node(i as u32))
    } by {
        if i == p && j == before.nodes[p].children.len() {
            assert(after.nodes[i].children[j] == node);
        } else if i < n {
            let child = before.nodes[i].children[j];
            assert(after.nodes[i].children[j] == child);
            assert(after.nodes[child.0 as int].parent == before.nodes[child.0 as int].parent);
        }
    }
    assert forall|e: int| 0 <= e < after.edges.len() implies {
        let edge = #[trigger] after.edges[e];
        after.valid(edge.src) && after.valid(edge.tgt)
    } by {
        assert(before.valid(before.edges[e].src));
    }
}

} // verus!
