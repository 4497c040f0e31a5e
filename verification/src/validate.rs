//! Validation of the extension requirements that the nodes of a graph declare.

use vstd::prelude::*;

use crate::extension_set::{ExtensionSet, Exts};
use crate::hugr::{Direction, Hugr, HugrModel, Loc, Node, NodeType, Port};
use crate::locations::{LocMap, solution_sets};

verus! {

/// The sets that the nodes of a graph declare at their sides.
pub open spec fn declared_sets(h: HugrModel) -> Map<Loc, Exts> {
    Map::new(
        |loc: Loc| h.valid(loc.0) && h.declared(loc) is Some,
        |loc: Loc| h.declared(loc)->0,
    )
}

/// Whether the source of an edge declares the same extensions as its target.
pub open spec fn compatible(sets: Map<Loc, Exts>, src: Node, tgt: Node) -> bool {
    &&& sets.contains_key((src, Direction::Outgoing))
    &&& sets.contains_key((tgt, Direction::Incoming))
    &&& sets[(src, Direction::Outgoing)] == sets[(tgt, Direction::Incoming)]
}

/// Whether a pair of input and output nodes declare, on both sides, the
/// extensions of their parent.
pub open spec fn io_matches(
    sets: Map<Loc, Exts>,
    parent: Node,
    input: Node,
    output: Node,
) -> bool {
    &&& sets.contains_key((parent, Direction::Incoming))
    &&& sets.contains_key((parent, Direction::Outgoing))
    &&& forall|dir: Direction|
        #![trigger sets.contains_key((input, dir))]
        #![trigger sets[(input, dir)]]
        sets.contains_key((input, dir)) && sets[(input, dir)] == sets[(
            parent,
            Direction::Incoming,
        )]
    &&& forall|dir: Direction|
        #![trigger sets.contains_key((output, dir))]
        #![trigger sets[(output, dir)]]
        sets.contains_key((output, dir)) && sets[(output, dir)] == sets[(
            parent,
            Direction::Outgoing,
        )]
}

/// What can be wrong with a pair of input and output nodes.
pub enum IoFault {
    /// The extensions of the node are not known.
    Missing(Node),
    /// The input node differs from its parent on this side.
    Input(Direction),
    /// The output node differs from its parent on this side.
    Output(Direction),
}

/// What is wrong first on one side of a pair of input and output nodes, where
/// the extensions of the parent are known.
pub open spec fn side_fault(
    sets: Map<Loc, Exts>,
    parent: Node,
    input: Node,
    output: Node,
    dir: Direction,
) -> Option<IoFault> {
    if !sets.contains_key((input, dir)) {
        Some(IoFault::Missing(input))
    } else if !sets.contains_key((output, dir)) {
        Some(IoFault::Missing(output))
    } else if sets[(parent, Direction::Incoming)] != sets[(input, dir)] {
        Some(IoFault::Input(dir))
    } else if sets[(parent, Direction::Outgoing)] != sets[(output, dir)] {
        Some(IoFault::Output(dir))
    } else {
        None
    }
}

/// What is wrong first with a pair of input and output nodes: the parent is
/// looked up first, then one side after the other is compared with it.
pub open spec fn io_fault(
    sets: Map<Loc, Exts>,
    parent: Node,
    input: Node,
    output: Node,
) -> Option<IoFault> {
    if !sets.contains_key((parent, Direction::Incoming)) || !sets.contains_key(
        (parent, Direction::Outgoing),
    ) {
        Some(IoFault::Missing(parent))
    } else {
        match side_fault(sets, parent, input, output, Direction::Incoming) {
            Some(fault) => Some(fault),
            None => side_fault(sets, parent, input, output, Direction::Outgoing),
        }
    }
}

impl IoFault {
    /// Whether `err` reports the fault.
    pub open spec fn reported_by(
        self,
        err: ExtensionError,
        sets: Map<Loc, Exts>,
        parent_node: Node,
        input: Node,
        output: Node,
    ) -> bool {
        match self {
            IoFault::Missing(node) => err == ExtensionError::MissingInputExtensions(node),
            IoFault::Input(dir) => {
                &&& err matches ExtensionError::ParentIOExtensionMismatch {
                    parent,
                    parent_extensions,
                    child,
                    child_extensions,
                }
                &&& parent == parent_node && child == input
                &&& parent_extensions@ == sets[(parent, Direction::Incoming)]
                &&& child_extensions@ == sets[(child, dir)]
            },
            IoFault::Output(dir) => {
                &&& err matches ExtensionError::ParentIOExtensionMismatch {
                    parent,
                    parent_extensions,
                    child,
                    child_extensions,
                }
                &&& parent == parent_node && child == output
                &&& parent_extensions@ == sets[(parent, Direction::Outgoing)]
                &&& child_extensions@ == sets[(child, dir)]
            },
        }
    }
}

/// Context for validating the extension requirements defined in a graph.
#[derive(Debug, Clone)]
pub struct ExtensionValidator {
    /// Extension requirements associated with each side of a node
    extensions: LocMap<ExtensionSet>,
}

impl View for ExtensionValidator {
    type V = Map<Loc, Exts>;

    closed spec fn view(&self) -> Map<Loc, Exts> {
        solution_sets(self.extensions@)
    }
}

impl Default for ExtensionValidator {
    /// The validator that knows of no extensions.
    fn default() -> (validator: ExtensionValidator)
        ensures
            validator.wf(),
            validator@ == Map::<Loc, Exts>::empty(),
    {
        let validator = ExtensionValidator { extensions: LocMap::new() };
        assert(validator@ =~= Map::<Loc, Exts>::empty());
        validator
    }
}

impl ExtensionValidator {
    pub closed spec fn wf(self) -> bool {
        self.extensions.wf()
    }

    /// Initialise a new extension validator, pre-computing the extension
    /// requirements for each node in the graph.
    pub fn new(hugr: &Hugr) -> (validator: ExtensionValidator)
        requires
            hugr@.wf(),
        ensures
            validator.wf(),
            validator@ == declared_sets(hugr@),
            forall|i: int|
                0 <= i < hugr@.nodes.len() ==> {
                    let node = #[trigger] hugr@.nodes[i];
                    let at_input = (Node(i as u32), Direction::Incoming);
                    let at_output = (Node(i as u32), Direction::Outgoing);
                    match node.input {
                        Some(input) => {
                            &&& validator@.contains_key(at_input) && validator@[at_input] == input
                            &&& validator@.contains_key(at_output)
                            &&& validator@[at_output] == input.union(node.delta)
                        },
                        None => !validator@.contains_key(at_input) && !validator@.contains_key(
                            at_output,
                        ),
                    }
                },
    {
        let mut validator = ExtensionValidator::default();
        let n = hugr.node_count();
        let mut i: usize = 0;
        while i < n
            invariant
                hugr@.wf(),
                n == hugr@.nodes.len(),
                i <= n,
                validator.wf(),
                forall|loc: Loc| #[trigger]
                    validator@.contains_key(loc) <==> loc.0.0 < i && declared_sets(
                        hugr@,
                    ).contains_key(loc),
                forall|loc: Loc| #[trigger]
                    validator@.contains_key(loc) ==> validator@[loc] == hugr@.declared(loc)->0,
            decreases n - i,
        {
            let node = Node(i as u32);
            validator.gather_extensions(&node, hugr.get_nodetype(node));
            i += 1;
        }
        proof {
            assert(validator@ =~= declared_sets(hugr@));
            assert forall|i: int| 0 <= i < hugr@.nodes.len() implies {
                let node = #[trigger] hugr@.nodes[i];
                let at_input = (Node(i as u32), Direction::Incoming);
                let at_output = (Node(i as u32), Direction::Outgoing);
                match node.input {
                    Some(input) => {
                        &&& validator@.contains_key(at_input) && validator@[at_input] == input
                        &&& validator@.contains_key(at_output)
                        &&& validator@[at_output] == input.union(node.delta)
                    },
                    None => !validator@.contains_key(at_input) && !validator@.contains_key(
                        at_output,
                    ),
                }
            } by {
                law_validator_knows_the_nodes(hugr@, validator@, i);
            }
        }
        validator
    }

    /// Use the signature supplied by a dataflow node to work out the
    /// extension requirements for all of its input and output edges, then put
    /// those requirements in the extension validation context.
    pub fn gather_extensions(&mut self, node: &Node, node_type: &NodeType)
        requires
            old(self).wf(),
            node_type.input_extensions is Some ==> forall|dir: Direction|
                !old(self)@.contains_key((*node, dir)),
        ensures
            final(self).wf(),
            final(self)@ == (match node_type.input_extensions {
                Some(input) => old(self)@.insert((*node, Direction::Incoming), input@).insert(
                    (*node, Direction::Outgoing),
                    input@.union(node_type.op.extension_reqs@),
                ),
                None => old(self)@,
            }),
    {
        if let Some(sig) = node_type.signature() {
            let ghost before = self.extensions@;
            self.extensions.insert(
                (*node, Direction::Incoming),
                sig.get_extension(&Direction::Incoming),
            );
            self.extensions.insert(
                (*node, Direction::Outgoing),
                sig.get_extension(&Direction::Outgoing),
            );
            proof {
                let input = node_type.input_extensions->0;
                let expected = solution_sets(before).insert(
                    (*node, Direction::Incoming),
                    input@,
                ).insert(
                    (*node, Direction::Outgoing),
                    input@.union(node_type.op.extension_reqs@),
                );
                assert(solution_sets(self.extensions@) =~= expected);
            }
        }
    }

    /// Get the input or output extension requirements for a particular node in
    /// the graph, or an error if they are missing.
    pub fn query_extensions(&self, node: Node, dir: Direction) -> (result: Result<
        &ExtensionSet,
        ExtensionError,
    >)
        ensures
            match result {
                Ok(set) => self@.contains_key((node, dir)) && set@ == self@[(node, dir)],
                Err(err) => {
                    &&& !self@.contains_key((node, dir))
                    &&& err == ExtensionError::MissingInputExtensions(node)
                },
            },
    {
        match self.extensions.get(&(node, dir)) {
            Some(set) => Ok(set),
            None => Err(ExtensionError::MissingInputExtensions(node)),
        }
    }

    /// Check that two ports have compatible extension requirements,
    /// according to the information accumulated by `gather_extensions`.
    ///
    /// This extension checking assumes that free extension variables
    ///   (e.g. implicit lifting of `A -> B` to `[R]A -> [R]B`)
    /// and adding of lift nodes
    ///   (i.e. those which transform an edge from `A` to `[R]A`)
    /// has already been done.
    pub fn check_extensions_compatible(&self, src: &(Node, Port), tgt: &(Node, Port)) -> (result:
        Result<(), ExtensionError>)
        ensures
            ({
                let at_src = (src.0, Direction::Outgoing);
                let at_tgt = (tgt.0, Direction::Incoming);
                &&& result is Ok <==> self@.contains_key(at_src) && self@.contains_key(at_tgt)
                    && self@[at_src] == self@[at_tgt]
                &&& match result {
                    Ok(()) => compatible(self@, src.0, tgt.0),
                    Err(ExtensionError::MissingInputExtensions(node)) => {
                        if self@.contains_key(at_src) {
                            node == tgt.0 && !self@.contains_key(at_tgt)
                        } else {
                            node == src.0
                        }
                    },
                    Err(
                        ExtensionError::TgtExceedsSrcExtensions {
                            from,
                            from_offset,
                            from_extensions,
                            to,
                            to_offset,
                            to_extensions,
                        },
                    ) => {
                        &&& self@.contains_key(at_src) && self@.contains_key(at_tgt)
                        &&& self@[at_src] != self@[at_tgt]
                        &&& self@[at_src].subset_of(self@[at_tgt])
                        &&& from == src.0 && from_offset == Some(src.1)
                        &&& to == tgt.0 && to_offset == Some(tgt.1)
                        &&& from_extensions@ == self@[at_src]
                        &&& to_extensions@ == self@[at_tgt]
                    },
                    Err(
                        ExtensionError::SrcExceedsTgtExtensions {
                            from,
                            from_offset,
                            from_extensions,
                            to,
                            to_offset,
                            to_extensions,
                        },
                    ) => {
                        &&& self@.contains_key(at_src) && self@.contains_key(at_tgt)
                        &&& !self@[at_src].subset_of(self@[at_tgt])
                        &&& from == src.0 && from_offset == Some(src.1)
                        &&& to == tgt.0 && to_offset == Some(tgt.1)
                        &&& from_extensions@ == self@[at_src]
                        &&& to_extensions@ == self@[at_tgt]
                    },
                    Err(ExtensionError::ParentIOExtensionMismatch { .. }) => false,
                }
            }),
    {
        let rs_src = match self.query_extensions(src.0, Direction::Outgoing) {
            Ok(set) => set,
            Err(err) => return Err(err),
        };
        let rs_tgt = match self.query_extensions(tgt.0, Direction::Incoming) {
            Ok(set) => set,
            Err(err) => return Err(err),
        };
        if *rs_src == *rs_tgt {
            Ok(())
        } else if rs_src.is_subset(rs_tgt) {
            // The extra extension requirements reside in the target node.
            // If so, we can fix this mismatch with a lift node
            Err(
                ExtensionError::TgtExceedsSrcExtensions {
                    from: src.0,
                    from_offset: Some(src.1),
                    from_extensions: rs_src.clone(),
                    to: tgt.0,
                    to_offset: Some(tgt.1),
                    to_extensions: rs_tgt.clone(),
                },
            )
        } else {
            Err(
                ExtensionError::SrcExceedsTgtExtensions {
                    from: src.0,
                    from_offset: Some(src.1),
                    from_extensions: rs_src.clone(),
                    to: tgt.0,
                    to_offset: Some(tgt.1),
                    to_extensions: rs_tgt.clone(),
                },
            )
        }
    }

    /// Check that a pair of input and output nodes declare the same extensions
    /// as in the signature of their parents.
    pub fn validate_io_extensions(&self, parent: Node, input: Node, output: Node) -> (result:
        Result<(), ExtensionError>)
        ensures
            match result {
                Ok(()) => {
                    &&& io_matches(self@, parent, input, output)
                    &&& io_fault(self@, parent, input, output) is None
                },
                Err(err) => {
                    &&& !io_matches(self@, parent, input, output)
                    &&& io_fault(self@, parent, input, output) matches Some(fault)
                    &&& fault.reported_by(err, self@, parent, input, output)
                },
            },
            result is Ok <==> {
                let at_input = (parent, Direction::Incoming);
                let at_output = (parent, Direction::Outgoing);
                &&& self@.contains_key(at_input) && self@.contains_key(at_output)
                &&& self@.contains_key((input, Direction::Incoming))
                &&& self@.contains_key((input, Direction::Outgoing))
                &&& self@.contains_key((output, Direction::Incoming))
                &&& self@.contains_key((output, Direction::Outgoing))
                &&& self@[(input, Direction::Incoming)] == self@[at_input]
                &&& self@[(input, Direction::Outgoing)] == self@[at_input]
                &&& self@[(output, Direction::Incoming)] == self@[at_output]
                &&& self@[(output, Direction::Outgoing)] == self@[at_output]
            },
    {
        proof {
            law_io_is_compared(self@, parent, input, output);
            lemma_io_fault(self@, parent, input, output);
        }
        let parent_input_extensions = match self.query_extensions(parent, Direction::Incoming) {
            Ok(set) => set,
            Err(err) => return Err(err),
        };
        let parent_output_extensions = match self.query_extensions(parent, Direction::Outgoing) {
            Ok(set) => set,
            Err(err) => return Err(err),
        };
        match self.validate_side(
            parent,
            parent_input_extensions,
            parent_output_extensions,
            input,
            output,
            Direction::Incoming,
        ) {
            Ok(()) => {},
            Err(err) => return Err(err),
        }
        self.validate_side(
            parent,
            parent_input_extensions,
            parent_output_extensions,
            input,
            output,
            Direction::Outgoing,
        )
    }

    /// Checks one side of a pair of input and output nodes.
    fn validate_side(
        &self,
        parent: Node,
        parent_input_extensions: &ExtensionSet,
        parent_output_extensions: &ExtensionSet,
        input: Node,
        output: Node,
        dir: Direction,
    ) -> (result: Result<(), ExtensionError>)
        requires
            parent_input_extensions@ == self@[(parent, Direction::Incoming)],
            parent_output_extensions@ == self@[(parent, Direction::Outgoing)],
        ensures
            match result {
                Ok(()) => side_fault(self@, parent, input, output, dir) is None,
                Err(err) => {
                    &&& side_fault(self@, parent, input, output, dir) matches Some(fault)
                    &&& fault.reported_by(err, self@, parent, input, output)
                },
            },
    {
        let input_extensions = match self.query_extensions(input, dir) {
            Ok(set) => set,
            Err(err) => return Err(err),
        };
        let output_extensions = match self.query_extensions(output, dir) {
            Ok(set) => set,
            Err(err) => return Err(err),
        };
        if !(*parent_input_extensions == *input_extensions) {
            return Err(
                ExtensionError::ParentIOExtensionMismatch {
                    parent,
                    parent_extensions: parent_input_extensions.clone(),
                    child: input,
                    child_extensions: input_extensions.clone(),
                },
            );
        }
        if !(*parent_output_extensions == *output_extensions) {
            return Err(
                ExtensionError::ParentIOExtensionMismatch {
                    parent,
                    parent_extensions: parent_output_extensions.clone(),
                    child: output,
                    child_extensions: output_extensions.clone(),
                },
            );
        }
        Ok(())
    }
}

/// A validator for a graph knows, of every node that declares a set at its input,
/// both sides, whatever the nodes around it declare, and nothing of the others.
pub proof fn law_validator_knows_the_nodes(h: HugrModel, sets: Map<Loc, Exts>, i: int)
    requires
        h.wf(),
        sets == declared_sets(h),
        0 <= i < h.nodes.len(),
    ensures
        match h.nodes[i].input {
            Some(input) => {
                &&& sets.contains_key((Node(i as u32), Direction::Incoming))
                &&& sets[(Node(i as u32), Direction::Incoming)] == input
                &&& sets.contains_key((Node(i as u32), Direction::Outgoing))
                &&& sets[(Node(i as u32), Direction::Outgoing)] == input.union(h.nodes[i].delta)
            },
            None => forall|dir: Direction| !#[trigger] sets.contains_key((Node(i as u32), dir)),
        },
        forall|loc: Loc| #[trigger] sets.contains_key(loc) ==> loc.0.0 < h.nodes.len(),
{
}

/// An edge is in order just if the sets at its two ends are known and are the
/// same: then whatever is at the one end is at the other.
pub proof fn law_compatible_ends_agree(sets: Map<Loc, Exts>, src: Node, tgt: Node)
    ensures
        compatible(sets, src, tgt) <==> {
            &&& sets.contains_key((src, Direction::Outgoing))
            &&& sets.contains_key((tgt, Direction::Incoming))
            &&& forall|name: Seq<char>|
                sets[(src, Direction::Outgoing)].contains(name) <==> #[trigger] sets[(
                    tgt,
                    Direction::Incoming,
                )].contains(name)
        },
{
    let a = sets[(src, Direction::Outgoing)];
    let b = sets[(tgt, Direction::Incoming)];
    if forall|name: Seq<char>| a.contains(name) <==> #[trigger] b.contains(name) {
        assert(a =~= b);
    }
}

/// A pair of input and output nodes is in order just if both sides of the input
/// node have the set at the input of the parent, and both sides of the output
/// node the set at its output.
pub proof fn law_io_is_compared(sets: Map<Loc, Exts>, parent: Node, input: Node, output: Node)
    ensures
        io_matches(sets, parent, input, output) <==> {
            let at_input = (parent, Direction::Incoming);
            let at_output = (parent, Direction::Outgoing);
            &&& sets.contains_key(at_input) && sets.contains_key(at_output)
            &&& sets.contains_key((input, Direction::Incoming))
            &&& sets.contains_key((input, Direction::Outgoing))
            &&& sets.contains_key((output, Direction::Incoming))
            &&& sets.contains_key((output, Direction::Outgoing))
            &&& sets[(input, Direction::Incoming)] == sets[at_input]
            &&& sets[(input, Direction::Outgoing)] == sets[at_input]
            &&& sets[(output, Direction::Incoming)] == sets[at_output]
            &&& sets[(output, Direction::Outgoing)] == sets[at_output]
        },
        io_fault(sets, parent, input, output) is None <==> io_matches(
            sets,
            parent,
            input,
            output,
        ),
{
    lemma_io_fault(sets, parent, input, output);
    if io_matches(sets, parent, input, output) {
        assert(sets.contains_key((input, Direction::Incoming)));
        assert(sets.contains_key((input, Direction::Outgoing)));
        assert(sets.contains_key((output, Direction::Incoming)));
        assert(sets.contains_key((output, Direction::Outgoing)));
    }
}

/// What is reported of a pair of input and output nodes is so: a node of which a
/// set is missing, or a node with a set that is not that of the parent.
pub proof fn law_io_reports_are_true(
    sets: Map<Loc, Exts>,
    parent_node: Node,
    input: Node,
    output: Node,
    err: ExtensionError,
)
    requires
        io_fault(sets, parent_node, input, output) matches Some(fault) && fault.reported_by(
            err,
            sets,
            parent_node,
            input,
            output,
        ),
    ensures
        match err {
            ExtensionError::MissingInputExtensions(node) => {
                &&& node == parent_node || node == input || node == output
                &&& !sets.contains_key((node, Direction::Incoming)) || !sets.contains_key(
                    (node, Direction::Outgoing),
                )
            },
            ExtensionError::ParentIOExtensionMismatch {
                parent,
                parent_extensions,
                child,
                child_extensions,
            } => {
                &&& parent == parent_node
                &&& parent_extensions@ != child_extensions@
                &&& child == input && parent_extensions@ == sets[(
                    parent_node,
                    Direction::Incoming,
                )] || child == output && parent_extensions@ == sets[(
                    parent_node,
                    Direction::Outgoing,
                )]
                &&& child_extensions@ == sets[(child, Direction::Incoming)] || child_extensions@
                    == sets[(child, Direction::Outgoing)]
            },
            _ => false,
        },
{
}

/// Nothing is wrong just where the input and output nodes match their parent.
proof fn lemma_io_fault(sets: Map<Loc, Exts>, parent: Node, input: Node, output: Node)
    ensures
        io_fault(sets, parent, input, output) is None <==> io_matches(sets, parent, input, output),
{
    if io_fault(sets, parent, input, output) is None {
        assert forall|dir: Direction| side_fault(sets, parent, input, output, dir) is None by {
            match dir {
                Direction::Incoming => {},
                Direction::Outgoing => {},
            }
        }
        assert forall|dir: Direction|
            #![trigger sets.contains_key((input, dir))]
            #![trigger sets[(input, dir)]]
            sets.contains_key((input, dir)) && sets[(input, dir)] == sets[(
                parent,
                Direction::Incoming,
            )] by {
            assert(side_fault(sets, parent, input, output, dir) is None);
        }
        assert forall|dir: Direction|
            #![trigger sets.contains_key((output, dir))]
            #![trigger sets[(output, dir)]]
            sets.contains_key((output, dir)) && sets[(output, dir)] == sets[(
                parent,
                Direction::Outgoing,
            )] by {
            assert(side_fault(sets, parent, input, output, dir) is None);
        }
    }
}

/// Errors that can occur while validating a graph. Where an error comes from
/// comparing two nodes as such, no ports are given.
#[derive(Debug, PartialEq)]
pub enum ExtensionError {
    /// Missing lift node
    TgtExceedsSrcExtensions {
        from: Node,
        from_offset: Option<Port>,
        from_extensions: ExtensionSet,
        to: Node,
        to_offset: Option<Port>,
        to_extensions: ExtensionSet,
    },
    /// Too many extension requirements coming from src
    SrcExceedsTgtExtensions {
        from: Node,
        from_offset: Option<Port>,
        from_extensions: ExtensionSet,
        to: Node,
        to_offset: Option<Port>,
        to_extensions: ExtensionSet,
    },
    /// The extensions of the node are not known.
    MissingInputExtensions(Node),
    /// An input or output node declares other extensions than its parent.
    ParentIOExtensionMismatch {
        parent: Node,
        parent_extensions: ExtensionSet,
        child: Node,
        child_extensions: ExtensionSet,
    },
}

impl ExtensionError {
    /// Whether two errors are of the same kind and speak of the same nodes,
    /// ports and sets.
    pub open spec fn same(self, other: ExtensionError) -> bool {
        match (self, other) {
            (
                ExtensionError::TgtExceedsSrcExtensions {
                    from: f1,
                    from_offset: p1,
                    from_extensions: s1,
                    to: t1,
                    to_offset: q1,
                    to_extensions: e1,
                },
                ExtensionError::TgtExceedsSrcExtensions {
                    from: f2,
                    from_offset: p2,
                    from_extensions: s2,
                    to: t2,
                    to_offset: q2,
                    to_extensions: e2,
                },
            ) => f1 == f2 && p1 == p2 && s1@ == s2@ && t1 == t2 && q1 == q2 && e1@ == e2@,
            (
                ExtensionError::SrcExceedsTgtExtensions {
                    from: f1,
                    from_offset: p1,
                    from_extensions: s1,
                    to: t1,
                    to_offset: q1,
                    to_extensions: e1,
                },
                ExtensionError::SrcExceedsTgtExtensions {
                    from: f2,
                    from_offset: p2,
                    from_extensions: s2,
                    to: t2,
                    to_offset: q2,
                    to_extensions: e2,
                },
            ) => f1 == f2 && p1 == p2 && s1@ == s2@ && t1 == t2 && q1 == q2 && e1@ == e2@,
            (
                ExtensionError::MissingInputExtensions(n1),
                ExtensionError::MissingInputExtensions(n2),
            ) => n1 == n2,
            (
                ExtensionError::ParentIOExtensionMismatch {
                    parent: p1,
                    parent_extensions: s1,
                    child: c1,
                    child_extensions: e1,
                },
                ExtensionError::ParentIOExtensionMismatch {
                    parent: p2,
                    parent_extensions: s2,
                    child: c2,
                    child_extensions: e2,
                },
            ) => p1 == p2 && s1@ == s2@ && c1 == c2 && e1@ == e2@,
            _ => false,
        }
    }
}

impl Clone for ExtensionError {
    fn clone(&self) -> (copy: ExtensionError)
        ensures
            self.same(copy),
    {
        match self {
            ExtensionError::TgtExceedsSrcExtensions {
                from,
                from_offset,
                from_extensions,
                to,
                to_offset,
                to_extensions,
            } => ExtensionError::TgtExceedsSrcExtensions {
                from: *from,
                from_offset: *from_offset,
                from_extensions: from_extensions.clone(),
                to: *to,
                to_offset: *to_offset,
                to_extensions: to_extensions.clone(),
            },
            ExtensionError::SrcExceedsTgtExtensions {
                from,
                from_offset,
                from_extensions,
                to,
                to_offset,
                to_extensions,
            } => ExtensionError::SrcExceedsTgtExtensions {
                from: *from,
                from_offset: *from_offset,
                from_extensions: from_extensions.clone(),
                to: *to,
                to_offset: *to_offset,
                to_extensions: to_extensions.clone(),
            },
            ExtensionError::MissingInputExtensions(node) => ExtensionError::MissingInputExtensions(
                *node,
            ),
            ExtensionError::ParentIOExtensionMismatch {
                parent,
                parent_extensions,
                child,
                child_extensions,
            } => ExtensionError::ParentIOExtensionMismatch {
                parent: *parent,
                parent_extensions: parent_extensions.clone(),
                child: *child,
                child_extensions: child_extensions.clone(),
            },
        }
    }
}

} // verus!
