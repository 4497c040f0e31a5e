//! Setting up the unification problem of a graph.

use vstd::prelude::*;

use crate::extension_set::{ExtensionSet, names};
use crate::hugr::{Direction, EdgeKind, Hugr, HugrModel, Loc, Node};
use crate::infer::context::{Constraint, UnificationContext};
use crate::infer::eq_graph::Meta;
use crate::infer::model::{Con, Ctx};
use crate::infer::problem::{
    Orders, Reason, asked, chain_start, declared_solutions, demand_of, given, lemma_chain_demand,
    lemma_chain_start, lemma_loc_meta, lemma_problem_wf, loc_meta, meta_demand, meta_loc,
    order_fits, orders_fit, problem,
};

verus! {

impl Ctx {
    /// A chain of new metavariables, each of which adds one of the names to the
    /// one before it, the first to `input`.
    pub open spec fn with_chain(self, input: u32, names: Seq<Seq<char>>) -> Ctx {
        Ctx {
            fresh: self.fresh + names.len(),
            cons: Map::new(
                |m: u32|
                    self.cons.contains_key(m) || self.fresh <= m < self.fresh + names.len(),
                |m: u32|
                    if self.fresh <= m < self.fresh + names.len() {
                        set![Con::Plus(
                            names[m - self.fresh],
                            if m == self.fresh {
                                input
                            } else {
                                (m - 1) as u32
                            },
                        )]
                    } else {
                        self.cons[m]
                    },
            ),
            ..self
        }
    }

    /// The last metavariable of such a chain.
    pub open spec fn chain_last(self, input: u32, names: Seq<Seq<char>>) -> u32 {
        if names.len() == 0 {
            input
        } else {
            (self.fresh + names.len() - 1) as u32
        }
    }

    /// Such a chain, at the end of which `output` stands.
    pub open spec fn with_union(self, input: u32, output: u32, names: Seq<Seq<char>>) -> Ctx {
        self.with_chain(input, names).with_constraint(
            output,
            Con::Equal(self.chain_last(input, names)),
        )
    }
}

/// The constraints are those for the reasons `done`.
spec fn follows(h: HugrModel, orders: Orders, ctx: Ctx, done: Set<Reason>) -> bool {
    forall|m: u32, c: Con| #[trigger]
        ctx.has(m, c) <==> exists|reason: Reason| #[trigger]
            done.contains(reason) && demand_of(h, orders, reason) == (m, c)
}

/// The reasons that the first `i` nodes and the first `e` edges give.
spec fn reasons(h: HugrModel, orders: Orders, i: int, e: int) -> Set<Reason> {
    Set::new(
        |reason: Reason|
            given(h, orders, reason) && match reason {
                Reason::InputNode(p, _) => p < i,
                Reason::OutputNode(p, _) => p < i,
                Reason::Link(n, _) => n < i,
                Reason::End(n) => n < i,
                Reason::Wire(w) => w < e,
            },
    )
}

/// The reasons that node `i` gives as the holder of a region.
spec fn io_reasons(h: HugrModel, i: int) -> Set<Reason> {
    Set::new(
        |reason: Reason|
            h.io(Node(i as u32)) is Some && match reason {
                Reason::InputNode(p, _) => p == i,
                Reason::OutputNode(p, _) => p == i,
                _ => false,
            },
    )
}

/// How far the setup has come: locations have metavariables, and the
/// constraints are those for the reasons `done`; the declarations of the first
/// `i` nodes and their chains are in.
spec fn underway(h: HugrModel, orders: Orders, ctx: Ctx, i: int, done: Set<Reason>) -> bool {
    let whole = problem(h, orders);
    &&& ctx.fresh == chain_start(h, orders, i)
    &&& ctx.locs == whole.locs
    &&& ctx.vars == whole.vars
    &&& ctx.shunted == whole.shunted
    &&& ctx.eqs == whole.eqs
    &&& ctx.eq_nodes == whole.eq_nodes
    &&& forall|m: u32| #[trigger] ctx.cons.contains_key(m) <==> m < ctx.fresh
    &&& follows(h, orders, ctx, done)
    &&& forall|m: u32| #[trigger]
        ctx.solved.contains_key(m) <==> m < 2 * i && declared_solutions(h).contains_key(m)
    &&& forall|m: u32| #[trigger]
        ctx.solved.contains_key(m) ==> ctx.solved[m] == declared_solutions(h)[m]
}

proof fn lemma_with_reason(
    h: HugrModel,
    orders: Orders,
    ctx: Ctx,
    i: int,
    done: Set<Reason>,
    reason: Reason,
)
    requires
        underway(h, orders, ctx, i, done),
        demand_of(h, orders, reason).0 < ctx.fresh,
    ensures
        underway(
            h,
            orders,
            ctx.with_constraint(
                demand_of(h, orders, reason).0,
                demand_of(h, orders, reason).1,
            ),
            i,
            done.insert(reason),
        ),
{
    let m = demand_of(h, orders, reason).0;
    let c = demand_of(h, orders, reason).1;
    let after = ctx.with_constraint(m, c);
    assert forall|k: u32, d: Con| #[trigger] after.has(k, d) <==> ctx.has(k, d) || (k == m && d
        == c) by {}
    assert forall|k: u32, d: Con| #[trigger] after.has(k, d) <==> exists|r: Reason| #[trigger]
        done.insert(reason).contains(r) && demand_of(h, orders, r) == (k, d) by {
        if after.has(k, d) {
            if ctx.has(k, d) {
                let r = choose|r: Reason| #[trigger]
                    done.contains(r) && demand_of(h, orders, r) == (k, d);
                assert(done.insert(reason).contains(r));
            } else {
                assert(done.insert(reason).contains(reason));
            }
        }
        if exists|r: Reason| #[trigger]
            done.insert(reason).contains(r) && demand_of(h, orders, r) == (k, d) {
            let r = choose|r: Reason| #[trigger]
                done.insert(reason).contains(r) && demand_of(h, orders, r) == (k, d);
            if r != reason {
                assert(done.contains(r));
            }
        }
    }
}

/// The chain of an open node is what its reasons ask for.
proof fn lemma_with_chain(h: HugrModel, orders: Orders, ctx: Ctx, i: int)
    requires
        h.wf(),
        orders_fit(h, orders),
        meta_demand(h) <= u32::MAX,
        0 <= i < h.nodes.len(),
        h.nodes[i].input is None,
        underway(h, orders, ctx, i, reasons(h, orders, i, 0).union(io_reasons(h, i))),
    ensures
        ({
            let node = Node(i as u32);
            let after = ctx.with_union(
                loc_meta((node, Direction::Incoming)),
                loc_meta((node, Direction::Outgoing)),
                orders[i],
            );
            underway(h, orders, after, i + 1, reasons(h, orders, i + 1, 0))
        }),
{
    let len = h.nodes.len() as int;
    let node = Node(i as u32);
    let input = loc_meta((node, Direction::Incoming));
    let output = loc_meta((node, Direction::Outgoing));
    let order = orders[i];
    let mid = ctx.with_chain(input, order);
    let after = ctx.with_union(input, output, order);
    let before = reasons(h, orders, i, 0).union(io_reasons(h, i));
    let all = reasons(h, orders, i + 1, 0);
    lemma_chain_demand(h, orders, len);
    lemma_chain_start(h, orders, i, len);
    lemma_chain_start(h, orders, i + 1, len);
    lemma_loc_meta(h, (node, Direction::Incoming));
    lemma_loc_meta(h, (node, Direction::Outgoing));
    assert(demand_of(h, orders, Reason::End(i)) == (
        output,
        Con::Equal(ctx.chain_last(input, order)),
    ));
    assert forall|reason: Reason| all.contains(reason) <==> before.contains(reason) || reason
        == Reason::End(i) || (reason matches Reason::Link(n, k) && n == i && 0 <= k
        < order.len()) by {}
    assert forall|m: u32, c: Con| #[trigger] after.has(m, c) <==> ctx.has(m, c) || (m == output && c
        == Con::Equal(ctx.chain_last(input, order))) || (ctx.fresh <= m < ctx.fresh + order.len()
        && demand_of(h, orders, Reason::Link(i, m - ctx.fresh)) == (m, c)) by {
        if ctx.fresh <= m < ctx.fresh + order.len() {
            assert(!ctx.cons.contains_key(m));
        }
    }
    assert forall|m: u32, c: Con| #[trigger] after.has(m, c) <==> exists|r: Reason| #[trigger]
        all.contains(r) && demand_of(h, orders, r) == (m, c) by {
        if after.has(m, c) {
            if ctx.has(m, c) {
                let r = choose|r: Reason| #[trigger]
                    before.contains(r) && demand_of(h, orders, r) == (m, c);
                assert(all.contains(r));
            } else if m == output && c == Con::Equal(ctx.chain_last(input, order)) {
                assert(all.contains(Reason::End(i)));
            } else {
                assert(all.contains(Reason::Link(i, m - ctx.fresh)));
            }
        }
        if exists|r: Reason| #[trigger] all.contains(r) && demand_of(h, orders, r) == (m, c) {
            let r = choose|r: Reason| #[trigger]
                all.contains(r) && demand_of(h, orders, r) == (m, c);
            if before.contains(r) {
                assert(ctx.has(m, c));
            }
        }
    }
    assert forall|m: u32| #[trigger]
        after.solved.contains_key(m) <==> m < 2 * (i + 1) && declared_solutions(h).contains_key(
            m,
        ) by {
        if 2 * i <= m < 2 * (i + 1) {
            assert(meta_loc(m).0 == node);
        }
    }
}

/// The declarations of a node are what its metavariables are solved by.
proof fn lemma_with_declaration(h: HugrModel, orders: Orders, ctx: Ctx, i: int)
    requires
        h.wf(),
        orders_fit(h, orders),
        meta_demand(h) <= u32::MAX,
        0 <= i < h.nodes.len(),
        h.nodes[i].input is Some,
        underway(h, orders, ctx, i, reasons(h, orders, i, 0).union(io_reasons(h, i))),
    ensures
        ({
            let node = Node(i as u32);
            let output = loc_meta((node, Direction::Outgoing));
            let input = loc_meta((node, Direction::Incoming));
            let after = ctx.with_solution(
                output,
                h.declared((node, Direction::Outgoing))->0,
            ).with_solution(input, h.declared((node, Direction::Incoming))->0);
            &&& !ctx.solved.contains_key(output)
            &&& !ctx.solved.contains_key(input)
            &&& input != output
            &&& underway(h, orders, after, i + 1, reasons(h, orders, i + 1, 0))
        }),
{
    let node = Node(i as u32);
    let output = loc_meta((node, Direction::Outgoing));
    let input = loc_meta((node, Direction::Incoming));
    let after = ctx.with_solution(
        output,
        h.declared((node, Direction::Outgoing))->0,
    ).with_solution(input, h.declared((node, Direction::Incoming))->0);
    lemma_loc_meta(h, (node, Direction::Incoming));
    lemma_loc_meta(h, (node, Direction::Outgoing));
    assert(order_fits(h, i, orders[i]));
    assert(reasons(h, orders, i, 0).union(io_reasons(h, i)) =~= reasons(h, orders, i + 1, 0));
    assert forall|m: u32, c: Con| #[trigger] after.has(m, c) == ctx.has(m, c) by {}
    assert forall|m: u32| #[trigger]
        after.solved.contains_key(m) <==> m < 2 * (i + 1) && declared_solutions(h).contains_key(
            m,
        ) by {
        if 2 * i <= m < 2 * (i + 1) {
            assert(m == input || m == output);
        }
    }
}

impl UnificationContext {
    /// Convert an extension *set* difference in terms of a sequence of fresh
    /// metas with `Plus` constraints which each add only one extension req.
    pub fn gen_union_constraint(&mut self, input: Meta, output: Meta, delta: &ExtensionSet)
        requires
            old(self).ok(),
            old(self)@.fresh + delta@.len() <= u32::MAX,
            forall|m: u32| #[trigger] old(self)@.cons.contains_key(m) ==> m < old(self)@.fresh,
        ensures
            final(self).ok(),
            final(self)@ == old(self)@.with_union(input.0, output.0, delta.order()),
    {
        let mut last_meta = input;
        // Create fresh metavariables with `Plus` constraints for
        // each extension that should be added by the node
        // Hence a extension delta [A, B] would lead to
        // > ma = fresh_meta()
        // > add_constraint(ma, Plus(a, input)
        // > mb = fresh_meta()
        // > add_constraint(mb, Plus(b, ma)
        // > add_constraint(output, Equal(mb))
        let ids = delta.ids();
        let ghost before = self@;
        let ghost order = delta.order();
        proof {
            assert(before.with_chain(input.0, order.take(0)).cons =~= before.cons);
        }
        let mut i: usize = 0;
        while i < ids.len()
            invariant
                i <= ids@.len(),
                self.ok(),
                names(ids@) == order,
                ids@.len() == order.len(),
                before.fresh + order.len() <= u32::MAX,
                forall|m: u32| #[trigger] before.cons.contains_key(m) ==> m < before.fresh,
                self@ == before.with_chain(input.0, order.take(i as int)),
                last_meta.0 == before.chain_last(input.0, order.take(i as int)),
            decreases ids@.len() - i,
        {
            let curr_meta = self.fresh_meta();
            self.add_constraint(curr_meta, Constraint::Plus(ids[i].clone(), last_meta));
            proof {
                assert(order[i as int] == ids@[i as int]@);
                assert(order.take(i + 1)[i as int] == order[i as int]);
                assert forall|m: u32| self@.cons.contains_key(m) implies #[trigger] self@.cons[m]
                    == before.with_chain(input.0, order.take(i + 1)).cons[m] by {
                    if m == curr_meta.0 {
                        assert(self@.cons[m] =~= set![Con::Plus(order[i as int], last_meta.0)]);
                    }
                }
                assert(self@.cons =~= before.with_chain(input.0, order.take(i + 1)).cons);
            }
            last_meta = curr_meta;
            i += 1;
        }
        proof {
            assert(order.take(order.len() as int) =~= order);
        }
        self.add_constraint(output, Constraint::Equal(last_meta));
    }

    /// Make a metavariable for every location of the graph.
    fn gen_locations(&mut self, hugr: &Hugr)
        requires
            old(self).ok(),
            old(self)@ == Ctx::empty(),
            hugr@.wf(),
            2 * hugr@.nodes.len() <= u32::MAX,
        ensures
            final(self).ok(),
            final(self)@ == located(hugr@, hugr@.nodes.len() as int),
    {
        let n = hugr.node_count();
        let ghost h = hugr@;
        assert(self@ =~= located(h, 0));
        let mut i: usize = 0;
        while i < n
            invariant
                i <= n,
                h == hugr@,
                n == h.nodes.len(),
                h.wf(),
                2 * n <= u32::MAX,
                self.ok(),
                self@ == located(h, i as int),
            decreases n - i,
        {
            let node = Node(i as u32);
            let ghost before = self@;
            proof {
                lemma_loc_meta(h, (node, Direction::Incoming));
                lemma_loc_meta(h, (node, Direction::Outgoing));
                assert(!before.locs.contains_key((node, Direction::Incoming)));
                assert(!before.locs.contains_key((node, Direction::Outgoing)));
            }
            let _ = self.make_or_get_meta(node, Direction::Incoming);
            let _ = self.make_or_get_meta(node, Direction::Outgoing);
            proof {
                assert forall|loc: Loc| #[trigger]
                    self@.locs.contains_key(loc) <==> loc.0.0 < i + 1 by {
                    if loc.0.0 == i {
                        assert(loc.0 == node);
                        assert(loc == (node, Direction::Incoming) || loc == (
                            node,
                            Direction::Outgoing,
                        ));
                    }
                }
                assert(self@.locs =~= located(h, i + 1).locs);
                assert(self@.cons =~= located(h, i + 1).cons);
            }
            i += 1;
        }
    }

    /// Generate the constraints that a node gives rise to, and the solutions
    /// that it declares.
    fn gen_node(&mut self, hugr: &Hugr, i: usize, Ghost(orders): Ghost<Orders>)
        requires
            old(self).ok(),
            hugr@.wf(),
            orders_fit(hugr@, orders),
            meta_demand(hugr@) <= u32::MAX,
            i < hugr@.nodes.len(),
            hugr@.nodes[i as int].input is None ==> orders[i as int] == hugr.delta_order(
                Node(i as u32),
            ),
            underway(hugr@, orders, old(self)@, i as int, reasons(hugr@, orders, i as int, 0)),
        ensures
            final(self).ok(),
            underway(hugr@, orders, final(self)@, i + 1, reasons(hugr@, orders, i + 1, 0)),
    {
        let ghost h = hugr@;
        let node = Node(i as u32);
        proof {
            let len = h.nodes.len() as int;
            lemma_chain_demand(h, orders, len);
            lemma_chain_start(h, orders, i as int, len);
            lemma_chain_start(h, orders, i + 1, len);
            lemma_loc_meta(h, (node, Direction::Incoming));
            lemma_loc_meta(h, (node, Direction::Outgoing));
            assert(order_fits(h, i as int, orders[i as int]));
        }
        let m_input = self.make_or_get_meta(node, Direction::Incoming);
        let m_output = self.make_or_get_meta(node, Direction::Outgoing);
        let ghost mut done = reasons(h, orders, i as int, 0);
        // Add constraints for the inputs and outputs of dataflow nodes according
        // to the signature of the parent node
        match hugr.get_io(node) {
            Some((input, output)) => {
                proof {
                    assert(h.nodes[i as int].children[0].0 < h.nodes.len());
                    assert(h.nodes[i as int].children[1].0 < h.nodes.len());
                }
                self.gen_io(
                    hugr,
                    i,
                    input,
                    output,
                    m_input,
                    m_output,
                    Direction::Incoming,
                    Ghost(orders),
                    Ghost(done),
                );
                proof {
                    done = done.insert(Reason::InputNode(i as int, Direction::Incoming)).insert(
                        Reason::OutputNode(i as int, Direction::Incoming),
                    );
                }
                self.gen_io(
                    hugr,
                    i,
                    input,
                    output,
                    m_input,
                    m_output,
                    Direction::Outgoing,
                    Ghost(orders),
                    Ghost(done),
                );
                proof {
                    done = done.insert(Reason::InputNode(i as int, Direction::Outgoing)).insert(
                        Reason::OutputNode(i as int, Direction::Outgoing),
                    );
                }
            },
            None => {},
        }
        proof {
            assert forall|reason: Reason| done.contains(reason) <==> reasons(
                h,
                orders,
                i as int,
                0,
            ).union(io_reasons(h, i as int)).contains(reason) by {
                match reason {
                    Reason::InputNode(p, dir) => {
                        assert(dir == Direction::Incoming || dir == Direction::Outgoing);
                    },
                    Reason::OutputNode(p, dir) => {
                        assert(dir == Direction::Incoming || dir == Direction::Outgoing);
                    },
                    _ => {},
                }
            }
            assert(done =~= reasons(h, orders, i as int, 0).union(io_reasons(h, i as int)));
        }
        let node_type = hugr.get_nodetype(node);
        match node_type.signature() {
            // Input extensions are open
            None => {
                proof {
                    lemma_with_chain(h, orders, self@, i as int);
                }
                self.gen_union_constraint(m_input, m_output, &node_type.op.extension_reqs);
            },
            // We have a solution for everything!
            Some(sig) => {
                proof {
                    lemma_with_declaration(h, orders, self@, i as int);
                }
                self.add_solution(m_output, sig.output_extensions());
                self.add_solution(m_input, sig.input_extensions);
            },
        }
    }

    /// Generate the constraints for one side of the input and output nodes of a
    /// dataflow region.
    fn gen_io(
        &mut self,
        hugr: &Hugr,
        i: usize,
        input: Node,
        output: Node,
        m_input: Meta,
        m_output: Meta,
        dir: Direction,
        Ghost(orders): Ghost<Orders>,
        Ghost(done): Ghost<Set<Reason>>,
    )
        requires
            old(self).ok(),
            hugr@.wf(),
            orders_fit(hugr@, orders),
            meta_demand(hugr@) <= u32::MAX,
            i < hugr@.nodes.len(),
            hugr@.io(Node(i as u32)) == Some((input, output)),
            m_input.0 == loc_meta((Node(i as u32), Direction::Incoming)),
            m_output.0 == loc_meta((Node(i as u32), Direction::Outgoing)),
            underway(hugr@, orders, old(self)@, i as int, done),
        ensures
            final(self).ok(),
            underway(
                hugr@,
                orders,
                final(self)@,
                i as int,
                done.insert(Reason::InputNode(i as int, dir)).insert(
                    Reason::OutputNode(i as int, dir),
                ),
            ),
    {
        let ghost h = hugr@;
        proof {
            assert(h.nodes[i as int].children[0].0 < h.nodes.len());
            assert(h.nodes[i as int].children[1].0 < h.nodes.len());
            lemma_loc_meta(h, (input, dir));
            lemma_loc_meta(h, (output, dir));
            lemma_chain_start(h, orders, i as int, h.nodes.len() as int);
            lemma_with_reason(
                h,
                orders,
                self@,
                i as int,
                done,
                Reason::InputNode(i as int, dir),
            );
        }
        let m_input_node = self.make_or_get_meta(input, dir);
        self.add_constraint(m_input_node, Constraint::Equal(m_input));
        proof {
            lemma_with_reason(
                h,
                orders,
                self@,
                i as int,
                done.insert(Reason::InputNode(i as int, dir)),
                Reason::OutputNode(i as int, dir),
            );
        }
        let m_output_node = self.make_or_get_meta(output, dir);
        self.add_constraint(m_output_node, Constraint::Equal(m_output));
    }

    /// Iterate over the nodes in a hugr and generate unification constraints
    pub fn gen_constraints(&mut self, hugr: &Hugr)
        requires
            old(self).ok(),
            old(self)@ == Ctx::empty(),
            hugr@.wf(),
            meta_demand(hugr@) <= u32::MAX,
        ensures
            final(self).ok(),
            exists|orders: Orders| #[trigger]
                orders_fit(hugr@, orders) && final(self)@ == problem(hugr@, orders),
    {
        let ghost h = hugr@;
        let ghost orders = Seq::new(
            h.nodes.len(),
            |n: int|
                if h.nodes[n].input is None {
                    hugr.delta_order(Node(n as u32))
                } else {
                    Seq::empty()
                },
        );
        let n = hugr.node_count();
        check_orders(hugr, Ghost(orders));
        self.gen_locations(hugr);
        if hugr.get_nodetype(hugr.root()).signature().is_none() {
            proof {
                lemma_loc_meta(h, (Node(0), Direction::Incoming));
            }
            let m_input = self.make_or_get_meta(hugr.root(), Direction::Incoming);
            self.add_variable(m_input);
        }
        proof {
            lemma_setup_starts(h, orders, self@);
        }
        let mut i: usize = 0;
        while i < n
            invariant
                i <= n,
                h == hugr@,
                n == h.nodes.len(),
                h.wf(),
                orders_fit(h, orders),
                meta_demand(h) <= u32::MAX,
                forall|k: int|
                    0 <= k < n && h.nodes[k].input is None ==> #[trigger] orders[k]
                        == hugr.delta_order(Node(k as u32)),
                self.ok(),
                underway(h, orders, self@, i as int, reasons(h, orders, i as int, 0)),
            decreases n - i,
        {
            self.gen_node(hugr, i, Ghost(orders));
            i += 1;
        }
        let edges = hugr.edges();
        let mut e: usize = 0;
        // Separate loop so that we can assume that a metavariable has been
        // added for every location in the graph already.
        while e < edges.len()
            invariant
                e <= edges@.len(),
                edges@ == h.edges,
                h == hugr@,
                n == h.nodes.len(),
                h.wf(),
                orders_fit(h, orders),
                meta_demand(h) <= u32::MAX,
                self.ok(),
                underway(h, orders, self@, n as int, reasons(h, orders, n as int, e as int)),
            decreases edges@.len() - e,
        {
            let edge = edges[e];
            assert(h.edges[e as int] == edge);
            if edge.kind == EdgeKind::Value {
                proof {
                    lemma_loc_meta(h, (edge.src, Direction::Outgoing));
                    lemma_loc_meta(h, (edge.tgt, Direction::Incoming));
                    lemma_chain_start(h, orders, n as int, n as int);
                    lemma_with_reason(
                        h,
                        orders,
                        self@,
                        n as int,
                        reasons(h, orders, n as int, e as int),
                        Reason::Wire(e as int),
                    );
                }
                let m_src = self.make_or_get_meta(edge.src, Direction::Outgoing);
                let m_tgt = self.make_or_get_meta(edge.tgt, Direction::Incoming);
                self.add_constraint(m_src, Constraint::Equal(m_tgt));
                assert(reasons(h, orders, n as int, e as int).insert(Reason::Wire(e as int))
                    =~= reasons(h, orders, n as int, e + 1));
            } else {
                assert(reasons(h, orders, n as int, e as int) =~= reasons(
                    h,
                    orders,
                    n as int,
                    e + 1,
                ));
            }
            e += 1;
        }
        proof {
            lemma_setup_done(h, orders, self@);
        }
    }

    /// Create a new unification context, and populate it with constraints from
    /// traversing the hugr which is passed in.
    pub fn new(hugr: &Hugr) -> (ctx: UnificationContext)
        requires
            hugr@.wf(),
            meta_demand(hugr@) <= u32::MAX,
        ensures
            ctx.ok(),
            ctx@.wf(),
            ctx@.at_rest(),
            ctx@.fresh == meta_demand(hugr@),
            exists|orders: Orders| #[trigger]
                orders_fit(hugr@, orders) && ctx@ == problem(hugr@, orders),
    {
        let mut ctx = UnificationContext::empty();
        ctx.gen_constraints(hugr);
        proof {
            let orders = choose|orders: Orders| #[trigger]
                orders_fit(hugr@, orders) && ctx@ == problem(hugr@, orders);
            lemma_problem_wf(hugr@, orders);
        }
        ctx
    }
}

/// The problem with metavariables for the locations of the first `i` nodes and
/// nothing else.
spec fn located(h: HugrModel, i: int) -> Ctx {
    Ctx {
        fresh: (2 * i) as nat,
        cons: Map::new(|m: u32| m < 2 * i, |m: u32| Set::empty()),
        locs: Map::new(|loc: Loc| loc.0.0 < i, |loc: Loc| loc_meta(loc)),
        ..Ctx::empty()
    }
}

/// The order in which a set lists its members lists each once, whichever set a
/// node of the graph adds.
fn check_orders(hugr: &Hugr, Ghost(orders): Ghost<Orders>)
    requires
        hugr@.wf(),
        orders.len() == hugr@.nodes.len(),
        forall|n: int|
            0 <= n < orders.len() ==> #[trigger] orders[n] == (if hugr@.nodes[n].input is None {
                hugr.delta_order(Node(n as u32))
            } else {
                Seq::empty()
            }),
    ensures
        orders_fit(hugr@, orders),
{
    let n = hugr.node_count();
    let ghost h = hugr@;
    let mut i: usize = 0;
    while i < n
        invariant
            i <= n,
            h == hugr@,
            n == h.nodes.len(),
            h.wf(),
            orders.len() == h.nodes.len(),
            forall|k: int|
                0 <= k < orders.len() ==> #[trigger] orders[k] == (if h.nodes[k].input is None {
                    hugr.delta_order(Node(k as u32))
                } else {
                    Seq::empty()
                }),
            forall|k: int| 0 <= k < i ==> order_fits(h, k, #[trigger] orders[k]),
        decreases n - i,
    {
        let node_type = hugr.get_nodetype(Node(i as u32));
        let _ = node_type.op.extension_reqs.ids();
        assert(order_fits(h, i as int, orders[i as int]));
        i += 1;
    }
}

proof fn lemma_setup_starts(h: HugrModel, orders: Orders, ctx: Ctx)
    requires
        h.wf(),
        orders_fit(h, orders),
        ctx == (Ctx { vars: problem(h, orders).vars, ..located(h, h.nodes.len() as int) }),
    ensures
        underway(h, orders, ctx, 0, reasons(h, orders, 0, 0)),
{
    assert(ctx.locs =~= problem(h, orders).locs);
    assert forall|m: u32, c: Con| #[trigger] ctx.has(m, c) <==> exists|reason: Reason| #[trigger]
        reasons(h, orders, 0, 0).contains(reason) && demand_of(h, orders, reason) == (m, c) by {}
}

proof fn lemma_setup_done(h: HugrModel, orders: Orders, ctx: Ctx)
    requires
        h.wf(),
        orders_fit(h, orders),
        meta_demand(h) <= u32::MAX,
        underway(
            h,
            orders,
            ctx,
            h.nodes.len() as int,
            reasons(h, orders, h.nodes.len() as int, h.edges.len() as int),
        ),
    ensures
        ctx == problem(h, orders),
{
    let whole = problem(h, orders);
    let all = reasons(h, orders, h.nodes.len() as int, h.edges.len() as int);
    assert forall|reason: Reason| #[trigger] all.contains(reason) <==> given(h, orders, reason) by {}
    assert forall|m: u32| ctx.cons.contains_key(m) implies #[trigger] ctx.cons[m]
        == whole.cons[m] by {
        assert forall|c: Con| ctx.cons[m].contains(c) <==> whole.cons[m].contains(c) by {
            assert(ctx.has(m, c) <==> ctx.cons[m].contains(c));
            if ctx.has(m, c) {
                let reason = choose|reason: Reason| #[trigger]
                    all.contains(reason) && demand_of(h, orders, reason) == (m, c);
                assert(given(h, orders, reason));
            }
            if asked(h, orders, m, c) {
                let reason = choose|reason: Reason| #[trigger]
                    given(h, orders, reason) && demand_of(h, orders, reason) == (m, c);
                assert(all.contains(reason));
            }
        }
        assert(ctx.cons[m] =~= whole.cons[m]);
    }
    assert(ctx.cons =~= whole.cons);
    assert(ctx.solved =~= whole.solved);
}

} // verus!
