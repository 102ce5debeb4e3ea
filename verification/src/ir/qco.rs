//! QCO-IR: the dependency-graph view of a circuit.
//!
//! Every wire (qubit or classical bit) has an input node and an output node;
//! every instruction is an operation node; edges follow each wire from its
//! input through the operations that touch it, in program order, to its
//! output. The graph itself is a `petgraph` directed graph.
//!
//! Node layout: wire slot `s` (qubits first, then classical bits) has its
//! input at node `2s` and its output at node `2s + 1`; the operation of
//! instruction `i` is node `2W + i`, where `W` is the number of wires.
use vstd::prelude::*;

use petgraph::graph::{EdgeIndex, Graph, NodeIndex};
use petgraph::{Directed, Direction};

use crate::ir::error::IrError;
use crate::ir::qc::{Instruction, InstructionModel};
use crate::ir::types::{ClbitId, QubitId};

verus! {

/// A single wire in the dependency graph: one qubit or one classical bit.
#[derive(Debug, Clone, Copy, PartialEq, Eq, Structural, Hash)]
pub enum Wire {
    /// A qubit wire.
    Qubit(QubitId),
    /// A classical-bit wire.
    Clbit(ClbitId),
}

/// The nature of a dependency edge.
#[derive(Debug, Clone, Copy, PartialEq, Eq, Structural, Hash)]
pub enum DepKind {
    /// Value-flow dependency: the predecessor produced a value the successor
    /// uses.
    Data,
    /// Ordering barrier induced by a state-collapsing operation (measure or
    /// reset).
    Control,
}

/// An edge label: which wire the dependency is on, and its kind.
#[derive(Debug, Clone, Copy, PartialEq, Eq, Structural)]
pub struct Dependency {
    /// The wire carrying the dependency.
    pub wire: Wire,
    /// Data vs. control.
    pub kind: DepKind,
}

/// The abstract value of a node.
pub enum NodeModel {
    /// The start of a wire.
    Input(Wire),
    /// The end of a wire.
    Output(Wire),
    /// The operation of the instruction at program index `index`.
    Op { index: nat, instruction: InstructionModel },
}

/// What a graph node stands for.
#[derive(Debug, PartialEq)]
pub enum NodeKind {
    /// The start of a wire.
    Input(Wire),
    /// The end of a wire.
    Output(Wire),
    /// An instruction, with its index in program order.
    Op {
        /// Program index of the instruction.
        index: usize,
        /// The instruction itself.
        instruction: Instruction,
    },
}

/// A node of the dependency graph.
#[derive(Debug, PartialEq)]
pub struct QcoNode {
    /// What the node stands for.
    pub kind: NodeKind,
}

impl View for QcoNode {
    type V = NodeModel;

    open spec fn view(&self) -> NodeModel {
        match &self.kind {
            NodeKind::Input(w) => NodeModel::Input(*w),
            NodeKind::Output(w) => NodeModel::Output(*w),
            NodeKind::Op { index, instruction } => NodeModel::Op {
                index: *index as nat,
                instruction: instruction@,
            },
        }
    }
}

impl QcoNode {
    /// The program index and instruction of an operation node; `None` for
    /// input and output nodes.
    pub fn as_op(&self) -> (r: Option<(usize, &Instruction)>)
        ensures
            match self@ {
                NodeModel::Op { index, instruction } => r is Some && r.unwrap().0 == index
                    && r.unwrap().1@ == instruction,
                _ => r is None,
            },
    {
        match &self.kind {
            NodeKind::Op { index, instruction } => Some((*index, instruction)),
            _ => None,
        }
    }
}

#[verifier::external_type_specification]
#[verifier::external_body]
#[verifier::reject_recursive_types(N)]
#[verifier::reject_recursive_types(E)]
#[verifier::reject_recursive_types(Ty)]
#[verifier::reject_recursive_types(Ix)]
pub struct ExGraph<N, E, Ty, Ix>(Graph<N, E, Ty, Ix>);

#[verifier::external_type_specification]
#[verifier::external_body]
pub struct ExDirected(Directed);

/// The node weights of a dependency graph, in insertion order: node `k` is
/// the `k`-th node added.
pub uninterp spec fn graph_nodes(g: Graph<QcoNode, Dependency, Directed, u32>) -> Seq<QcoNode>;

/// The edges of a dependency graph as `(source, target, weight)`, in
/// insertion order: edge `e` is the `e`-th edge added.
pub uninterp spec fn graph_edges(g: Graph<QcoNode, Dependency, Directed, u32>) -> Seq<
    (nat, nat, Dependency),
>;

/// The targets of the edges leaving node `k`, most recently added first:
/// the order in which `petgraph` walks a node's outgoing edge list.
pub open spec fn out_targets(edges: Seq<(nat, nat, Dependency)>, k: nat) -> Seq<nat>
    decreases edges.len(),
{
    if edges.len() == 0 {
        Seq::empty()
    } else {
        let rest = out_targets(edges.drop_last(), k);
        if edges.last().0 == k {
            seq![edges.last().1] + rest
        } else {
            rest
        }
    }
}

/// The sources of the edges entering node `k`, most recently added first.
pub open spec fn in_sources(edges: Seq<(nat, nat, Dependency)>, k: nat) -> Seq<nat>
    decreases edges.len(),
{
    if edges.len() == 0 {
        Seq::empty()
    } else {
        let rest = in_sources(edges.drop_last(), k);
        if edges.last().1 == k {
            seq![edges.last().0] + rest
        } else {
            rest
        }
    }
}

/// `Graph::new`: an empty directed graph.
#[verifier::external_body]
fn graph_new() -> (g: Graph<QcoNode, Dependency, Directed, u32>)
    ensures
        graph_nodes(g) == Seq::<QcoNode>::empty(),
        graph_edges(g) == Seq::<(nat, nat, Dependency)>::empty(),
{
    Graph::new()
}

/// `Graph::add_node`: appends a node and returns its index, the old node
/// count. It panics when the index would reach `u32::MAX`, which the
/// precondition rules out.
#[verifier::external_body]
fn graph_add_node(g: &mut Graph<QcoNode, Dependency, Directed, u32>, weight: QcoNode) -> (k: usize)
    requires
        graph_nodes(*old(g)).len() < u32::MAX,
    ensures
        graph_nodes(*final(g)) == graph_nodes(*old(g)).push(weight),
        graph_edges(*final(g)) == graph_edges(*old(g)),
        k == graph_nodes(*old(g)).len(),
    no_unwind
{
    g.add_node(weight).index()
}

/// `Graph::add_edge`: appends the edge `a -> b`. It panics when either node
/// is missing or the edge index would reach `u32::MAX`, which the
/// precondition rules out.
#[verifier::external_body]
fn graph_add_edge(
    g: &mut Graph<QcoNode, Dependency, Directed, u32>,
    a: usize,
    b: usize,
    weight: Dependency,
)
    requires
        a < graph_nodes(*old(g)).len(),
        b < graph_nodes(*old(g)).len(),
        graph_edges(*old(g)).len() < u32::MAX,
    ensures
        graph_nodes(*final(g)) == graph_nodes(*old(g)),
        graph_edges(*final(g)) == graph_edges(*old(g)).push((a as nat, b as nat, weight)),
    no_unwind
{
    g.add_edge(NodeIndex::new(a), NodeIndex::new(b), weight);
}

/// `Graph::node_count`.
#[verifier::external_body]
fn graph_node_count(g: &Graph<QcoNode, Dependency, Directed, u32>) -> (n: usize)
    ensures
        n == graph_nodes(*g).len(),
{
    g.node_count()
}

/// `Graph::edge_count`.
#[verifier::external_body]
fn graph_edge_count(g: &Graph<QcoNode, Dependency, Directed, u32>) -> (n: usize)
    ensures
        n == graph_edges(*g).len(),
{
    g.edge_count()
}

/// Indexing a graph by node: the weight of node `k`.
#[verifier::external_body]
fn graph_node(g: &Graph<QcoNode, Dependency, Directed, u32>, k: usize) -> (w: &QcoNode)
    requires
        k < graph_nodes(*g).len(),
    ensures
        *w == graph_nodes(*g)[k as int],
{
    &g[NodeIndex::new(k)]
}

/// `Graph::edge_endpoints`: the source and target of edge `e`, for an
/// edge that exists (an index is cut to 32 bits, so nothing is claimed of
/// one past the end).
#[verifier::external_body]
fn graph_edge_endpoints(g: &Graph<QcoNode, Dependency, Directed, u32>, e: usize) -> (r: Option<
    (usize, usize),
>)
    requires
        e < graph_edges(*g).len(),
    ensures
        r is Some && r.unwrap().0 == graph_edges(*g)[e as int].0 && r.unwrap().1 == graph_edges(
            *g,
        )[e as int].1,
{
    match g.edge_endpoints(EdgeIndex::new(e)) {
        Some((a, b)) => Some((a.index(), b.index())),
        None => None,
    }
}

/// Indexing a graph by edge: the weight of edge `e`.
#[verifier::external_body]
fn graph_edge_weight(g: &Graph<QcoNode, Dependency, Directed, u32>, e: usize) -> (w: Dependency)
    requires
        e < graph_edges(*g).len(),
    ensures
        w == graph_edges(*g)[e as int].2,
{
    g[EdgeIndex::new(e)]
}

/// `Graph::neighbors_directed` with `Outgoing`: the targets of node `k`'s
/// outgoing edges, most recently added first, one entry per edge.
#[verifier::external_body]
fn graph_successors(g: &Graph<QcoNode, Dependency, Directed, u32>, k: usize) -> (r: Vec<usize>)
    requires
        k < graph_nodes(*g).len(),
    ensures
        r@.map_values(|x: usize| x as nat) == out_targets(graph_edges(*g), k as nat),
{
    g.neighbors_directed(NodeIndex::new(k), Direction::Outgoing).map(|n| n.index()).collect()
}

/// `Graph::neighbors_directed` with `Incoming`: the sources of node `k`'s
/// incoming edges, most recently added first, one entry per edge.
#[verifier::external_body]
fn graph_predecessors(g: &Graph<QcoNode, Dependency, Directed, u32>, k: usize) -> (r: Vec<usize>)
    requires
        k < graph_nodes(*g).len(),
    ensures
        r@.map_values(|x: usize| x as nat) == in_sources(graph_edges(*g), k as nat),
{
    g.neighbors_directed(NodeIndex::new(k), Direction::Incoming).map(|n| n.index()).collect()
}

/// `Graph::neighbors_directed` with `Incoming`, counted: how many edges
/// enter node `k`.
#[verifier::external_body]
fn graph_in_degree(g: &Graph<QcoNode, Dependency, Directed, u32>, k: usize) -> (n: usize)
    requires
        k < graph_nodes(*g).len(),
    ensures
        n == in_sources(graph_edges(*g), k as nat).len(),
{
    g.neighbors_directed(NodeIndex::new(k), Direction::Incoming).count()
}


/// Number of wires: qubits, then classical bits.
pub open spec fn wire_total(num_qubits: u32, num_clbits: u32) -> nat {
    num_qubits as nat + num_clbits as nat
}

/// The wire in slot `s`: qubits take the first slots, classical bits the rest.
pub open spec fn wire_at(s: nat, num_qubits: u32) -> Wire {
    if s < num_qubits {
        Wire::Qubit(QubitId(s as u32))
    } else {
        Wire::Clbit(ClbitId((s - num_qubits) as u32))
    }
}

/// The slot of a wire.
pub open spec fn wire_slot(w: Wire, num_qubits: u32) -> nat {
    match w {
        Wire::Qubit(q) => q.0 as nat,
        Wire::Clbit(c) => num_qubits as nat + c.0 as nat,
    }
}

/// Whether a wire belongs to the registers.
pub open spec fn wire_valid(w: Wire, num_qubits: u32, num_clbits: u32) -> bool {
    match w {
        Wire::Qubit(q) => q.0 < num_qubits,
        Wire::Clbit(c) => c.0 < num_clbits,
    }
}

/// The input/output node at position `k < 2W`: inputs at even positions,
/// outputs at odd ones, two per wire slot.
pub open spec fn io_node(k: nat, num_qubits: u32) -> NodeModel {
    if k % 2 == 0 {
        NodeModel::Input(wire_at(k / 2, num_qubits))
    } else {
        NodeModel::Output(wire_at(k / 2, num_qubits))
    }
}

/// The input and output nodes of all wires, in slot order.
pub open spec fn io_nodes(num_qubits: u32, num_clbits: u32) -> Seq<NodeModel> {
    Seq::new(2 * wire_total(num_qubits, num_clbits), |k: int| io_node(k as nat, num_qubits))
}

/// Whether an edge `a -> b` runs forward: it leaves an input or an
/// operation, enters an operation or an output, and between two operations
/// it follows program order. `w` is the number of wires.
pub open spec fn edge_forward(a: nat, b: nat, w: nat) -> bool {
    &&& ((a < 2 * w && a % 2 == 0) || a >= 2 * w)
    &&& ((b < 2 * w && b % 2 == 1) || b >= 2 * w)
    &&& (a >= 2 * w && b >= 2 * w) ==> a < b
}

/// The abstract value of a [`QcoCircuit`].
pub struct QcoModel {
    /// The circuit's name.
    pub name: Seq<char>,
    /// Declared qubit-register width.
    pub num_qubits: u32,
    /// Declared classical-register width.
    pub num_clbits: u32,
    /// The nodes, by index.
    pub nodes: Seq<NodeModel>,
    /// The edges `(source, target, label)`, in insertion order.
    pub edges: Seq<(nat, nat, Dependency)>,
}

/// The shape every dependency graph keeps: the input/output nodes first,
/// then one operation node per instruction in program order, and only
/// forward edges between existing nodes.
pub open spec fn qco_wf(m: QcoModel) -> bool {
    let w = wire_total(m.num_qubits, m.num_clbits);
    &&& 2 * w <= m.nodes.len() <= u32::MAX
    &&& m.edges.len() <= u32::MAX
    &&& forall|k: int| 0 <= k < 2 * w ==> m.nodes[k] == io_node(k as nat, m.num_qubits)
    &&& forall|k: int|
        2 * w <= k < m.nodes.len() ==> (#[trigger] m.nodes[k] is Op && m.nodes[k]->index == k - 2
            * w)
    &&& forall|e: int|
        0 <= e < m.edges.len() ==> (#[trigger] m.edges[e]).0 < m.nodes.len() && m.edges[e].1
            < m.nodes.len() && edge_forward(m.edges[e].0, m.edges[e].1, w)
}

/// The position of node `k` in the canonical topological order of a graph
/// with `w` wires and `n` nodes: inputs first, then operations in program
/// order, then outputs, each group in slot order.
pub open spec fn node_pos(k: nat, w: nat, n: nat) -> nat {
    if k >= 2 * w {
        (w + (k - 2 * w)) as nat
    } else if k % 2 == 0 {
        k / 2
    } else {
        ((n - 2 * w) + w + k / 2) as nat
    }
}

/// The canonical topological order itself: the node at each position.
pub open spec fn topo_order(w: nat, n: nat) -> Seq<nat> {
    Seq::new(
        n,
        |p: int|
            if p < w {
                (2 * p) as nat
            } else if p < n - w {
                (2 * w + (p - w)) as nat
            } else {
                (2 * (p - (n - w)) + 1) as nat
            },
    )
}

/// How many times `k` occurs in `s`.
pub open spec fn count_of(s: Seq<nat>, k: nat) -> nat
    decreases s.len(),
{
    if s.len() == 0 {
        0
    } else {
        (if s[0] == k {
            1nat
        } else {
            0nat
        }) + count_of(s.drop_first(), k)
    }
}

/// How many edges enter `k` from nodes at position `p` or later.
pub open spec fn in_count_from(edges: Seq<(nat, nat, Dependency)>, k: nat, p: nat, w: nat, n: nat) -> nat
    decreases edges.len(),
{
    if edges.len() == 0 {
        0
    } else {
        (if edges.last().1 == k && node_pos(edges.last().0, w, n) >= p {
            1nat
        } else {
            0nat
        }) + in_count_from(edges.drop_last(), k, p, w, n)
    }
}

/// `node_pos` and `topo_order` are inverse bijections on `0..n`.
pub proof fn lemma_pos_order(w: nat, n: nat)
    requires
        2 * w <= n,
    ensures
        forall|k: nat|
            k < n ==> #[trigger] node_pos(k, w, n) < n && topo_order(w, n)[node_pos(k, w, n) as int]
                == k,
        forall|p: int| 0 <= p < n ==> #[trigger] topo_order(w, n)[p] < n && node_pos(topo_order(w, n)[p], w, n) == p,
{
    assert forall|k: nat| k < n implies #[trigger] node_pos(k, w, n) < n && topo_order(w, n)[node_pos(
        k,
        w,
        n,
    ) as int] == k by {
        if k < 2 * w {
            if k % 2 == 0 {
                assert(2 * (k / 2) == k);
            } else {
                assert(2 * (k / 2) + 1 == k);
            }
        }
    }
    assert forall|p: int| 0 <= p < n implies #[trigger] topo_order(w, n)[p] < n && node_pos(
        topo_order(w, n)[p],
        w,
        n,
    ) == p by {
        if p < w {
            assert((2 * p) % 2 == 0);
            assert((2 * p) / 2 == p);
        } else if p >= n - w {
            let k = 2 * (p - (n - w)) + 1;
            assert(k % 2 == 1);
            assert(k / 2 == p - (n - w));
        }
    }
}

/// A forward edge climbs the canonical order.
pub proof fn lemma_forward_pos(a: nat, b: nat, w: nat, n: nat)
    requires
        2 * w <= n,
        a < n,
        b < n,
        edge_forward(a, b, w),
    ensures
        node_pos(a, w, n) < node_pos(b, w, n),
{
}

/// `count_of` on a sequence with a known head.
pub proof fn lemma_count_prepend(x: nat, s: Seq<nat>, k: nat)
    ensures
        count_of(seq![x] + s, k) == (if x == k {
            1nat
        } else {
            0nat
        }) + count_of(s, k),
{
    assert((seq![x] + s).drop_first() =~= s);
}

/// The in-degree `petgraph` reports counts every entering edge.
pub proof fn lemma_in_degree(edges: Seq<(nat, nat, Dependency)>, k: nat, w: nat, n: nat)
    ensures
        in_sources(edges, k).len() == in_count_from(edges, k, 0, w, n),
    decreases edges.len(),
{
    if edges.len() > 0 {
        lemma_in_degree(edges.drop_last(), k, w, n);
    }
}

/// Moving past the node `t` at position `p` removes exactly its outgoing
/// edges from every in-count.
pub proof fn lemma_in_count_step(
    edges: Seq<(nat, nat, Dependency)>,
    k: nat,
    t: nat,
    p: nat,
    w: nat,
    n: nat,
)
    requires
        2 * w <= n,
        t < n,
        node_pos(t, w, n) == p,
        forall|e: int| 0 <= e < edges.len() ==> (#[trigger] edges[e]).0 < n,
    ensures
        in_count_from(edges, k, p, w, n) == in_count_from(edges, k, p + 1, w, n) + count_of(
            out_targets(edges, t),
            k,
        ),
    decreases edges.len(),
{
    if edges.len() > 0 {
        let rest = edges.drop_last();
        assert forall|e: int| 0 <= e < rest.len() implies (#[trigger] rest[e]).0 < n by {
            assert(rest[e] == edges[e]);
        }
        lemma_in_count_step(rest, k, t, p, w, n);
        let last = edges.last();
        assert(edges[edges.len() - 1] == last);
        lemma_pos_order(w, n);
        if node_pos(last.0, w, n) == p {
            assert(topo_order(w, n)[node_pos(last.0, w, n) as int] == last.0);
            assert(last.0 == t);
        }
        if last.0 == t {
            lemma_count_prepend(last.1, out_targets(rest, t), k);
        }
    }
}

/// Nothing enters a node from at or after its own position when every edge
/// climbs the order.
pub proof fn lemma_in_count_zero(edges: Seq<(nat, nat, Dependency)>, t: nat, w: nat, n: nat)
    requires
        2 * w <= n,
        t < n,
        forall|e: int|
            0 <= e < edges.len() ==> (#[trigger] edges[e]).0 < n && edges[e].1 < n && edge_forward(
                edges[e].0,
                edges[e].1,
                w,
            ),
    ensures
        in_count_from(edges, t, node_pos(t, w, n), w, n) == 0,
    decreases edges.len(),
{
    if edges.len() > 0 {
        let rest = edges.drop_last();
        assert forall|e: int| 0 <= e < rest.len() implies (#[trigger] rest[e]).0 < n && rest[e].1 < n
            && edge_forward(rest[e].0, rest[e].1, w) by {
            assert(rest[e] == edges[e]);
        }
        lemma_in_count_zero(rest, t, w, n);
        let last = edges.last();
        assert(edges[edges.len() - 1] == last);
        lemma_forward_pos(last.0, last.1, w, n);
    }
}

/// A successor sits later in the order than its source.
pub proof fn lemma_out_targets_later(edges: Seq<(nat, nat, Dependency)>, t: nat, w: nat, n: nat)
    requires
        2 * w <= n,
        forall|e: int|
            0 <= e < edges.len() ==> (#[trigger] edges[e]).0 < n && edges[e].1 < n && edge_forward(
                edges[e].0,
                edges[e].1,
                w,
            ),
    ensures
        forall|j: int|
            0 <= j < out_targets(edges, t).len() ==> #[trigger] out_targets(edges, t)[j] < n
                && node_pos(t, w, n) < node_pos(out_targets(edges, t)[j], w, n),
    decreases edges.len(),
{
    if edges.len() > 0 {
        let rest = edges.drop_last();
        assert forall|e: int| 0 <= e < rest.len() implies (#[trigger] rest[e]).0 < n && rest[e].1 < n
            && edge_forward(rest[e].0, rest[e].1, w) by {
            assert(rest[e] == edges[e]);
        }
        lemma_out_targets_later(rest, t, w, n);
        let last = edges.last();
        assert(edges[edges.len() - 1] == last);
        if last.0 == t {
            lemma_forward_pos(last.0, last.1, w, n);
            let s = out_targets(edges, t);
            assert forall|j: int| 0 <= j < s.len() implies #[trigger] s[j] < n && node_pos(t, w, n) < node_pos(
                s[j],
                w,
                n,
            ) by {
                if j > 0 {
                    assert(s[j] == out_targets(rest, t)[j - 1]);
                }
            }
        }
    }
}

/// An element occurring in `s` at index `j` is counted there.
pub proof fn lemma_count_at(s: Seq<nat>, j: int)
    requires
        0 <= j < s.len(),
    ensures
        count_of(s.subrange(j, s.len() as int), s[j]) >= 1,
        count_of(s.subrange(j, s.len() as int), s[j]) == 1 + count_of(
            s.subrange(j + 1, s.len() as int),
            s[j],
        ),
        forall|k: nat|
            k != s[j] ==> #[trigger] count_of(s.subrange(j, s.len() as int), k) == count_of(
                s.subrange(j + 1, s.len() as int),
                k,
            ),
{
    let tail = s.subrange(j, s.len() as int);
    assert(tail.drop_first() =~= s.subrange(j + 1, s.len() as int));
    assert(tail[0] == s[j]);
}

/// Whether a list of nodes is strictly increasing in the canonical order.
pub open spec fn pos_sorted(s: Seq<usize>, w: nat, n: nat) -> bool {
    forall|i: int, j: int|
        0 <= i < j < s.len() ==> node_pos(#[trigger] s[i] as nat, w, n) < node_pos(
            #[trigger] s[j] as nat,
            w,
            n,
        )
}

/// The instructions of the operation nodes, in program order.
pub open spec fn linear_ops(m: QcoModel) -> Seq<InstructionModel> {
    let w = wire_total(m.num_qubits, m.num_clbits);
    Seq::new((m.nodes.len() - 2 * w) as nat, |i: int| m.nodes[2 * w + i]->instruction)
}

/// The ASAP level a node gets from its predecessors, given the levels of
/// the positions before it: one above the highest operation among them, or
/// 0 when it depends only on inputs.
pub open spec fn pred_level(m: QcoModel, srcs: Seq<nat>, prev: Seq<nat>) -> nat
    decreases srcs.len(),
{
    if srcs.len() == 0 {
        0
    } else {
        let rest = pred_level(m, srcs.drop_last(), prev);
        let s = srcs.last();
        let w = wire_total(m.num_qubits, m.num_clbits);
        let here: nat = if m.nodes[s as int] is Op {
            prev[node_pos(s, w, m.nodes.len()) as int] + 1
        } else {
            0
        };
        if here > rest {
            here
        } else {
            rest
        }
    }
}

/// The ASAP levels of the first `p` positions of the canonical order:
/// operations by their predecessors, inputs and outputs at 0.
pub open spec fn asap_levels(m: QcoModel, p: nat) -> Seq<nat>
    decreases p,
{
    if p == 0 {
        Seq::empty()
    } else {
        let prev = asap_levels(m, (p - 1) as nat);
        let w = wire_total(m.num_qubits, m.num_clbits);
        let k = topo_order(w, m.nodes.len())[p - 1];
        prev.push(
            if m.nodes[k as int] is Op {
                pred_level(m, in_sources(m.edges, k), prev)
            } else {
                0
            },
        )
    }
}

/// The ASAP level of the operation of instruction `i`.
pub open spec fn op_level(m: QcoModel, i: nat) -> nat {
    let w = wire_total(m.num_qubits, m.num_clbits);
    asap_levels(m, m.nodes.len())[(w + i) as int]
}

/// How many levels the first `i` operations span.
pub open spec fn level_count(m: QcoModel, i: nat) -> nat
    decreases i,
{
    if i == 0 {
        0
    } else {
        let rest = level_count(m, (i - 1) as nat);
        if op_level(m, (i - 1) as nat) + 1 > rest {
            op_level(m, (i - 1) as nat) + 1
        } else {
            rest
        }
    }
}

/// The program indices among the first `i` operations at level `d`, in
/// program order.
pub open spec fn ops_at(m: QcoModel, d: nat, i: nat) -> Seq<usize>
    decreases i,
{
    if i == 0 {
        Seq::empty()
    } else if op_level(m, (i - 1) as nat) == d {
        ops_at(m, d, (i - 1) as nat).push((i - 1) as usize)
    } else {
        ops_at(m, d, (i - 1) as nat)
    }
}

/// Whether some edge runs from `a` to `b`.
pub open spec fn has_edge(edges: Seq<(nat, nat, Dependency)>, a: nat, b: nat) -> bool {
    exists|e: int| 0 <= e < edges.len() && edges[e].0 == a && edges[e].1 == b
}

/// Every listed source of an edge into `k` is the source of such an edge.
pub proof fn lemma_in_sources_edges(edges: Seq<(nat, nat, Dependency)>, k: nat)
    ensures
        forall|j: int|
            0 <= j < in_sources(edges, k).len() ==> has_edge(edges, #[trigger] in_sources(edges, k)[j], k),
    decreases edges.len(),
{
    if edges.len() > 0 {
        let rest = edges.drop_last();
        lemma_in_sources_edges(rest, k);
        let s = in_sources(edges, k);
        assert forall|j: int| 0 <= j < s.len() implies has_edge(edges, #[trigger] s[j], k) by {
            if edges.last().1 == k && j == 0 {
                assert(edges[edges.len() - 1].0 == s[0]);
            } else {
                let jr = if edges.last().1 == k { j - 1 } else { j };
                assert(s[j] == in_sources(rest, k)[jr]);
                assert(has_edge(rest, in_sources(rest, k)[jr], k));
                let e = choose|e: int| 0 <= e < rest.len() && rest[e].0 == in_sources(rest, k)[jr] && rest[e].1 == k;
                assert(edges[e] == rest[e]);
            }
        }
    }
}

/// A level read from earlier positions is at most the position reading it.
pub proof fn lemma_pred_level_bound(m: QcoModel, srcs: Seq<nat>, prev: Seq<nat>, q: nat)
    requires
        forall|j: int|
            0 <= j < srcs.len() && m.nodes[#[trigger] srcs[j] as int] is Op ==> prev[node_pos(
                srcs[j],
                wire_total(m.num_qubits, m.num_clbits),
                m.nodes.len(),
            ) as int] + 1 <= q,
    ensures
        pred_level(m, srcs, prev) <= q,
    decreases srcs.len(),
{
    if srcs.len() > 0 {
        let rest = srcs.drop_last();
        assert forall|j: int| 0 <= j < rest.len() && m.nodes[#[trigger] rest[j] as int] is Op implies prev[node_pos(
            rest[j],
            wire_total(m.num_qubits, m.num_clbits),
            m.nodes.len(),
        ) as int] + 1 <= q by {
            assert(rest[j] == srcs[j]);
        }
        lemma_pred_level_bound(m, rest, prev, q);
        assert(srcs[srcs.len() - 1] == srcs.last());
    }
}

/// In a well-formed graph every level is at most its position, and the
/// levels of a prefix never change as positions are added.
pub proof fn lemma_levels(m: QcoModel, p: nat)
    requires
        qco_wf(m),
        p <= m.nodes.len(),
    ensures
        asap_levels(m, p).len() == p,
        forall|q: int| 0 <= q < p ==> #[trigger] asap_levels(m, p)[q] <= q,
        forall|p2: nat, q: int| p2 <= p && 0 <= q < p2 ==> #[trigger] asap_levels(m, p2)[q] == asap_levels(m, p)[q],
    decreases p,
{
    if p > 0 {
        let pm = (p - 1) as nat;
        lemma_levels(m, pm);
        let w = wire_total(m.num_qubits, m.num_clbits);
        let n = m.nodes.len();
        let prev = asap_levels(m, pm);
        lemma_pos_order(w, n);
        let k = topo_order(w, n)[pm as int];
        assert(node_pos(k, w, n) == pm);
        if m.nodes[k as int] is Op {
            let srcs = in_sources(m.edges, k);
            lemma_in_sources_edges(m.edges, k);
            assert forall|j: int| 0 <= j < srcs.len() && m.nodes[#[trigger] srcs[j] as int] is Op implies prev[node_pos(
                srcs[j],
                w,
                n,
            ) as int] + 1 <= pm by {
                assert(has_edge(m.edges, srcs[j], k));
                let e = choose|e: int| 0 <= e < m.edges.len() && m.edges[e].0 == srcs[j] && m.edges[e].1 == k;
                assert(edge_forward(m.edges[e].0, m.edges[e].1, w));
                lemma_forward_pos(m.edges[e].0, m.edges[e].1, w, n);
                assert(prev[node_pos(srcs[j], w, n) as int] <= node_pos(srcs[j], w, n));
            }
            lemma_pred_level_bound(m, srcs, prev, pm);
        }
        assert forall|p2: nat, q: int| p2 <= p && 0 <= q < p2 implies #[trigger] asap_levels(m, p2)[q] == asap_levels(m, p)[q] by {
            if p2 < p {
                assert(asap_levels(m, p2)[q] == asap_levels(m, pm)[q]);
            }
        }
    }
}

/// How many of the first `p` positions of the canonical order hold
/// operations.
pub open spec fn ops_before(p: nat, w: nat, n: nat) -> nat {
    if p <= w {
        0
    } else if p <= n - w {
        (p - w) as nat
    } else {
        (n - 2 * w) as nat
    }
}

/// A level with an operation is below the level count.
pub proof fn lemma_ops_at_count(m: QcoModel, d: nat, i: nat)
    ensures
        ops_at(m, d, i).len() > 0 ==> d < level_count(m, i),
        ops_at(m, d, i).len() <= i,
    decreases i,
{
    if i > 0 {
        lemma_ops_at_count(m, d, (i - 1) as nat);
    }
}

/// A handle on a node of a [`QcoCircuit`].
#[derive(Debug, Clone, Copy, PartialEq, Eq, Hash)]
pub struct NodeRef(usize);

impl View for NodeRef {
    type V = nat;

    closed spec fn view(&self) -> nat {
        self.0 as nat
    }
}

/// A circuit as a dependency graph. See the [module docs](self).
pub struct QcoCircuit {
    name: String,
    num_qubits: u32,
    num_clbits: u32,
    graph: Graph<QcoNode, Dependency, Directed, u32>,
    inputs: Vec<usize>,
    outputs: Vec<usize>,
}

impl View for QcoCircuit {
    type V = QcoModel;

    closed spec fn view(&self) -> QcoModel {
        QcoModel {
            name: self.name@,
            num_qubits: self.num_qubits,
            num_clbits: self.num_clbits,
            nodes: graph_nodes(self.graph).map_values(|n: QcoNode| n@),
            edges: graph_edges(self.graph),
        }
    }
}

impl QcoCircuit {
    #[verifier::type_invariant]
    closed spec fn inv(self) -> bool {
        let w = wire_total(self.num_qubits, self.num_clbits);
        &&& qco_wf(self@)
        &&& self.inputs@.len() == w
        &&& self.outputs@.len() == w
        &&& forall|s: int| 0 <= s < w ==> #[trigger] self.inputs@[s] == 2 * s
        &&& forall|s: int| 0 <= s < w ==> #[trigger] self.outputs@[s] == 2 * s + 1
    }

    /// Every dependency graph keeps its shape: a no-op at run time that
    /// brings [`qco_wf`] into a caller's proof.
    pub(crate) fn lemma_wf(&self)
        ensures
            qco_wf(self@),
    {
        proof {
            use_type_invariant(self);
        }
    }

    /// A graph with an input and an output node for every wire and nothing
    /// else.
    pub(crate) fn with_registers(name: &str, num_qubits: u32, num_clbits: u32) -> (r: Self)
        requires
            2 * wire_total(num_qubits, num_clbits) <= u32::MAX,
        ensures
            r@ == (QcoModel {
                name: name@,
                num_qubits,
                num_clbits,
                nodes: io_nodes(num_qubits, num_clbits),
                edges: Seq::empty(),
            }),
    {
        let mut graph = graph_new();
        let mut inputs: Vec<usize> = Vec::new();
        let mut outputs: Vec<usize> = Vec::new();
        let ghost total = wire_total(num_qubits, num_clbits);
        let mut q: u32 = 0;
        while q < num_qubits
            invariant
                q <= num_qubits,
                2 * total <= u32::MAX,
                total == wire_total(num_qubits, num_clbits),
                graph_nodes(graph).map_values(|n: QcoNode| n@) =~= Seq::new(
                    2 * q as nat,
                    |k: int| io_node(k as nat, num_qubits),
                ),
                graph_nodes(graph).len() == 2 * q as nat,
                graph_edges(graph) == Seq::<(nat, nat, Dependency)>::empty(),
                inputs@ =~= Seq::new(q as nat, |s: int| (2 * s) as usize),
                outputs@ =~= Seq::new(q as nat, |s: int| (2 * s + 1) as usize),
            decreases num_qubits - q,
        {
            let wire = Wire::Qubit(QubitId(q));
            let ghost before = graph_nodes(graph);
            let k_in = graph_add_node(&mut graph, QcoNode { kind: NodeKind::Input(wire) });
            let k_out = graph_add_node(&mut graph, QcoNode { kind: NodeKind::Output(wire) });
            inputs.push(k_in);
            outputs.push(k_out);
            proof {
                assert(wire_at(q as nat, num_qubits) == wire);
                assert(io_node(2 * q as nat, num_qubits) == NodeModel::Input(wire));
                assert(io_node(2 * q as nat + 1, num_qubits) == NodeModel::Output(wire));
                assert(graph_nodes(graph).map_values(|n: QcoNode| n@) =~= before.map_values(
                    |n: QcoNode| n@,
                ).push(NodeModel::Input(wire)).push(NodeModel::Output(wire)));
            }
            q += 1;
        }
        let mut c: u32 = 0;
        while c < num_clbits
            invariant
                c <= num_clbits,
                2 * total <= u32::MAX,
                total == wire_total(num_qubits, num_clbits),
                graph_nodes(graph).map_values(|n: QcoNode| n@) =~= Seq::new(
                    2 * (num_qubits + c) as nat,
                    |k: int| io_node(k as nat, num_qubits),
                ),
                graph_nodes(graph).len() == 2 * (num_qubits + c) as nat,
                graph_edges(graph) == Seq::<(nat, nat, Dependency)>::empty(),
                inputs@ =~= Seq::new((num_qubits + c) as nat, |s: int| (2 * s) as usize),
                outputs@ =~= Seq::new((num_qubits + c) as nat, |s: int| (2 * s + 1) as usize),
            decreases num_clbits - c,
        {
            let wire = Wire::Clbit(ClbitId(c));
            let ghost before = graph_nodes(graph);
            let ghost slot = num_qubits as nat + c as nat;
            let k_in = graph_add_node(&mut graph, QcoNode { kind: NodeKind::Input(wire) });
            let k_out = graph_add_node(&mut graph, QcoNode { kind: NodeKind::Output(wire) });
            inputs.push(k_in);
            outputs.push(k_out);
            proof {
                assert(wire_at(slot, num_qubits) == wire);
                assert((2 * slot) / 2 == slot);
                assert((2 * slot + 1) / 2 == slot);
                assert(io_node(2 * slot, num_qubits) == NodeModel::Input(wire));
                assert(io_node(2 * slot + 1, num_qubits) == NodeModel::Output(wire));
                assert(graph_nodes(graph).map_values(|n: QcoNode| n@) =~= before.map_values(
                    |n: QcoNode| n@,
                ).push(NodeModel::Input(wire)).push(NodeModel::Output(wire)));
            }
            c += 1;
        }
        let r = QcoCircuit {
            name: name.to_string(),
            num_qubits,
            num_clbits,
            graph,
            inputs,
            outputs,
        };
        proof {
            assert(r@.nodes =~= io_nodes(num_qubits, num_clbits));
        }
        r
    }

    /// Appends the operation node of the instruction at program index
    /// `index`, which must be the next one.
    pub(crate) fn add_op(self, index: usize, instruction: Instruction) -> (r: (Self, NodeRef))
        requires
            self@.nodes.len() < u32::MAX,
            index == self@.nodes.len() - 2 * wire_total(self@.num_qubits, self@.num_clbits),
        ensures
            r.0@.name == self@.name,
            r.0@.num_qubits == self@.num_qubits,
            r.0@.num_clbits == self@.num_clbits,
            r.0@.nodes == self@.nodes.push(
                NodeModel::Op { index: index as nat, instruction: instruction@ },
            ),
            r.0@.edges == self@.edges,
            r.1@ == self@.nodes.len(),
    {
        proof {
            use_type_invariant(&self);
        }
        let ghost old_view = self@;
        let QcoCircuit { name, num_qubits, num_clbits, mut graph, inputs, outputs } = self;
        let ghost before = graph_nodes(graph);
        let node = QcoNode { kind: NodeKind::Op { index, instruction } };
        let k = graph_add_node(&mut graph, node);
        let ghost w = wire_total(num_qubits, num_clbits);
        proof {
            let nodes = graph_nodes(graph).map_values(|n: QcoNode| n@);
            assert(nodes =~= before.map_values(|n: QcoNode| n@).push(
                NodeModel::Op { index: index as nat, instruction: instruction@ },
            ));
            assert(nodes =~= old_view.nodes.push(
                NodeModel::Op { index: index as nat, instruction: instruction@ },
            ));
            assert forall|j: int| 2 * w <= j < nodes.len() implies (#[trigger] nodes[j] is Op
                && nodes[j]->index == j - 2 * w) by {
                if j < nodes.len() - 1 {
                    assert(nodes[j] == old_view.nodes[j]);
                }
            }
        }
        let r = QcoCircuit { name, num_qubits, num_clbits, graph, inputs, outputs };
        (r, NodeRef(k))
    }

    /// Appends the edge `from -> to` on `wire`.
    pub(crate) fn add_dependency(&mut self, from: NodeRef, to: NodeRef, wire: Wire, kind: DepKind)
        requires
            from@ < old(self)@.nodes.len(),
            to@ < old(self)@.nodes.len(),
            old(self)@.edges.len() < u32::MAX,
            edge_forward(from@, to@, wire_total(old(self)@.num_qubits, old(self)@.num_clbits)),
        ensures
            final(self)@.name == old(self)@.name,
            final(self)@.num_qubits == old(self)@.num_qubits,
            final(self)@.num_clbits == old(self)@.num_clbits,
            final(self)@.nodes == old(self)@.nodes,
            final(self)@.edges == old(self)@.edges.push((from@, to@, Dependency { wire, kind })),
    {
        proof {
            use_type_invariant(&*self);
        }
        graph_add_edge(&mut self.graph, from.0, to.0, Dependency { wire, kind });
    }

    /// The input node of a wire of the registers.
    pub(crate) fn input_ref(&self, wire: Wire) -> (r: NodeRef)
        requires
            wire_valid(wire, self@.num_qubits, self@.num_clbits),
        ensures
            r@ == 2 * wire_slot(wire, self@.num_qubits),
    {
        proof {
            use_type_invariant(self);
        }
        let slot = self.slot_of(wire);
        NodeRef(self.inputs[slot])
    }

    /// The output node of a wire of the registers.
    pub(crate) fn output_ref(&self, wire: Wire) -> (r: NodeRef)
        requires
            wire_valid(wire, self@.num_qubits, self@.num_clbits),
        ensures
            r@ == 2 * wire_slot(wire, self@.num_qubits) + 1,
    {
        proof {
            use_type_invariant(self);
        }
        let slot = self.slot_of(wire);
        NodeRef(self.outputs[slot])
    }

    fn slot_of(&self, wire: Wire) -> (r: usize)
        requires
            wire_valid(wire, self@.num_qubits, self@.num_clbits),
        ensures
            r == wire_slot(wire, self@.num_qubits),
            r < wire_total(self@.num_qubits, self@.num_clbits),
    {
        match wire {
            Wire::Qubit(q) => q.0 as usize,
            Wire::Clbit(c) => {
                proof {
                    use_type_invariant(self);
                }
                self.num_qubits as usize + c.0 as usize
            },
        }
    }

    /// The circuit's name.
    pub fn name(&self) -> (r: &str)
        ensures
            r@ == self@.name,
    {
        self.name.as_str()
    }

    /// Declared qubit-register width.
    pub fn num_qubits(&self) -> (r: u32)
        ensures
            r == self@.num_qubits,
    {
        self.num_qubits
    }

    /// Declared classical-register width.
    pub fn num_clbits(&self) -> (r: u32)
        ensures
            r == self@.num_clbits,
    {
        self.num_clbits
    }

    /// Number of operation nodes (excludes input/output nodes).
    pub fn op_count(&self) -> (r: usize)
        ensures
            r == self@.nodes.len() - 2 * wire_total(self@.num_qubits, self@.num_clbits),
    {
        proof {
            use_type_invariant(self);
        }
        let ghost w = wire_total(self@.num_qubits, self@.num_clbits);
        let n = graph_node_count(&self.graph);
        let mut count: usize = 0;
        let mut k: usize = 0;
        while k < n
            invariant
                n == self@.nodes.len(),
                qco_wf(self@),
                w == wire_total(self@.num_qubits, self@.num_clbits),
                k <= n,
                count == if k <= 2 * w { 0 } else { k - 2 * w },
            decreases n - k,
        {
            let node = graph_node(&self.graph, k);
            proof {
                assert(self@.nodes[k as int] == node@);
                if k < 2 * w {
                    assert(self@.nodes[k as int] == io_node(k as nat, self@.num_qubits));
                } else {
                    assert(self@.nodes[k as int] is Op);
                }
            }
            if let NodeKind::Op { .. } = &node.kind {
                count += 1;
            }
            k += 1;
        }
        count
    }

    /// Every node, by index.
    pub fn nodes(&self) -> (r: Vec<&QcoNode>)
        ensures
            r@.len() == self@.nodes.len(),
            forall|k: int| 0 <= k < r@.len() ==> (#[trigger] r@[k])@ == self@.nodes[k],
    {
        let n = graph_node_count(&self.graph);
        let mut out: Vec<&QcoNode> = Vec::new();
        let mut k: usize = 0;
        while k < n
            invariant
                n == self@.nodes.len(),
                k <= n,
                out@.len() == k,
                forall|j: int| 0 <= j < k ==> (#[trigger] out@[j])@ == self@.nodes[j],
            decreases n - k,
        {
            out.push(graph_node(&self.graph, k));
            k += 1;
        }
        out
    }

    /// Every edge as `(source node, target node, label)`, in insertion order.
    pub fn dependencies(&self) -> (r: Vec<(&QcoNode, &QcoNode, Dependency)>)
        ensures
            r@.len() == self@.edges.len(),
            forall|e: int|
                0 <= e < r@.len() ==> {
                    &&& (#[trigger] r@[e]).0@ == self@.nodes[self@.edges[e].0 as int]
                    &&& r@[e].1@ == self@.nodes[self@.edges[e].1 as int]
                    &&& r@[e].2 == self@.edges[e].2
                },
    {
        proof {
            use_type_invariant(self);
        }
        let m = graph_edge_count(&self.graph);
        let mut out: Vec<(&QcoNode, &QcoNode, Dependency)> = Vec::new();
        let mut e: usize = 0;
        while e < m
            invariant
                m == self@.edges.len(),
                qco_wf(self@),
                e <= m,
                out@.len() == e,
                forall|j: int|
                    0 <= j < e ==> {
                        &&& (#[trigger] out@[j]).0@ == self@.nodes[self@.edges[j].0 as int]
                        &&& out@[j].1@ == self@.nodes[self@.edges[j].1 as int]
                        &&& out@[j].2 == self@.edges[j].2
                    },
            decreases m - e,
        {
            proof {
                assert(self@.edges[e as int].0 < self@.nodes.len());
            }
            if let Some((a, b)) = graph_edge_endpoints(&self.graph, e) {
                let dep = graph_edge_weight(&self.graph, e);
                out.push((graph_node(&self.graph, a), graph_node(&self.graph, b), dep));
            }
            e += 1;
        }
        out
    }

    /// The operations in a stable topological order, as `(program index,
    /// instruction)`: for a dependency graph this is program order.
    ///
    /// # Errors
    ///
    /// [`IrError::CyclicGraph`] if the graph has a cycle, which no
    /// dependency graph has.
    pub fn topological_ops(&self) -> (r: Result<Vec<(usize, &Instruction)>, IrError>)
        ensures
            r is Ok,
            r matches Ok(ops) ==> {
                &&& ops@.len() == linear_ops(self@).len()
                &&& forall|i: int|
                    0 <= i < ops@.len() ==> (#[trigger] ops@[i]).0 == i && ops@[i].1@ == linear_ops(
                        self@,
                    )[i]
            },
    {
        proof {
            use_type_invariant(self);
        }
        let ghost w = wire_total(self@.num_qubits, self@.num_clbits);
        let ghost n = self@.nodes.len();
        let order = self.stable_toposort()?;
        let mut out: Vec<(usize, &Instruction)> = Vec::new();
        let mut p: usize = 0;
        while p < order.len()
            invariant
                qco_wf(self@),
                w == wire_total(self@.num_qubits, self@.num_clbits),
                n == self@.nodes.len(),
                order@.map_values(|x: usize| x as nat) == topo_order(w, n),
                p <= order@.len(),
                out@.len() == if p <= w {
                    0
                } else if p <= n - w {
                    p - w
                } else {
                    n - 2 * w
                },
                forall|i: int|
                    0 <= i < out@.len() ==> (#[trigger] out@[i]).0 == i && out@[i].1@ == linear_ops(
                        self@,
                    )[i],
            decreases order@.len() - p,
        {
            let k = order[p];
            proof {
                lemma_pos_order(w, n);
                assert(order@.map_values(|x: usize| x as nat).len() == order@.len());
                assert(order@.map_values(|x: usize| x as nat)[p as int] == k as nat);
                assert(topo_order(w, n)[p as int] == k as nat);
                if p < w {
                    assert(self@.nodes[2 * p] == io_node(2 * p as nat, self@.num_qubits));
                    assert((2 * p) % 2 == 0);
                } else if p < n - w {
                    assert(self@.nodes[k as int] is Op);
                } else {
                    let kk = 2 * (p - (n - w)) + 1;
                    assert(self@.nodes[kk] == io_node(kk as nat, self@.num_qubits));
                    assert(kk % 2 == 1);
                }
            }
            let node = graph_node(&self.graph, k);
            if let Some(op) = node.as_op() {
                out.push(op);
            }
            p += 1;
        }
        proof {
            assert(order@.map_values(|x: usize| x as nat).len() == n);
            assert(out@.len() == linear_ops(self@).len());
        }
        Ok(out)
    }

    /// The instructions in program order.
    pub fn linearize(&self) -> (r: Vec<Instruction>)
        ensures
            crate::ir::qc::insts_model(r@) == linear_ops(self@),
    {
        proof {
            use_type_invariant(self);
        }
        let ghost w = wire_total(self@.num_qubits, self@.num_clbits);
        let n = graph_node_count(&self.graph);
        let start = 2 * (self.num_qubits as usize + self.num_clbits as usize);
        let mut out: Vec<Instruction> = Vec::new();
        let mut k: usize = start;
        // Operation nodes are stored in program order after the wire
        // nodes, so reading them in node order needs no sort.
        while k < n
            invariant
                qco_wf(self@),
                w == wire_total(self@.num_qubits, self@.num_clbits),
                start == 2 * w,
                n == self@.nodes.len(),
                start <= k <= n,
                out@.len() == k - start,
                forall|i: int| 0 <= i < out@.len() ==> (#[trigger] out@[i])@ == linear_ops(self@)[i],
            decreases n - k,
        {
            let node = graph_node(&self.graph, k);
            proof {
                assert(self@.nodes[k as int] is Op);
            }
            if let Some((_, inst)) = node.as_op() {
                out.push(inst.clone());
            }
            k += 1;
        }
        proof {
            assert(crate::ir::qc::insts_model(out@) =~= linear_ops(self@));
        }
        out
    }

    /// The operations grouped into ASAP layers: layer `d` holds, in program
    /// order, the program indices of the operations whose longest chain of
    /// operation predecessors has `d` links.
    ///
    /// # Errors
    ///
    /// [`IrError::CyclicGraph`] if the graph has a cycle, which no
    /// dependency graph has.
    pub fn layers(&self) -> (r: Result<Vec<Vec<usize>>, IrError>)
        ensures
            r is Ok,
            r matches Ok(ls) ==> {
                let ops = linear_ops(self@).len();
                &&& ls@.len() == level_count(self@, ops)
                &&& forall|d: int| 0 <= d < ls@.len() ==> (#[trigger] ls@[d])@ == ops_at(self@, d as nat, ops)
            },
    {
        proof {
            use_type_invariant(self);
        }
        let ghost m = self@;
        let ghost w = wire_total(self@.num_qubits, self@.num_clbits);
        let order = self.stable_toposort()?;
        let n = graph_node_count(&self.graph);
        proof {
            lemma_pos_order(w, n as nat);
            lemma_levels(m, n as nat);
        }
        let mut level: Vec<usize> = Vec::new();
        let mut k0: usize = 0;
        while k0 < n
            invariant
                k0 <= n,
                level@.len() == k0,
                forall|x: int| 0 <= x < k0 ==> (#[trigger] level@[x]) == 0,
            decreases n - k0,
        {
            level.push(0);
            k0 += 1;
        }
        let mut layers: Vec<Vec<usize>> = Vec::new();
        proof {
            assert(order@.map_values(|x: usize| x as nat).len() == order@.len());
        }
        let mut p: usize = 0;
        while p < n
            invariant
                m == self@,
                qco_wf(m),
                w == wire_total(m.num_qubits, m.num_clbits),
                n == m.nodes.len(),
                order@.map_values(|x: usize| x as nat) == topo_order(w, n as nat),
                order@.len() == n,
                p <= n,
                level@.len() == n,
                forall|kk: int|
                    0 <= kk < n && node_pos(kk as nat, w, n as nat) < p ==> (#[trigger] level@[kk]) == asap_levels(
                        m,
                        p as nat,
                    )[node_pos(kk as nat, w, n as nat) as int],
                forall|kk: int| 0 <= kk < n && node_pos(kk as nat, w, n as nat) >= p ==> (#[trigger] level@[kk]) == 0,
                layers@.len() == level_count(m, ops_before(p as nat, w, n as nat)),
                forall|d: int|
                    0 <= d < layers@.len() ==> (#[trigger] layers@[d])@ == ops_at(
                        m,
                        d as nat,
                        ops_before(p as nat, w, n as nat),
                    ),
            decreases n - p,
        {
            let k = order[p];
            let ghost prev = asap_levels(m, p as nat);
            proof {
                lemma_pos_order(w, n as nat);
                lemma_levels(m, n as nat);
                lemma_levels(m, p as nat + 1);
                assert(order@.map_values(|x: usize| x as nat)[p as int] == k as nat);
                assert(topo_order(w, n as nat)[p as int] == k as nat);
                assert(node_pos(k as nat, w, n as nat) == p);
                assert(asap_levels(m, p as nat + 1) == prev.push(
                    if m.nodes[k as int] is Op {
                        pred_level(m, in_sources(m.edges, k as nat), prev)
                    } else {
                        0
                    },
                ));
                if p < w {
                    assert(m.nodes[2 * p] == io_node(2 * p as nat, m.num_qubits));
                    assert((2 * p) % 2 == 0);
                } else if p < n - w {
                    assert(m.nodes[k as int] is Op);
                } else {
                    let kk = 2 * (p - (n - w)) + 1;
                    assert(m.nodes[kk] == io_node(kk as nat, m.num_qubits));
                    assert(kk % 2 == 1);
                }
            }
            let node = graph_node(&self.graph, k);
            if let Some((index, _)) = node.as_op() {
                let preds = graph_predecessors(&self.graph, k);
                let ghost srcs = in_sources(m.edges, k as nat);
                proof {
                    lemma_in_sources_edges(m.edges, k as nat);
                }
                let mut lv: usize = 0;
                let mut j: usize = 0;
                while j < preds.len()
                    invariant
                        m == self@,
                        qco_wf(m),
                        w == wire_total(m.num_qubits, m.num_clbits),
                        n == m.nodes.len(),
                        k < n,
                        node_pos(k as nat, w, n as nat) == p,
                        p < n,
                        prev == asap_levels(m, p as nat),
                        prev.len() == p,
                        forall|q: int| 0 <= q < p ==> #[trigger] prev[q] <= q,
                        srcs == in_sources(m.edges, k as nat),
                        preds@.map_values(|x: usize| x as nat) == srcs,
                        forall|jj: int| 0 <= jj < srcs.len() ==> has_edge(m.edges, #[trigger] srcs[jj], k as nat),
                        level@.len() == n,
                        forall|kk: int|
                            0 <= kk < n && node_pos(kk as nat, w, n as nat) < p ==> (#[trigger] level@[kk])
                                == prev[node_pos(kk as nat, w, n as nat) as int],
                        j <= preds@.len(),
                        lv == pred_level(m, srcs.take(j as int), prev),
                        lv <= p,
                    decreases preds@.len() - j,
                {
                    let src = preds[j];
                    proof {
                        assert(preds@.map_values(|x: usize| x as nat)[j as int] == src as nat);
                        assert(has_edge(m.edges, srcs[j as int], k as nat));
                        let e = choose|e: int| 0 <= e < m.edges.len() && m.edges[e].0 == srcs[j as int] && m.edges[e].1 == k as nat;
                        assert(edge_forward(m.edges[e].0, m.edges[e].1, w));
                        lemma_forward_pos(m.edges[e].0, m.edges[e].1, w, n as nat);
                        assert(srcs.take(j as int + 1).drop_last() =~= srcs.take(j as int));
                        assert(srcs.take(j as int + 1).last() == src as nat);
                    }
                    let src_node = graph_node(&self.graph, src);
                    if let NodeKind::Op { .. } = &src_node.kind {
                        let here = level[src] + 1;
                        if here > lv {
                            lv = here;
                        }
                    }
                    j += 1;
                }
                proof {
                    assert(srcs.take(srcs.len() as int) =~= srcs);
                    assert(asap_levels(m, p as nat + 1)[p as int] == lv);
                    assert(index == p - w);
                    assert(ops_before(p as nat, w, n as nat) == index);
                    assert(op_level(m, index as nat) == lv);
                }
                level.set(k, lv);
                let ghost before = layers@;
                while layers.len() <= lv
                    invariant
                        layers@.len() >= before.len(),
                        layers@.len() == before.len() || layers@.len() <= lv + 1,
                        forall|d: int| 0 <= d < before.len() ==> #[trigger] layers@[d] == before[d],
                        forall|d: int| before.len() <= d < layers@.len() ==> (#[trigger] layers@[d])@.len() == 0,
                        lv <= p,
                        p < n,
                    decreases lv + 1 - layers@.len(),
                {
                    layers.push(Vec::new());
                }
                let mut row: Vec<usize> = Vec::new();
                std::mem::swap(&mut row, &mut layers[lv]);
                row.push(index);
                std::mem::swap(&mut row, &mut layers[lv]);
                proof {
                    let i = index as nat;
                    assert(ops_before(p as nat + 1, w, n as nat) == i + 1);
                    assert(layers@.len() == level_count(m, i + 1));
                    assert forall|d: int| 0 <= d < layers@.len() implies (#[trigger] layers@[d])@ == ops_at(
                        m,
                        d as nat,
                        i + 1,
                    ) by {
                        lemma_ops_at_count(m, d as nat, i);
                        if d >= before.len() {
                            assert(ops_at(m, d as nat, i).len() == 0);
                        }
                    }
                }
            }
            proof {
                assert forall|kk: int|
                    0 <= kk < n && node_pos(kk as nat, w, n as nat) < p + 1 implies (#[trigger] level@[kk])
                        == asap_levels(m, p as nat + 1)[node_pos(kk as nat, w, n as nat) as int] by {
                    if node_pos(kk as nat, w, n as nat) == p {
                        assert(topo_order(w, n as nat)[node_pos(kk as nat, w, n as nat) as int] == kk);
                    }
                }
                if !(m.nodes[k as int] is Op) {
                    assert(ops_before(p as nat + 1, w, n as nat) == ops_before(p as nat, w, n as nat));
                }
            }
            p += 1;
        }
        proof {
            assert(ops_before(n as nat, w, n as nat) == linear_ops(m).len());
        }
        Ok(layers)
    }

    /// The ordering key of node `k`: inputs, then operations by program
    /// index, then outputs; inputs and outputs by node index.
    fn sort_key(&self, k: usize) -> (r: (u8, usize))
        requires
            k < self@.nodes.len(),
        ensures
            match self@.nodes[k as int] {
                NodeModel::Input(_) => r == (0u8, k),
                NodeModel::Op { index, .. } => r.0 == 1u8 && r.1 == index,
                NodeModel::Output(_) => r == (2u8, k),
            },
    {
        let node = graph_node(&self.graph, k);
        match &node.kind {
            NodeKind::Input(_) => (0u8, k),
            NodeKind::Op { index, .. } => (1u8, *index),
            NodeKind::Output(_) => (2u8, k),
        }
    }

    /// Whether node `a` sorts strictly before node `b`.
    fn key_before(&self, a: usize, b: usize) -> (r: bool)
        requires
            a < self@.nodes.len(),
            b < self@.nodes.len(),
        ensures
            r == (node_pos(a as nat, wire_total(self@.num_qubits, self@.num_clbits), self@.nodes.len())
                < node_pos(b as nat, wire_total(self@.num_qubits, self@.num_clbits), self@.nodes.len())),
    {
        proof {
            use_type_invariant(self);
            let w = wire_total(self@.num_qubits, self@.num_clbits);
            if a < 2 * w {
                assert(self@.nodes[a as int] == io_node(a as nat, self@.num_qubits));
            } else {
                assert(self@.nodes[a as int] is Op);
            }
            if b < 2 * w {
                assert(self@.nodes[b as int] == io_node(b as nat, self@.num_qubits));
            } else {
                assert(self@.nodes[b as int] is Op);
            }
        }
        let ka = self.sort_key(a);
        let kb = self.sort_key(b);
        ka.0 < kb.0 || (ka.0 == kb.0 && ka.1 < kb.1)
    }

    /// Inserts `k` into a list kept sorted by key.
    fn insert_ready(&self, ready: &mut Vec<usize>, k: usize)
        requires
            k < self@.nodes.len(),
            forall|i: int| 0 <= i < old(ready)@.len() ==> #[trigger] old(ready)@[i] < self@.nodes.len(),
            pos_sorted(old(ready)@, wire_total(self@.num_qubits, self@.num_clbits), self@.nodes.len()),
            !old(ready)@.contains(k),
        ensures
            pos_sorted(final(ready)@, wire_total(self@.num_qubits, self@.num_clbits), self@.nodes.len()),
            final(ready)@.len() == old(ready)@.len() + 1,
            forall|x: usize| #[trigger] final(ready)@.contains(x) <==> (old(ready)@.contains(x) || x == k),
    {
        proof {
            use_type_invariant(self);
        }
        let ghost w = wire_total(self@.num_qubits, self@.num_clbits);
        let ghost n = self@.nodes.len();
        proof {
            lemma_pos_order(w, n);
        }
        let mut j: usize = 0;
        while j < ready.len()
            invariant
                j <= ready@.len(),
                w == wire_total(self@.num_qubits, self@.num_clbits),
                n == self@.nodes.len(),
                k < n,
                forall|i: int| 0 <= i < ready@.len() ==> #[trigger] ready@[i] < n,
                forall|i: int| 0 <= i < j ==> node_pos(#[trigger] ready@[i] as nat, w, n) < node_pos(k as nat, w, n),
            ensures
                j <= ready@.len(),
                forall|i: int| 0 <= i < j ==> node_pos(#[trigger] ready@[i] as nat, w, n) < node_pos(k as nat, w, n),
                j < ready@.len() ==> node_pos(k as nat, w, n) <= node_pos(ready@[j as int] as nat, w, n),
            decreases ready@.len() - j,
        {
            if !self.key_before(ready[j], k) {
                break;
            }
            j += 1;
        }
        let ghost before = ready@;
        proof {
            if j < ready@.len() {
                assert(ready@[j as int] != k) by {
                    assert(ready@.contains(ready@[j as int]));
                }
                assert(topo_order(w, n)[node_pos(k as nat, w, n) as int] == k);
                assert(topo_order(w, n)[node_pos(ready@[j as int] as nat, w, n) as int] == ready@[j as int]);
                assert(node_pos(k as nat, w, n) < node_pos(ready@[j as int] as nat, w, n));
            }
        }
        ready.insert(j, k);
        proof {
            assert forall|x: usize| #[trigger] ready@.contains(x) <==> (before.contains(x) || x == k) by {
                if ready@.contains(x) {
                    let i = choose|i: int| 0 <= i < ready@.len() && ready@[i] == x;
                    if i < j {
                        assert(before[i] == x);
                    } else if i > j {
                        assert(before[i - 1] == x);
                    }
                }
                if before.contains(x) {
                    let i = choose|i: int| 0 <= i < before.len() && before[i] == x;
                    if i < j {
                        assert(ready@[i] == x);
                    } else {
                        assert(ready@[i + 1] == x);
                    }
                }
                if x == k {
                    assert(ready@[j as int] == k);
                }
            }
            assert forall|a: int, b: int| 0 <= a < b < ready@.len() implies node_pos(
                #[trigger] ready@[a] as nat,
                w,
                n,
            ) < node_pos(#[trigger] ready@[b] as nat, w, n) by {
                if b < j {
                    assert(ready@[a] == before[a] && ready@[b] == before[b]);
                } else if b == j {
                    assert(ready@[a] == before[a]);
                } else if a == j {
                    assert(ready@[a] == k);
                    assert(ready@[b] == before[b - 1]);
                    assert(node_pos(k as nat, w, n) < node_pos(before[j as int] as nat, w, n));
                    if b - 1 > j {
                        assert(node_pos(before[j as int] as nat, w, n) < node_pos(before[b - 1] as nat, w, n));
                    }
                } else if a < j {
                    assert(ready@[a] == before[a] && ready@[b] == before[b - 1]);
                } else {
                    assert(ready@[a] == before[a - 1] && ready@[b] == before[b - 1]);
                }
            }
        }
    }

    /// All nodes in a topological order that is stable: among the nodes
    /// ready at each step, inputs come first, then operations by program
    /// index, then outputs. Fails with [`IrError::CyclicGraph`] if some node
    /// is never ready.
    ///
    /// Every edge of a dependency graph climbs that key, so the order is the
    /// canonical one: inputs, operations in program order, outputs.
    fn stable_toposort(&self) -> (r: Result<Vec<usize>, IrError>)
        ensures
            r matches Ok(order) && order@.map_values(|x: usize| x as nat) == topo_order(
                wire_total(self@.num_qubits, self@.num_clbits),
                self@.nodes.len(),
            ),
    {
        proof {
            use_type_invariant(self);
        }
        let ghost w = wire_total(self@.num_qubits, self@.num_clbits);
        let ghost edges = self@.edges;
        let n = graph_node_count(&self.graph);
        proof {
            lemma_pos_order(w, n as nat);
        }
        let mut indegree: Vec<usize> = Vec::new();
        let mut k: usize = 0;
        while k < n
            invariant
                k <= n,
                n == self@.nodes.len(),
                edges == self@.edges,
                indegree@.len() == k,
                forall|j: int| 0 <= j < k ==> #[trigger] indegree@[j] == in_count_from(edges, j as nat, 0, w, n as nat),
            decreases n - k,
        {
            let d = graph_in_degree(&self.graph, k);
            proof {
                lemma_in_degree(edges, k as nat, w, n as nat);
            }
            indegree.push(d);
            k += 1;
        }
        let mut ready: Vec<usize> = Vec::new();
        k = 0;
        while k < n
            invariant
                k <= n,
                n == self@.nodes.len(),
                w == wire_total(self@.num_qubits, self@.num_clbits),
                indegree@.len() == n,
                pos_sorted(ready@, w, n as nat),
                forall|i: int| 0 <= i < ready@.len() ==> #[trigger] ready@[i] < k && indegree@[ready@[i] as int] == 0,
                forall|j: usize| j < k && #[trigger] indegree@[j as int] == 0 ==> ready@.contains(j),
            decreases n - k,
        {
            if indegree[k] == 0 {
                self.insert_ready(&mut ready, k);
            }
            proof {
                assert forall|i: int| 0 <= i < ready@.len() implies #[trigger] ready@[i] < k + 1
                    && indegree@[ready@[i] as int] == 0 by {
                    assert(ready@.contains(ready@[i]));
                }
            }
            k += 1;
        }
        let mut order: Vec<usize> = Vec::new();
        while ready.len() > 0
            invariant
                n == self@.nodes.len(),
                w == wire_total(self@.num_qubits, self@.num_clbits),
                edges == self@.edges,
                qco_wf(self@),
                order@.len() <= n,
                order@.map_values(|x: usize| x as nat) == topo_order(w, n as nat).take(order@.len() as int),
                indegree@.len() == n,
                forall|j: int|
                    0 <= j < n ==> #[trigger] indegree@[j] == in_count_from(
                        edges,
                        j as nat,
                        order@.len() as nat,
                        w,
                        n as nat,
                    ),
                pos_sorted(ready@, w, n as nat),
                forall|i: int|
                    0 <= i < ready@.len() ==> #[trigger] ready@[i] < n && node_pos(ready@[i] as nat, w, n as nat)
                        >= order@.len() && indegree@[ready@[i] as int] == 0,
                forall|j: usize|
                    j < n && node_pos(j as nat, w, n as nat) >= order@.len() && #[trigger] indegree@[j as int]
                        == 0 ==> ready@.contains(j),
            decreases n - order@.len(),
        {
            let ghost p = order@.len() as nat;
            let ghost t = topo_order(w, n as nat)[p as int];
            proof {
                assert(ready@[0] < n && node_pos(ready@[0] as nat, w, n as nat) >= p);
                assert(p < n);
                lemma_in_count_zero(edges, t, w, n as nat);
                assert(indegree@[t as int] == 0);
                assert(ready@.contains(t as usize));
                let i = choose|i: int| 0 <= i < ready@.len() && ready@[i] == t as usize;
                if i > 0 {
                    assert(node_pos(ready@[0] as nat, w, n as nat) < node_pos(ready@[i] as nat, w, n as nat));
                }
                assert(node_pos(ready@[0] as nat, w, n as nat) == p);
                assert(ready@[0] == t);
            }
            let ghost ready_before = ready@;
            let next = ready.remove(0);
            order.push(next);
            proof {
                assert forall|q: usize|
                    q < n && node_pos(q as nat, w, n as nat) >= p + 1 && #[trigger] indegree@[q as int] == 0
                        implies ready@.contains(q) by {
                    assert(ready_before.contains(q));
                    let i = choose|i: int| 0 <= i < ready_before.len() && ready_before[i] == q;
                    assert(i != 0);
                    assert(ready@[i - 1] == q);
                }
            }
            proof {
                assert(order@.map_values(|x: usize| x as nat) =~= topo_order(w, n as nat).take(p as int + 1));
                assert forall|i: int| 0 <= i < ready@.len() implies #[trigger] ready@[i] < n && node_pos(
                    ready@[i] as nat,
                    w,
                    n as nat,
                ) >= p + 1 && indegree@[ready@[i] as int] == 0 by {
                    assert(node_pos(ready@[0] as nat, w, n as nat) >= p);
                    if i >= 0 {
                        assert(ready@[i] == old_ready_at(ready@, i));
                    }
                }
            }
            let succs = graph_successors(&self.graph, next);
            let ghost sn = succs@.map_values(|x: usize| x as nat);
            proof {
                assert forall|j: int| 0 <= j < n implies #[trigger] indegree@[j] == in_count_from(
                    edges,
                    j as nat,
                    p + 1,
                    w,
                    n as nat,
                ) + count_of(sn.subrange(0, sn.len() as int), j as nat) by {
                    lemma_in_count_step(edges, j as nat, t, p, w, n as nat);
                    assert(sn.subrange(0, sn.len() as int) =~= sn);
                }
                lemma_out_targets_later(edges, t, w, n as nat);
            }
            let mut j: usize = 0;
            while j < succs.len()
                invariant
                    j <= succs@.len(),
                    sn == succs@.map_values(|x: usize| x as nat),
                    sn == out_targets(edges, t),
                    t < n,
                    node_pos(t, w, n as nat) == p,
                    n == self@.nodes.len(),
                    w == wire_total(self@.num_qubits, self@.num_clbits),
                    forall|i: int| 0 <= i < sn.len() ==> #[trigger] sn[i] < n && p < node_pos(sn[i], w, n as nat),
                    indegree@.len() == n,
                    forall|q: int|
                        0 <= q < n ==> #[trigger] indegree@[q] == in_count_from(edges, q as nat, p + 1, w, n as nat)
                            + count_of(sn.subrange(j as int, sn.len() as int), q as nat),
                    pos_sorted(ready@, w, n as nat),
                    forall|i: int|
                        0 <= i < ready@.len() ==> #[trigger] ready@[i] < n && node_pos(ready@[i] as nat, w, n as nat)
                            >= p + 1 && indegree@[ready@[i] as int] == 0,
                    forall|q: usize|
                        q < n && node_pos(q as nat, w, n as nat) >= p + 1 && #[trigger] indegree@[q as int]
                            == 0 ==> ready@.contains(q),
                decreases succs@.len() - j,
            {
                let d = succs[j];
                proof {
                    assert(sn[j as int] == d as nat);
                    lemma_count_at(sn, j as int);
                    assert(indegree@[d as int] >= 1);
                }
                let ghost before_ready = ready@;
                indegree.set(d, indegree[d] - 1);
                proof {
                    assert forall|q: int| 0 <= q < n implies #[trigger] indegree@[q] == in_count_from(
                        edges,
                        q as nat,
                        p + 1,
                        w,
                        n as nat,
                    ) + count_of(sn.subrange(j as int + 1, sn.len() as int), q as nat) by {
                        if q != d {
                            assert(count_of(sn.subrange(j as int, sn.len() as int), q as nat) == count_of(
                                sn.subrange(j as int + 1, sn.len() as int),
                                q as nat,
                            ));
                        }
                    }
                }
                if indegree[d] == 0 {
                    proof {
                        if ready@.contains(d) {
                            let i = choose|i: int| 0 <= i < ready@.len() && ready@[i] == d;
                            assert(ready@[i] == d);
                        }
                    }
                    self.insert_ready(&mut ready, d);
                    proof {
                        assert forall|i: int| 0 <= i < ready@.len() implies #[trigger] ready@[i] < n
                            && node_pos(ready@[i] as nat, w, n as nat) >= p + 1 && indegree@[ready@[i] as int]
                            == 0 by {
                            assert(ready@.contains(ready@[i]));
                            if ready@[i] != d {
                                assert(before_ready.contains(ready@[i]));
                                let i2 = choose|i2: int| 0 <= i2 < before_ready.len() && before_ready[i2] == ready@[i];
                                assert(before_ready[i2] < n);
                            }
                        }
                    }
                }
                j += 1;
            }
        }
        proof {
            let p = order@.len();
            if p < n {
                let t = topo_order(w, n as nat)[p as int];
                lemma_in_count_zero(edges, t, w, n as nat);
                assert(indegree@[t as int] == 0);
                assert(ready@.contains(t as usize));
            }
            assert(topo_order(w, n as nat).take(n as int) =~= topo_order(w, n as nat));
        }
        if order.len() == n {
            Ok(order)
        } else {
            Err(IrError::CyclicGraph)
        }
    }
}

/// Element `i` of a sequence (a named read, for triggering).
pub open spec fn old_ready_at(s: Seq<usize>, i: int) -> usize {
    s[i]
}

} // verus!
