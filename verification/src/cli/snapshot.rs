//! The dependency graph of a circuit as data: operation count, ASAP depth
//! and width, the layers, and every edge with readable node labels.
use vstd::prelude::*;

use crate::analysis::report::ResourceReport;
use crate::ir::error::IrError;
use crate::ir::qco::{
    level_count, linear_ops, ops_at, wire_total, DepKind, NodeKind, NodeModel, QcoCircuit, QcoNode,
    Wire,
};
use crate::pass::schedule::{widest, widest_layer};
use crate::text::{decimal, push_decimal, push_str};

verus! {

/// One dependency edge, labelled.
#[derive(Debug, Clone, PartialEq, Eq)]
pub struct EdgeView {
    /// Source node label, e.g. `in:%q0` or `op:2`.
    pub from: String,
    /// Destination node label.
    pub to: String,
    /// The wire carrying the dependency, e.g. `%q0`.
    pub wire: String,
    /// `data` or `control`.
    pub kind: String,
}

/// The dependency graph of a circuit, summarised.
#[derive(Debug, Clone, PartialEq, Eq)]
pub struct GraphView {
    /// Operation nodes (wire boundaries excluded).
    pub op_count: usize,
    /// ASAP scheduling depth.
    pub depth: usize,
    /// The size of the widest scheduling layer.
    pub max_parallel_width: usize,
    /// Program indices grouped into ASAP layers.
    pub layers: Vec<Vec<usize>>,
    /// The dependency edges, in insertion order.
    pub edges: Vec<EdgeView>,
}

/// A wire's name: `%q<i>` for a qubit, `%c<i>` for a classical bit.
pub open spec fn wire_text(w: Wire) -> Seq<char> {
    match w {
        Wire::Qubit(q) => "%q"@ + decimal(q.0 as nat),
        Wire::Clbit(c) => "%c"@ + decimal(c.0 as nat),
    }
}

/// A node's label: `in:<wire>`, `out:<wire>` or `op:<program index>`.
pub open spec fn node_text(n: NodeModel) -> Seq<char> {
    match n {
        NodeModel::Input(w) => "in:"@ + wire_text(w),
        NodeModel::Output(w) => "out:"@ + wire_text(w),
        NodeModel::Op { index, .. } => "op:"@ + decimal(index),
    }
}

/// A dependency kind's name.
pub open spec fn kind_text(k: DepKind) -> Seq<char> {
    match k {
        DepKind::Data => "data"@,
        DepKind::Control => "control"@,
    }
}

fn wire_label(w: &Wire) -> (r: String)
    ensures
        r@ == wire_text(*w),
{
    let mut out = String::new();
    match w {
        Wire::Qubit(q) => {
            push_str(&mut out, "%q");
            push_decimal(&mut out, q.0 as u64);
        },
        Wire::Clbit(c) => {
            push_str(&mut out, "%c");
            push_decimal(&mut out, c.0 as u64);
        },
    }
    out
}

fn node_label(node: &QcoNode) -> (r: String)
    ensures
        r@ == node_text(node@),
{
    let mut out = String::new();
    match &node.kind {
        NodeKind::Input(w) => {
            push_str(&mut out, "in:");
            let name = wire_label(w);
            push_str(&mut out, name.as_str());
        },
        NodeKind::Output(w) => {
            push_str(&mut out, "out:");
            let name = wire_label(w);
            push_str(&mut out, name.as_str());
        },
        NodeKind::Op { index, .. } => {
            push_str(&mut out, "op:");
            push_decimal(&mut out, *index as u64);
        },
    }
    out
}

fn kind_label(k: DepKind) -> (r: String)
    ensures
        r@ == kind_text(k),
{
    match k {
        DepKind::Data => "data".to_string(),
        DepKind::Control => "control".to_string(),
    }
}

/// Whether `v` shows edge `e` of the graph `m`.
pub open spec fn shows_edge(v: EdgeView, m: crate::ir::qco::QcoModel, e: int) -> bool {
    &&& v.from@ == node_text(m.nodes[m.edges[e].0 as int])
    &&& v.to@ == node_text(m.nodes[m.edges[e].1 as int])
    &&& v.wire@ == wire_text(m.edges[e].2.wire)
    &&& v.kind@ == kind_text(m.edges[e].2.kind)
}

/// The graph view of a dependency graph.
///
/// # Errors
///
/// Whatever the layering refuses; it refuses no dependency graph.
pub fn graph_of(dag: &QcoCircuit) -> (r: Result<GraphView, IrError>)
    ensures
        r is Ok,
        r matches Ok(g) ==> {
            let m = dag@;
            let ops = linear_ops(m).len();
            &&& g.op_count == m.nodes.len() - 2 * wire_total(m.num_qubits, m.num_clbits)
            &&& g.depth == level_count(m, ops)
            &&& g.layers@.len() == g.depth
            &&& forall|d: int| 0 <= d < g.layers@.len() ==> (#[trigger] g.layers@[d])@ == ops_at(m, d as nat, ops)
            &&& g.max_parallel_width == widest(m, ops, g.depth as nat)
            &&& g.edges@.len() == m.edges.len()
            &&& forall|e: int| 0 <= e < g.edges@.len() ==> shows_edge(#[trigger] g.edges@[e], m, e)
        },
{
    let ghost m = dag@;
    let ghost ops = linear_ops(m).len();
    let layers = match dag.layers() {
        Ok(ls) => ls,
        Err(e) => return Err(e),
    };
    let deps = dag.dependencies();
    let mut edges: Vec<EdgeView> = Vec::new();
    let mut k: usize = 0;
    while k < deps.len()
        invariant
            k <= deps@.len(),
            m == dag@,
            deps@.len() == m.edges.len(),
            forall|e: int|
                0 <= e < deps@.len() ==> {
                    &&& (#[trigger] deps@[e]).0@ == m.nodes[m.edges[e].0 as int]
                    &&& deps@[e].1@ == m.nodes[m.edges[e].1 as int]
                    &&& deps@[e].2 == m.edges[e].2
                },
            edges@.len() == k,
            forall|e: int| 0 <= e < k ==> shows_edge(#[trigger] edges@[e], m, e),
        decreases deps@.len() - k,
    {
        let (from, to, dep) = deps[k];
        let view = EdgeView {
            from: node_label(from),
            to: node_label(to),
            wire: wire_label(&dep.wire),
            kind: kind_label(dep.kind),
        };
        proof {
            assert(deps@[k as int].0@ == m.nodes[m.edges[k as int].0 as int]);
        }
        edges.push(view);
        k += 1;
    }
    let width = widest_layer(&layers, Ghost(m), Ghost(ops));
    Ok(GraphView {
        op_count: dag.op_count(),
        depth: layers.len(),
        max_parallel_width: width,
        layers,
        edges,
    })
}

/// What one pass did, as a report shows it.
#[derive(Debug, Clone)]
pub struct PassRecordView {
    /// The pass's id.
    pub id: String,
    /// The pass's description.
    pub description: String,
    /// Whether the selection enabled it.
    pub enabled: bool,
    /// Whether it changed the circuit.
    pub changed: bool,
    /// Metrics before it ran.
    pub before: ResourceReport,
    /// Metrics after it ran.
    pub after: ResourceReport,
    /// Time spent, in microseconds.
    pub duration_us: u128,
    /// The pass's own notes.
    pub notes: Vec<String>,
}

/// One aligned position in a circuit diff, as a report shows it.
#[derive(Debug, Clone)]
pub struct DiffEntryView {
    /// `" "`, `"-"` or `"+"`.
    pub marker: String,
    /// The instruction at this position.
    pub text: String,
}

} // verus!
