//! Scheduling as analysis: report ASAP depth and parallel width.
//!
//! The pass never reorders anything; it reads the layering off the
//! dependency graph and reports it.
use vstd::prelude::*;

use crate::ir::convert::{circuit_graph, qc_to_qco, qco_fits};
use crate::ir::qc::Circuit;
use crate::ir::qco::{level_count, linear_ops, ops_at, QcoModel};
use crate::pass::{PassError, PassOutput};
use crate::text::{decimal, push_decimal, push_str};

verus! {

/// The number of operations in the widest of the first `d` layers.
pub open spec fn widest(m: QcoModel, ops: nat, d: nat) -> nat
    decreases d,
{
    if d == 0 {
        0
    } else {
        let rest = widest(m, ops, (d - 1) as nat);
        let here = ops_at(m, (d - 1) as nat, ops).len();
        if here > rest {
            here
        } else {
            rest
        }
    }
}

/// The ASAP depth of a circuit: how many layers its operations span.
pub open spec fn circuit_depth(c: crate::ir::qc::CircuitModel) -> nat {
    level_count(circuit_graph(c), c.instructions.len())
}

/// The largest number of operations in one ASAP layer of a circuit.
pub open spec fn circuit_width(c: crate::ir::qc::CircuitModel) -> nat {
    widest(circuit_graph(c), c.instructions.len(), circuit_depth(c))
}

/// The note the schedule pass reports.
pub open spec fn schedule_note(depth: nat, ops: nat, width: nat) -> Seq<char> {
    "depth "@ + decimal(depth) + ", "@ + decimal(ops) + " operation(s), max parallel width "@
        + decimal(width)
}

/// Maximum over the layer sizes, computed in layer order.
pub(crate) fn widest_layer(layers: &Vec<Vec<usize>>, Ghost(m): Ghost<QcoModel>, Ghost(ops): Ghost<nat>) -> (r: usize)
    requires
        forall|d: int| 0 <= d < layers@.len() ==> (#[trigger] layers@[d])@ == ops_at(m, d as nat, ops),
    ensures
        r == widest(m, ops, layers@.len() as nat),
{
    let mut width: usize = 0;
    let mut d: usize = 0;
    while d < layers.len()
        invariant
            d <= layers@.len(),
            forall|e: int| 0 <= e < layers@.len() ==> (#[trigger] layers@[e])@ == ops_at(m, e as nat, ops),
            width == widest(m, ops, d as nat),
        decreases layers@.len() - d,
    {
        let here = layers[d].len();
        if here > width {
            width = here;
        }
        d += 1;
    }
    width
}

/// Reports ASAP scheduling layers; never reorders.
#[derive(Debug, Clone, Copy, Default)]
pub struct Schedule;

impl Schedule {
    /// Stable identifier, used to enable or disable the pass.
    pub fn id(&self) -> (r: &'static str)
        ensures
            r@ == "schedule"@,
    {
        "schedule"
    }

    /// One-line description, shown in reports.
    pub fn description(&self) -> (r: &'static str)
        ensures
            r@ == "report ASAP scheduling layers (analysis only; never reorders)"@,
    {
        "report ASAP scheduling layers (analysis only; never reorders)"
    }

    /// Runs the pass: the circuit comes back unchanged, with one note giving
    /// its depth, its operation count and its widest layer.
    pub fn run(&self, circuit: &Circuit) -> (r: Result<PassOutput, PassError>)
        requires
            qco_fits(circuit@.instructions, circuit@.num_qubits, circuit@.num_clbits),
        ensures
            r is Ok,
            r matches Ok(out) ==> {
                &&& out.circuit@ == circuit@
                &&& !out.changed
                &&& out.notes@.len() == 1
                &&& out.notes@[0]@ == schedule_note(
                    circuit_depth(circuit@),
                    circuit@.instructions.len(),
                    circuit_width(circuit@),
                )
            },
    {
        let dag = match qc_to_qco(circuit) {
            Ok(d) => d,
            Err(e) => {
                return Err(PassError::from_ir(self.id(), e));
            },
        };
        let layers = match dag.layers() {
            Ok(l) => l,
            Err(e) => {
                return Err(PassError::from_ir(self.id(), e));
            },
        };
        proof {
            crate::ir::convert::lemma_round_trip(
                circuit@.name,
                circuit@.instructions,
                circuit@.num_qubits,
                circuit@.num_clbits,
            );
        }
        let depth = layers.len();
        let width = widest_layer(&layers, Ghost(dag@), Ghost(linear_ops(dag@).len()));
        let ops = circuit.len();
        let mut note = String::new();
        push_str(&mut note, "depth ");
        push_decimal(&mut note, depth as u64);
        push_str(&mut note, ", ");
        push_decimal(&mut note, ops as u64);
        push_str(&mut note, " operation(s), max parallel width ");
        push_decimal(&mut note, width as u64);
        proof {
            assert(note@ =~= schedule_note(depth as nat, ops as nat, width as nat));
        }
        Ok(PassOutput::unchanged(circuit.clone()).with_note(note.as_str()))
    }
}

} // verus!
