//! Optimization passes: which ones a run executes, and how a pass failure
//! is reported.
//!
//! The default pipeline is `canonicalize → gate-cancellation →
//! rotation-merge → canonicalize → schedule`, a fixed, finite order.
pub mod adjacency;
pub mod cancellation;
pub mod canonicalize;
pub mod rotation_merge;
pub mod schedule;

use vstd::prelude::*;

use crate::analysis::report::ResourceReport;
use crate::ir::error::IrError;
use crate::ir::qc::{circuit_error, insts_model, Circuit, CircuitBuilder, CircuitModel, Instruction};
use crate::pass::cancellation::GateCancellation;
use crate::pass::canonicalize::Canonicalize;
use crate::pass::rotation_merge::RotationMerge;
use crate::pass::schedule::Schedule;

verus! {

/// What one pass did, including when it was skipped.
#[derive(Debug)]
pub struct PassRecord {
    /// The pass's id.
    pub id: String,
    /// The pass's description.
    pub description: String,
    /// Whether the selection enabled it.
    pub enabled: bool,
    /// Whether it changed the circuit; `false` when disabled.
    pub changed: bool,
    /// Metrics before it ran.
    pub before: ResourceReport,
    /// Metrics after; equal to `before` when disabled or unchanged.
    pub after: ResourceReport,
    /// Wall-clock time spent; zero when disabled.
    pub duration: std::time::Duration,
    /// The pass's notes.
    pub notes: Vec<String>,
}

/// Anything that can go wrong running a pass.
#[derive(Debug, Clone, PartialEq)]
pub enum PassError {
    /// The circuit a pass produced failed QC-IR validation, or an internal
    /// IR operation failed. Either way the pass is at fault, not the input.
    Ir {
        /// The pass that failed.
        pass: String,
        /// The underlying validation failure.
        source: IrError,
    },
}

impl PassError {
    /// The error for pass `pass` running into `source`.
    pub fn from_ir(pass: &str, source: IrError) -> (r: PassError)
        ensures
            r matches PassError::Ir { pass: p, source: s } && p@ == pass@ && s == source,
    {
        PassError::Ir { pass: pass.to_string(), source }
    }
}

/// What a pass produced.
#[derive(Debug, Clone)]
pub struct PassOutput {
    /// The resulting circuit: the input unchanged if the pass did nothing.
    pub circuit: Circuit,
    /// Whether the pass modified anything. Analysis passes always report
    /// `false`.
    pub changed: bool,
    /// Human-readable detail about what the pass did or measured.
    pub notes: Vec<String>,
}

impl PassOutput {
    /// A no-op result: the circuit is returned untouched.
    pub fn unchanged(circuit: Circuit) -> (r: PassOutput)
        ensures
            r.circuit == circuit,
            !r.changed,
            r.notes@.len() == 0,
    {
        PassOutput { circuit, changed: false, notes: Vec::new() }
    }

    /// This result with one more note.
    pub fn with_note(self, note: &str) -> (r: PassOutput)
        ensures
            r.circuit == self.circuit,
            r.changed == self.changed,
            r.notes@.len() == self.notes@.len() + 1,
            forall|k: int| 0 <= k < self.notes@.len() ==> r.notes@[k] == self.notes@[k],
            r.notes@.last()@ == note@,
    {
        let mut out = self;
        out.notes.push(note.to_string());
        out
    }
}

/// The circuit a pass's instructions make, keeping the original's name and
/// register widths.
pub open spec fn rebuilt(original: CircuitModel, instructions: Seq<Instruction>) -> CircuitModel {
    CircuitModel { instructions: insts_model(instructions), ..original }
}

/// Rebuilds a circuit from an instruction sequence, preserving its name and
/// register widths, and re-validating it, so that a pass cannot produce an
/// invalid circuit.
///
/// # Errors
///
/// [`PassError::Ir`] naming `pass` and the first invariant the rewritten
/// sequence violates.
pub fn rebuild(pass: &str, original: &Circuit, instructions: &Vec<Instruction>) -> (r: Result<
    Circuit,
    PassError,
>)
    ensures
        match r {
            Ok(c) => c@ == rebuilt(original@, instructions@) && circuit_error(
                insts_model(instructions@),
                original@.num_qubits,
                original@.num_clbits,
            ) is None,
            Err(e) => e matches PassError::Ir { pass: p, source: s } && p@ == pass@ && circuit_error(
                insts_model(instructions@),
                original@.num_qubits,
                original@.num_clbits,
            ) == Some(s@),
        },
{
    let mut builder = CircuitBuilder::new(original.name());
    builder.alloc_qubits(original.num_qubits());
    builder.alloc_clbits(original.num_clbits());
    proof {
        assert(insts_model(instructions@.take(0)) =~= Seq::empty());
    }
    let mut i: usize = 0;
    while i < instructions.len()
        invariant
            i <= instructions@.len(),
            builder@ == rebuilt(original@, instructions@.take(i as int)),
        decreases instructions@.len() - i,
    {
        builder.push(instructions[i].clone());
        proof {
            assert(insts_model(instructions@.take(i + 1)) =~= insts_model(
                instructions@.take(i as int),
            ).push(instructions@[i as int]@));
        }
        i += 1;
    }
    proof {
        assert(instructions@.take(instructions@.len() as int) =~= instructions@);
    }
    match builder.build() {
        Ok(c) => Ok(c),
        Err(e) => Err(PassError::from_ir(pass, e)),
    }
}

/// The abstract value of a [`PassSelection`].
pub enum SelectionModel {
    /// Every pass.
    All,
    /// Only the passes with these ids.
    Only(Set<Seq<char>>),
    /// Every pass but these.
    AllExcept(Set<Seq<char>>),
}

/// Which passes a pipeline run should execute.
#[derive(Debug, Clone)]
pub enum PassSelection {
    /// Run every registered pass.
    All,
    /// Run only these passes, in the pipeline's registered order.
    Only(Vec<String>),
    /// Run every pass except these: the shape an ablation study takes.
    AllExcept(Vec<String>),
}

/// The set of ids a list names.
pub open spec fn id_set(ids: Seq<String>) -> Set<Seq<char>> {
    Set::new(|s: Seq<char>| exists|k: int| 0 <= k < ids.len() && (#[trigger] ids[k])@ == s)
}

impl View for PassSelection {
    type V = SelectionModel;

    open spec fn view(&self) -> SelectionModel {
        match self {
            PassSelection::All => SelectionModel::All,
            PassSelection::Only(ids) => SelectionModel::Only(id_set(ids@)),
            PassSelection::AllExcept(ids) => SelectionModel::AllExcept(id_set(ids@)),
        }
    }
}

/// Copies a list of ids.
fn copy_ids(ids: &[String]) -> (r: Vec<String>)
    ensures
        r@.len() == ids@.len(),
        forall|k: int| 0 <= k < ids@.len() ==> (#[trigger] r@[k])@ == ids@[k]@,
{
    let mut out: Vec<String> = Vec::new();
    let mut i: usize = 0;
    while i < ids.len()
        invariant
            i <= ids@.len(),
            out@.len() == i,
            forall|k: int| 0 <= k < i ==> (#[trigger] out@[k])@ == ids@[k]@,
        decreases ids@.len() - i,
    {
        out.push(ids[i].clone());
        i += 1;
    }
    out
}

impl PassSelection {
    /// A [`PassSelection::Only`] of the given ids.
    pub fn only(ids: &[String]) -> (r: PassSelection)
        ensures
            r@ == SelectionModel::Only(id_set(ids@)),
    {
        let v = copy_ids(ids);
        proof {
            assert(id_set(v@) =~= id_set(ids@)) by {
                assert forall|s: Seq<char>| id_set(v@).contains(s) implies id_set(ids@).contains(s) by {
                    let k = choose|k: int| 0 <= k < v@.len() && (#[trigger] v@[k])@ == s;
                    assert(ids@[k]@ == s);
                }
                assert forall|s: Seq<char>| id_set(ids@).contains(s) implies id_set(v@).contains(s) by {
                    let k = choose|k: int| 0 <= k < ids@.len() && (#[trigger] ids@[k])@ == s;
                    assert(v@[k]@ == s);
                }
            }
        }
        PassSelection::Only(v)
    }

    /// A [`PassSelection::AllExcept`] of the given ids.
    pub fn all_except(ids: &[String]) -> (r: PassSelection)
        ensures
            r@ == SelectionModel::AllExcept(id_set(ids@)),
    {
        match PassSelection::only(ids) {
            PassSelection::Only(v) => PassSelection::AllExcept(v),
            other => other,
        }
    }

    /// Whether the pass with id `id` runs under this selection.
    pub fn includes(&self, id: &str) -> (r: bool)
        ensures
            r == match self@ {
                SelectionModel::All => true,
                SelectionModel::Only(s) => s.contains(id@),
                SelectionModel::AllExcept(s) => !s.contains(id@),
            },
    {
        match self {
            PassSelection::All => true,
            PassSelection::Only(ids) => contains_id(ids, id),
            PassSelection::AllExcept(ids) => !contains_id(ids, id),
        }
    }
}

/// Whether a list of ids names `id`.
fn contains_id(ids: &Vec<String>, id: &str) -> (r: bool)
    ensures
        r == id_set(ids@).contains(id@),
{
    let target = id.to_string();
    let mut i: usize = 0;
    while i < ids.len()
        invariant
            i <= ids@.len(),
            target@ == id@,
            forall|k: int| 0 <= k < i ==> (#[trigger] ids@[k])@ != id@,
        decreases ids@.len() - i,
    {
        if ids[i].eq(&target) {
            proof {
                assert(ids@[i as int]@ == id@);
            }
            return true;
        }
        i += 1;
    }
    false
}

/// The ids of the default pipeline's passes, in execution order; the
/// canonicalization pass runs twice.
pub fn default_pipeline_ids() -> (r: Vec<&'static str>)
    ensures
        r@.len() == 5,
        r@[0]@ == "canonicalize"@,
        r@[1]@ == "gate-cancellation"@,
        r@[2]@ == "rotation-merge"@,
        r@[3]@ == "canonicalize"@,
        r@[4]@ == "schedule"@,
{
    let mut ids: Vec<&'static str> = Vec::new();
    ids.push(Canonicalize.id());
    ids.push(GateCancellation.id());
    ids.push(RotationMerge.id());
    ids.push(Canonicalize.id());
    ids.push(Schedule.id());
    ids
}

/// Whether a selection runs the pass with id `id`.
pub open spec fn selects(sel: SelectionModel, id: Seq<char>) -> bool {
    match sel {
        SelectionModel::All => true,
        SelectionModel::Only(s) => s.contains(id),
        SelectionModel::AllExcept(s) => !s.contains(id),
    }
}

/// What a pipeline does next.
#[derive(Debug, Clone, Copy, PartialEq, Eq, Structural)]
pub enum PipelineAction {
    /// Run the pass at this position and record what it did.
    Run(usize),
    /// Record the pass at this position as disabled, with unchanged
    /// metrics, and run nothing.
    Skip(usize),
    /// Every registered pass has a record; the pipeline is done.
    Finish,
}

/// The step of a pipeline at `position` among passes registered in order
/// with these ids: registration order is execution order, and a pass the
/// selection leaves out still gets a record.
pub fn next_action(ids: &[&str], selection: &PassSelection, position: usize) -> (r: PipelineAction)
    ensures
        r == if position >= ids@.len() {
            PipelineAction::Finish
        } else if selects(selection@, ids@[position as int]@) {
            PipelineAction::Run(position)
        } else {
            PipelineAction::Skip(position)
        },
{
    if position >= ids.len() {
        PipelineAction::Finish
    } else if selection.includes(ids[position]) {
        PipelineAction::Run(position)
    } else {
        PipelineAction::Skip(position)
    }
}

} // verus!
