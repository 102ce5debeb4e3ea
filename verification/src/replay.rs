//! Replaying a routing run as a sequence of SWAP events.
//!
//! Routing only ever inserts `Swap` gates between the original instructions,
//! in order. So a lock-step walk over the original and the routed lists
//! recovers every inserted SWAP, and replaying each on the initial layout
//! recovers the layout after it; anything else the walk meets is a fault.
use vstd::prelude::*;

use crate::ir::qc::{insts_model, Circuit, Instruction, InstructionModel};
use crate::ir::types::gate_mnemonic;
use crate::lowering::layout::{swapped_model, Layout, LayoutModel};
use crate::lowering::routing::RoutingOutput;
use crate::target::PhysicalQubit;
use crate::text::push_str;

verus! {

/// One inserted SWAP, as a replay reports it.
#[derive(Debug, Clone, PartialEq, Eq)]
pub struct SwapEvent {
    /// Order among all swaps of the run, counted on from the caller's
    /// sequence.
    pub sequence: usize,
    /// The first physical qubit swapped.
    pub physical_a: u32,
    /// The second physical qubit swapped.
    pub physical_b: u32,
    /// Logical -> physical assignment, ascending by logical qubit, after
    /// this swap.
    pub layout_after: Vec<u32>,
}

/// The assignment of a layout as physical indices, by logical qubit.
pub open spec fn assignment(m: LayoutModel) -> Seq<u32> {
    m.to_physical.map_values(|p: PhysicalQubit| p.0)
}

/// The state of a replay part-way through the routed list.
pub struct ReplayState {
    /// How many original instructions have been matched.
    pub matched: nat,
    /// The layout after the SWAPs replayed so far.
    pub layout: LayoutModel,
    /// The sequence number of the last SWAP.
    pub sequence: nat,
    /// The events so far: sequence, the two qubits, the assignment after.
    pub events: Seq<(nat, u32, u32, Seq<u32>)>,
}

/// What a replay can stumble on in the routed list.
pub enum ReplayFault {
    /// A measurement or reset that matches no original instruction.
    NonGate,
    /// A gate that matches no original instruction and is not a two-qubit
    /// `swap`; its mnemonic.
    NotSwap(Seq<char>),
}

/// Whether routed instruction `inst` is the next original instruction.
pub open spec fn matches_next(before: Seq<InstructionModel>, st: ReplayState, inst: InstructionModel) -> bool {
    st.matched < before.len() && inst == before[st.matched as int]
}

/// One step of the replay over routed instruction `inst`.
pub open spec fn replay_step(before: Seq<InstructionModel>, st: ReplayState, inst: InstructionModel) -> Result<ReplayState, ReplayFault> {
    if matches_next(before, st, inst) {
        Ok(ReplayState { matched: st.matched + 1, ..st })
    } else {
        match inst {
            InstructionModel::Gate { kind, qubits } => if gate_mnemonic(kind) != "swap"@ || qubits.len() != 2 {
                Err(ReplayFault::NotSwap(gate_mnemonic(kind)))
            } else {
                let layout = swapped_model(st.layout, PhysicalQubit(qubits[0].0), PhysicalQubit(qubits[1].0));
                Ok(
                    ReplayState {
                        layout,
                        sequence: st.sequence + 1,
                        events: st.events.push((st.sequence + 1, qubits[0].0, qubits[1].0, assignment(layout))),
                        ..st
                    },
                )
            },
            _ => Err(ReplayFault::NonGate),
        }
    }
}

/// The replay over the first `k` routed instructions.
pub open spec fn replay_upto(before: Seq<InstructionModel>, after: Seq<InstructionModel>, k: nat, init: ReplayState) -> Result<ReplayState, ReplayFault>
    decreases k,
{
    if k == 0 {
        Ok(init)
    } else {
        match replay_upto(before, after, (k - 1) as nat, init) {
            Err(f) => Err(f),
            Ok(st) => replay_step(before, st, after[k - 1]),
        }
    }
}

/// Whether the replay never swaps a qubit off the device nor runs the
/// sequence counter past `usize::MAX`: the SWAPs it replays are exactly the
/// unmatched two-qubit `swap` gates it reaches.
pub open spec fn replay_safe(before: Seq<InstructionModel>, after: Seq<InstructionModel>, init: ReplayState) -> bool {
    forall|k: int|
        0 <= k < after.len() ==> match #[trigger] replay_upto(before, after, k as nat, init) {
            Ok(st) => !matches_next(before, st, after[k]) && after[k] is Gate && gate_mnemonic(after[k]->kind) == "swap"@
                && after[k]->qubits.len() == 2 ==> {
                &&& after[k]->qubits[0].0 < st.layout.to_logical.len()
                &&& after[k]->qubits[1].0 < st.layout.to_logical.len()
                &&& st.sequence < usize::MAX
            },
            Err(_) => true,
        }
}

/// The message a replay fault is reported with.
pub open spec fn fault_message(f: ReplayFault) -> Seq<char> {
    match f {
        ReplayFault::NonGate => "routing replay found a non-gate insertion"@,
        ReplayFault::NotSwap(m) => "routing replay found an unexpected insertion (`"@ + m + "`), not a swap"@,
    }
}

/// The SWAP events of a routing run, recovered by walking the original and
/// the routed instructions in lock step and replaying every inserted `Swap`
/// on the initial layout; `sequence` numbers them on from its value and
/// ends at the last one.
///
/// # Errors
///
/// A message when the routed list holds an insertion that is not a
/// two-qubit `swap`, leaves an original instruction unmatched, or replays
/// to a layout other than the router's own final one.
pub fn swap_events_from_diff(pre_route: &Circuit, routed: &RoutingOutput, sequence: &mut usize) -> (r: Result<Vec<SwapEvent>, String>)
    requires
        replay_safe(
            pre_route@.instructions,
            insts_model(routed.instructions@),
            ReplayState { matched: 0, layout: routed.initial_layout@, sequence: *old(sequence) as nat, events: Seq::empty() },
        ),
    ensures
        ({
            let init = ReplayState { matched: 0, layout: routed.initial_layout@, sequence: *old(sequence) as nat, events: Seq::empty() };
            let after = insts_model(routed.instructions@);
            match replay_upto(pre_route@.instructions, after, after.len(), init) {
                Err(f) => r matches Err(msg) && msg@ == fault_message(f),
                Ok(st) => if st.matched != pre_route@.instructions.len() {
                    r matches Err(msg) && msg@ == "routing replay did not account for every original instruction"@
                } else if assignment(st.layout) != assignment(routed.final_layout@) {
                    r matches Err(msg) && msg@ == "replayed layout trajectory does not match the router's own final layout"@
                } else {
                    r matches Ok(events) && *final(sequence) == st.sequence && events@.len() == st.events.len()
                        && forall|i: int| 0 <= i < events@.len() ==> {
                            &&& (#[trigger] events@[i]).sequence == st.events[i].0
                            &&& events@[i].physical_a == st.events[i].1
                            &&& events@[i].physical_b == st.events[i].2
                            &&& events@[i].layout_after@ == st.events[i].3
                        }
                },
            }
        }),
{
    let before = pre_route.instructions();
    let after = &routed.instructions;
    let ghost bm = pre_route@.instructions;
    let ghost am = insts_model(after@);
    let ghost init = ReplayState { matched: 0, layout: routed.initial_layout@, sequence: *old(sequence) as nat, events: Seq::empty() };
    let mut events: Vec<SwapEvent> = Vec::new();
    let mut layout = routed.initial_layout.clone();
    let mut bi: usize = 0;
    let mut k: usize = 0;
    while k < after.len()
        invariant
            k <= after@.len(),
            insts_model(before@) == bm,
            before@.len() == bm.len(),
            am == insts_model(after@),
            am == insts_model(routed.instructions@),
            bm == pre_route@.instructions,
            am.len() == after@.len(),
            init == (ReplayState { matched: 0, layout: routed.initial_layout@, sequence: *old(sequence) as nat, events: Seq::empty() }),
            replay_safe(bm, am, init),
            replay_upto(bm, am, k as nat, init) matches Ok(st) && st.matched == bi && st.layout == layout@
                && st.sequence == *sequence && st.events.len() == events@.len()
                && forall|i: int| 0 <= i < events@.len() ==> {
                    &&& (#[trigger] events@[i]).sequence == st.events[i].0
                    &&& events@[i].physical_a == st.events[i].1
                    &&& events@[i].physical_b == st.events[i].2
                    &&& events@[i].layout_after@ == st.events[i].3
                },
        decreases after@.len() - k,
    {
        let inst = &after[k];
        let ghost st = replay_upto(bm, am, k as nat, init)->Ok_0;
        proof {
            assert(inst@ == am[k as int]);
            assert(replay_upto(bm, am, k as nat + 1, init) == replay_step(bm, st, am[k as int]));
        }
        if bi < before.len() && inst.same_as(&before[bi]) {
            proof {
                assert(before@[bi as int]@ == bm[bi as int]);
            }
            bi += 1;
            k += 1;
            continue;
        }
        proof {
            if bi < before.len() {
                assert(before@[bi as int]@ == bm[bi as int]);
            }
            assert(!matches_next(bm, st, am[k as int]));
        }
        let (kind, qubits) = match inst {
            Instruction::Gate { kind, qubits } => (kind, qubits),
            _ => {
                proof {
                    assert(replay_upto(bm, am, k as nat + 1, init) == Err::<ReplayState, ReplayFault>(ReplayFault::NonGate));
                    lemma_replay_fault_stays(bm, am, k as nat + 1, am.len(), init);
                }
                return Err("routing replay found a non-gate insertion".to_string());
            },
        };
        let mnemonic = kind.mnemonic();
        if !crate::text::is_text(&mnemonic, "swap") || qubits.len() != 2 {
            let mut msg = String::new();
            push_str(&mut msg, "routing replay found an unexpected insertion (`");
            push_str(&mut msg, mnemonic.as_str());
            push_str(&mut msg, "`), not a swap");
            proof {
                assert(msg@ =~= fault_message(ReplayFault::NotSwap(gate_mnemonic(kind@))));
                assert(replay_upto(bm, am, k as nat + 1, init) == Err::<ReplayState, ReplayFault>(ReplayFault::NotSwap(gate_mnemonic(kind@))));
                lemma_replay_fault_stays(bm, am, k as nat + 1, am.len(), init);
            }
            return Err(msg);
        }
        let a = qubits[0].0;
        let b = qubits[1].0;
        proof {
            assert(replay_upto(bm, am, k as nat, init) == Ok::<ReplayState, ReplayFault>(st));
        }
        layout.swap_physical(PhysicalQubit(a), PhysicalQubit(b));
        *sequence += 1;
        events.push(SwapEvent { sequence: *sequence, physical_a: a, physical_b: b, layout_after: layout.permutation() });
        k += 1;
    }
    proof {
        assert(am.len() == after@.len());
    }
    if bi != before.len() {
        return Err("routing replay did not account for every original instruction".to_string());
    }
    let replayed = layout.permutation();
    let expected = routed.final_layout.permutation();
    if !same_assignment(&replayed, &expected) {
        return Err("replayed layout trajectory does not match the router's own final layout".to_string());
    }
    Ok(events)
}

/// A fault, once met, ends the replay.
proof fn lemma_replay_fault_stays(before: Seq<InstructionModel>, after: Seq<InstructionModel>, k: nat, n: nat, init: ReplayState)
    requires
        k <= n,
        replay_upto(before, after, k, init) is Err,
    ensures
        replay_upto(before, after, n, init) == replay_upto(before, after, k, init),
    decreases n - k,
{
    if k < n {
        lemma_replay_fault_stays(before, after, k, (n - 1) as nat, init);
    }
}

/// Whether two assignments are identical.
fn same_assignment(a: &Vec<u32>, b: &Vec<u32>) -> (r: bool)
    ensures
        r == (a@ == b@),
{
    if a.len() != b.len() {
        return false;
    }
    let mut i: usize = 0;
    while i < a.len()
        invariant
            i <= a@.len(),
            a@.len() == b@.len(),
            forall|j: int| 0 <= j < i ==> a@[j] == b@[j],
        decreases a@.len() - i,
    {
        if a[i] != b[i] {
            return false;
        }
        i += 1;
    }
    proof {
        assert(a@ =~= b@);
    }
    true
}

} // verus!
