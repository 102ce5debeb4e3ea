//! The device-facing part of lowering: choosing a layout, routing, widening
//! the register to the physical qubits used, and repairing orientation, with
//! a record of each step. Basis decomposition is not part of this chain.
use vstd::prelude::*;

use crate::ir::qc::{
    circuit_error, inst_qubits, insts_model, Circuit, CircuitBuilder, CircuitModel, Instruction,
    InstructionModel,
};
use crate::ir::types::{gate_mnemonic, QubitId};
use crate::lowering::layout::{
    dense_plan, layout_consistent, layout_text, trivial_model, DenseLayout, Layout, LayoutError,
    LayoutModel, TrivialLayout, UNREACHABLE_PENALTY,
};
use crate::lowering::routing::{
    lemma_route_deterministic, local_output, orientation_detail, p_of, repair_one, repair_orientation, repair_prefix,
    reversed_on, routes_as_specified, routing_mode_spec, RouteContext, RoutingOutput,
    ShortestPathRouter,
};
use crate::lowering::{LayoutChoice, LoweringError, LoweringStep};
use crate::target::{couples_spec, supports_spec, CouplingMode, PhysicalQubit, Topology, TopologyModel};
use crate::text::{decimal, push_decimal, push_str};

verus! {

/// What lowering onto a device produced.
#[derive(Debug)]
pub struct RoutedLowering {
    /// The routed, orientation-repaired circuit over physical qubit indices.
    pub circuit: Circuit,
    /// Where each logical qubit started.
    pub initial_layout: Layout,
    /// Where each logical qubit ended up.
    pub final_layout: Layout,
    /// SWAPs routing inserted.
    pub swaps_inserted: usize,
    /// Operations orientation repair turned round.
    pub orientations_repaired: usize,
    /// What each step did, in order.
    pub steps: Vec<LoweringStep>,
}

/// Why a layout choice cannot seat a circuit on a device: more qubits than
/// the device has, or than a supplied layout places.
pub open spec fn layout_refusal(c: CircuitModel, t: TopologyModel, choice: LayoutChoice) -> Option<
    LayoutError,
> {
    match choice {
        LayoutChoice::Explicit(l) => if l@.to_physical.len() < c.num_qubits {
            Some(
                LayoutError::DeviceTooSmall {
                    needed: c.num_qubits,
                    available: l@.to_physical.len() as u32,
                },
            )
        } else {
            None
        },
        _ => if c.num_qubits > t.qubit_count {
            Some(LayoutError::DeviceTooSmall { needed: c.num_qubits, available: t.qubit_count })
        } else {
            None
        },
    }
}

/// Whether `m` is the layout a choice gives for a circuit on a device.
pub open spec fn chosen_layout(c: CircuitModel, t: TopologyModel, choice: LayoutChoice, m: LayoutModel) -> bool {
    match choice {
        LayoutChoice::Trivial => m == trivial_model(c.num_qubits as nat, t.qubit_count as nat),
        LayoutChoice::Dense => m.to_physical == dense_plan(c, t) && layout_consistent(m)
            && m.to_logical.len() == t.qubit_count,
        LayoutChoice::Explicit(l) => m == l@,
    }
}

/// One past the highest index in a list of qubits, or zero.
pub open spec fn qubits_extent(qs: Seq<QubitId>) -> nat
    decreases qs.len(),
{
    if qs.len() == 0 {
        0
    } else {
        let e = qubits_extent(qs.drop_last());
        let v = qs.last().0 + 1;
        if v > e {
            v as nat
        } else {
            e
        }
    }
}

/// One past the highest qubit index the first `k` instructions touch.
pub open spec fn insts_extent(insts: Seq<InstructionModel>, k: nat) -> nat
    decreases k,
{
    if k == 0 {
        0
    } else {
        let e = insts_extent(insts, (k - 1) as nat);
        let v = qubits_extent(inst_qubits(insts[k - 1]));
        if v > e {
            v
        } else {
            e
        }
    }
}

/// One past the highest physical qubit a layout occupies, or zero.
pub open spec fn layout_extent(ps: Seq<PhysicalQubit>) -> nat
    decreases ps.len(),
{
    if ps.len() == 0 {
        0
    } else {
        let e = layout_extent(ps.drop_last());
        let v = ps.last().0 + 1;
        if v > e {
            v as nat
        } else {
            e
        }
    }
}

/// The register width routed code needs: enough for every qubit an
/// instruction touches and every qubit the final layout occupies, capped at
/// the largest width QC-IR can declare.
pub open spec fn physical_width_spec(insts: Seq<InstructionModel>, m: LayoutModel) -> u32 {
    let w = if insts_extent(insts, insts.len()) > layout_extent(m.to_physical) {
        insts_extent(insts, insts.len())
    } else {
        layout_extent(m.to_physical)
    };
    if w > u32::MAX {
        u32::MAX
    } else {
        w as u32
    }
}

/// `e` is QC-IR's complaint `ie`, raised while rebuilding a circuit.
pub open spec fn ir_failure(e: LoweringError, ie: crate::ir::error::IrErrorModel) -> bool {
    e matches LoweringError::Ir { source } && source@ == ie
}

/// `e` reports that instruction `i` of `insts` faces the wrong way and has
/// no repair.
pub open spec fn orientation_failure(e: LoweringError, insts: Seq<InstructionModel>, i: nat) -> bool {
    e matches LoweringError::UnrepairableOrientation { index, mnemonic, detail } && index == i
        && mnemonic@ == gate_mnemonic(insts[i as int]->Gate_kind) && detail@ == orientation_detail(
        p_of(insts[i as int]->Gate_qubits[0]),
        p_of(insts[i as int]->Gate_qubits[1]),
    )
}

/// What follows routing, from its output: the routed instructions are
/// rebuilt over the physical register, orientation repair runs over them,
/// and the result is rebuilt again; `Ok` carries the final circuit and the
/// repair count.
pub open spec fn after_routing(c: CircuitModel, t: TopologyModel, ro: RoutingOutput) -> Result<
    (CircuitModel, nat),
    spec_fn(LoweringError) -> bool,
> {
    let routed = insts_model(ro.instructions@);
    let width = physical_width_spec(routed, ro.final_layout@);
    match circuit_error(routed, width, c.num_clbits) {
        Some(ie) => Err(|e: LoweringError| ir_failure(e, ie)),
        None => match repair_prefix(t, routed, routed.len()) {
            Err(i) => Err(|e: LoweringError| orientation_failure(e, routed, i)),
            Ok((out, n)) => match circuit_error(out, width, c.num_clbits) {
                Some(ie) => Err(|e: LoweringError| ir_failure(e, ie)),
                None => Ok(
                    (CircuitModel { name: c.name, num_qubits: width, num_clbits: c.num_clbits, instructions: out }, n),
                ),
            },
        },
    }
}

/// The detail of the layout step.
pub open spec fn layout_detail(choice: LayoutChoice, m: LayoutModel) -> Seq<char> {
    let id = match choice {
        LayoutChoice::Trivial => "trivial"@,
        LayoutChoice::Dense => "dense"@,
        LayoutChoice::Explicit(_) => "explicit"@,
    };
    id + " layout: "@ + layout_text(m.to_physical)
}

/// Whether a step record has this identifier, count and detail.
pub open spec fn step_is(s: LoweringStep, id: Seq<char>, op_count: nat, detail: Seq<char>) -> bool {
    s.id@ == id && s.op_count == op_count && s.detail@ == detail
}

/// Every two-qubit gate acts on a pair in the direction the device
/// declares.
pub open spec fn oriented_output(t: TopologyModel, out: Seq<InstructionModel>) -> bool {
    forall|k: int|
        0 <= k < out.len() && (#[trigger] out[k]) is Gate && out[k]->Gate_qubits.len() == 2
            ==> supports_spec(t, p_of(out[k]->Gate_qubits[0]), p_of(out[k]->Gate_qubits[1]))
}

/// The routing context lowering uses.
pub open spec fn lowering_context(t: TopologyModel, mid_circuit_measurement: bool, can_reverse: bool) -> RouteContext {
    RouteContext { topology: t, mode: routing_mode_spec(can_reverse), freeze: !mid_circuit_measurement }
}

/// A successful lowering: the chosen layout, a routing of the circuit from
/// it, and what follows routing; with one step record for the layout, the
/// routing and the orientation repair.
pub open spec fn lowered_from(
    c: CircuitModel,
    t: TopologyModel,
    choice: LayoutChoice,
    mid_circuit_measurement: bool,
    can_reverse: bool,
    ro: RoutingOutput,
    o: RoutedLowering,
) -> bool {
    let ctx = lowering_context(t, mid_circuit_measurement, can_reverse);
    &&& chosen_layout(c, t, choice, o.initial_layout@)
    &&& routes_as_specified(ctx, c.instructions, o.initial_layout@, Ok(ro))
    &&& o.final_layout@ == ro.final_layout@
    &&& o.swaps_inserted == ro.swaps_inserted
    &&& after_routing(c, t, ro) matches Ok((circuit, n))
    &&& o.circuit@ == circuit
    &&& o.orientations_repaired == n
    &&& o.steps@.len() == 3
    &&& step_is(o.steps@[0], "layout"@, c.instructions.len(), layout_detail(choice, o.initial_layout@))
    &&& step_is(
        o.steps@[1],
        "routing"@,
        ro.instructions@.len(),
        decimal(ro.swaps_inserted as nat) + " swap(s) inserted"@,
    )
    &&& step_is(
        o.steps@[2],
        "orientation-repair"@,
        circuit.instructions.len(),
        decimal(n) + " reversed operation(s) repaired"@,
    )
}

/// A successful lowering, for some routing of the circuit.
pub open spec fn lowered(
    c: CircuitModel,
    t: TopologyModel,
    choice: LayoutChoice,
    mid_circuit_measurement: bool,
    can_reverse: bool,
    o: RoutedLowering,
) -> bool {
    exists|ro: RoutingOutput| #[trigger]
        lowered_from(c, t, choice, mid_circuit_measurement, can_reverse, ro, o)
}

/// A failed lowering after the layout was chosen: routing from it failed
/// with `e`, or routing succeeded and what follows it failed with `e`.
pub open spec fn failed_after_layout(
    c: CircuitModel,
    t: TopologyModel,
    choice: LayoutChoice,
    mid_circuit_measurement: bool,
    can_reverse: bool,
    e: LoweringError,
) -> bool {
    let ctx = lowering_context(t, mid_circuit_measurement, can_reverse);
    exists|m: LayoutModel, rr: Result<RoutingOutput, LoweringError>|
        #![trigger chosen_layout(c, t, choice, m), routes_as_specified(ctx, c.instructions, m, rr)]
        chosen_layout(c, t, choice, m) && routes_as_specified(ctx, c.instructions, m, rr) && match rr {
            Err(f) => e == f,
            Ok(ro) => after_routing(c, t, ro) matches Err(p) && p(e),
        }
}

/// The register width routed instructions and a final layout need.
fn physical_width(instructions: &Vec<Instruction>, layout: &Layout) -> (r: u32)
    ensures
        r == physical_width_spec(insts_model(instructions@), layout@),
{
    let ghost insts = insts_model(instructions@);
    let mut widest: u64 = 0;
    let mut k: usize = 0;
    while k < instructions.len()
        invariant
            k <= instructions@.len(),
            insts == insts_model(instructions@),
            widest == insts_extent(insts, k as nat),
            widest <= u32::MAX + 1,
        decreases instructions@.len() - k,
    {
        let qs = instructions[k].qubits();
        let mut j: usize = 0;
        let mut here: u64 = 0;
        while j < qs.len()
            invariant
                j <= qs@.len(),
                here == qubits_extent(qs@.take(j as int)),
                here <= u32::MAX + 1,
            decreases qs@.len() - j,
        {
            proof {
                assert(qs@.take(j + 1).drop_last() =~= qs@.take(j as int));
            }
            let v = qs[j].0 as u64 + 1;
            if v > here {
                here = v;
            }
            j += 1;
        }
        proof {
            assert(qs@.take(qs@.len() as int) =~= qs@);
            assert(insts[k as int] == instructions@[k as int]@);
        }
        if here > widest {
            widest = here;
        }
        k += 1;
    }
    let occupied: u64 = match layout.highest_occupied() {
        Some(p) => p.0 as u64 + 1,
        None => 0,
    };
    proof {
        lemma_layout_extent(layout@.to_physical);
    }
    let w = if widest > occupied {
        widest
    } else {
        occupied
    };
    if w > u32::MAX as u64 {
        u32::MAX
    } else {
        w as u32
    }
}

/// The extent of a layout is one past its highest entry.
proof fn lemma_layout_extent(ps: Seq<PhysicalQubit>)
    ensures
        ps.len() == 0 ==> layout_extent(ps) == 0,
        forall|l: int| 0 <= l < ps.len() ==> (#[trigger] ps[l]).0 + 1 <= layout_extent(ps),
        ps.len() > 0 ==> exists|l: int| 0 <= l < ps.len() && #[trigger] ps[l].0 + 1 == layout_extent(ps),
    decreases ps.len(),
{
    if ps.len() > 0 {
        lemma_layout_extent(ps.drop_last());
        assert forall|l: int| 0 <= l < ps.len() implies (#[trigger] ps[l]).0 + 1 <= layout_extent(ps) by {
            if l < ps.len() - 1 {
                assert(ps[l] == ps.drop_last()[l]);
            }
        }
        if ps.len() > 1 && layout_extent(ps) == layout_extent(ps.drop_last()) {
            let l = choose|l: int| 0 <= l < ps.drop_last().len() && #[trigger] ps.drop_last()[l].0 + 1
                == layout_extent(ps.drop_last());
            assert(ps[l] == ps.drop_last()[l]);
        }
        if ps.len() == 1 {
            assert(ps.drop_last().len() == 0);
        }
    }
}

/// A circuit with the given name, register widths and instructions.
///
/// # Errors
///
/// [`LoweringError::Ir`] with QC-IR's first complaint.
fn rebuild_with_width(name: &str, instructions: &[Instruction], num_qubits: u32, num_clbits: u32) -> (r:
    Result<Circuit, LoweringError>)
    ensures
        match circuit_error(insts_model(instructions@), num_qubits, num_clbits) {
            None => r is Ok && r->Ok_0@ == (CircuitModel {
                name: name@,
                num_qubits,
                num_clbits,
                instructions: insts_model(instructions@),
            }),
            Some(ie) => r is Err && ir_failure(r->Err_0, ie),
        },
{
    let mut builder = CircuitBuilder::new(name);
    builder.alloc_qubits(num_qubits);
    builder.alloc_clbits(num_clbits);
    proof {
        assert(insts_model(instructions@).take(0) =~= Seq::<InstructionModel>::empty());
    }
    let mut k: usize = 0;
    while k < instructions.len()
        invariant
            k <= instructions@.len(),
            builder@ == (CircuitModel {
                name: name@,
                num_qubits,
                num_clbits,
                instructions: insts_model(instructions@).take(k as int),
            }),
        decreases instructions@.len() - k,
    {
        builder.push(instructions[k].clone());
        proof {
            assert(insts_model(instructions@).take(k + 1) =~= insts_model(instructions@).take(
                k as int,
            ).push(instructions@[k as int]@));
        }
        k += 1;
    }
    proof {
        assert(insts_model(instructions@).take(instructions@.len() as int) =~= insts_model(
            instructions@,
        ));
    }
    match builder.build() {
        Ok(c) => Ok(c),
        Err(e) => Err(LoweringError::Ir { source: e }),
    }
}

/// The instruction orientation repair stops at lies among those scanned.
proof fn lemma_repair_error_index(t: TopologyModel, insts: Seq<InstructionModel>, k: nat)
    ensures
        repair_prefix(t, insts, k) matches Err(i) ==> i < k,
    decreases k,
{
    if k > 0 {
        lemma_repair_error_index(t, insts, (k - 1) as nat);
    }
}

/// Orientation repair of instructions local under a routing mode leaves
/// every two-qubit gate the way round the device declares.
proof fn lemma_repair_oriented(t: TopologyModel, can_reverse: bool, insts: Seq<InstructionModel>, k: nat)
    requires
        local_output(t, routing_mode_spec(can_reverse), insts),
        k <= insts.len(),
        repair_prefix(t, insts, k) is Ok,
    ensures
        oriented_output(t, repair_prefix(t, insts, k)->Ok_0.0),
    decreases k,
{
    if k > 0 {
        lemma_repair_oriented(t, can_reverse, insts, (k - 1) as nat);
        let out = repair_prefix(t, insts, (k - 1) as nat)->Ok_0.0;
        let inst = insts[k - 1];
        let more = repair_one(t, inst)->0;
        let all = out + more;
        assert(repair_prefix(t, insts, k)->Ok_0.0 == all);
        assert forall|j: int|
            0 <= j < all.len() && (#[trigger] all[j]) is Gate && all[j]->Gate_qubits.len() == 2 implies supports_spec(
            t,
            p_of(all[j]->Gate_qubits[0]),
            p_of(all[j]->Gate_qubits[1]),
        ) by {
            if j < out.len() {
                assert(all[j] == out[j]);
            } else {
                assert(all[j] == more[j - out.len()]);
                if !reversed_on(t, inst) {
                    assert(more == seq![inst]);
                    assert(insts[k - 1] is Gate && insts[k - 1]->Gate_qubits.len() == 2);
                }
            }
        }
    }
}

/// Lowers a circuit onto a device up to, but not including, basis
/// decomposition: chooses the initial layout, routes the program from it,
/// rebuilds the result over the physical qubits it uses, and repairs
/// operations that face the wrong way down a one-way coupling, recording a
/// step for the layout, the routing and the repair.
///
/// `mid_circuit_measurement` says whether the device can measure
/// mid-circuit; `can_reverse`, whether a reversed operation can be
/// expressed on it, which decides whether one-way couplings may carry SWAPs.
///
/// # Errors
///
/// [`LoweringError::Layout`] when the choice cannot seat the circuit; then
/// whatever routing, rebuilding or orientation repair reports.
#[verifier::spinoff_prover]
pub fn lower_onto(
    circuit: &Circuit,
    topology: &Topology,
    choice: &LayoutChoice,
    mid_circuit_measurement: bool,
    can_reverse: bool,
) -> (r: Result<RoutedLowering, LoweringError>)
    requires
        choice is Dense ==> circuit@.instructions.len() * topology@.qubit_count * (UNREACHABLE_PENALTY
            + topology@.qubit_count) <= usize::MAX,
        choice matches LayoutChoice::Explicit(l) ==> l@.to_logical.len() == topology@.qubit_count,
    ensures
        layout_refusal(circuit@, topology@, *choice) matches Some(e) ==> r == Err::<
            RoutedLowering,
            LoweringError,
        >(LoweringError::Layout { source: e }),
        layout_refusal(circuit@, topology@, *choice) is None ==> match r {
            Ok(o) => lowered(circuit@, topology@, *choice, mid_circuit_measurement, can_reverse, o),
            Err(e) => failed_after_layout(
                circuit@,
                topology@,
                *choice,
                mid_circuit_measurement,
                can_reverse,
                e,
            ),
        },
        r is Ok ==> oriented_output(topology@, r->Ok_0.circuit@.instructions),
{
    let ghost ctx = lowering_context(topology@, mid_circuit_measurement, can_reverse);
    let initial = match choice {
        LayoutChoice::Trivial => match TrivialLayout.plan(circuit, topology) {
            Ok(l) => l,
            Err(e) => {
                return Err(LoweringError::Layout { source: e });
            },
        },
        LayoutChoice::Dense => match DenseLayout.plan(circuit, topology) {
            Ok(l) => l,
            Err(e) => {
                return Err(LoweringError::Layout { source: e });
            },
        },
        LayoutChoice::Explicit(layout) => {
            layout.lemma_inv();
            if (layout.len() as u32) < circuit.num_qubits() {
                return Err(
                    LoweringError::Layout {
                        source: LayoutError::DeviceTooSmall {
                            needed: circuit.num_qubits(),
                            available: layout.len() as u32,
                        },
                    },
                );
            }
            layout.clone()
        },
    };
    proof {
        assert(chosen_layout(circuit@, topology@, *choice, initial@));
        assert(layout_refusal(circuit@, topology@, *choice) is None);
    }
    let mut layout_detail_text = String::new();
    push_str(&mut layout_detail_text, choice.id());
    push_str(&mut layout_detail_text, " layout: ");
    let text = initial.to_text();
    push_str(&mut layout_detail_text, text.as_str());
    let layout_step = LoweringStep {
        id: "layout".to_string(),
        op_count: circuit.len(),
        detail: layout_detail_text,
    };
    let routed = match ShortestPathRouter.route(
        circuit,
        initial.clone(),
        topology,
        mid_circuit_measurement,
        can_reverse,
    ) {
        Ok(o) => o,
        Err(e) => {
            proof {
                let rr = Err::<RoutingOutput, LoweringError>(e);
                assert(chosen_layout(circuit@, topology@, *choice, initial@) && routes_as_specified(
                    ctx,
                    circuit@.instructions,
                    initial@,
                    rr,
                ));
            }
            return Err(e);
        },
    };
    let ghost ro = routed;
    let ghost routed_model = insts_model(routed.instructions@);
    proof {
        assert(routes_as_specified(ctx, circuit@.instructions, initial@, Ok(ro)));
    }
    let mut routing_detail = String::new();
    push_decimal(&mut routing_detail, routed.swaps_inserted as u64);
    push_str(&mut routing_detail, " swap(s) inserted");
    let routing_step = LoweringStep {
        id: "routing".to_string(),
        op_count: routed.instructions.len(),
        detail: routing_detail,
    };
    let width = physical_width(&routed.instructions, &routed.final_layout);
    let current = match rebuild_with_width(
        circuit.name(),
        routed.instructions.as_slice(),
        width,
        circuit.num_clbits(),
    ) {
        Ok(c) => c,
        Err(e) => {
            proof {
                assert(after_routing(circuit@, topology@, ro) matches Err(p) && p(e));
            }
            return Err(e);
        },
    };
    let current_insts = current.instructions();
    let (repaired, count) = match repair_orientation(current_insts, topology) {
        Ok(x) => x,
        Err(e) => {
            proof {
                let i = repair_prefix(topology@, routed_model, routed_model.len())->Err_0;
                lemma_repair_error_index(topology@, routed_model, routed_model.len());
                assert(insts_model(current_insts@)[i as int] == current_insts@[i as int]@);
                assert(after_routing(circuit@, topology@, ro) matches Err(p) && p(e));
            }
            return Err(e);
        },
    };
    let mut repair_detail = String::new();
    push_decimal(&mut repair_detail, count as u64);
    push_str(&mut repair_detail, " reversed operation(s) repaired");
    let repair_step = LoweringStep {
        id: "orientation-repair".to_string(),
        op_count: repaired.len(),
        detail: repair_detail,
    };
    let final_circuit = match rebuild_with_width(
        circuit.name(),
        repaired.as_slice(),
        width,
        circuit.num_clbits(),
    ) {
        Ok(c) => c,
        Err(e) => {
            proof {
                assert(after_routing(circuit@, topology@, ro) matches Err(p) && p(e));
            }
            return Err(e);
        },
    };
    let steps = vec![layout_step, routing_step, repair_step];
    let out = RoutedLowering {
        circuit: final_circuit,
        initial_layout: initial,
        final_layout: routed.final_layout,
        swaps_inserted: routed.swaps_inserted,
        orientations_repaired: count,
        steps,
    };
    proof {
        lemma_repair_oriented(topology@, can_reverse, routed_model, routed_model.len());
        assert(lowered_from(
            circuit@,
            topology@,
            *choice,
            mid_circuit_measurement,
            can_reverse,
            ro,
            out,
        ));
        assert(lowered(circuit@, topology@, *choice, mid_circuit_measurement, can_reverse, out));
    }
    Ok(out)
}

/// Two consistent layouts with the same forward table on devices of the
/// same size are the same layout.
proof fn lemma_layout_determined(m1: LayoutModel, m2: LayoutModel)
    requires
        layout_consistent(m1),
        layout_consistent(m2),
        m1.to_physical == m2.to_physical,
        m1.to_logical.len() == m2.to_logical.len(),
    ensures
        m1 == m2,
{
    assert forall|p: int| 0 <= p < m1.to_logical.len() implies #[trigger] m1.to_logical[p]
        == m2.to_logical[p] by {
        if m1.to_logical[p] is Some {
            let q = m1.to_logical[p]->0;
            assert(m1.to_physical[q.0 as int].0 == p);
            assert(m2.to_logical[m2.to_physical[q.0 as int].0 as int] == Some(QubitId(q.0 as int as u32)));
        }
        if m2.to_logical[p] is Some {
            let q = m2.to_logical[p]->0;
            assert(m2.to_physical[q.0 as int].0 == p);
            assert(m1.to_logical[m1.to_physical[q.0 as int].0 as int] == Some(QubitId(q.0 as int as u32)));
        }
    }
    assert(m1.to_logical =~= m2.to_logical);
}

/// Lowering is deterministic: any two results that meet its specification
/// for the same circuit, device, layout choice and device capabilities
/// have the same circuit, layouts, SWAP and repair counts, and step
/// records.
pub proof fn lemma_lowering_deterministic(
    c: CircuitModel,
    t: TopologyModel,
    choice: LayoutChoice,
    mid_circuit_measurement: bool,
    can_reverse: bool,
    o1: RoutedLowering,
    o2: RoutedLowering,
)
    requires
        lowered(c, t, choice, mid_circuit_measurement, can_reverse, o1),
        lowered(c, t, choice, mid_circuit_measurement, can_reverse, o2),
    ensures
        o1.circuit@ == o2.circuit@,
        o1.initial_layout@ == o2.initial_layout@,
        o1.final_layout@ == o2.final_layout@,
        o1.swaps_inserted == o2.swaps_inserted,
        o1.orientations_repaired == o2.orientations_repaired,
        o1.steps@.len() == o2.steps@.len(),
        forall|k: int|
            0 <= k < o1.steps@.len() ==> (#[trigger] o1.steps@[k]).id@ == o2.steps@[k].id@
                && o1.steps@[k].op_count == o2.steps@[k].op_count && o1.steps@[k].detail@
                == o2.steps@[k].detail@,
{
    let ro1 = choose|ro: RoutingOutput| #[trigger]
        lowered_from(c, t, choice, mid_circuit_measurement, can_reverse, ro, o1);
    let ro2 = choose|ro: RoutingOutput| #[trigger]
        lowered_from(c, t, choice, mid_circuit_measurement, can_reverse, ro, o2);
    match choice {
        LayoutChoice::Dense => {
            lemma_layout_determined(o1.initial_layout@, o2.initial_layout@);
        },
        _ => {},
    }
    let ctx = lowering_context(t, mid_circuit_measurement, can_reverse);
    lemma_route_deterministic(
        ctx,
        c.instructions,
        o1.initial_layout@,
        Ok::<RoutingOutput, LoweringError>(ro1),
        Ok::<RoutingOutput, LoweringError>(ro2),
    );
    assert(ro1.instructions@.len() == ro2.instructions@.len()) by {
        assert(insts_model(ro1.instructions@).len() == ro1.instructions@.len());
        assert(insts_model(ro2.instructions@).len() == ro2.instructions@.len());
    }
    assert forall|k: int| 0 <= k < o1.steps@.len() implies (#[trigger] o1.steps@[k]).id@
        == o2.steps@[k].id@ && o1.steps@[k].op_count == o2.steps@[k].op_count
        && o1.steps@[k].detail@ == o2.steps@[k].detail@ by {
        assert(k == 0 || k == 1 || k == 2);
    }
}

} // verus!
