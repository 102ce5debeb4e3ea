//! Making two-qubit operations local, and making them face the right way.
//!
//! [`ShortestPathRouter`] walks the instruction list in program order. It
//! deletes no operation, reorders no pair of original operations, and only
//! inserts `Swap`s between existing instructions. Every two-qubit operation
//! it emits sits on a pair the device couples.
//!
//! Routing reads `qubits[0]` and `qubits[1]` directly rather than asking for
//! a control and a target, so that `Swap` and two-qubit opaque gates are
//! routed like everything else.
use vstd::prelude::*;

use crate::ir::qc::{inst_qubits, inst_well_formed, insts_model, Circuit, Instruction, InstructionModel};
use crate::frontend::gate_map::{map_gate, nullary_gate};
use crate::ir::types::{gate_mnemonic, ClbitId, GateKind, GateModel, QubitId};
use crate::lowering::layout::{
    layout_consistent, layout_inv, lemma_swap_involution, swapped_model, Layout, LayoutModel,
};
use crate::lowering::{LoweringError, UnroutableReason};
use crate::text::{ascii_lower, ascii_lowered, decimal, push_decimal, push_str};
use crate::target::{
    allowed_path, allowed_step, bfs_path, couples_spec, no_shorter_walk, nothing_frozen, reachable, supports_spec, CouplingMode,
    PhysicalQubit, Topology, TopologyModel,
};

verus! {

/// How a reversed two-qubit operation is made native.
///
/// Declared per operation, never inferred. `Cz` and `Swap` are symmetric;
/// `Cx` and `Cy` are not, and anything without a verified repair is
/// [`OrientationPolicy::NoRepair`].
#[derive(Debug, Clone, Copy, PartialEq, Eq)]
pub enum OrientationPolicy {
    /// The operation is unchanged by exchanging its operands, so repair is a
    /// pure relabelling with no added gates.
    Symmetric,
    /// Reversed by conjugating both operands with this one-qubit gate.
    ConjugateBoth(&'static str),
    /// No verified repair.
    NoRepair,
}

/// Which operations have which orientation repair.
pub open spec fn orientation_spec(kind: GateModel) -> int {
    match kind {
        GateModel::Cz | GateModel::Swap => 0,
        GateModel::Cx => 1,
        _ => 2,
    }
}

/// The repair available for an operation, if any: operand exchange for
/// `Cz` and `Swap`, conjugation by `h` for `Cx`, none otherwise.
pub fn orientation_policy(kind: &GateKind) -> (r: OrientationPolicy)
    ensures
        orientation_spec(kind@) == 0 <==> r is Symmetric,
        orientation_spec(kind@) == 1 <==> r is ConjugateBoth,
        orientation_spec(kind@) == 2 <==> r is NoRepair,
        r is ConjugateBoth ==> r->0@ == "h"@,
{
    match kind {
        GateKind::Cz | GateKind::Swap => OrientationPolicy::Symmetric,
        GateKind::Cx => OrientationPolicy::ConjugateBoth("h"),
        _ => OrientationPolicy::NoRepair,
    }
}

/// What routing needs to know of the device and the run.
pub struct RouteContext {
    /// The device's coupling graph.
    pub topology: TopologyModel,
    /// How coupling direction is read when planning SWAP paths.
    pub mode: CouplingMode,
    /// Whether a measured wire must stay untouched for the rest of the
    /// program (the device cannot measure mid-circuit).
    pub freeze: bool,
}

/// The graph SWAP paths are planned on: undirected when a reversed
/// operation can be repaired, otherwise only pairs declared both ways.
pub open spec fn routing_mode_spec(can_reverse: bool) -> CouplingMode {
    if can_reverse {
        CouplingMode::Undirected
    } else {
        CouplingMode::Symmetric
    }
}

/// Which graph SWAP paths may be planned on.
///
/// A `Swap` needs both orientations of an edge, so a one-way edge is usable
/// only when a reversed operation can be repaired.
pub fn routing_mode(can_reverse: bool) -> (r: CouplingMode)
    ensures
        r == routing_mode_spec(can_reverse),
{
    if can_reverse {
        CouplingMode::Undirected
    } else {
        CouplingMode::Symmetric
    }
}

/// The qubit id naming a physical qubit in routed output.
pub open spec fn q_of(p: PhysicalQubit) -> QubitId {
    QubitId(p.0)
}

/// The `Swap` routing emits between `from` and `to`: in the declared
/// orientation `(from, to)` when the device declares it, else reversed.
pub open spec fn swap_model(t: TopologyModel, from: PhysicalQubit, to: PhysicalQubit) -> InstructionModel {
    if supports_spec(t, from, to) {
        InstructionModel::Gate { kind: GateModel::Swap, qubits: seq![q_of(from), q_of(to)] }
    } else {
        InstructionModel::Gate { kind: GateModel::Swap, qubits: seq![q_of(to), q_of(from)] }
    }
}

/// A `Swap` written with operands in an order the device declares, when it
/// declares either.
pub fn swap_instruction(from: PhysicalQubit, to: PhysicalQubit, topology: &Topology) -> (r:
    Instruction)
    ensures
        r@ == swap_model(topology@, from, to),
{
    let (first, second) = if topology.supports(from, to) {
        (from, to)
    } else {
        (to, from)
    };
    let qubits = vec![QubitId(first.0), QubitId(second.0)];
    proof {
        assert(qubits@ =~= seq![q_of(first), q_of(second)]);
    }
    Instruction::Gate { kind: GateKind::Swap, qubits }
}

/// Where a logical qubit lives under a layout, if it is placed.
pub open spec fn placed(m: LayoutModel, q: QubitId) -> bool {
    q.0 < m.to_physical.len()
}

/// The physical home of a logical qubit at program index `index`, or the
/// error naming it as unplaced.
pub fn physical(layout: &Layout, logical: QubitId, index: usize) -> (r: Result<
    PhysicalQubit,
    LoweringError,
>)
    ensures
        match r {
            Ok(p) => placed(layout@, logical) && p == layout@.to_physical[logical.0 as int],
            Err(e) => !placed(layout@, logical) && e == (LoweringError::UnmappedQubit {
                index,
                qubit: logical,
            }),
        },
{
    match layout.physical(logical) {
        Some(p) => Ok(p),
        None => Err(LoweringError::UnmappedQubit { index, qubit: logical }),
    }
}

/// The layout after swapping along the first `j` edges of `path`.
pub open spec fn walk(m: LayoutModel, path: Seq<PhysicalQubit>, j: nat) -> LayoutModel
    decreases j,
{
    if j == 0 {
        m
    } else {
        swapped_model(walk(m, path, (j - 1) as nat), path[j - 1], path[j as int])
    }
}

/// The `Swap`s emitted along the first `j` edges of `path`.
pub open spec fn walk_swaps(t: TopologyModel, path: Seq<PhysicalQubit>, j: nat) -> Seq<
    InstructionModel,
> {
    Seq::new(j, |k: int| swap_model(t, path[k], path[k + 1]))
}

/// How many SWAPs walking the first operand along `path` takes: every edge
/// but the last.
pub open spec fn walk_len(path: Seq<PhysicalQubit>) -> nat {
    if path.len() >= 2 {
        (path.len() - 2) as nat
    } else {
        0
    }
}

/// Routing's progress after some prefix of the program.
pub struct RouteState {
    /// Instructions emitted so far, over physical qubits.
    pub out: Seq<InstructionModel>,
    /// Where each logical qubit currently lives.
    pub layout: LayoutModel,
    /// Physical qubits no SWAP path may pass through.
    pub frozen: Seq<bool>,
    /// SWAPs inserted so far.
    pub swaps: nat,
}

/// The first operand, in order, that the layout does not place.
pub open spec fn first_unplaced(m: LayoutModel, qs: Seq<QubitId>) -> Option<QubitId>
    decreases qs.len(),
{
    if qs.len() == 0 {
        None
    } else {
        match first_unplaced(m, qs.drop_last()) {
            Some(q) => Some(q),
            None => if !placed(m, qs.last()) {
                Some(qs.last())
            } else {
                None
            },
        }
    }
}

/// Operands renamed to their physical homes.
pub open spec fn mapped_operands(m: LayoutModel, qs: Seq<QubitId>) -> Seq<QubitId> {
    qs.map_values(|q: QubitId| q_of(m.to_physical[q.0 as int]))
}

/// A routing state with one more instruction emitted.
pub open spec fn emit(s: RouteState, inst: InstructionModel) -> RouteState {
    RouteState { out: s.out.push(inst), layout: s.layout, frozen: s.frozen, swaps: s.swaps }
}

/// Why a pair that cannot be joined now cannot be: if a walk exists once
/// nothing is frozen, measured wires are to blame.
pub open spec fn unroutable_reason(
    t: TopologyModel,
    a: PhysicalQubit,
    b: PhysicalQubit,
    mode: CouplingMode,
) -> UnroutableReason {
    if reachable(t, a, b, mode, nothing_frozen(t.qubit_count as nat)) {
        UnroutableReason::MeasurementFrozenWire
    } else {
        UnroutableReason::NoPath
    }
}

/// Routing a two-qubit gate on `q0`, `q1` at program index `index`, where
/// `path` is the walk chosen for it when a walk is needed.
///
/// When the operands' homes are coupled, it is placed on them.
/// Otherwise the first operand is walked along `path` until it sits next to
/// the second, one `Swap` per step, and it is then placed on the new
/// homes.
#[verifier::opaque]
pub open spec fn step_pair(
    ctx: RouteContext,
    kind: GateModel,
    q0: QubitId,
    q1: QubitId,
    index: usize,
    s: RouteState,
    path: Seq<PhysicalQubit>,
) -> Result<RouteState, LoweringError> {
    let m = s.layout;
    if !placed(m, q0) {
        Err(LoweringError::UnmappedQubit { index, qubit: q0 })
    } else if !placed(m, q1) {
        Err(LoweringError::UnmappedQubit { index, qubit: q1 })
    } else {
        let a = m.to_physical[q0.0 as int];
        let b = m.to_physical[q1.0 as int];
        if couples_spec(ctx.topology, a, b, ctx.mode) {
            Ok(emit(s, InstructionModel::Gate { kind, qubits: seq![q_of(a), q_of(b)] }))
        } else if !reachable(ctx.topology, a, b, ctx.mode, s.frozen) {
            Err(
                LoweringError::Unroutable {
                    index,
                    from: a,
                    to: b,
                    reason: unroutable_reason(ctx.topology, a, b, ctx.mode),
                },
            )
        } else {
            let j = walk_len(path);
            let m2 = walk(m, path, j);
            Ok(
                RouteState {
                    out: s.out + walk_swaps(ctx.topology, path, j) + seq![
                        InstructionModel::Gate {
                            kind,
                            qubits: seq![
                                q_of(m2.to_physical[q0.0 as int]),
                                q_of(m2.to_physical[q1.0 as int]),
                            ],
                        },
                    ],
                    layout: m2,
                    frozen: s.frozen,
                    swaps: s.swaps + j,
                },
            )
        }
    }
}

/// Routing a gate of any other width: emitted on its operands' homes, or
/// refused at its first unplaced operand.
#[verifier::opaque]
pub open spec fn step_gate(
    kind: GateModel,
    qubits: Seq<QubitId>,
    index: usize,
    s: RouteState,
) -> Result<RouteState, LoweringError> {
    match first_unplaced(s.layout, qubits) {
        Some(q) => Err(LoweringError::UnmappedQubit { index, qubit: q }),
        None => Ok(emit(s, InstructionModel::Gate { kind, qubits: mapped_operands(s.layout, qubits) })),
    }
}

/// Routing a measurement: emitted on the qubit's home, which is frozen when
/// the device cannot measure mid-circuit.
#[verifier::opaque]
pub open spec fn step_measure(
    ctx: RouteContext,
    qubit: QubitId,
    target: ClbitId,
    index: usize,
    s: RouteState,
) -> Result<RouteState, LoweringError> {
    if !placed(s.layout, qubit) {
        Err(LoweringError::UnmappedQubit { index, qubit })
    } else {
        let p = s.layout.to_physical[qubit.0 as int];
        Ok(
            RouteState {
                out: s.out.push(InstructionModel::Measure { qubit: q_of(p), target }),
                layout: s.layout,
                frozen: if ctx.freeze {
                    s.frozen.update(p.0 as int, true)
                } else {
                    s.frozen
                },
                swaps: s.swaps,
            },
        )
    }
}

/// Routing a reset: emitted on the qubit's home.
#[verifier::opaque]
pub open spec fn step_reset(qubit: QubitId, index: usize, s: RouteState) -> Result<
    RouteState,
    LoweringError,
> {
    if !placed(s.layout, qubit) {
        Err(LoweringError::UnmappedQubit { index, qubit })
    } else {
        Ok(emit(s, InstructionModel::Reset { qubit: q_of(s.layout.to_physical[qubit.0 as int]) }))
    }
}

/// Routing one instruction at program index `index`, where `path` is the
/// walk chosen for it when a walk is needed.
#[verifier::opaque]
pub open spec fn route_step(
    ctx: RouteContext,
    inst: InstructionModel,
    index: usize,
    s: RouteState,
    path: Seq<PhysicalQubit>,
) -> Result<RouteState, LoweringError> {
    match inst {
        InstructionModel::Gate { kind, qubits } => if qubits.len() == 2 {
            step_pair(ctx, kind, qubits[0], qubits[1], index, s, path)
        } else {
            step_gate(kind, qubits, index, s)
        },
        InstructionModel::Measure { qubit, target } => step_measure(ctx, qubit, target, index, s),
        InstructionModel::Reset { qubit } => step_reset(qubit, index, s),
    }
}

/// Whether `path` is an acceptable walk for a two-qubit gate on `q0`, `q1`
/// from state `s`: when a walk is needed, it must run from the first
/// operand's home to the second's, repeat no qubit, couple each step,
/// avoid frozen wires, and be as short as any such walk.
#[verifier::opaque]
pub open spec fn pair_fits(
    ctx: RouteContext,
    q0: QubitId,
    q1: QubitId,
    s: RouteState,
    path: Seq<PhysicalQubit>,
) -> bool {
    let m = s.layout;
    if placed(m, q0) && placed(m, q1) {
        let a = m.to_physical[q0.0 as int];
        let b = m.to_physical[q1.0 as int];
        (!couples_spec(ctx.topology, a, b, ctx.mode) && reachable(
            ctx.topology,
            a,
            b,
            ctx.mode,
            s.frozen,
        )) ==> (allowed_path(ctx.topology, path, ctx.mode, s.frozen, b) && path[0] == a
            && path.no_duplicates() && no_shorter_walk(ctx.topology, a, b, ctx.mode, s.frozen, path.len())
            && bfs_path(ctx.topology, a, b, ctx.mode, s.frozen) == Some(path))
    } else {
        true
    }
}

/// Whether `path` is an acceptable walk for routing `inst` from state `s`;
/// only a two-qubit gate ever needs one.
#[verifier::opaque]
pub open spec fn path_fits(
    ctx: RouteContext,
    inst: InstructionModel,
    s: RouteState,
    path: Seq<PhysicalQubit>,
) -> bool {
    match inst {
        InstructionModel::Gate { qubits, .. } => qubits.len() == 2 ==> pair_fits(
            ctx,
            qubits[0],
            qubits[1],
            s,
            path,
        ),
        _ => true,
    }
}
/// Routing's state after the first `k` instructions, or the first error.
pub open spec fn route_prefix(
    ctx: RouteContext,
    insts: Seq<InstructionModel>,
    init: LayoutModel,
    paths: Seq<Seq<PhysicalQubit>>,
    k: nat,
) -> Result<RouteState, LoweringError>
    decreases k,
{
    if k == 0 {
        Ok(
            RouteState {
                out: Seq::empty(),
                layout: init,
                frozen: nothing_frozen(ctx.topology.qubit_count as nat),
                swaps: 0,
            },
        )
    } else {
        match route_prefix(ctx, insts, init, paths, (k - 1) as nat) {
            Err(e) => Err(e),
            Ok(s) => route_step(ctx, insts[k - 1], (k - 1) as usize, s, paths[k - 1]),
        }
    }
}

/// Every walk among the first `n` of `paths` is acceptable where routing
/// uses it.
pub open spec fn fits_upto(
    ctx: RouteContext,
    insts: Seq<InstructionModel>,
    init: LayoutModel,
    paths: Seq<Seq<PhysicalQubit>>,
    n: int,
) -> bool {
    forall|k: int|
        0 <= k < n ==> match route_prefix(ctx, insts, init, paths, k as nat) {
            Ok(s) => path_fits(ctx, insts[k], s, #[trigger] paths[k]),
            Err(_) => true,
        }
}

/// Every walk in `paths` is acceptable where routing uses it.
pub open spec fn paths_fit(
    ctx: RouteContext,
    insts: Seq<InstructionModel>,
    init: LayoutModel,
    paths: Seq<Seq<PhysicalQubit>>,
) -> bool {
    &&& paths.len() == insts.len()
    &&& fits_upto(ctx, insts, init, paths, insts.len() as int)
}

/// Routing's state after the first `k` instructions is the same for any two
/// acceptable choices of walks.
proof fn lemma_prefix_deterministic(
    ctx: RouteContext,
    insts: Seq<InstructionModel>,
    init: LayoutModel,
    p1: Seq<Seq<PhysicalQubit>>,
    p2: Seq<Seq<PhysicalQubit>>,
    k: nat,
)
    requires
        paths_fit(ctx, insts, init, p1),
        paths_fit(ctx, insts, init, p2),
        k <= insts.len(),
    ensures
        route_prefix(ctx, insts, init, p1, k) == route_prefix(ctx, insts, init, p2, k),
    decreases k,
{
    if k > 0 {
        lemma_prefix_deterministic(ctx, insts, init, p1, p2, (k - 1) as nat);
        let i = (k - 1) as int;
        match route_prefix(ctx, insts, init, p1, (k - 1) as nat) {
            Err(_) => {},
            Ok(st) => {
                assert(path_fits(ctx, insts[i], st, p1[i]));
                assert(path_fits(ctx, insts[i], st, p2[i]));
                reveal(route_step);
                reveal(path_fits);
                reveal(pair_fits);
                reveal(step_pair);
                if insts[i] is Gate && insts[i]->Gate_qubits.len() == 2 {
                    let q0 = insts[i]->Gate_qubits[0];
                    let q1 = insts[i]->Gate_qubits[1];
                    let m = st.layout;
                    if placed(m, q0) && placed(m, q1) {
                        let a = m.to_physical[q0.0 as int];
                        let b = m.to_physical[q1.0 as int];
                        if !couples_spec(ctx.topology, a, b, ctx.mode) && reachable(
                            ctx.topology,
                            a,
                            b,
                            ctx.mode,
                            st.frozen,
                        ) {
                            assert(p1[i] == p2[i]);
                        }
                    }
                }
            },
        }
    }
}

/// Routing is deterministic: any two results that meet the routing
/// specification for the same circuit, starting layout and context are
/// the same — the same error, or the same instructions, final layout and
/// SWAP count.
pub proof fn lemma_route_deterministic(
    ctx: RouteContext,
    insts: Seq<InstructionModel>,
    init: LayoutModel,
    r1: Result<RoutingOutput, LoweringError>,
    r2: Result<RoutingOutput, LoweringError>,
)
    requires
        routes_as_specified(ctx, insts, init, r1),
        routes_as_specified(ctx, insts, init, r2),
    ensures
        r1 is Ok <==> r2 is Ok,
        r1 is Err ==> r1 == r2,
        r1 is Ok && r2 is Ok ==> insts_model(r1->Ok_0.instructions@) == insts_model(
            r2->Ok_0.instructions@,
        ) && r1->Ok_0.initial_layout@ == r2->Ok_0.initial_layout@
            && r1->Ok_0.final_layout@ == r2->Ok_0.final_layout@
            && r1->Ok_0.swaps_inserted == r2->Ok_0.swaps_inserted,
{
    let p1 = choose|paths: Seq<Seq<PhysicalQubit>>|
        paths_fit(ctx, insts, init, paths) && routed(
            r1,
            route_prefix(ctx, insts, init, paths, insts.len() as nat),
            init,
        );
    let p2 = choose|paths: Seq<Seq<PhysicalQubit>>|
        paths_fit(ctx, insts, init, paths) && routed(
            r2,
            route_prefix(ctx, insts, init, paths, insts.len() as nat),
            init,
        );
    lemma_prefix_deterministic(ctx, insts, init, p1, p2, insts.len() as nat);
}

/// Every two-qubit gate acts on a pair coupled under `mode`.
pub open spec fn local_output(t: TopologyModel, mode: CouplingMode, out: Seq<InstructionModel>) -> bool {
    forall|k: int|
        0 <= k < out.len() && (#[trigger] out[k]) is Gate && out[k]->Gate_qubits.len() == 2
            ==> couples_spec(
            t,
            PhysicalQubit(out[k]->Gate_qubits[0].0),
            PhysicalQubit(out[k]->Gate_qubits[1].0),
            mode,
        )
}

/// How a router turned a circuit into a local one.
#[derive(Debug, Clone)]
pub struct RoutingOutput {
    /// Instructions over physical qubit indices.
    pub instructions: Vec<Instruction>,
    /// Where each logical qubit started.
    pub initial_layout: Layout,
    /// Where each logical qubit ended up, after every inserted `Swap`.
    pub final_layout: Layout,
    /// SWAPs inserted.
    pub swaps_inserted: usize,
}

/// Deterministic shortest-path routing.
#[derive(Debug, Clone, Copy, Default)]
pub struct ShortestPathRouter;

/// What routing produced, against what the specification says it produces.
pub open spec fn routed(
    r: Result<RoutingOutput, LoweringError>,
    expected: Result<RouteState, LoweringError>,
    init: LayoutModel,
) -> bool {
    match (r, expected) {
        (Ok(o), Ok(s)) => {
            &&& insts_model(o.instructions@) == s.out
            &&& o.initial_layout@ == init
            &&& o.final_layout@ == s.layout
            &&& o.swaps_inserted == s.swaps
        },
        (Err(e), Err(f)) => e == f,
        _ => false,
    }
}

/// The result is what the specification gives for some choice of
/// acceptable walks.
pub open spec fn routes_as_specified(
    ctx: RouteContext,
    insts: Seq<InstructionModel>,
    init: LayoutModel,
    r: Result<RoutingOutput, LoweringError>,
) -> bool {
    exists|paths: Seq<Seq<PhysicalQubit>>| #[trigger]
        paths_fit(ctx, insts, init, paths) && routed(
            r,
            route_prefix(ctx, insts, init, paths, insts.len() as nat),
            init,
        )
}

impl ShortestPathRouter {
    /// Stable identifier, recorded in lowering output.
    pub fn id(&self) -> (r: &'static str)
        ensures
            r@ == "shortest-path"@,
    {
        "shortest-path"
    }

    /// Routes a circuit onto the physical qubits of `topology`, starting
    /// from `layout`.
    ///
    /// Walks the program in order. A two-qubit operation whose operands are
    /// not coupled has its first operand walked, one `Swap` per step, along
    /// a breadth-first walk to the second. When the device cannot measure
    /// mid-circuit (`mid_circuit_measurement` false), a measured wire is
    /// never walked through afterwards. `can_reverse` says whether a
    /// reversed two-qubit operation can be repaired, which decides whether
    /// one-way couplings may carry SWAPs.
    ///
    /// # Errors
    ///
    /// [`LoweringError::UnmappedQubit`] for an operand the layout does not
    /// place; [`LoweringError::Unroutable`] when no walk joins two operands.
    pub fn route(
        &self,
        circuit: &Circuit,
        layout: Layout,
        topology: &Topology,
        mid_circuit_measurement: bool,
        can_reverse: bool,
    ) -> (r: Result<RoutingOutput, LoweringError>)
        requires
            layout@.to_logical.len() == topology@.qubit_count,
        ensures
            routes_as_specified(
                RouteContext {
                    topology: topology@,
                    mode: routing_mode_spec(can_reverse),
                    freeze: !mid_circuit_measurement,
                },
                circuit@.instructions,
                layout@,
                r,
            ),
            r is Ok ==> local_output(
                topology@,
                routing_mode_spec(can_reverse),
                insts_model(r->Ok_0.instructions@),
            ) && layout_consistent(r->Ok_0.final_layout@),
    {
        layout.lemma_inv();
        let ghost ctx = RouteContext {
            topology: topology@,
            mode: routing_mode_spec(can_reverse),
            freeze: !mid_circuit_measurement,
        };
        let mode = routing_mode(can_reverse);
        let freeze = !mid_circuit_measurement;
        let initial_layout = layout.clone();
        let mut current = layout;
        let mut out: Vec<Instruction> = Vec::new();
        let mut swaps: usize = 0;
        let count = topology.qubit_count();
        let mut frozen: Vec<bool> = Vec::new();
        let mut f: u32 = 0;
        while f < count
            invariant
                f <= count,
                frozen@ =~= nothing_frozen(f as nat),
            decreases count - f,
        {
            frozen.push(false);
            f += 1;
        }
        circuit.lemma_valid();
        let insts = circuit.instructions();
        let ghost model = circuit@.instructions;
        let ghost init = initial_layout@;
        let ghost mut paths: Seq<Seq<PhysicalQubit>> = Seq::empty();
        proof {
            assert(insts_model(out@) =~= Seq::empty());
        }
        let mut i: usize = 0;
        while i < insts.len()
            invariant
                i <= insts@.len(),
                insts_model(insts@) == model,
                insts@.len() == model.len(),
                model == circuit@.instructions,
                init == layout@,
                forall|k: int|
                    0 <= k < model.len() ==> inst_well_formed(
                        #[trigger] model[k],
                        circuit@.num_qubits,
                        circuit@.num_clbits,
                    ),
                ctx == (RouteContext {
                    topology: topology@,
                    mode: routing_mode_spec(can_reverse),
                    freeze: !mid_circuit_measurement,
                }),
                ctx.mode == mode,
                ctx.freeze == freeze,
                mode == routing_mode_spec(can_reverse),
                paths.len() == i,
                route_prefix(ctx, model, init, paths, i as nat) == Ok::<RouteState, LoweringError>(
                    RouteState {
                        out: insts_model(out@),
                        layout: current@,
                        frozen: frozen@,
                        swaps: swaps as nat,
                    },
                ),
                fits_upto(ctx, model, init, paths, i as int),
                current@.to_logical.len() == topology@.qubit_count,
                frozen@.len() == topology@.qubit_count,
                swaps <= out@.len(),
                layout_consistent(init) ==> layout_consistent(current@) && local_output(
                    topology@,
                    mode,
                    insts_model(out@),
                ),
            decreases insts@.len() - i,
        {
            proof {
                assert(insts@[i as int]@ == model[i as int]);
                assert(inst_well_formed(model[i as int], circuit@.num_qubits, circuit@.num_clbits));
            }
            let step = route_instruction(
                &insts[i],
                i,
                topology,
                mode,
                freeze,
                &mut current,
                &mut frozen,
                &mut out,
                &mut swaps,
            );
            match step {
                Ok(path) => {
                    proof {
                        let p2 = paths.push(path@);
                        lemma_extend_paths(ctx, model, init, paths, path@, i as nat);
                        paths = p2;
                    }
                },
                Err(e) => {
                    proof {
                        let full = lemma_fail_paths(ctx, model, init, paths, i as nat, e);
                        assert(paths_fit(ctx, model, init, full) && routed(
                            Err(e),
                            route_prefix(ctx, model, init, full, model.len() as nat),
                            init,
                        ));
                        assert(routes_as_specified(ctx, model, init, Err(e)));
                    }
                    return Err(e);
                },
            }
            i += 1;
        }
        proof {
            assert(paths_fit(ctx, model, init, paths));
        }
        let r = RoutingOutput {
            instructions: out,
            initial_layout,
            final_layout: current,
            swaps_inserted: swaps,
        };
        proof {
            assert(routed(Ok(r), route_prefix(ctx, model, init, paths, model.len() as nat), init));
            assert(routes_as_specified(ctx, model, init, Ok(r)));
        }
        Ok(r)
    }
}

/// Routes one instruction at program index `index`, updating the layout,
/// the frozen wires, the output and the SWAP count; returns the walk used.
fn route_instruction(
    inst: &Instruction,
    index: usize,
    topology: &Topology,
    mode: CouplingMode,
    freeze: bool,
    current: &mut Layout,
    frozen: &mut Vec<bool>,
    out: &mut Vec<Instruction>,
    swaps: &mut usize,
) -> (r: Result<Ghost<Seq<PhysicalQubit>>, LoweringError>)
    requires
        old(current)@.to_logical.len() == topology@.qubit_count,
        old(frozen)@.len() == topology@.qubit_count,
        mode == CouplingMode::Undirected || mode == CouplingMode::Symmetric,
        *old(swaps) <= old(out)@.len(),
        forall|k: int, l: int|
            0 <= k < l < inst_qubits(inst@).len() ==> #[trigger] inst_qubits(inst@)[k]
                != #[trigger] inst_qubits(inst@)[l],
    ensures
        final(current)@.to_logical.len() == topology@.qubit_count,
        final(frozen)@.len() == topology@.qubit_count,
        *final(swaps) <= final(out)@.len(),
        ({
            let ctx = RouteContext { topology: topology@, mode, freeze };
            let s0 = RouteState {
                out: insts_model(old(out)@),
                layout: old(current)@,
                frozen: old(frozen)@,
                swaps: *old(swaps) as nat,
            };
            let s1 = RouteState {
                out: insts_model(final(out)@),
                layout: final(current)@,
                frozen: final(frozen)@,
                swaps: *final(swaps) as nat,
            };
            match r {
                Ok(path) => route_step(ctx, inst@, index, s0, path@) == Ok::<
                    RouteState,
                    LoweringError,
                >(s1) && path_fits(ctx, inst@, s0, path@),
                Err(e) => route_step(ctx, inst@, index, s0, Seq::empty()) == Err::<
                    RouteState,
                    LoweringError,
                >(e),
            }
        }),
        r is Ok && layout_consistent(old(current)@) && local_output(
            topology@,
            mode,
            insts_model(old(out)@),
        ) ==> layout_consistent(final(current)@) && local_output(
            topology@,
            mode,
            insts_model(final(out)@),
        ),
{
    reveal(route_step);
    reveal(path_fits);
    current.lemma_inv();
    match inst {
        Instruction::Gate { kind, qubits } => {
            if qubits.len() == 2 {
                proof {
                    assert(inst_qubits(inst@)[0] != inst_qubits(inst@)[1]);
                }
                route_pair(kind, qubits[0], qubits[1], index, topology, mode, freeze, current, frozen, out, swaps)
            } else {
                route_gate(kind, qubits, index, topology, mode, freeze, current, frozen, out, swaps)
            }
        },
        Instruction::Measure { qubit, target } => {
            proof {
                reveal(step_measure);
            }
            let p = match physical(&*current, *qubit, index) {
                Ok(p) => p,
                Err(e) => {
                    return Err(e);
                },
            };
            if freeze {
                frozen.set(p.0 as usize, true);
            }
            let ghost before = insts_model(out@);
            out.push(Instruction::Measure { qubit: QubitId(p.0), target: *target });
            proof {
                assert(insts_model(out@) =~= before.push(
                    InstructionModel::Measure { qubit: q_of(p), target: *target },
                ));
                lemma_local_push(topology@, mode, before, insts_model(out@));
            }
            Ok(Ghost(Seq::empty()))
        },
        Instruction::Reset { qubit } => {
            proof {
                reveal(step_reset);
            }
            let p = match physical(&*current, *qubit, index) {
                Ok(p) => p,
                Err(e) => {
                    return Err(e);
                },
            };
            let ghost before = insts_model(out@);
            out.push(Instruction::Reset { qubit: QubitId(p.0) });
            proof {
                assert(insts_model(out@) =~= before.push(InstructionModel::Reset { qubit: q_of(p) }));
                lemma_local_push(topology@, mode, before, insts_model(out@));
            }
            Ok(Ghost(Seq::empty()))
        },
    }
}

/// Routes a gate that is not two-qubit: emits it on its operands' homes.
fn route_gate(
    kind: &GateKind,
    qubits: &Vec<QubitId>,
    index: usize,
    topology: &Topology,
    mode: CouplingMode,
    freeze: bool,
    current: &mut Layout,
    frozen: &mut Vec<bool>,
    out: &mut Vec<Instruction>,
    swaps: &mut usize,
) -> (r: Result<Ghost<Seq<PhysicalQubit>>, LoweringError>)
    requires
        qubits@.len() != 2,
        *old(swaps) <= old(out)@.len(),
    ensures
        final(current)@ == old(current)@,
        final(frozen)@ == old(frozen)@,
        *final(swaps) == *old(swaps),
        *final(swaps) <= final(out)@.len(),
        ({
            let s0 = RouteState {
                out: insts_model(old(out)@),
                layout: old(current)@,
                frozen: old(frozen)@,
                swaps: *old(swaps) as nat,
            };
            let s1 = RouteState {
                out: insts_model(final(out)@),
                layout: final(current)@,
                frozen: final(frozen)@,
                swaps: *final(swaps) as nat,
            };
            match r {
                Ok(path) => step_gate(kind@, qubits@, index, s0) == Ok::<RouteState, LoweringError>(
                    s1,
                ),
                Err(e) => step_gate(kind@, qubits@, index, s0) == Err::<RouteState, LoweringError>(
                    e,
                ),
            }
        }),
        r is Ok && local_output(topology@, mode, insts_model(old(out)@)) ==> local_output(
            topology@,
            mode,
            insts_model(final(out)@),
        ),
{
    reveal(step_gate);
    let ghost m0 = current@;
    let mut ops: Vec<QubitId> = Vec::new();
    let mut k: usize = 0;
    while k < qubits.len()
        invariant
            k <= qubits@.len(),
            current@ == m0,
            out@ == old(out)@,
            *swaps == *old(swaps),
            *old(swaps) <= old(out)@.len(),
            frozen@ == old(frozen)@,
            first_unplaced(m0, qubits@.take(k as int)) is None,
            ops@ == mapped_operands(m0, qubits@.take(k as int)),
        decreases qubits@.len() - k,
    {
        proof {
            lemma_unplaced_step(m0, qubits@, k as nat);
        }
        let p = match physical(&*current, qubits[k], index) {
            Ok(p) => p,
            Err(e) => {
                proof {
                    reveal(step_gate);
                    lemma_first_unplaced_grows(m0, qubits@, (k + 1) as nat, qubits@.len());
                    assert(qubits@.take(qubits@.len() as int) =~= qubits@);
                }
                return Err(e);
            },
        };
        ops.push(QubitId(p.0));
        k += 1;
    }
    proof {
        assert(qubits@.take(qubits@.len() as int) =~= qubits@);
    }
    let ghost before = insts_model(out@);
    out.push(Instruction::Gate { kind: kind.clone(), qubits: ops });
    proof {
        assert(insts_model(out@) =~= before.push(
            InstructionModel::Gate { kind: kind@, qubits: mapped_operands(m0, qubits@) },
        ));
        lemma_local_push(topology@, mode, before, insts_model(out@));
    }
    Ok(Ghost(Seq::empty()))
}

/// Routes a two-qubit gate on distinct operands `q0`, `q1`: walks the first
/// operand next to the second when they are not coupled, then emits it.
fn route_pair(
    kind: &GateKind,
    q0: QubitId,
    q1: QubitId,
    index: usize,
    topology: &Topology,
    mode: CouplingMode,
    freeze: bool,
    current: &mut Layout,
    frozen: &mut Vec<bool>,
    out: &mut Vec<Instruction>,
    swaps: &mut usize,
) -> (r: Result<Ghost<Seq<PhysicalQubit>>, LoweringError>)
    requires
        q0 != q1,
        old(current)@.to_logical.len() == topology@.qubit_count,
        old(frozen)@.len() == topology@.qubit_count,
        mode == CouplingMode::Undirected || mode == CouplingMode::Symmetric,
        *old(swaps) <= old(out)@.len(),
    ensures
        final(current)@.to_logical.len() == topology@.qubit_count,
        final(frozen)@ == old(frozen)@,
        *final(swaps) <= final(out)@.len(),
        ({
            let ctx = RouteContext { topology: topology@, mode, freeze };
            let s0 = RouteState {
                out: insts_model(old(out)@),
                layout: old(current)@,
                frozen: old(frozen)@,
                swaps: *old(swaps) as nat,
            };
            let s1 = RouteState {
                out: insts_model(final(out)@),
                layout: final(current)@,
                frozen: final(frozen)@,
                swaps: *final(swaps) as nat,
            };
            match r {
                Ok(path) => step_pair(ctx, kind@, q0, q1, index, s0, path@) == Ok::<
                    RouteState,
                    LoweringError,
                >(s1) && pair_fits(ctx, q0, q1, s0, path@),
                Err(e) => step_pair(ctx, kind@, q0, q1, index, s0, Seq::empty()) == Err::<
                    RouteState,
                    LoweringError,
                >(e),
            }
        }),
        r is Ok && layout_consistent(old(current)@) && local_output(
            topology@,
            mode,
            insts_model(old(out)@),
        ) ==> layout_consistent(final(current)@) && local_output(
            topology@,
            mode,
            insts_model(final(out)@),
        ),
{
    reveal(step_pair);
    reveal(pair_fits);
    current.lemma_inv();
    let ghost t = topology@;
    let ghost m0 = current@;
    let ghost out0 = insts_model(out@);
    let ghost swaps0 = *swaps;
    let a = match physical(&*current, q0, index) {
        Ok(p) => p,
        Err(e) => {
            return Err(e);
        },
    };
    let b = match physical(&*current, q1, index) {
        Ok(p) => p,
        Err(e) => {
            return Err(e);
        },
    };
    proof {
        assert(m0.to_logical[a.0 as int] == Some(QubitId(q0.0 as int as u32)));
        assert(m0.to_logical[b.0 as int] == Some(QubitId(q1.0 as int as u32)));
        assert(a != b);
    }
    if topology.couples(a, b, mode) {
        let ops = vec![QubitId(a.0), QubitId(b.0)];
        out.push(Instruction::Gate { kind: kind.clone(), qubits: ops });
        proof {
            assert(ops@ =~= seq![q_of(a), q_of(b)]);
            assert(insts_model(out@) =~= out0.push(
                InstructionModel::Gate { kind: kind@, qubits: seq![q_of(a), q_of(b)] },
            ));
            lemma_local_push(t, mode, out0, insts_model(out@));
        }
        return Ok(Ghost(Seq::empty()));
    }
    let found = topology.shortest_path_avoiding(a, b, mode, &*frozen);
    let path = match found {
        Some(p) => p,
        None => {
            let reason = if topology.shortest_path(a, b, mode).is_some() {
                UnroutableReason::MeasurementFrozenWire
            } else {
                UnroutableReason::NoPath
            };
            proof {
                assert(reason == unroutable_reason(t, a, b, mode));
            }
            return Err(LoweringError::Unroutable { index, from: a, to: b, reason });
        },
    };
    proof {
        assert(reachable(t, a, b, mode, frozen@));
        assert(path@.len() >= 2) by {
            if path@.len() < 2 {
                assert(path@.last() == path@[0]);
            }
        }
    }
    let steps: usize = path.len() - 2;
    let mut j: usize = 0;
    while j < steps
        invariant
            j <= steps,
            steps == walk_len(path@),
            path@.len() == steps + 2,
            allowed_path(t, path@, mode, frozen@, b),
            path@[0] == a,
            path@.no_duplicates(),
            t == topology@,
            mode == CouplingMode::Undirected || mode == CouplingMode::Symmetric,
            current@ == walk(m0, path@, j as nat),
            current@.to_logical.len() == t.qubit_count,
            m0.to_logical.len() == t.qubit_count,
            insts_model(out@) == out0 + walk_swaps(t, path@, j as nat),
            *swaps == swaps0 + j,
            swaps0 <= out0.len(),
            out@.len() == out0.len() + j,
            frozen@.len() == t.qubit_count,
        decreases steps - j,
    {
        let from = path[j];
        let to = path[j + 1];
        proof {
            assert(allowed_step(t, path@[j as int], path@[j + 1], mode, frozen@, b));
        }
        let ghost before = insts_model(out@);
        out.push(swap_instruction(from, to, topology));
        proof {
            assert(out.len() == out@.len());
        }
        current.swap_physical(from, to);
        *swaps = *swaps + 1;
        proof {
            assert(insts_model(out@) =~= before.push(swap_model(t, from, to)));
            assert(walk_swaps(t, path@, (j + 1) as nat) =~= walk_swaps(t, path@, j as nat).push(
                swap_model(t, from, to),
            ));
        }
        j += 1;
    }
    proof {
        assert forall|k: int| 0 <= k < path@.len() implies (#[trigger] path@[k]).0 < m0.to_logical.len() by {
            if k > 0 {
                assert(allowed_step(t, path@[k - 1], path@[k], mode, frozen@, b));
            }
        }
        lemma_walk_len(m0, path@, steps as nat);
        if layout_consistent(m0) {
            lemma_walk(m0, path@, steps as nat, q0.0 as int);
            lemma_walk_locality(m0, path@, steps as nat, q1.0 as int);
        }
    }
    let a2 = match physical(&*current, q0, index) {
        Ok(p) => p,
        Err(e) => {
            return Err(e);
        },
    };
    let b2 = match physical(&*current, q1, index) {
        Ok(p) => p,
        Err(e) => {
            return Err(e);
        },
    };
    let ops = vec![QubitId(a2.0), QubitId(b2.0)];
    let ghost before = insts_model(out@);
    out.push(Instruction::Gate { kind: kind.clone(), qubits: ops });
    proof {
        assert(ops@ =~= seq![q_of(a2), q_of(b2)]);
        let g = InstructionModel::Gate { kind: kind@, qubits: seq![q_of(a2), q_of(b2)] };
        assert(insts_model(out@) =~= before.push(g));
        assert(insts_model(out@) =~= out0 + walk_swaps(t, path@, steps as nat) + seq![g]);
        if layout_consistent(m0) && local_output(t, mode, out0) {
            lemma_local_swaps(t, mode, out0, path@, frozen@, b, steps as nat);
            assert(a2 == path@[steps as int]);
            assert(b2 == path@[steps + 1]);
            assert(allowed_step(t, path@[steps as int], path@[steps + 1], mode, frozen@, b));
            lemma_local_push(t, mode, before, insts_model(out@));
        }
    }
    Ok(Ghost(path@))
}
/// The operand qubit as a physical qubit: routed instructions name
/// physical qubits.
pub open spec fn p_of(q: QubitId) -> PhysicalQubit {
    PhysicalQubit(q.0)
}

/// A two-qubit gate whose operands the device couples only the other way
/// round.
pub open spec fn reversed_on(t: TopologyModel, inst: InstructionModel) -> bool {
    &&& inst is Gate
    &&& inst->Gate_qubits.len() == 2
    &&& !supports_spec(t, p_of(inst->Gate_qubits[0]), p_of(inst->Gate_qubits[1]))
    &&& supports_spec(t, p_of(inst->Gate_qubits[1]), p_of(inst->Gate_qubits[0]))
}

/// What orientation repair turns one instruction into, or `None` when it
/// faces the wrong way and has no verified reversal. A symmetric operation
/// has its operands exchanged; `Cx` is conjugated on both operands by `h`
/// around the exchanged operation; everything not reversed is kept.
pub open spec fn repair_one(t: TopologyModel, inst: InstructionModel) -> Option<
    Seq<InstructionModel>,
> {
    if reversed_on(t, inst) {
        let kind = inst->Gate_kind;
        let q0 = inst->Gate_qubits[0];
        let q1 = inst->Gate_qubits[1];
        let flipped = InstructionModel::Gate { kind, qubits: seq![q1, q0] };
        let h0 = InstructionModel::Gate { kind: GateModel::H, qubits: seq![q0] };
        let h1 = InstructionModel::Gate { kind: GateModel::H, qubits: seq![q1] };
        if orientation_spec(kind) == 0 {
            Some(seq![flipped])
        } else if orientation_spec(kind) == 1 {
            Some(seq![h0, h1, flipped, h0, h1])
        } else {
            None
        }
    } else {
        Some(seq![inst])
    }
}

/// Orientation repair of the first `k` instructions: the output and the
/// number of repaired operations, or the index of the first operation that
/// cannot be repaired.
pub open spec fn repair_prefix(t: TopologyModel, insts: Seq<InstructionModel>, k: nat) -> Result<
    (Seq<InstructionModel>, nat),
    nat,
>
    decreases k,
{
    if k == 0 {
        Ok((Seq::empty(), 0))
    } else {
        match repair_prefix(t, insts, (k - 1) as nat) {
            Err(i) => Err(i),
            Ok((out, n)) => match repair_one(t, insts[k - 1]) {
                None => Err((k - 1) as nat),
                Some(more) => Ok(
                    (out + more, if reversed_on(t, insts[k - 1]) {
                        n + 1
                    } else {
                        n
                    }),
                ),
            },
        }
    }
}

/// The explanation given when a reversed operation has no repair.
pub open spec fn orientation_detail(a: PhysicalQubit, b: PhysicalQubit) -> Seq<char> {
    "the device declares #q"@ + decimal(b.0 as nat) + "->#q"@ + decimal(a.0 as nat)
        + " but not #q"@ + decimal(a.0 as nat) + "->#q"@ + decimal(b.0 as nat)
        + ", and no verified reversal exists for this operation"@
}

/// The detail text of an unrepairable orientation.
fn orientation_detail_text(a: PhysicalQubit, b: PhysicalQubit) -> (r: String)
    ensures
        r@ == orientation_detail(a, b),
{
    let mut s = String::new();
    push_str(&mut s, "the device declares #q");
    push_decimal(&mut s, b.0 as u64);
    push_str(&mut s, "->#q");
    push_decimal(&mut s, a.0 as u64);
    push_str(&mut s, " but not #q");
    push_decimal(&mut s, a.0 as u64);
    push_str(&mut s, "->#q");
    push_decimal(&mut s, b.0 as u64);
    push_str(&mut s, ", and no verified reversal exists for this operation");
    proof {
        assert(s@ =~= orientation_detail(a, b));
    }
    s
}

/// Repairs two-qubit operations whose operand order the device does not
/// declare, in a single sweep.
///
/// An operation on a pair declared its way round, on a pair not coupled at
/// all, or of another width is kept. One declared only the other way round
/// is repaired by its [`OrientationPolicy`]; the `Cx` emitted is natively
/// oriented, so it never needs repairing again. Returns the instructions and
/// the number of operations repaired.
///
/// # Errors
///
/// [`LoweringError::UnrepairableOrientation`] when an operation sits on an
/// edge declared only in the opposite direction and has no known repair.
pub fn repair_orientation(instructions: &[Instruction], topology: &Topology) -> (r: Result<
    (Vec<Instruction>, usize),
    LoweringError,
>)
    ensures
        match (r, repair_prefix(topology@, insts_model(instructions@), instructions@.len() as nat)) {
            (Ok((out, n)), Ok((expected, m))) => insts_model(out@) == expected && n == m,
            (Err(e), Err(i)) => e matches LoweringError::UnrepairableOrientation {
                index,
                mnemonic,
                detail,
            } && index == i && mnemonic@ == gate_mnemonic(instructions@[i as int]@->Gate_kind)
                && detail@ == orientation_detail(
                p_of(instructions@[i as int]@->Gate_qubits[0]),
                p_of(instructions@[i as int]@->Gate_qubits[1]),
            ),
            _ => false,
        },
        r is Ok && local_output(topology@, CouplingMode::Undirected, insts_model(instructions@))
            ==> local_output(topology@, CouplingMode::Directed, insts_model(r->Ok_0.0@)),
{
    let ghost t = topology@;
    let ghost model = insts_model(instructions@);
    let mut out: Vec<Instruction> = Vec::new();
    let mut repaired: usize = 0;
    let mut i: usize = 0;
    proof {
        assert(insts_model(out@) =~= Seq::empty());
    }
    while i < instructions.len()
        invariant
            i <= instructions@.len(),
            t == topology@,
            model == insts_model(instructions@),
            repair_prefix(t, model, i as nat) == Ok::<(Seq<InstructionModel>, nat), nat>(
                (insts_model(out@), repaired as nat),
            ),
            repaired <= i,
            local_output(t, CouplingMode::Undirected, model.take(i as int)) ==> local_output(
                t,
                CouplingMode::Directed,
                insts_model(out@),
            ),
        decreases instructions@.len() - i,
    {
        let inst = &instructions[i];
        let ghost before = insts_model(out@);
        proof {
            assert(model[i as int] == inst@);
        }
        match inst {
            Instruction::Gate { kind, qubits } => {
                if qubits.len() == 2 {
                    let a = PhysicalQubit(qubits[0].0);
                    let b = PhysicalQubit(qubits[1].0);
                    if !topology.supports(a, b) && topology.supports(b, a) {
                        match orientation_policy(kind) {
                            OrientationPolicy::Symmetric => {
                                let ops = vec![qubits[1], qubits[0]];
                                out.push(Instruction::Gate { kind: kind.clone(), qubits: ops });
                                proof {
                                    assert(ops@ =~= seq![qubits@[1], qubits@[0]]);
                                    let fl = InstructionModel::Gate {
                                        kind: kind@,
                                        qubits: seq![qubits@[1], qubits@[0]],
                                    };
                                    assert(insts_model(out@) =~= before + seq![fl]);
                                }
                            },
                            OrientationPolicy::ConjugateBoth(gate) => {
                                let conjugation = match map_gate(gate, Vec::new()) {
                                    Ok(k) => k,
                                    Err(_) => {
                                        proof {
                                            lemma_h_maps(gate);
                                        }
                                        return Err(
                                            LoweringError::UnrepairableOrientation {
                                                index: i,
                                                mnemonic: kind.mnemonic(),
                                                detail: orientation_detail_text(a, b),
                                            },
                                        );
                                    },
                                };
                                proof {
                                    lemma_h_maps(gate);
                                    assert(conjugation@ == GateModel::H);
                                }
                                let q0 = qubits[0];
                                let q1 = qubits[1];
                                let v0 = vec![q0];
                                let v1 = vec![q1];
                                let v10 = vec![q1, q0];
                                let w0 = vec![q0];
                                let w1 = vec![q1];
                                proof {
                                    assert(v0@ =~= seq![q0]);
                                    assert(w0@ =~= seq![q0]);
                                    assert(v1@ =~= seq![q1]);
                                    assert(w1@ =~= seq![q1]);
                                    assert(v10@ =~= seq![q1, q0]);
                                }
                                out.push(Instruction::Gate { kind: conjugation.clone(), qubits: v0 });
                                out.push(Instruction::Gate { kind: conjugation.clone(), qubits: v1 });
                                out.push(Instruction::Gate { kind: kind.clone(), qubits: v10 });
                                out.push(Instruction::Gate { kind: conjugation.clone(), qubits: w0 });
                                out.push(Instruction::Gate { kind: conjugation, qubits: w1 });
                                proof {
                                    let h0 = InstructionModel::Gate { kind: GateModel::H, qubits: seq![q0] };
                                    let h1 = InstructionModel::Gate { kind: GateModel::H, qubits: seq![q1] };
                                    let fl = InstructionModel::Gate { kind: kind@, qubits: seq![q1, q0] };
                                    assert(insts_model(out@) =~= before + seq![h0, h1, fl, h0, h1]);
                                }
                            },
                            OrientationPolicy::NoRepair => {
                                proof {
                                    assert(repair_prefix(t, model, (i + 1) as nat) == Err::<
                                        (Seq<InstructionModel>, nat),
                                        nat,
                                    >(i as nat));
                                    lemma_repair_err_sticks(
                                        t,
                                        model,
                                        (i + 1) as nat,
                                        instructions@.len() as nat,
                                    );
                                }
                                return Err(
                                    LoweringError::UnrepairableOrientation {
                                        index: i,
                                        mnemonic: kind.mnemonic(),
                                        detail: orientation_detail_text(a, b),
                                    },
                                );
                            },
                        }
                        repaired += 1;
                    } else {
                        out.push(inst.clone());
                        proof {
                            assert(insts_model(out@) =~= before + seq![inst@]);
                        }
                    }
                } else {
                    out.push(inst.clone());
                    proof {
                        assert(insts_model(out@) =~= before + seq![inst@]);
                    }
                }
            },
            _ => {
                out.push(inst.clone());
                proof {
                    assert(insts_model(out@) =~= before + seq![inst@]);
                }
            },
        }
        proof {
            let more = repair_one(t, model[i as int])->Some_0;
            assert(insts_model(out@) == before + more);
            lemma_repair_step(t, model, i as nat, before, more);
        }
        i += 1;
    }
    proof {
        assert(model.take(instructions@.len() as int) =~= model);
    }
    Ok((out, repaired))
}

/// Once orientation repair fails, the failure stands for every longer
/// prefix.
proof fn lemma_repair_err_sticks(t: TopologyModel, insts: Seq<InstructionModel>, k: nat, k2: nat)
    requires
        repair_prefix(t, insts, k) is Err,
        k <= k2,
    ensures
        repair_prefix(t, insts, k2) == repair_prefix(t, insts, k),
    decreases k2,
{
    if k2 > k {
        lemma_repair_err_sticks(t, insts, k, (k2 - 1) as nat);
    }
}

/// `h` names the Hadamard gate.
proof fn lemma_h_maps(gate: &str)
    requires
        gate@ == "h"@,
    ensures
        nullary_gate(ascii_lowered(gate@)) == Some(GateModel::H),
{
    reveal_strlit("h");
    reveal_strlit("id");
    reveal_strlit("i");
    reveal_strlit("x");
    reveal_strlit("y");
    reveal_strlit("z");
    assert(gate@.len() == 1 && gate@[0] == 'h');
    assert(ascii_lower('h') == 'h');
    assert(ascii_lowered(gate@) =~= seq!['h']);
    assert("h"@ =~= seq!['h']);
    assert("id"@ != seq!['h']) by {
        assert("id"@.len() == 2);
    }
    assert("i"@ != seq!['h']) by {
        assert("i"@[0] == 'i');
    }
    assert("x"@ != seq!['h']) by {
        assert("x"@[0] == 'x');
    }
    assert("y"@ != seq!['h']) by {
        assert("y"@[0] == 'y');
    }
    assert("z"@ != seq!['h']) by {
        assert("z"@[0] == 'z');
    }
}

/// One repaired instruction keeps a natively oriented output natively
/// oriented, given that it sat on a coupled pair.
proof fn lemma_repair_step(
    t: TopologyModel,
    model: Seq<InstructionModel>,
    i: nat,
    before: Seq<InstructionModel>,
    more: Seq<InstructionModel>,
)
    requires
        i < model.len(),
        repair_one(t, model[i as int]) == Some(more),
        local_output(t, CouplingMode::Undirected, model.take(i as int)) ==> local_output(
            t,
            CouplingMode::Directed,
            before,
        ),
    ensures
        local_output(t, CouplingMode::Undirected, model.take((i + 1) as int)) ==> local_output(
            t,
            CouplingMode::Directed,
            before + more,
        ),
{
    if local_output(t, CouplingMode::Undirected, model.take((i + 1) as int)) {
        let pre = model.take(i as int);
        let big = model.take((i + 1) as int);
        assert forall|k: int|
            0 <= k < pre.len() && (#[trigger] pre[k]) is Gate && pre[k]->Gate_qubits.len() == 2
                implies couples_spec(
                t,
                PhysicalQubit(pre[k]->Gate_qubits[0].0),
                PhysicalQubit(pre[k]->Gate_qubits[1].0),
                CouplingMode::Undirected,
            ) by {
            assert(pre[k] == big[k]);
        }
        let inst = model[i as int];
        assert(big[i as int] == inst);
        let all = before + more;
        assert forall|k: int|
            0 <= k < all.len() && (#[trigger] all[k]) is Gate && all[k]->Gate_qubits.len() == 2
                implies couples_spec(
                t,
                PhysicalQubit(all[k]->Gate_qubits[0].0),
                PhysicalQubit(all[k]->Gate_qubits[1].0),
                CouplingMode::Directed,
            ) by {
            if k < before.len() {
                assert(all[k] == before[k]);
            } else {
                assert(all[k] == more[k - before.len()]);
            }
        }
    }
}

/// Recording the walk used for instruction `i` extends the accepted prefix.
proof fn lemma_extend_paths(
    ctx: RouteContext,
    insts: Seq<InstructionModel>,
    init: LayoutModel,
    paths: Seq<Seq<PhysicalQubit>>,
    path: Seq<PhysicalQubit>,
    i: nat,
)
    requires
        paths.len() == i,
        i < insts.len(),
        fits_upto(ctx, insts, init, paths, i as int),
        route_prefix(ctx, insts, init, paths, i) is Ok,
        path_fits(ctx, insts[i as int], route_prefix(ctx, insts, init, paths, i)->Ok_0, path),
    ensures
        fits_upto(ctx, insts, init, paths.push(path), (i + 1) as int),
        route_prefix(ctx, insts, init, paths.push(path), (i + 1) as nat) == route_step(
            ctx,
            insts[i as int],
            i as usize,
            route_prefix(ctx, insts, init, paths, i)->Ok_0,
            path,
        ),
{
    let p2 = paths.push(path);
    assert forall|k: int| 0 <= k <= i implies #[trigger] route_prefix(ctx, insts, init, p2, k as nat)
        == route_prefix(ctx, insts, init, paths, k as nat) by {
        lemma_prefix_stable(ctx, insts, init, paths, p2, k as nat);
    }
    assert forall|k: int| 0 <= k < i + 1 implies match route_prefix(ctx, insts, init, p2, k as nat) {
        Ok(s) => path_fits(ctx, insts[k], s, #[trigger] p2[k]),
        Err(_) => true,
    } by {
        assert(route_prefix(ctx, insts, init, p2, k as nat) == route_prefix(
            ctx,
            insts,
            init,
            paths,
            k as nat,
        ));
        if k < i {
            assert(p2[k] == paths[k]);
        }
    }
}

/// A failure at instruction `i` is the failure of the whole run, for a
/// completed list of walks.
proof fn lemma_fail_paths(
    ctx: RouteContext,
    insts: Seq<InstructionModel>,
    init: LayoutModel,
    paths: Seq<Seq<PhysicalQubit>>,
    i: nat,
    e: LoweringError,
) -> (full: Seq<Seq<PhysicalQubit>>)
    requires
        paths.len() == i,
        i < insts.len(),
        fits_upto(ctx, insts, init, paths, i as int),
        route_prefix(ctx, insts, init, paths, i) is Ok,
        route_step(
            ctx,
            insts[i as int],
            i as usize,
            route_prefix(ctx, insts, init, paths, i)->Ok_0,
            Seq::empty(),
        ) == Err::<RouteState, LoweringError>(e),
    ensures
        paths_fit(ctx, insts, init, full),
        route_prefix(ctx, insts, init, full, insts.len() as nat) == Err::<RouteState, LoweringError>(
            e,
        ),
{
    let n = insts.len();
    let fill = Seq::new((n - i - 1) as nat, |k: int| Seq::<PhysicalQubit>::empty());
    let full = paths.push(Seq::empty()) + fill;
    assert forall|k: int| 0 <= k <= i implies #[trigger] route_prefix(ctx, insts, init, full, k as nat)
        == route_prefix(ctx, insts, init, paths, k as nat) by {
        lemma_prefix_stable(ctx, insts, init, paths, full, k as nat);
    }
    assert(full[i as int] == Seq::<PhysicalQubit>::empty());
    assert(route_prefix(ctx, insts, init, full, i) == route_prefix(ctx, insts, init, paths, i));
    lemma_err_fits(
        ctx,
        insts[i as int],
        i as usize,
        route_prefix(ctx, insts, init, paths, i)->Ok_0,
        Seq::empty(),
    );
    assert(route_prefix(ctx, insts, init, full, (i + 1) as nat) == Err::<RouteState, LoweringError>(e));
    assert forall|k: int| i + 1 <= k <= n implies #[trigger] route_prefix(
        ctx,
        insts,
        init,
        full,
        k as nat,
    ) == Err::<RouteState, LoweringError>(e) by {
        lemma_err_sticks(ctx, insts, init, full, (i + 1) as nat, k as nat);
    }
    assert forall|k: int| 0 <= k < n implies match route_prefix(ctx, insts, init, full, k as nat) {
        Ok(s) => path_fits(ctx, insts[k], s, #[trigger] full[k]),
        Err(_) => true,
    } by {
        if k < i {
            assert(full[k] == paths[k]);
            assert(route_prefix(ctx, insts, init, full, k as nat) == route_prefix(
                ctx,
                insts,
                init,
                paths,
                k as nat,
            ));
        } else if k > i {
            assert(route_prefix(ctx, insts, init, full, k as nat) is Err);
        }
    }
    assert(paths_fit(ctx, insts, init, full));
    full
}

/// A step that fails needs no walk, so any walk is acceptable for it.
proof fn lemma_err_fits(
    ctx: RouteContext,
    inst: InstructionModel,
    index: usize,
    s: RouteState,
    path: Seq<PhysicalQubit>,
)
    requires
        route_step(ctx, inst, index, s, path) is Err,
    ensures
        path_fits(ctx, inst, s, path),
{
    reveal(route_step);
    reveal(path_fits);
    reveal(step_pair);
    reveal(pair_fits);
}

/// Walking never changes a layout's sizes.
proof fn lemma_walk_len(m: LayoutModel, path: Seq<PhysicalQubit>, j: nat)
    requires
        j < path.len(),
        forall|k: int| 0 <= k < path.len() ==> (#[trigger] path[k]).0 < m.to_logical.len(),
    ensures
        walk(m, path, j).to_physical.len() == m.to_physical.len(),
        walk(m, path, j).to_logical.len() == m.to_logical.len(),
    decreases j,
{
    if j > 0 {
        lemma_walk_len(m, path, (j - 1) as nat);
    }
}

/// Routing states agree on every prefix that reads the same walks.
proof fn lemma_prefix_stable(
    ctx: RouteContext,
    insts: Seq<InstructionModel>,
    init: LayoutModel,
    p1: Seq<Seq<PhysicalQubit>>,
    p2: Seq<Seq<PhysicalQubit>>,
    k: nat,
)
    requires
        forall|j: int| 0 <= j < k ==> p1[j] == p2[j],
    ensures
        route_prefix(ctx, insts, init, p1, k) == route_prefix(ctx, insts, init, p2, k),
    decreases k,
{
    if k > 0 {
        lemma_prefix_stable(ctx, insts, init, p1, p2, (k - 1) as nat);
        assert(p1[k - 1] == p2[k - 1]);
    }
}

/// Once routing fails, the failure stands for every longer prefix.
proof fn lemma_err_sticks(
    ctx: RouteContext,
    insts: Seq<InstructionModel>,
    init: LayoutModel,
    paths: Seq<Seq<PhysicalQubit>>,
    k: nat,
    k2: nat,
)
    requires
        route_prefix(ctx, insts, init, paths, k) is Err,
        k <= k2,
    ensures
        route_prefix(ctx, insts, init, paths, k2) == route_prefix(ctx, insts, init, paths, k),
    decreases k2,
{
    if k2 > k {
        lemma_err_sticks(ctx, insts, init, paths, k, (k2 - 1) as nat);
    }
}

/// Extending a fully placed prefix of operands by one operand.
proof fn lemma_unplaced_step(m: LayoutModel, qs: Seq<QubitId>, k: nat)
    requires
        k < qs.len(),
        first_unplaced(m, qs.take(k as int)) is None,
    ensures
        first_unplaced(m, qs.take((k + 1) as int)) == if placed(m, qs[k as int]) {
            None
        } else {
            Some(qs[k as int])
        },
        mapped_operands(m, qs.take((k + 1) as int)) == mapped_operands(m, qs.take(k as int)).push(
            q_of(m.to_physical[qs[k as int].0 as int]),
        ),
{
    assert(qs.take((k + 1) as int).drop_last() =~= qs.take(k as int));
    assert(mapped_operands(m, qs.take((k + 1) as int)) =~= mapped_operands(m, qs.take(k as int)).push(
        q_of(m.to_physical[qs[k as int].0 as int]),
    ));
}

/// The first unplaced operand of a prefix stays the first one.
proof fn lemma_first_unplaced_grows(m: LayoutModel, qs: Seq<QubitId>, k: nat, j: nat)
    requires
        1 <= k <= j <= qs.len(),
        first_unplaced(m, qs.take(k as int)) is Some,
    ensures
        first_unplaced(m, qs.take(j as int)) == first_unplaced(m, qs.take(k as int)),
    decreases j,
{
    if j > k {
        lemma_first_unplaced_grows(m, qs, k, (j - 1) as nat);
        assert(qs.take(j as int).drop_last() =~= qs.take(j - 1));
    }
}

/// Exchanging the occupants of two distinct physical qubits of a
/// consistent layout moves exactly their tenants.
proof fn lemma_swap_moves(m: LayoutModel, x: PhysicalQubit, y: PhysicalQubit, q: int)
    requires
        layout_consistent(m),
        x != y,
        x.0 < m.to_logical.len(),
        y.0 < m.to_logical.len(),
        0 <= q < m.to_physical.len(),
    ensures
        swapped_model(m, x, y).to_physical[q] == if m.to_physical[q] == x {
            y
        } else if m.to_physical[q] == y {
            x
        } else {
            m.to_physical[q]
        },
        swapped_model(m, x, y).to_physical.len() == m.to_physical.len(),
        swapped_model(m, x, y).to_logical.len() == m.to_logical.len(),
{
    let l = QubitId(q as u32);
    assert(m.to_logical[m.to_physical[q].0 as int] == Some(l));
    if m.to_logical[x.0 as int] == Some(l) {
        assert(m.to_physical[q].0 == x.0);
    }
    if m.to_logical[y.0 as int] == Some(l) {
        assert(m.to_physical[q].0 == y.0);
    }
}

/// Walking a repetition-free path drags the qubit at its start along it,
/// keeping the layout consistent.
proof fn lemma_walk(m: LayoutModel, path: Seq<PhysicalQubit>, j: nat, q: int)
    requires
        layout_consistent(m),
        path.no_duplicates(),
        j < path.len(),
        forall|k: int| 0 <= k < path.len() ==> (#[trigger] path[k]).0 < m.to_logical.len(),
        0 <= q < m.to_physical.len(),
        m.to_physical[q] == path[0],
    ensures
        layout_consistent(walk(m, path, j)),
        walk(m, path, j).to_physical[q] == path[j as int],
        walk(m, path, j).to_physical.len() == m.to_physical.len(),
        walk(m, path, j).to_logical.len() == m.to_logical.len(),
    decreases j,
{
    if j > 0 {
        lemma_walk(m, path, (j - 1) as nat, q);
        let w = walk(m, path, (j - 1) as nat);
        assert(path[j - 1] != path[j as int]);
        lemma_swap_moves(w, path[j - 1], path[j as int], q);
        lemma_swap_involution(w, path[j - 1], path[j as int]);
    }
}

/// Walking leaves alone every qubit whose home is off the walked part of
/// the path.
proof fn lemma_walk_locality(m: LayoutModel, path: Seq<PhysicalQubit>, j: nat, q: int)
    requires
        layout_consistent(m),
        path.no_duplicates(),
        j < path.len(),
        forall|k: int| 0 <= k < path.len() ==> (#[trigger] path[k]).0 < m.to_logical.len(),
        0 <= q < m.to_physical.len(),
        forall|k: int| 0 <= k <= j ==> path[k] != m.to_physical[q],
    ensures
        walk(m, path, j).to_physical[q] == m.to_physical[q],
    decreases j,
{
    if j > 0 {
        lemma_walk_locality(m, path, (j - 1) as nat, q);
        let w = walk(m, path, (j - 1) as nat);
        assert(path[j - 1] != path[j as int]);
        lemma_walk_consistent(m, path, (j - 1) as nat);
        lemma_swap_moves(w, path[j - 1], path[j as int], q);
    }
}

/// Walking keeps a consistent layout consistent and its sizes unchanged.
proof fn lemma_walk_consistent(m: LayoutModel, path: Seq<PhysicalQubit>, j: nat)
    requires
        layout_consistent(m),
        j < path.len(),
        forall|k: int| 0 <= k < path.len() ==> (#[trigger] path[k]).0 < m.to_logical.len(),
    ensures
        layout_consistent(walk(m, path, j)),
        walk(m, path, j).to_physical.len() == m.to_physical.len(),
        walk(m, path, j).to_logical.len() == m.to_logical.len(),
    decreases j,
{
    if j > 0 {
        lemma_walk_consistent(m, path, (j - 1) as nat);
        let w = walk(m, path, (j - 1) as nat);
        lemma_swap_involution(w, path[j - 1], path[j as int]);
    }
}

/// Appending one instruction keeps the output local when that instruction
/// is not a two-qubit gate on an uncoupled pair.
proof fn lemma_local_push(
    t: TopologyModel,
    mode: CouplingMode,
    out: Seq<InstructionModel>,
    out2: Seq<InstructionModel>,
)
    requires
        out2.len() == out.len() + 1,
        forall|k: int| 0 <= k < out.len() ==> out2[k] == out[k],
    ensures
        local_output(t, mode, out) && (out2.last() is Gate && out2.last()->Gate_qubits.len() == 2
            ==> couples_spec(
            t,
            PhysicalQubit(out2.last()->Gate_qubits[0].0),
            PhysicalQubit(out2.last()->Gate_qubits[1].0),
            mode,
        )) ==> local_output(t, mode, out2),
{
    if local_output(t, mode, out) {
        assert forall|k: int|
            0 <= k < out2.len() && (#[trigger] out2[k]) is Gate && out2[k]->Gate_qubits.len() == 2
                implies true by {
        }
        assert forall|k: int|
            0 <= k < out.len() && (#[trigger] out2[k]) is Gate && out2[k]->Gate_qubits.len() == 2
                implies couples_spec(
                t,
                PhysicalQubit(out2[k]->Gate_qubits[0].0),
                PhysicalQubit(out2[k]->Gate_qubits[1].0),
                mode,
            ) by {
            assert(out2[k] == out[k]);
        }
    }
}

/// The SWAPs along an allowed walk all sit on coupled pairs.
proof fn lemma_local_swaps(
    t: TopologyModel,
    mode: CouplingMode,
    out: Seq<InstructionModel>,
    path: Seq<PhysicalQubit>,
    frozen: Seq<bool>,
    b: PhysicalQubit,
    j: nat,
)
    requires
        local_output(t, mode, out),
        mode == CouplingMode::Undirected || mode == CouplingMode::Symmetric,
        allowed_path(t, path, mode, frozen, b),
        j + 1 < path.len(),
    ensures
        local_output(t, mode, out + walk_swaps(t, path, j)),
{
    let all = out + walk_swaps(t, path, j);
    assert forall|k: int|
        0 <= k < all.len() && (#[trigger] all[k]) is Gate && all[k]->Gate_qubits.len() == 2
            implies couples_spec(
            t,
            PhysicalQubit(all[k]->Gate_qubits[0].0),
            PhysicalQubit(all[k]->Gate_qubits[1].0),
            mode,
        ) by {
        if k < out.len() {
            assert(all[k] == out[k]);
        } else {
            let e = k - out.len();
            assert(all[k] == swap_model(t, path[e], path[e + 1]));
            assert(allowed_step(t, path[e], path[e + 1], mode, frozen, b));
            assert(PhysicalQubit(path[e].0) == path[e]);
            assert(PhysicalQubit(path[e + 1].0) == path[e + 1]);
        }
    }
}

} // verus!
