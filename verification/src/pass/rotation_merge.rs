//! Rotation merging: adjacent same-axis rotations on the same qubit combine
//! into one, `Rz(a); Rz(b) -> Rz(a + b)`.
//!
//! Which pairs merge is decided here, with the adjacency notion shared with
//! gate cancellation: two gates merge when the second immediately follows
//! the first on its qubit, both are the same one of `Rx Ry Rz P`, and both
//! angles are concrete. The sum itself is floating-point arithmetic, done by
//! the caller, which hands the combined gates back to [`rewrite`].
use vstd::prelude::*;

use crate::ir::convert::qco_fits;
use crate::ir::error::IrError;
use crate::ir::qc::{insts_model, Circuit, Instruction, InstructionModel};
use crate::ir::types::{gate_mnemonic, gate_params, GateKind, GateModel, ParamModel};
use crate::pass::adjacency::{matched_pair, opt_nat, unanimous_next, unanimous_successors};

verus! {

/// Whether two gate kinds are the same additive rotation family with both
/// angles concrete, so that their sum is known.
pub open spec fn summable(a: GateModel, b: GateModel) -> bool {
    match (a, b) {
        (GateModel::Rx(p), GateModel::Rx(q)) => p is Concrete && q is Concrete,
        (GateModel::Ry(p), GateModel::Ry(q)) => p is Concrete && q is Concrete,
        (GateModel::Rz(p), GateModel::Rz(q)) => p is Concrete && q is Concrete,
        (GateModel::P(p), GateModel::P(q)) => p is Concrete && q is Concrete,
        _ => false,
    }
}

/// Whether instructions `i` and `p` are two gates on the identical operand
/// list whose rotations can be summed.
pub open spec fn merges(insts: Seq<InstructionModel>, i: nat, p: nat) -> bool {
    &&& insts[i as int] is Gate
    &&& insts[p as int] is Gate
    &&& insts[i as int]->qubits == insts[p as int]->qubits
    &&& summable(insts[i as int]->kind, insts[p as int]->kind)
}

/// Every index a list of pairs mentions.
pub open spec fn claimed(plan: Seq<(nat, nat)>) -> Set<nat> {
    Set::new(|x: nat| exists|j: int| 0 <= j < plan.len() && (plan[j].0 == x || plan[j].1 == x))
}

/// The pairs chosen after greedily considering the first `i` instructions
/// in ascending order: an unclaimed instruction pairs with its unanimous
/// successor when that is unclaimed and the two merge.
pub open spec fn plan_upto(insts: Seq<InstructionModel>, i: nat) -> Seq<(nat, nat)>
    decreases i,
{
    if i == 0 {
        Seq::empty()
    } else {
        let pl = plan_upto(insts, (i - 1) as nat);
        let k = (i - 1) as nat;
        if claimed(pl).contains(k) {
            pl
        } else {
            match unanimous_next(insts, k) {
                Some(p) => if !claimed(pl).contains(p) && merges(insts, k, p) {
                    pl.push((k, p))
                } else {
                    pl
                },
                None => pl,
            }
        }
    }
}

/// The pairs one round of merging combines, in order of their first member.
pub open spec fn merge_plan(insts: Seq<InstructionModel>) -> Seq<(nat, nat)> {
    plan_upto(insts, insts.len())
}

/// A planned merge: the rotation at `first` becomes `combined`, the one at
/// `second` goes.
#[derive(Debug)]
pub struct Merge {
    /// Program index of the surviving gate.
    pub first: usize,
    /// Program index of the absorbed gate.
    pub second: usize,
    /// What replaces the pair.
    pub combined: GateKind,
}

/// The replacement gate for index `i`: that of the last merge whose first
/// member is `i`.
pub open spec fn replacement(merges_: Seq<Merge>, i: nat) -> Option<GateModel>
    decreases merges_.len(),
{
    if merges_.len() == 0 {
        None
    } else if merges_.last().first == i {
        Some(merges_.last().combined@)
    } else {
        replacement(merges_.drop_last(), i)
    }
}

/// Whether some merge absorbs index `i`.
pub open spec fn absorbed(merges_: Seq<Merge>, i: nat) -> bool {
    exists|m: int| 0 <= m < merges_.len() && #[trigger] merges_[m].second == i
}

/// The first `n` instructions with every absorbed one dropped and every
/// merged gate replaced.
pub open spec fn rewritten_upto(insts: Seq<InstructionModel>, merges_: Seq<Merge>, n: nat) -> Seq<InstructionModel>
    decreases n,
{
    if n == 0 {
        Seq::empty()
    } else {
        let prev = rewritten_upto(insts, merges_, (n - 1) as nat);
        let i = (n - 1) as nat;
        if absorbed(merges_, i) {
            prev
        } else {
            match (replacement(merges_, i), insts[i as int]) {
                (Some(kind), InstructionModel::Gate { qubits, .. }) => prev.push(
                    InstructionModel::Gate { kind, qubits },
                ),
                _ => prev.push(insts[i as int]),
            }
        }
    }
}

/// The pairs to merge in one round, as `(first, second)`, chosen greedily
/// in ascending order so that a run of three rotations merges its first two.
///
/// # Errors
///
/// Propagates [`IrError`] from the QCO-IR conversion, which never fails on
/// a valid circuit.
pub fn plan_merges(circuit: &Circuit) -> (r: Result<Vec<(usize, usize)>, IrError>)
    requires
        qco_fits(circuit@.instructions, circuit@.num_qubits, circuit@.num_clbits),
    ensures
        r matches Ok(plan) && plan@.len() == merge_plan(circuit@.instructions).len() && forall|j: int|
            0 <= j < plan@.len() ==> (#[trigger] plan@[j]).0 as nat == merge_plan(
                circuit@.instructions,
            )[j].0 && plan@[j].1 as nat == merge_plan(circuit@.instructions)[j].1,
{
    let ghost insts = circuit@.instructions;
    let successors = unanimous_successors(circuit)?;
    let n = circuit.len();
    let mut taken: Vec<bool> = Vec::new();
    let mut i: usize = 0;
    while i < n
        invariant
            i <= n,
            taken@.len() == i,
            forall|j: int| 0 <= j < i ==> !(#[trigger] taken@[j]),
        decreases n - i,
    {
        taken.push(false);
        i += 1;
    }
    let mut plan: Vec<(usize, usize)> = Vec::new();
    let mut index: usize = 0;
    while index < n
        invariant
            index <= n,
            n == insts.len(),
            insts == circuit@.instructions,
            successors@.len() == n,
            forall|j: int| 0 <= j < n ==> opt_nat(#[trigger] successors@[j]) == unanimous_next(insts, j as nat),
            taken@.len() == n,
            forall|j: int| 0 <= j < n ==> #[trigger] taken@[j] == claimed(plan_upto(insts, index as nat)).contains(j as nat),
            plan@.len() == plan_upto(insts, index as nat).len(),
            forall|j: int|
                0 <= j < plan@.len() ==> (#[trigger] plan@[j]).0 as nat == plan_upto(insts, index as nat)[j].0
                    && plan@[j].1 as nat == plan_upto(insts, index as nat)[j].1,
            forall|j: int|
                0 <= j < plan_upto(insts, index as nat).len() ==> (#[trigger] plan_upto(insts, index as nat)[j]).0 < n
                    && plan_upto(insts, index as nat)[j].1 < n,
        decreases n - index,
    {
        let ghost pl = plan_upto(insts, index as nat);
        proof {
            crate::pass::cancellation::lemma_unanimous_later(insts, index as nat);
        }
        let mut chosen: Option<usize> = None;
        if !taken[index] {
            if let Some(partner) = successors[index] {
                proof {
                    assert(opt_nat(successors@[index as int]) == unanimous_next(insts, index as nat));
                }
                if !taken[partner] {
                    if let Some((a, b, _)) = matched_pair(circuit, index, partner) {
                        if can_sum(a, b) {
                            chosen = Some(partner);
                        }
                    }
                }
            }
        }
        if let Some(partner) = chosen {
            taken.set(index, true);
            taken.set(partner, true);
            plan.push((index, partner));
            proof {
                let np = pl.push((index as nat, partner as nat));
                assert(plan_upto(insts, index as nat + 1) == np);
                assert forall|j: int| 0 <= j < n implies #[trigger] taken@[j] == claimed(np).contains(j as nat) by {
                    if claimed(pl).contains(j as nat) {
                        let m = choose|m: int| 0 <= m < pl.len() && (pl[m].0 == j as nat || pl[m].1 == j as nat);
                        assert(np[m] == pl[m]);
                    }
                    if claimed(np).contains(j as nat) {
                        let m = choose|m: int| 0 <= m < np.len() && (np[m].0 == j as nat || np[m].1 == j as nat);
                        if m < pl.len() {
                            assert(np[m] == pl[m]);
                        }
                    }
                    if j == index as int || j == partner as int {
                        assert(np[pl.len() as int] == (index as nat, partner as nat));
                    }
                }
            }
        } else {
            proof {
                assert(plan_upto(insts, index as nat + 1) == pl);
            }
        }
        index += 1;
    }
    Ok(plan)
}

/// Whether two gate kinds are the same rotation family with concrete angles.
fn can_sum(a: &GateKind, b: &GateKind) -> (r: bool)
    ensures
        r == summable(a@, b@),
{
    match (a, b) {
        (GateKind::Rx(p), GateKind::Rx(q)) => p.is_concrete() && q.is_concrete(),
        (GateKind::Ry(p), GateKind::Ry(q)) => p.is_concrete() && q.is_concrete(),
        (GateKind::Rz(p), GateKind::Rz(q)) => p.is_concrete() && q.is_concrete(),
        (GateKind::P(p), GateKind::P(q)) => p.is_concrete() && q.is_concrete(),
        _ => false,
    }
}

/// The instructions after one round of merges: every absorbed gate dropped,
/// every surviving gate of a pair replaced by its combined gate, everything
/// else kept in order.
pub fn rewrite(circuit: &Circuit, merges_: &[Merge]) -> (r: Vec<Instruction>)
    ensures
        insts_model(r@) == rewritten_upto(
            circuit@.instructions,
            merges_@,
            circuit@.instructions.len(),
        ),
{
    let instrs = circuit.instructions();
    let ghost insts = circuit@.instructions;
    let mut out: Vec<Instruction> = Vec::new();
    let mut i: usize = 0;
    while i < instrs.len()
        invariant
            i <= instrs@.len(),
            insts_model(instrs@) == insts,
            instrs@.len() == insts.len(),
            insts_model(out@) == rewritten_upto(insts, merges_@, i as nat),
        decreases instrs@.len() - i,
    {
        proof {
            assert(instrs@[i as int]@ == insts[i as int]);
        }
        if !is_absorbed(merges_, i) {
            let ghost before = insts_model(out@);
            let next = match (replacement_of(merges_, i), &instrs[i]) {
                (Some(kind), Instruction::Gate { qubits, .. }) => Instruction::Gate {
                    kind: kind.clone(),
                    qubits: qubits.clone(),
                },
                _ => instrs[i].clone(),
            };
            out.push(next);
            proof {
                assert(insts_model(out@) =~= before.push(next@));
            }
        }
        i += 1;
    }
    out
}

fn is_absorbed(merges_: &[Merge], i: usize) -> (r: bool)
    ensures
        r == absorbed(merges_@, i as nat),
{
    let mut m: usize = 0;
    while m < merges_.len()
        invariant
            m <= merges_@.len(),
            forall|k: int| 0 <= k < m ==> (#[trigger] merges_@[k]).second != i,
        decreases merges_@.len() - m,
    {
        if merges_[m].second == i {
            return true;
        }
        m += 1;
    }
    false
}

fn replacement_of(merges_: &[Merge], i: usize) -> (r: Option<&GateKind>)
    ensures
        match replacement(merges_@, i as nat) {
            Some(kind) => r is Some && r.unwrap()@ == kind,
            None => r is None,
        },
{
    let mut m: usize = merges_.len();
    proof {
        assert(merges_@.take(m as int) =~= merges_@);
    }
    while m > 0
        invariant
            m <= merges_@.len(),
            replacement(merges_@, i as nat) == replacement(merges_@.take(m as int), i as nat),
        decreases m,
    {
        let ghost pre = merges_@.take(m as int);
        proof {
            assert(pre.last() == merges_@[m - 1]);
            assert(pre.drop_last() =~= merges_@.take(m - 1));
        }
        if merges_[m - 1].first == i {
            return Some(&merges_[m - 1].combined);
        }
        m -= 1;
    }
    proof {
        assert(merges_@.take(0) =~= Seq::<Merge>::empty());
    }
    None
}

/// Combines adjacent same-axis rotations.
#[derive(Debug, Clone, Copy, Default)]
pub struct RotationMerge;

impl RotationMerge {
    /// Stable identifier, used to enable or disable the pass.
    pub fn id(&self) -> (r: &'static str)
        ensures
            r@ == "rotation-merge"@,
    {
        "rotation-merge"
    }

    /// One-line description, shown in reports.
    pub fn description(&self) -> (r: &'static str)
        ensures
            r@ == "combine adjacent same-axis rotations (Rz(a); Rz(b) -> Rz(a+b))"@,
    {
        "combine adjacent same-axis rotations (Rz(a); Rz(b) -> Rz(a+b))"
    }
}


/// Only rotations about one axis are ever summed: two summable gates have
/// the same mnemonic, and each takes exactly one angle, a concrete one.
pub proof fn lemma_summable_same_axis(a: GateModel, b: GateModel)
    requires
        summable(a, b),
    ensures
        gate_mnemonic(a) == gate_mnemonic(b),
        gate_params(a).len() == 1,
        gate_params(b).len() == 1,
        gate_params(a)[0] is Concrete,
        gate_params(b)[0] is Concrete,
{
}

/// Every pair a merge plan combines is two gates on the same operand list
/// with the same mnemonic and one concrete angle each, the first before the
/// second.
pub proof fn lemma_planned_pairs_share_axis(insts: Seq<InstructionModel>, i: nat)
    requires
        i <= insts.len(),
    ensures
        forall|j: int|
            0 <= j < plan_upto(insts, i).len() ==> {
                let (x, y) = #[trigger] plan_upto(insts, i)[j];
                &&& x < y < insts.len()
                &&& insts[x as int] is Gate
                &&& insts[y as int] is Gate
                &&& insts[x as int]->qubits == insts[y as int]->qubits
                &&& gate_mnemonic(insts[x as int]->kind) == gate_mnemonic(insts[y as int]->kind)
                &&& gate_params(insts[x as int]->kind).len() == 1
                &&& gate_params(insts[x as int]->kind)[0] is Concrete
                &&& gate_params(insts[y as int]->kind)[0] is Concrete
            },
    decreases i,
{
    if i > 0 {
        lemma_planned_pairs_share_axis(insts, (i - 1) as nat);
        let pl = plan_upto(insts, (i - 1) as nat);
        let k = (i - 1) as nat;
        if !claimed(pl).contains(k) {
            if let Some(p) = unanimous_next(insts, k) {
                if !claimed(pl).contains(p) && merges(insts, k, p) {
                    crate::pass::cancellation::lemma_unanimous_later(insts, k);
                    lemma_summable_same_axis(insts[k as int]->kind, insts[p as int]->kind);
                    assert(pl.push((k, p))[pl.len() as int] == (k, p));
                }
            }
        }
    }
}


/// Exactly the built-in rotations about one axis with concrete angles are
/// summed: two gates other than opaque ones are summable when, and only
/// when, they have the same mnemonic and each takes one concrete angle;
/// an opaque gate is never summed.
pub proof fn lemma_summable_exactly_same_axis(a: GateModel, b: GateModel)
    ensures
        a is Opaque || b is Opaque ==> !summable(a, b),
        !(a is Opaque) && !(b is Opaque) ==> (summable(a, b) <==> (gate_mnemonic(a) == gate_mnemonic(b)
            && gate_params(a).len() == 1 && gate_params(a)[0] is Concrete && gate_params(b).len() == 1
            && gate_params(b)[0] is Concrete)),
{
    assert(seq!['r', 'x'] != seq!['r', 'y'] && seq!['r', 'x'] != seq!['r', 'z'] && seq!['r', 'y'] != seq!['r', 'z']) by {
        assert(seq!['r', 'x'][1] == 'x' && seq!['r', 'y'][1] == 'y' && seq!['r', 'z'][1] == 'z');
    }
}

} // verus!
