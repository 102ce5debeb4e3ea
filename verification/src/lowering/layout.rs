//! Where a circuit's logical qubits sit on the device.
//!
//! A layout maps logical qubits to physical ones injectively: every logical
//! qubit has exactly one physical home, and physical qubits with no tenant
//! are ancillas. Both directions are stored, because routing asks both
//! questions — "where does logical `q` live?" and "what lives on physical
//! `p`?" — constantly.
use vstd::prelude::*;
use vstd::set_lib::{lemma_len_subset, lemma_map_size, lemma_subset_equality};

use crate::ir::types::QubitId;
use crate::ir::qc::{inst_qubits, inst_well_formed, insts_model, Circuit, CircuitModel, Instruction, InstructionModel};
use crate::target::{
    adjacency, hop_distance, is_hop_distance, lemma_hop_distance_is, nothing_frozen, reachable, CouplingMode,
    PhysicalQubit, Topology, TopologyModel,
};
use crate::text::{decimal, push_decimal, push_str};

verus! {

/// A layout that could not be built.
#[derive(Debug, Clone, Copy, PartialEq, Eq, Structural)]
pub enum LayoutError {
    /// Two logical qubits were assigned the same physical qubit.
    NotInjective {
        /// The lower-indexed logical qubit.
        first: QubitId,
        /// The logical qubit that collided with it.
        second: QubitId,
        /// The contested physical qubit.
        physical: PhysicalQubit,
    },
    /// A logical qubit was mapped off the device.
    PhysicalOutOfRange {
        /// The logical qubit.
        logical: QubitId,
        /// Its out-of-range destination.
        physical: PhysicalQubit,
        /// The device's qubit count.
        qubit_count: u32,
    },
    /// A logical qubit was assigned twice, so its two directions could not
    /// agree.
    RepeatedLogical {
        /// The logical qubit named twice.
        logical: QubitId,
        /// Where it was first assigned.
        first: PhysicalQubit,
        /// Where it was assigned again.
        second: PhysicalQubit,
    },
    /// A logical qubit below the highest assigned one was left unmapped.
    Unmapped {
        /// The logical qubit with no home.
        logical: QubitId,
    },
    /// The circuit needs more qubits than the device has.
    DeviceTooSmall {
        /// Qubits the circuit declares.
        needed: u32,
        /// Qubits the device has.
        available: u32,
    },
}

/// The abstract value of a [`Layout`]: the forward table, indexed by logical
/// qubit, and the occupancy table, indexed by physical qubit.
pub struct LayoutModel {
    /// Where each logical qubit lives.
    pub to_physical: Seq<PhysicalQubit>,
    /// What lives on each physical qubit, if anything.
    pub to_logical: Seq<Option<QubitId>>,
}

/// The invariant every layout keeps: the device fits in `u32`, every logical
/// qubit's home is on the device and records that qubit as its tenant, and
/// every recorded tenant is a logical qubit of the layout.
pub open spec fn layout_inv(m: LayoutModel) -> bool {
    &&& m.to_logical.len() <= u32::MAX
    &&& m.to_physical.len() <= m.to_logical.len()
    &&& forall|l: int|
        0 <= l < m.to_physical.len() ==> (#[trigger] m.to_physical[l]).0 < m.to_logical.len()
            && m.to_logical[m.to_physical[l].0 as int] == Some(QubitId(l as u32))
    &&& forall|p: int|
        0 <= p < m.to_logical.len() && (#[trigger] m.to_logical[p]) is Some ==> m.to_logical[p]->0.id()
            < m.to_physical.len()
}

/// A layout whose occupancy table holds no stale entries: a physical qubit
/// records a tenant exactly when that tenant lives there.
pub open spec fn layout_consistent(m: LayoutModel) -> bool {
    &&& layout_inv(m)
    &&& forall|p: int|
        0 <= p < m.to_logical.len() && (#[trigger] m.to_logical[p]) is Some ==> m.to_physical[m.to_logical[p]->0.id() as int].0
            == p
}

/// Logical `n` on physical `n`, for `n < num_qubits`, on a device of
/// `device_qubits` qubits.
pub open spec fn trivial_model(num_qubits: nat, device_qubits: nat) -> LayoutModel {
    LayoutModel {
        to_physical: Seq::new(num_qubits, |i: int| PhysicalQubit(i as u32)),
        to_logical: Seq::new(
            device_qubits,
            |p: int|
                if p < num_qubits {
                    Some(QubitId(p as u32))
                } else {
                    None
                },
        ),
    }
}

/// The tenant a list of assignments leaves on `p`: the last pair naming it.
pub open spec fn occupant(pairs: Seq<(QubitId, PhysicalQubit)>, p: PhysicalQubit) -> Option<QubitId>
    decreases pairs.len(),
{
    if pairs.len() == 0 {
        None
    } else if pairs.last().1 == p {
        Some(pairs.last().0)
    } else {
        occupant(pairs.drop_last(), p)
    }
}

/// The lower-indexed of two logical qubits.
pub open spec fn qubit_min(a: QubitId, b: QubitId) -> QubitId {
    if a.0 <= b.0 {
        a
    } else {
        b
    }
}

/// The higher-indexed of two logical qubits.
pub open spec fn qubit_max(a: QubitId, b: QubitId) -> QubitId {
    if a.0 <= b.0 {
        b
    } else {
        a
    }
}

/// The first assignment that leaves the device, lands on an occupied
/// physical qubit, or names a logical qubit already assigned, scanning in
/// order.
pub open spec fn pairs_error(pairs: Seq<(QubitId, PhysicalQubit)>, device_qubits: u32) -> Option<
    LayoutError,
>
    decreases pairs.len(),
{
    if pairs.len() == 0 {
        None
    } else {
        match pairs_error(pairs.drop_last(), device_qubits) {
            Some(e) => Some(e),
            None => {
                let (logical, physical) = pairs.last();
                if physical.0 >= device_qubits {
                    Some(
                        LayoutError::PhysicalOutOfRange {
                            logical,
                            physical,
                            qubit_count: device_qubits,
                        },
                    )
                } else {
                    match occupant(pairs.drop_last(), physical) {
                        Some(existing) => Some(
                            LayoutError::NotInjective {
                                first: qubit_min(existing, logical),
                                second: qubit_max(existing, logical),
                                physical,
                            },
                        ),
                        None => if assigned(pairs.drop_last()).contains_key(logical.0) {
                            Some(
                                LayoutError::RepeatedLogical {
                                    logical,
                                    first: assigned(pairs.drop_last())[logical.0],
                                    second: physical,
                                },
                            )
                        } else {
                            None
                        },
                    }
                }
            },
        }
    }
}

/// Where each logical index was last assigned.
pub open spec fn assigned(pairs: Seq<(QubitId, PhysicalQubit)>) -> Map<u32, PhysicalQubit>
    decreases pairs.len(),
{
    if pairs.len() == 0 {
        Map::empty()
    } else {
        assigned(pairs.drop_last()).insert(pairs.last().0.0, pairs.last().1)
    }
}

/// The first logical index below `k` that has no assignment.
pub open spec fn first_unmapped(m: Map<u32, PhysicalQubit>, k: nat) -> Option<u32>
    decreases k,
{
    if k == 0 {
        None
    } else {
        match first_unmapped(m, (k - 1) as nat) {
            Some(l) => Some(l),
            None => if !m.contains_key((k - 1) as u32) {
                Some((k - 1) as u32)
            } else {
                None
            },
        }
    }
}

/// What [`Layout::from_pairs`] builds from a list of assignments: the first
/// range or collision error; else the first gap in the logical indices
/// `0..n`, where `n` is the number of distinct logical qubits named; else the
/// layout placing logical `l` where it was last assigned.
pub open spec fn from_pairs_spec(pairs: Seq<(QubitId, PhysicalQubit)>, device_qubits: u32) -> Result<
    LayoutModel,
    LayoutError,
> {
    match pairs_error(pairs, device_qubits) {
        Some(e) => Err(e),
        None => {
            let m = assigned(pairs);
            match first_unmapped(m, m.len()) {
                Some(l) => Err(LayoutError::Unmapped { logical: QubitId(l) }),
                None => Ok(
                    LayoutModel {
                        to_physical: Seq::new(m.len(), |l: int| m[l as u32]),
                        to_logical: Seq::new(
                            device_qubits as nat,
                            |p: int| occupant(pairs, PhysicalQubit(p as u32)),
                        ),
                    },
                ),
            }
        },
    }
}

/// The occupancy table after exchanging the tenants of `a` and `b`.
pub open spec fn swapped_occupancy(occ: Seq<Option<QubitId>>, a: int, b: int) -> Seq<
    Option<QubitId>,
> {
    occ.update(a, occ[b]).update(b, occ[a])
}

/// What exchanging the occupants of two physical qubits does to a layout:
/// the occupancy entries trade places, and each tenant moved records its new
/// home.
pub open spec fn swapped_model(m: LayoutModel, a: PhysicalQubit, b: PhysicalQubit) -> LayoutModel {
    if a == b {
        m
    } else {
        let occ = swapped_occupancy(m.to_logical, a.0 as int, b.0 as int);
        LayoutModel {
            to_physical: Seq::new(
                m.to_physical.len(),
                |l: int|
                    if occ[b.0 as int] == Some(QubitId(l as u32)) {
                        b
                    } else if occ[a.0 as int] == Some(QubitId(l as u32)) {
                        a
                    } else {
                        m.to_physical[l]
                    },
            ),
            to_logical: occ,
        }
    }
}

/// An injective assignment of logical qubits to physical ones.
#[derive(Debug, PartialEq, Eq)]
pub struct Layout {
    /// Indexed by logical qubit.
    to_physical: Vec<PhysicalQubit>,
    /// Indexed by physical qubit; `None` for an unoccupied device qubit.
    to_logical: Vec<Option<QubitId>>,
}

impl View for Layout {
    type V = LayoutModel;

    closed spec fn view(&self) -> LayoutModel {
        LayoutModel { to_physical: self.to_physical@, to_logical: self.to_logical@ }
    }
}

impl Clone for Layout {
    fn clone(&self) -> (r: Self)
        ensures
            r@ == self@,
    {
        proof {
            use_type_invariant(self);
        }
        Layout { to_physical: self.to_physical.clone(), to_logical: self.to_logical.clone() }
    }
}

impl Layout {
    #[verifier::type_invariant]
    closed spec fn inv(self) -> bool {
        layout_consistent(self@)
    }

    /// Brings the layout invariant into a caller's proof; does nothing at
    /// run time.
    pub fn lemma_inv(&self)
        ensures
            layout_inv(self@),
            layout_consistent(self@),
    {
        proof {
            use_type_invariant(self);
        }
    }

    /// Logical `n` on physical `n`.
    ///
    /// Fails with [`LayoutError::DeviceTooSmall`] exactly when the circuit
    /// has more qubits than the device.
    pub fn trivial(num_qubits: u32, device_qubits: u32) -> (r: Result<Layout, LayoutError>)
        ensures
            num_qubits > device_qubits ==> r == Err::<Layout, LayoutError>(
                LayoutError::DeviceTooSmall { needed: num_qubits, available: device_qubits },
            ),
            num_qubits <= device_qubits ==> r is Ok && r->Ok_0@ == trivial_model(
                num_qubits as nat,
                device_qubits as nat,
            ),
    {
        if num_qubits > device_qubits {
            return Err(LayoutError::DeviceTooSmall { needed: num_qubits, available: device_qubits });
        }
        let mut to_physical: Vec<PhysicalQubit> = Vec::new();
        let mut q: u32 = 0;
        while q < num_qubits
            invariant
                q <= num_qubits,
                to_physical@ =~= Seq::new(q as nat, |i: int| PhysicalQubit(i as u32)),
            decreases num_qubits - q,
        {
            to_physical.push(PhysicalQubit(q));
            q += 1;
        }
        let mut to_logical: Vec<Option<QubitId>> = Vec::new();
        let mut p: u32 = 0;
        while p < device_qubits
            invariant
                p <= device_qubits,
                num_qubits <= device_qubits,
                to_logical@ =~= Seq::new(
                    p as nat,
                    |k: int|
                        if k < num_qubits {
                            Some(QubitId(k as u32))
                        } else {
                            None
                        },
                ),
            decreases device_qubits - p,
        {
            if p < num_qubits {
                to_logical.push(Some(QubitId(p)));
            } else {
                to_logical.push(None);
            }
            p += 1;
        }
        proof {
            lemma_trivial_consistent(num_qubits as nat, device_qubits as nat);
        }
        Ok(Layout { to_physical, to_logical })
    }

    /// Builds a layout from explicit assignments, validating it.
    ///
    /// Assignments are taken in order. The first one that leaves the device
    /// is [`LayoutError::PhysicalOutOfRange`]; the first that lands on an
    /// occupied physical qubit is [`LayoutError::NotInjective`]. Otherwise,
    /// with `n` distinct logical qubits named, the first of `0..n` without an
    /// assignment is [`LayoutError::Unmapped`]. A logical qubit named twice
    /// lives where it was named last.
    pub fn from_pairs(pairs: Vec<(QubitId, PhysicalQubit)>, device_qubits: u32) -> (r: Result<
        Layout,
        LayoutError,
    >)
        ensures
            match from_pairs_spec(pairs@, device_qubits) {
                Ok(m) => r is Ok && r->Ok_0@ == m,
                Err(e) => r == Err::<Layout, LayoutError>(e),
            },
            r is Ok ==> distinct_logicals(pairs@) && layout_consistent(r->Ok_0@),
    {
        let mut to_logical: Vec<Option<QubitId>> = Vec::new();
        let mut p: u32 = 0;
        while p < device_qubits
            invariant
                p <= device_qubits,
                to_logical@ =~= Seq::new(p as nat, |k: int| None::<QubitId>),
            decreases device_qubits - p,
        {
            to_logical.push(None);
            p += 1;
        }
        let mut assigned_map: std::collections::BTreeMap<u32, PhysicalQubit> =
            std::collections::BTreeMap::new();
        let mut k: usize = 0;
        proof {
            assert(pairs@.take(0) =~= Seq::<(QubitId, PhysicalQubit)>::empty());
        }
        while k < pairs.len()
            invariant
                k <= pairs@.len(),
                to_logical@.len() == device_qubits,
                pairs_error(pairs@.take(k as int), device_qubits) is None,
                forall|q: int|
                    0 <= q < device_qubits ==> #[trigger] to_logical@[q] == occupant(
                        pairs@.take(k as int),
                        PhysicalQubit(q as u32),
                    ),
                assigned_map@ == assigned(pairs@.take(k as int)),
                forall|l: u32| #[trigger]
                    assigned_map@.contains_key(l) ==> assigned_map@[l].0 < device_qubits
                        && occupant(pairs@.take(k as int), assigned_map@[l]) == Some(QubitId(l)),
                forall|q: PhysicalQubit| #[trigger]
                    occupant(pairs@.take(k as int), q) is Some ==> assigned_map@.contains_key(
                        occupant(pairs@.take(k as int), q)->0.id(),
                    ),
            decreases pairs@.len() - k,
        {
            let ghost prev = pairs@.take(k as int);
            let ghost next = pairs@.take(k as int + 1);
            proof {
                assert(next.drop_last() =~= prev);
                assert(next.last() == pairs@[k as int]);
            }
            let (logical, physical) = pairs[k];
            if physical.0 >= device_qubits {
                proof {
                    lemma_pairs_error_extends(pairs@, k as int, device_qubits);
                }
                return Err(
                    LayoutError::PhysicalOutOfRange {
                        logical,
                        physical,
                        qubit_count: device_qubits,
                    },
                );
            }
            match to_logical[physical.0 as usize] {
                Some(existing) => {
                    let (first, second) = if existing.0 <= logical.0 {
                        (existing, logical)
                    } else {
                        (logical, existing)
                    };
                    proof {
                        assert(to_logical@[physical.0 as int] == occupant(prev, physical));
                        lemma_pairs_error_extends(pairs@, k as int, device_qubits);
                    }
                    return Err(LayoutError::NotInjective { first, second, physical });
                },
                None => {},
            }
            proof {
                assert(to_logical@[physical.0 as int] == occupant(prev, physical));
            }
            match assigned_map.get(&logical.0) {
                Some(first) => {
                    proof {
                        lemma_pairs_error_extends(pairs@, k as int, device_qubits);
                    }
                    return Err(LayoutError::RepeatedLogical { logical, first: *first, second: physical });
                },
                None => {},
            }
            to_logical.set(physical.0 as usize, Some(logical));
            assigned_map.insert(logical.0, physical);
            proof {
                assert(pairs_error(next, device_qubits) is None);
                assert forall|q: int| 0 <= q < device_qubits implies #[trigger] to_logical@[q]
                    == occupant(next, PhysicalQubit(q as u32)) by {
                    if q == physical.0 {
                    } else {
                        assert(PhysicalQubit(q as u32) != physical);
                    }
                }
                assert forall|l: u32| #[trigger]
                    assigned_map@.contains_key(l) implies assigned_map@[l].0 < device_qubits
                    && occupant(next, assigned_map@[l]) == Some(QubitId(l)) by {
                    if l == logical.0 {
                    } else {
                        let old_p = assigned(prev)[l];
                        assert(occupant(prev, old_p) == Some(QubitId(l)));
                        assert(old_p != physical);
                    }
                }
                assert forall|q: PhysicalQubit| #[trigger]
                    occupant(next, q) is Some implies assigned_map@.contains_key(
                        occupant(next, q)->0.id(),
                    ) by {
                    if q != physical {
                        assert(occupant(next, q) == occupant(prev, q));
                    }
                }
            }
            k += 1;
        }
        proof {
            assert(pairs@.take(pairs@.len() as int) =~= pairs@);
        }
        let ghost m = assigned(pairs@);
        proof {
            lemma_pairs_ok_distinct(pairs@, device_qubits);
        }
        let n = assigned_map.len();
        proof {
            lemma_assigned_count(m, device_qubits, pairs@);
        }
        let mut to_physical: Vec<PhysicalQubit> = Vec::new();
        let mut l: usize = 0;
        while l < n
            invariant
                l <= n,
                n == m.len(),
                n <= device_qubits,
                assigned_map@ == m,
                m == assigned(pairs@),
                pairs_error(pairs@, device_qubits) is None,
                first_unmapped(m, l as nat) is None,
                to_physical@ =~= Seq::new(l as nat, |i: int| m[i as u32]),
            decreases n - l,
        {
            match assigned_map.get(&(l as u32)) {
                Some(p) => {
                    to_physical.push(*p);
                },
                None => {
                    proof {
                        lemma_first_unmapped_found(m, l as nat, n as nat);
                    }
                    return Err(LayoutError::Unmapped { logical: QubitId(l as u32) });
                },
            }
            l += 1;
        }
        proof {
            lemma_keys_are_prefix(m, n as nat);
            assert(to_logical@ =~= Seq::new(
                device_qubits as nat,
                |p: int| occupant(pairs@, PhysicalQubit(p as u32)),
            ));
            let lm = LayoutModel { to_physical: to_physical@, to_logical: to_logical@ };
            assert forall|i: int| 0 <= i < lm.to_physical.len() implies (#[trigger] lm.to_physical[i]).0
                < lm.to_logical.len() && lm.to_logical[lm.to_physical[i].0 as int] == Some(
                QubitId(i as u32),
            ) by {
                assert(m.contains_key(i as u32));
            }
            assert forall|q: int|
                0 <= q < lm.to_logical.len() && (#[trigger] lm.to_logical[q]) is Some implies lm.to_logical[q]->0.id()
                < lm.to_physical.len() by {
                assert(occupant(pairs@, PhysicalQubit(q as u32)) is Some);
            }
            if distinct_logicals(pairs@) {
                assert forall|q: int|
                    0 <= q < lm.to_logical.len() && (#[trigger] lm.to_logical[q]) is Some implies lm.to_physical[lm.to_logical[q]->0.id() as int].0
                    == q by {
                    let pq = PhysicalQubit(q as u32);
                    let t = occupant(pairs@, pq)->0;
                    lemma_occupant_named(pairs@, pq);
                    let i = choose|i: int| 0 <= i < pairs@.len() && pairs@[i] == (t, pq);
                    lemma_assigned_named(pairs@, i);
                }
            }
        }
        Ok(Layout { to_physical, to_logical })
    }

    /// Number of logical qubits this layout places.
    pub fn len(&self) -> (r: usize)
        ensures
            r == self@.to_physical.len(),
    {
        self.to_physical.len()
    }

    /// Whether this layout places no qubits at all.
    pub fn is_empty(&self) -> (r: bool)
        ensures
            r == (self@.to_physical.len() == 0),
    {
        self.to_physical.len() == 0
    }

    /// Number of physical qubits on the device this layout was built for.
    pub fn device_qubits(&self) -> (r: u32)
        ensures
            r == self@.to_logical.len(),
    {
        proof {
            use_type_invariant(self);
        }
        self.to_logical.len() as u32
    }

    /// Where a logical qubit currently lives.
    pub fn physical(&self, logical: QubitId) -> (r: Option<PhysicalQubit>)
        ensures
            r == if logical.0 < self@.to_physical.len() {
                Some(self@.to_physical[logical.0 as int])
            } else {
                None
            },
    {
        if (logical.0 as usize) < self.to_physical.len() {
            Some(self.to_physical[logical.0 as usize])
        } else {
            None
        }
    }

    /// What currently lives on a physical qubit, if anything.
    pub fn logical(&self, physical: PhysicalQubit) -> (r: Option<QubitId>)
        ensures
            r == if physical.0 < self@.to_logical.len() {
                self@.to_logical[physical.0 as int]
            } else {
                None
            },
    {
        if (physical.0 as usize) < self.to_logical.len() {
            self.to_logical[physical.0 as usize]
        } else {
            None
        }
    }

    /// Exchanges whatever occupies two physical qubits — what a routing SWAP
    /// does to the mapping. Swapping an ancilla with a tenant moves the
    /// tenant.
    pub fn swap_physical(&mut self, a: PhysicalQubit, b: PhysicalQubit)
        requires
            a.0 < old(self)@.to_logical.len(),
            b.0 < old(self)@.to_logical.len(),
        ensures
            final(self)@ == swapped_model(old(self)@, a, b),
    {
        proof {
            use_type_invariant(&*self);
        }
        if a.0 == b.0 {
            return;
        }
        let ghost before = self@;
        let ia = a.0 as usize;
        let ib = b.0 as usize;
        let ta = self.to_logical[ia];
        let tb = self.to_logical[ib];
        let mut taken = Layout { to_physical: Vec::new(), to_logical: Vec::new() };
        std::mem::swap(self, &mut taken);
        let Layout { mut to_physical, mut to_logical } = taken;
        to_logical.set(ia, tb);
        to_logical.set(ib, ta);
        match tb {
            Some(logical) => {
                to_physical.set(logical.0 as usize, a);
            },
            None => {},
        }
        match ta {
            Some(logical) => {
                to_physical.set(logical.0 as usize, b);
            },
            None => {},
        }
        let ghost after = swapped_model(before, a, b);
        proof {
            assert(to_logical@ =~= after.to_logical);
            assert forall|l: int| 0 <= l < before.to_physical.len() implies #[trigger] to_physical@[l]
                == after.to_physical[l] by {
            }
            assert(to_physical@ =~= after.to_physical);
            lemma_swap_keeps_inv(before, a, b);
        }
        *self = Layout { to_physical, to_logical };
    }

    /// Whether every logical qubit has a distinct physical home and the two
    /// directions agree. Always true: it is the layout invariant, checked.
    pub fn is_injective(&self) -> (r: bool)
        ensures
            r,
    {
        proof {
            use_type_invariant(self);
        }
        let mut l: usize = 0;
        while l < self.to_physical.len()
            invariant
                l <= self@.to_physical.len(),
                layout_inv(self@),
            decreases self@.to_physical.len() - l,
        {
            let p = self.to_physical[l];
            if p.0 as usize >= self.to_logical.len() {
                return false;
            }
            match self.to_logical[p.0 as usize] {
                Some(q) => {
                    if q.0 as usize != l {
                        return false;
                    }
                },
                None => {
                    return false;
                },
            }
            l += 1;
        }
        true
    }

    /// The assignment as `logical index -> physical index`, ascending by
    /// logical qubit.
    pub fn permutation(&self) -> (r: Vec<u32>)
        ensures
            r@ == self@.to_physical.map_values(|p: PhysicalQubit| p.0),
    {
        let mut out: Vec<u32> = Vec::new();
        let mut l: usize = 0;
        while l < self.to_physical.len()
            invariant
                l <= self@.to_physical.len(),
                out@ =~= self@.to_physical.take(l as int).map_values(|p: PhysicalQubit| p.0),
            decreases self@.to_physical.len() - l,
        {
            out.push(self.to_physical[l].0);
            l += 1;
        }
        proof {
            assert(self@.to_physical.take(self@.to_physical.len() as int) =~= self@.to_physical);
        }
        out
    }

    /// The highest physical qubit this layout occupies, if any.
    pub fn highest_occupied(&self) -> (r: Option<PhysicalQubit>)
        ensures
            self@.to_physical.len() == 0 ==> r is None,
            self@.to_physical.len() > 0 ==> r is Some && self@.to_physical.contains(r->0) && forall|
                l: int,
            |
                0 <= l < self@.to_physical.len() ==> (#[trigger] self@.to_physical[l]).0 <= r->0.id(),
    {
        if self.to_physical.len() == 0 {
            return None;
        }
        let mut best = self.to_physical[0];
        let mut l: usize = 1;
        proof {
            assert(self@.to_physical.take(1)[0] == best);
        }
        while l < self.to_physical.len()
            invariant
                1 <= l <= self@.to_physical.len(),
                self@.to_physical.take(l as int).contains(best),
                forall|k: int| 0 <= k < l ==> (#[trigger] self@.to_physical[k]).0 <= best.0,
            decreases self@.to_physical.len() - l,
        {
            if self.to_physical[l].0 > best.0 {
                best = self.to_physical[l];
                proof {
                    assert(self@.to_physical.take(l as int + 1)[l as int] == best);
                }
            } else {
                proof {
                    let k = choose|k: int|
                        0 <= k < l && self@.to_physical.take(l as int)[k] == best;
                    assert(self@.to_physical.take(l as int + 1)[k] == best);
                }
            }
            l += 1;
        }
        proof {
            assert(self@.to_physical.take(self@.to_physical.len() as int) =~= self@.to_physical);
        }
        Some(best)
    }

    /// The layout as `%q<logical>-><physical>` entries joined by `", "`,
    /// ascending by logical qubit.
    pub fn to_text(&self) -> (r: String)
        ensures
            r@ == layout_text(self@.to_physical),
    {
        let mut out = String::new();
        let mut l: usize = 0;
        while l < self.to_physical.len()
            invariant
                l <= self@.to_physical.len(),
                out@ == layout_text(self@.to_physical.take(l as int)),
            decreases self@.to_physical.len() - l,
        {
            proof {
                assert(self@.to_physical.take(l as int + 1).drop_last() =~= self@.to_physical.take(
                    l as int,
                ));
            }
            if l > 0 {
                push_str(&mut out, ", ");
            }
            push_str(&mut out, "%q");
            push_decimal(&mut out, l as u64);
            push_str(&mut out, "->#q");
            push_decimal(&mut out, self.to_physical[l].0 as u64);
            proof {
                reveal_strlit(", ");
                reveal_strlit("%q");
                reveal_strlit("->#q");
                let prev = layout_text(self@.to_physical.take(l as int));
                let entry = entry_text(l as nat, self@.to_physical[l as int].0 as nat);
                if l > 0 {
                    assert(out@ =~= prev + seq![',', ' '] + entry);
                } else {
                    assert(out@ =~= entry);
                }
            }
            l += 1;
        }
        proof {
            assert(self@.to_physical.take(self@.to_physical.len() as int) =~= self@.to_physical);
        }
        out
    }
}

/// One `%q<l>->#q<p>` entry.
pub open spec fn entry_text(l: nat, p: nat) -> Seq<char> {
    seq!['%', 'q'] + decimal(l) + seq!['-', '>', '#', 'q'] + decimal(p)
}

/// The text of a forward table: its entries joined by `", "`.
pub open spec fn layout_text(m: Seq<PhysicalQubit>) -> Seq<char>
    decreases m.len(),
{
    if m.len() == 0 {
        Seq::empty()
    } else if m.len() == 1 {
        entry_text(0, m[0].0 as nat)
    } else {
        layout_text(m.drop_last()) + seq![',', ' '] + entry_text(
            (m.len() - 1) as nat,
            m.last().0 as nat,
        )
    }
}

proof fn lemma_pairs_error_extends(pairs: Seq<(QubitId, PhysicalQubit)>, k: int, device_qubits: u32)
    requires
        0 <= k < pairs.len(),
        pairs_error(pairs.take(k), device_qubits) is None,
        pairs_error(pairs.take(k + 1), device_qubits) is Some,
    ensures
        pairs_error(pairs, device_qubits) == pairs_error(pairs.take(k + 1), device_qubits),
    decreases pairs.len(),
{
    if k + 1 < pairs.len() {
        assert(pairs.drop_last().take(k) =~= pairs.take(k));
        assert(pairs.drop_last().take(k + 1) =~= pairs.take(k + 1));
        lemma_pairs_error_extends(pairs.drop_last(), k, device_qubits);
    } else {
        assert(pairs.take(k + 1) =~= pairs);
    }
}

/// The number of distinct logical qubits is at most the device size.
proof fn lemma_assigned_count(m: Map<u32, PhysicalQubit>, device_qubits: u32, pairs: Seq<(QubitId, PhysicalQubit)>)
    requires
        m == assigned(pairs),
        forall|l: u32| #[trigger]
            m.contains_key(l) ==> m[l].0 < device_qubits && occupant(pairs, m[l]) == Some(
                QubitId(l),
            ),
    ensures
        m.dom().finite(),
        m.len() <= device_qubits,
{
    lemma_assigned_finite(pairs);
    let f = |l: u32| m[l].0;
    let image = m.dom().map(f);
    assert(vstd::relations::injective_on(f, m.dom())) by {
        assert forall|x1: u32, x2: u32|
            m.dom().contains(x1) && m.dom().contains(x2) && #[trigger] f(x1) == #[trigger] f(
                x2,
            ) implies x1 == x2 by {
            assert(m[x1] == m[x2]);
        }
    }
    lemma_map_size(m.dom(), image, f);
    let range = Set::new(|p: u32| p < device_qubits);
    assert(range == <u32 as vstd::set_lib::FiniteRange>::range_set(0u32, device_qubits));
    vstd::set_lib::range_set_properties::<u32>(0u32, device_qubits);
    assert(image.subset_of(range));
    lemma_len_subset(image, range);
}

proof fn lemma_assigned_finite(pairs: Seq<(QubitId, PhysicalQubit)>)
    ensures
        assigned(pairs).dom().finite(),
    decreases pairs.len(),
{
    if pairs.len() > 0 {
        lemma_assigned_finite(pairs.drop_last());
    }
}

proof fn lemma_first_unmapped_found(m: Map<u32, PhysicalQubit>, l: nat, n: nat)
    requires
        l < n,
        n <= u32::MAX,
        first_unmapped(m, l) is None,
        !m.contains_key(l as u32),
    ensures
        first_unmapped(m, n) == Some(l as u32),
    decreases n - l,
{
    if l + 1 < n {
        lemma_first_unmapped_found(m, l, (n - 1) as nat);
    }
}

/// When no index below `n` is missing and the map has `n` keys, its keys are
/// exactly `0..n`.
proof fn lemma_keys_are_prefix(m: Map<u32, PhysicalQubit>, n: nat)
    requires
        m.dom().finite(),
        m.len() == n,
        n <= u32::MAX,
        first_unmapped(m, n) is None,
    ensures
        forall|l: u32| #[trigger] m.contains_key(l) <==> l < n,
{
    lemma_first_unmapped_none(m, n);
    let range = Set::new(|p: u32| p < n);
    assert(range == <u32 as vstd::set_lib::FiniteRange>::range_set(0u32, n as u32));
    vstd::set_lib::range_set_properties::<u32>(0u32, n as u32);
    assert(range.subset_of(m.dom()));
    lemma_subset_equality(range, m.dom());
}

proof fn lemma_first_unmapped_none(m: Map<u32, PhysicalQubit>, n: nat)
    requires
        n <= u32::MAX,
        first_unmapped(m, n) is None,
    ensures
        forall|l: u32| l < n ==> #[trigger] m.contains_key(l),
    decreases n,
{
    if n > 0 {
        lemma_first_unmapped_none(m, (n - 1) as nat);
    }
}

/// Exchanging two occupancy entries keeps the layout invariant.
proof fn lemma_swap_keeps_inv(m: LayoutModel, a: PhysicalQubit, b: PhysicalQubit)
    requires
        layout_inv(m),
        a.0 < m.to_logical.len(),
        b.0 < m.to_logical.len(),
    ensures
        layout_inv(swapped_model(m, a, b)),
        layout_consistent(m) ==> layout_consistent(swapped_model(m, a, b)),
{
    let s = swapped_model(m, a, b);
    if a != b {
        assert forall|l: int| 0 <= l < s.to_physical.len() implies (#[trigger] s.to_physical[l]).0
            < s.to_logical.len() && s.to_logical[s.to_physical[l].0 as int] == Some(
            QubitId(l as u32),
        ) by {
            let p = m.to_physical[l];
            assert(m.to_logical[p.0 as int] == Some(QubitId(l as u32)));
        }
        if layout_consistent(m) {
            assert forall|p: int|
                0 <= p < s.to_logical.len() && (#[trigger] s.to_logical[p]) is Some implies s.to_physical[s.to_logical[p]->0.id() as int].0
                == p by {
                let q = s.to_logical[p]->0;
                if p == a.0 as int {
                } else if p == b.0 as int {
                } else {
                    assert(m.to_logical[p] == Some(q));
                    assert(m.to_physical[q.0 as int].0 == p);
                    if s.to_logical[a.0 as int] == Some(q) {
                        assert(m.to_logical[b.0 as int] == Some(q));
                        assert(m.to_physical[q.0 as int].0 == b.0);
                    }
                    if s.to_logical[b.0 as int] == Some(q) {
                        assert(m.to_logical[a.0 as int] == Some(q));
                        assert(m.to_physical[q.0 as int].0 == a.0);
                    }
                }
            }
        }
    }
}

/// Exchanging the occupants of the same two physical qubits twice gives the
/// layout back, and exchanging a qubit with itself changes nothing. Holds of
/// every layout value, since each keeps both directions in step.
pub proof fn lemma_swap_physical_twice(m: LayoutModel, a: PhysicalQubit, b: PhysicalQubit)
    requires
        layout_consistent(m),
        a.0 < m.to_logical.len(),
        b.0 < m.to_logical.len(),
    ensures
        swapped_model(swapped_model(m, a, b), a, b) == m,
        swapped_model(m, a, a) == m,
{
    if a != b {
        let m1 = swapped_model(m, a, b);
        let m2 = swapped_model(m1, a, b);
        assert(m2.to_logical =~= m.to_logical);
        assert forall|l: int| 0 <= l < m.to_physical.len() implies #[trigger] m2.to_physical[l]
            == m.to_physical[l] by {
            let q = QubitId(l as u32);
            let home = m.to_physical[l];
            assert(m.to_logical[home.0 as int] == Some(q));
            if m.to_logical[b.0 as int] == Some(q) {
                assert(m.to_physical[l].0 == b.0);
            } else if m.to_logical[a.0 as int] == Some(q) {
                assert(m.to_physical[l].0 == a.0);
            }
        }
        assert(m2.to_physical =~= m.to_physical);
    }
}

/// Every logical qubit an assignment names has an entry.
proof fn lemma_assigned_has(pairs: Seq<(QubitId, PhysicalQubit)>, i: int)
    requires
        0 <= i < pairs.len(),
    ensures
        assigned(pairs).contains_key(pairs[i].0.0),
    decreases pairs.len(),
{
    if i < pairs.len() - 1 {
        lemma_assigned_has(pairs.drop_last(), i);
        assert(pairs.drop_last()[i] == pairs[i]);
    }
}

/// Assignments with no error name every logical qubit once.
proof fn lemma_pairs_ok_distinct(pairs: Seq<(QubitId, PhysicalQubit)>, device_qubits: u32)
    requires
        pairs_error(pairs, device_qubits) is None,
    ensures
        distinct_logicals(pairs),
    decreases pairs.len(),
{
    if pairs.len() > 0 {
        let rest = pairs.drop_last();
        lemma_pairs_ok_distinct(rest, device_qubits);
        assert forall|i: int, j: int| 0 <= i < j < pairs.len() implies (#[trigger] pairs[i]).0 != (
        #[trigger] pairs[j]).0 by {
            if j < pairs.len() - 1 {
                assert(rest[i] == pairs[i] && rest[j] == pairs[j]);
            } else {
                lemma_assigned_has(rest, i);
                assert(rest[i] == pairs[i]);
            }
        }
    }
}

/// No logical qubit is named by two assignments.
pub open spec fn distinct_logicals(pairs: Seq<(QubitId, PhysicalQubit)>) -> bool {
    forall|i: int, j: int| 0 <= i < j < pairs.len() ==> (#[trigger] pairs[i]).0 != (#[trigger] pairs[j]).0
}

/// A physical qubit's recorded tenant comes from an assignment naming it.
proof fn lemma_occupant_named(pairs: Seq<(QubitId, PhysicalQubit)>, p: PhysicalQubit)
    ensures
        occupant(pairs, p) is Some ==> exists|i: int|
            0 <= i < pairs.len() && pairs[i] == (occupant(pairs, p)->0, p),
    decreases pairs.len(),
{
    if pairs.len() > 0 {
        lemma_occupant_named(pairs.drop_last(), p);
        if pairs.last().1 == p {
            assert(pairs[pairs.len() - 1] == (occupant(pairs, p)->0, p));
        } else if occupant(pairs, p) is Some {
            let i = choose|i: int|
                0 <= i < pairs.drop_last().len() && pairs.drop_last()[i] == (
                    occupant(pairs.drop_last(), p)->0,
                    p,
                );
            assert(pairs[i] == pairs.drop_last()[i]);
        }
    }
}

/// With every logical qubit named once, each lives where its assignment
/// puts it.
proof fn lemma_assigned_named(pairs: Seq<(QubitId, PhysicalQubit)>, i: int)
    requires
        distinct_logicals(pairs),
        0 <= i < pairs.len(),
    ensures
        assigned(pairs).contains_key(pairs[i].0.0),
        assigned(pairs)[pairs[i].0.0] == pairs[i].1,
    decreases pairs.len(),
{
    if i < pairs.len() - 1 {
        let pre = pairs.drop_last();
        assert forall|a: int, b: int| 0 <= a < b < pre.len() implies (#[trigger] pre[a]).0 != (
        #[trigger] pre[b]).0 by {
            assert(pre[a] == pairs[a] && pre[b] == pairs[b]);
        }
        lemma_assigned_named(pre, i);
        assert(pre[i] == pairs[i]);
        assert(pairs[i].0 != pairs[pairs.len() - 1].0);
        assert(pairs[i].0.0 != pairs.last().0.0);
    }
}

/// Logical `n` on physical `n`.
#[derive(Debug, Clone, Copy, Default)]
pub struct TrivialLayout;

impl TrivialLayout {
    /// Stable identifier, recorded in lowering output.
    pub fn id(&self) -> (r: &'static str)
        ensures
            r@ == "trivial"@,
    {
        "trivial"
    }

    /// The trivial layout of a circuit on a device.
    ///
    /// # Errors
    ///
    /// [`LayoutError::DeviceTooSmall`] when the circuit has more qubits than
    /// the device.
    pub fn plan(&self, circuit: &Circuit, topology: &Topology) -> (r: Result<Layout, LayoutError>)
        ensures
            circuit@.num_qubits > topology@.qubit_count ==> r == Err::<Layout, LayoutError>(
                LayoutError::DeviceTooSmall {
                    needed: circuit@.num_qubits,
                    available: topology@.qubit_count,
                },
            ),
            circuit@.num_qubits <= topology@.qubit_count ==> r is Ok && r->Ok_0@ == trivial_model(
                circuit@.num_qubits as nat,
                topology@.qubit_count as nat,
            ),
    {
        Layout::trivial(circuit.num_qubits(), topology.qubit_count())
    }
}

/// Seats interacting logical qubits near each other.
///
/// A heuristic: it reduces expected SWAPs and can never make a circuit
/// illegal, because routing repairs whatever it leaves broken.
#[derive(Debug, Clone, Copy, Default)]
pub struct DenseLayout;

impl DenseLayout {
    /// Stable identifier, recorded in lowering output.
    pub fn id(&self) -> (r: &'static str)
        ensures
            r@ == "dense"@,
    {
        "dense"
    }

    /// Seats the circuit's logical qubits on the device greedily: in order
    /// of total interaction count, heaviest first (ties by index), each
    /// takes the free physical qubit that minimises the interaction-weighted
    /// hop distance to the qubits already seated, then prefers higher
    /// connectivity, then the lower index.
    ///
    /// # Errors
    ///
    /// [`LayoutError::DeviceTooSmall`] when the circuit has more qubits than
    /// the device.
    pub fn plan(&self, circuit: &Circuit, topology: &Topology) -> (r: Result<Layout, LayoutError>)
        requires
            circuit@.instructions.len() * topology@.qubit_count * (UNREACHABLE_PENALTY
                + topology@.qubit_count) <= usize::MAX,
        ensures
            circuit@.num_qubits > topology@.qubit_count ==> r == Err::<Layout, LayoutError>(
                LayoutError::DeviceTooSmall {
                    needed: circuit@.num_qubits,
                    available: topology@.qubit_count,
                },
            ),
            circuit@.num_qubits <= topology@.qubit_count ==> r is Ok && layout_consistent(r->Ok_0@)
                && r->Ok_0@.to_physical == dense_plan(circuit@, topology@)
                && r->Ok_0@.to_logical.len() == topology@.qubit_count,
    {
        let count = topology.qubit_count();
        if circuit.num_qubits() > count {
            return Err(
                LayoutError::DeviceTooSmall { needed: circuit.num_qubits(), available: count },
            );
        }
        let ghost bound = circuit@.instructions.len();
        let nq = circuit.num_qubits() as usize;
        let interactions = interaction_counts(circuit);
        proof {
            assert forall|x: int, y: int| 0 <= x < nq && 0 <= y < nq implies (#[trigger] matrix(
                interactions@,
            )[x][y]) <= bound by {
                assert(matrix(interactions@)[x] == interactions@[x]@);
                lemma_pair_count_bound(circuit@.instructions, bound, x as u32, y as u32);
            }
            assert forall|x: int| 0 <= x < nq implies (#[trigger] matrix(interactions@)[x]).len() == nq by {
                assert(matrix(interactions@)[x] == interactions@[x]@);
            }
            assert(bounded_square(matrix(interactions@), nq as nat, bound));
            assert forall|x: int| 0 <= x < nq implies #[trigger] matrix(interactions@)[x]
                =~= interaction_matrix(circuit@)[x] by {
                assert(matrix(interactions@)[x] == interactions@[x]@);
            }
            assert(matrix(interactions@) =~= interaction_matrix(circuit@));
            assert(nq * bound * (UNREACHABLE_PENALTY + count) <= usize::MAX) by (nonlinear_arith)
                requires
                    nq <= count,
                    bound * count * (UNREACHABLE_PENALTY + count) <= usize::MAX,
            ;
            assert(nq * bound <= usize::MAX) by (nonlinear_arith)
                requires
                    nq * bound * (UNREACHABLE_PENALTY + count) <= usize::MAX,
            ;
        }
        let mut weights: Vec<usize> = Vec::new();
        let mut q: usize = 0;
        while q < nq
            invariant
                q <= nq,
                weights@.len() == q,
                bounded_square(matrix(interactions@), nq as nat, bound),
                nq * bound <= usize::MAX,
                forall|k: int| 0 <= k < q ==> #[trigger] weights@[k] == weight_upto(matrix(interactions@), k, nq as int),
            decreases nq - q,
        {
            weights.push(interaction_weight(&interactions, nq, q, Ghost(bound)));
            q += 1;
        }
        let ghost m = interaction_matrix(circuit@);
        let order = weight_order(&weights, nq);
        proof {
            assert(weights@ =~= weight_seq(m, nq as nat));
            lemma_order_unique(weight_seq(m, nq as nat), nq as nat, order@);
        }
        let mut placed: Vec<Option<PhysicalQubit>> = Vec::new();
        let mut l: usize = 0;
        while l < nq
            invariant
                l <= nq,
                placed@.len() == l,
                forall|x: int| 0 <= x < l ==> (#[trigger] placed@[x]) is None,
            decreases nq - l,
        {
            placed.push(None);
            l += 1;
        }
        let mut taken: Vec<bool> = Vec::new();
        let mut p: u32 = 0;
        while p < count
            invariant
                p <= count,
                taken@.len() == p,
                forall|x: int| 0 <= x < p ==> !(#[trigger] taken@[x]),
            decreases count - p,
        {
            taken.push(false);
            p += 1;
        }
        let ghost mut used: Seq<u32> = Seq::empty();
        let mut t: usize = 0;
        proof {
            assert(placed@ =~= greedy_seats(m, topology@, order@, 0).0);
            assert(taken@ =~= greedy_seats(m, topology@, order@, 0).1);
        }
        while t < nq
            invariant
                t <= nq,
                m == matrix(interactions@),
                m.len() == nq,
                placed@ == greedy_seats(m, topology@, order@, t as nat).0,
                taken@ == greedy_seats(m, topology@, order@, t as nat).1,
                nq <= count,
                count == topology@.qubit_count,
                order@.len() == nq,
                order@.no_duplicates(),
                forall|i: int| 0 <= i < nq ==> (#[trigger] order@[i]) < nq,
                bounded_square(matrix(interactions@), nq as nat, bound),
                nq * bound * (UNREACHABLE_PENALTY + count) <= usize::MAX,
                placed@.len() == nq,
                taken@.len() == count,
                forall|x: int| 0 <= x < nq ==> ((#[trigger] placed@[x]) is Some <==> order@.take(t as int).contains(x as u32)),
                forall|x: int|
                    0 <= x < nq && (#[trigger] placed@[x]) is Some ==> placed@[x].unwrap().0 < count && used.contains(placed@[x].unwrap().0),
                forall|x: int, y: int|
                    0 <= x < y < nq && (#[trigger] placed@[x]) is Some && (#[trigger] placed@[y]) is Some ==> placed@[x]->0
                        != placed@[y]->0,
                used.len() == t,
                used.no_duplicates(),
                forall|i: int| 0 <= i < used.len() ==> (#[trigger] used[i]) < count,
                forall|c: int| 0 <= c < count ==> (#[trigger] taken@[c] <==> used.contains(c as u32)),
            decreases nq - t,
        {
            let logical = order[t] as usize;
            proof {
                assert(!order@.take(t as int).contains(logical as u32)) by {
                    if order@.take(t as int).contains(logical as u32) {
                        let i = choose|i: int| 0 <= i < t && order@.take(t as int)[i] == logical as u32;
                        assert(order@[i] == order@[t as int]);
                    }
                }
                assert(placed@[logical as int] is None);
            }
            let mut best: Option<(usize, usize, u32)> = None;
            let mut c: u32 = 0;
            while c < count
                invariant
                    c <= count,
                    count == topology@.qubit_count,
                    logical < nq,
                    placed@.len() == nq,
                    taken@.len() == count,
                    bounded_square(matrix(interactions@), nq as nat, bound),
                    nq * bound * (UNREACHABLE_PENALTY + count) <= usize::MAX,
                    best matches Some(b) ==> b.2 < count && !taken@[b.2 as int],
                    best is None ==> forall|x: int| 0 <= x < c ==> #[trigger] taken@[x],
                    m == matrix(interactions@),
                    m.len() == nq,
                    agrees(best, best_seat(m, placed@, taken@, logical as int, topology@, c as nat)),
                decreases count - c,
            {
                if !taken[c as usize] {
                    let cost = placement_cost(
                        &interactions,
                        nq,
                        &placed,
                        logical,
                        PhysicalQubit(c),
                        topology,
                        Ghost(bound),
                    );
                    let degree = topology.adjacent(PhysicalQubit(c), CouplingMode::Undirected).len();
                    let better = match best {
                        None => true,
                        Some((best_cost, best_degree, _)) => cost < best_cost || (cost == best_cost
                            && degree > best_degree),
                    };
                    if better {
                        best = Some((cost, degree, c));
                    }
                }
                c += 1;
            }
            let chosen = match best {
                Some((_, _, chosen)) => chosen,
                None => {
                    proof {
                        assert forall|x: u32| (x as int) < count implies used.contains(x) by {
                            assert(taken@[x as int]);
                        }
                        lemma_cover(used, count as nat);
                    }
                    return Err(
                        LayoutError::DeviceTooSmall { needed: circuit.num_qubits(), available: count },
                    );
                },
            };
            let ghost used_before = used;
            proof {
                assert(order@[t as int] == logical as u32);
            }
            taken.set(chosen as usize, true);
            placed.set(logical, Some(PhysicalQubit(chosen)));
            proof {
                assert(placed@ =~= greedy_seats(m, topology@, order@, t as nat + 1).0);
                assert(taken@ =~= greedy_seats(m, topology@, order@, t as nat + 1).1);
                used = used.push(chosen);
                assert(!used_before.contains(chosen));
                assert(used.no_duplicates()) by {
                    assert forall|a: int, b: int| 0 <= a < used.len() && 0 <= b < used.len() && a != b implies used[a]
                        != used[b] by {
                        if a < used_before.len() && b < used_before.len() {
                            assert(used[a] == used_before[a] && used[b] == used_before[b]);
                        } else if a < used_before.len() {
                            assert(used[a] == used_before[a]);
                            assert(used_before.contains(used[a]));
                        } else if b < used_before.len() {
                            assert(used[b] == used_before[b]);
                            assert(used_before.contains(used[b]));
                        }
                    }
                }
                assert(order@.take(t as int + 1) =~= order@.take(t as int).push(logical as u32));
                assert forall|x: int| 0 <= x < nq implies ((#[trigger] placed@[x]) is Some
                    <==> order@.take(t as int + 1).contains(x as u32)) by {
                    let tk = order@.take(t as int);
                    let tk1 = order@.take(t as int + 1);
                    if tk.contains(x as u32) {
                        let i = choose|i: int| 0 <= i < tk.len() && tk[i] == x as u32;
                        assert(tk1[i] == x as u32);
                    }
                    if tk1.contains(x as u32) {
                        let i = choose|i: int| 0 <= i < tk1.len() && tk1[i] == x as u32;
                        if i < t {
                            assert(tk[i] == x as u32);
                        } else {
                            assert(x == logical);
                        }
                    }
                    if x == logical {
                        assert(tk1[t as int] == logical as u32);
                    }
                }
                assert forall|c2: int| 0 <= c2 < count implies (#[trigger] taken@[c2] <==> used.contains(c2 as u32)) by {
                    if used_before.contains(c2 as u32) {
                        let i = choose|i: int| 0 <= i < used_before.len() && used_before[i] == c2 as u32;
                        assert(used[i] == c2 as u32);
                    }
                    if used.contains(c2 as u32) && c2 != chosen {
                        let i = choose|i: int| 0 <= i < used.len() && used[i] == c2 as u32;
                        assert(i < used_before.len());
                        assert(used_before[i] == c2 as u32);
                    }
                    if c2 == chosen {
                        assert(used[used.len() - 1] == chosen);
                    }
                }
                assert forall|x: int|
                    0 <= x < nq && (#[trigger] placed@[x]) is Some implies placed@[x].unwrap().0 < count && used.contains(placed@[x].unwrap().0) by {
                    if x != logical {
                        let i = choose|i: int| 0 <= i < used_before.len() && used_before[i] == placed@[x].unwrap().0;
                        assert(used[i] == placed@[x].unwrap().0);
                    } else {
                        assert(used[used.len() - 1] == chosen);
                    }
                }
                assert forall|x: int, y: int|
                    0 <= x < y < nq && (#[trigger] placed@[x]) is Some && (#[trigger] placed@[y]) is Some implies placed@[x]->0
                        != placed@[y]->0 by {
                    if x == logical {
                        assert(used_before.contains(placed@[y].unwrap().0));
                    } else if y == logical {
                        assert(used_before.contains(placed@[x].unwrap().0));
                    }
                }
            }
            t += 1;
        }
        let mut pairs: Vec<(QubitId, PhysicalQubit)> = Vec::new();
        let mut l: usize = 0;
        proof {
            assert(order@.take(nq as int) =~= order@);
        }
        while l < nq
            invariant
                l <= nq,
                nq <= count,
                count == topology@.qubit_count,
                nq <= u32::MAX,
                placed@.len() == nq,
                forall|x: int| 0 <= x < nq ==> (#[trigger] placed@[x]) is Some,
                forall|x: int| 0 <= x < nq && (#[trigger] placed@[x]) is Some ==> placed@[x].unwrap().0 < count,
                forall|x: int, y: int|
                    0 <= x < y < nq && (#[trigger] placed@[x]) is Some && (#[trigger] placed@[y]) is Some ==> placed@[x]->0
                        != placed@[y]->0,
                pairs@.len() == l,
                forall|i: int| 0 <= i < l ==> (#[trigger] pairs@[i]) == (QubitId(i as u32), placed@[i]->0),
                placed@ == greedy_seats(m, topology@, order@, nq as nat).0,
            decreases nq - l,
        {
            proof {
                assert(placed@[l as int] is Some);
            }
            if let Some(physical) = placed[l] {
                pairs.push((QubitId(l as u32), physical));
            }
            l += 1;
        }
        proof {
            assert forall|x: int| 0 <= x < nq implies (#[trigger] placed@[x]) is Some by {
                assert(order@.contains(x as u32));
            }
            lemma_sequential_pairs_ok(pairs@, count);
            assert forall|i: int| 0 <= i < nq implies #[trigger] from_pairs_spec(pairs@, count)->Ok_0.to_physical[i]
                == dense_plan(circuit@, topology@)[i] by {
                assert(pairs@[i] == (QubitId(i as u32), placed@[i]->0));
            }
            assert(from_pairs_spec(pairs@, count)->Ok_0.to_physical =~= dense_plan(circuit@, topology@));
        }
        Layout::from_pairs(pairs, count)
    }
}

/// The interaction key of two qubits: the lower index first.
pub open spec fn pair_key(a: QubitId, b: QubitId) -> (u32, u32) {
    if a.0 <= b.0 {
        (a.0, b.0)
    } else {
        (b.0, a.0)
    }
}

/// Whether an instruction is a gate acting on both `x` and `y`.
pub open spec fn gate_on_both(inst: InstructionModel, x: u32, y: u32) -> bool {
    &&& inst is Gate
    &&& inst_qubits(inst).contains(QubitId(x))
    &&& inst_qubits(inst).contains(QubitId(y))
}

/// How many of the first `i` instructions are gates acting on both `x` and
/// `y`: the interaction count of the pair.
pub open spec fn pair_count(insts: Seq<InstructionModel>, i: nat, x: u32, y: u32) -> nat
    decreases i,
{
    if i == 0 {
        0
    } else {
        pair_count(insts, (i - 1) as nat, x, y) + if gate_on_both(insts[i - 1], x, y) {
            1nat
        } else {
            0nat
        }
    }
}

/// Whether an operand pair `(k, l)`, `k < l`, visited before `(k0, l0)` in
/// row-major order has key `(x, y)`.
pub open spec fn pair_seen(qs: Seq<QubitId>, k0: int, l0: int, x: u32, y: u32) -> bool {
    exists|k: int, l: int|
        0 <= k < l < qs.len() && (k < k0 || (k == k0 && l < l0)) && #[trigger] pair_key(qs[k], qs[l])
            == (x, y)
}

/// An interaction count never exceeds the number of instructions counted.
pub proof fn lemma_pair_count_bound(insts: Seq<InstructionModel>, i: nat, x: u32, y: u32)
    ensures
        pair_count(insts, i, x, y) <= i,
    decreases i,
{
    if i > 0 {
        lemma_pair_count_bound(insts, (i - 1) as nat, x, y);
    }
}

/// Having visited every operand pair of a gate with distinct operands, a key
/// was seen exactly when that gate acts on both of its qubits.
proof fn lemma_seen_all(qs: Seq<QubitId>, x: u32, y: u32)
    requires
        x < y,
        forall|k: int, l: int| 0 <= k < l < qs.len() ==> #[trigger] qs[k] != #[trigger] qs[l],
    ensures
        pair_seen(qs, qs.len() as int, 0, x, y) <==> (qs.contains(QubitId(x)) && qs.contains(QubitId(y))),
{
    if pair_seen(qs, qs.len() as int, 0, x, y) {
        let (k, l) = choose|k: int, l: int|
            0 <= k < l < qs.len() && (k < qs.len() || (k == qs.len() && l < 0)) && #[trigger] pair_key(
                qs[k],
                qs[l],
            ) == (x, y);
        if qs[k].0 <= qs[l].0 {
            assert(qs[k] == QubitId(x) && qs[l] == QubitId(y));
        } else {
            assert(qs[l] == QubitId(x) && qs[k] == QubitId(y));
        }
    }
    if qs.contains(QubitId(x)) && qs.contains(QubitId(y)) {
        let kx = choose|k: int| 0 <= k < qs.len() && qs[k] == QubitId(x);
        let ky = choose|k: int| 0 <= k < qs.len() && qs[k] == QubitId(y);
        if kx < ky {
            assert(pair_key(qs[kx], qs[ky]) == (x, y));
        } else {
            assert(pair_key(qs[ky], qs[kx]) == (x, y));
        }
    }
}

/// Pairwise interaction counts of a circuit's gates, as a matrix indexed by
/// logical qubit: entry `[x][y]` for `x < y` counts every gate acting on
/// both; the other entries are zero.
pub fn interaction_counts(circuit: &Circuit) -> (r: Vec<Vec<usize>>)
    ensures
        r@.len() == circuit@.num_qubits,
        forall|x: int| 0 <= x < r@.len() ==> (#[trigger] r@[x])@.len() == circuit@.num_qubits,
        forall|x: int, y: int|
            0 <= x < circuit@.num_qubits && 0 <= y < circuit@.num_qubits ==> (#[trigger] r@[x]@[y]) == if x
                < y {
                pair_count(
                    circuit@.instructions,
                    circuit@.instructions.len(),
                    x as u32,
                    y as u32,
                )
            } else {
                0
            },
{
    circuit.lemma_valid();
    let ghost insts = circuit@.instructions;
    let nq = circuit.num_qubits() as usize;
    let mut counts: Vec<Vec<usize>> = Vec::new();
    let mut a: usize = 0;
    while a < nq
        invariant
            a <= nq,
            counts@.len() == a,
            forall|x: int| 0 <= x < a ==> (#[trigger] counts@[x])@ == Seq::new(nq as nat, |y: int| 0usize),
        decreases nq - a,
    {
        let mut row: Vec<usize> = Vec::new();
        let mut b: usize = 0;
        while b < nq
            invariant
                b <= nq,
                row@ == Seq::new(b as nat, |y: int| 0usize),
            decreases nq - b,
        {
            row.push(0);
            proof {
                assert(row@ =~= Seq::new(b as nat + 1, |y: int| 0usize));
            }
            b += 1;
        }
        counts.push(row);
        a += 1;
    }
    let instrs = circuit.instructions();
    let n = instrs.len();
    let mut i: usize = 0;
    while i < n
        invariant
            i <= instrs@.len(),
            n == instrs@.len(),
            insts_model(instrs@) == insts,
            instrs@.len() == insts.len(),
            nq == circuit@.num_qubits,
            forall|j: int| 0 <= j < insts.len() ==> inst_well_formed(#[trigger] insts[j], circuit@.num_qubits, circuit@.num_clbits),
            counts@.len() == nq,
            forall|x: int| 0 <= x < nq ==> (#[trigger] counts@[x])@.len() == nq,
            forall|x: int, y: int|
                0 <= x < nq && 0 <= y < nq ==> (#[trigger] counts@[x]@[y]) == if x < y {
                    pair_count(insts, i as nat, x as u32, y as u32)
                } else {
                    0
                },
        decreases instrs@.len() - i,
    {
        proof {
            assert(instrs@[i as int]@ == insts[i as int]);
        }
        match &instrs[i] {
            Instruction::Gate { qubits, .. } => {
                let ghost qs = qubits@;
                proof {
                    assert(qs == inst_qubits(insts[i as int]));
                    assert forall|x: int, y: int|
                        0 <= x < nq && 0 <= y < nq && x < y implies !#[trigger] pair_seen(qs, 0, 0, x as u32, y as u32) by {}
                }
                let mut k: usize = 0;
                while k < qubits.len()
                    invariant
                        k <= qs.len(),
                        qs == qubits@,
                        qs == inst_qubits(insts[i as int]),
                        inst_well_formed(insts[i as int], circuit@.num_qubits, circuit@.num_clbits),
                        i < insts.len(),
                        n == insts.len(),
                        nq == circuit@.num_qubits,
                        counts@.len() == nq,
                        forall|x: int| 0 <= x < nq ==> (#[trigger] counts@[x])@.len() == nq,
                        forall|x: int, y: int|
                            0 <= x < nq && 0 <= y < nq ==> (#[trigger] counts@[x]@[y]) == if x < y {
                                pair_count(insts, i as nat, x as u32, y as u32) + if pair_seen(
                                    qs,
                                    k as int,
                                    0,
                                    x as u32,
                                    y as u32,
                                ) {
                                    1nat
                                } else {
                                    0nat
                                }
                            } else {
                                0
                            },
                    decreases qs.len() - k,
                {
                    proof {
                        assert forall|x: int, y: int| 0 <= x < nq && 0 <= y < nq && x < y implies #[trigger] pair_seen(
                            qs,
                            k as int,
                            0,
                            x as u32,
                            y as u32,
                        ) == pair_seen(qs, k as int, k + 1, x as u32, y as u32) by {
                            if pair_seen(qs, k as int, k + 1, x as u32, y as u32) {
                                let (k1, l1) = choose|k1: int, l1: int|
                                    0 <= k1 < l1 < qs.len() && (k1 < k || (k1 == k && l1 < k + 1))
                                        && #[trigger] pair_key(qs[k1], qs[l1]) == (x as u32, y as u32);
                                assert(k1 < k);
                            }
                        }
                    }
                    let mut l: usize = k + 1;
                    while l < qubits.len()
                        invariant
                            k < qs.len(),
                            k + 1 <= l <= qs.len(),
                            qs == qubits@,
                            qs == inst_qubits(insts[i as int]),
                            inst_well_formed(insts[i as int], circuit@.num_qubits, circuit@.num_clbits),
                            i < insts.len(),
                            n == insts.len(),
                            nq == circuit@.num_qubits,
                            counts@.len() == nq,
                            forall|x: int| 0 <= x < nq ==> (#[trigger] counts@[x])@.len() == nq,
                            forall|x: int, y: int|
                                0 <= x < nq && 0 <= y < nq ==> (#[trigger] counts@[x]@[y]) == if x < y {
                                    pair_count(insts, i as nat, x as u32, y as u32) + if pair_seen(
                                        qs,
                                        k as int,
                                        l as int,
                                        x as u32,
                                        y as u32,
                                    ) {
                                        1nat
                                    } else {
                                        0nat
                                    }
                                } else {
                                    0
                                },
                        decreases qs.len() - l,
                    {
                        let qa = qubits[k];
                        let qb = qubits[l];
                        let (x, y) = if qa.0 <= qb.0 {
                            (qa.0 as usize, qb.0 as usize)
                        } else {
                            (qb.0 as usize, qa.0 as usize)
                        };
                        proof {
                            assert(qs[k as int] != qs[l as int]);
                            assert(qa.0 < nq && qb.0 < nq);
                            assert(pair_key(qa, qb) == (x as u32, y as u32));
                            assert(!pair_seen(qs, k as int, l as int, x as u32, y as u32)) by {
                                if pair_seen(qs, k as int, l as int, x as u32, y as u32) {
                                    let (k1, l1) = choose|k1: int, l1: int|
                                        0 <= k1 < l1 < qs.len() && (k1 < k || (k1 == k && l1 < l))
                                            && #[trigger] pair_key(qs[k1], qs[l1]) == (x as u32, y as u32);
                                    if qs[k1].0 <= qs[l1].0 {
                                        if qa.0 <= qb.0 {
                                            assert(qs[k1] == qa && qs[l1] == qb);
                                        } else {
                                            assert(qs[k1] == qb && qs[l1] == qa);
                                        }
                                    } else {
                                        if qa.0 <= qb.0 {
                                            assert(qs[l1] == qa && qs[k1] == qb);
                                        } else {
                                            assert(qs[l1] == qb && qs[k1] == qa);
                                        }
                                    }
                                }
                            }
                            lemma_pair_count_bound(insts, i as nat, x as u32, y as u32);
                        }
                        let mut row: Vec<usize> = Vec::new();
                        std::mem::swap(&mut row, &mut counts[x]);
                        let v = row[y];
                        proof {
                            assert(x < y);
                            assert(v as nat == pair_count(insts, i as nat, x as u32, y as u32));
                        }
                        row.set(y, v + 1);
                        std::mem::swap(&mut row, &mut counts[x]);
                        proof {
                            assert forall|x2: int, y2: int|
                                0 <= x2 < nq && 0 <= y2 < nq && x2 < y2 implies #[trigger] pair_seen(
                                qs,
                                k as int,
                                l + 1,
                                x2 as u32,
                                y2 as u32,
                            ) == (pair_seen(qs, k as int, l as int, x2 as u32, y2 as u32) || (x2 == x && y2
                                == y)) by {
                                if pair_seen(qs, k as int, l + 1, x2 as u32, y2 as u32) && !(x2 == x && y2 == y) {
                                    let (k1, l1) = choose|k1: int, l1: int|
                                        0 <= k1 < l1 < qs.len() && (k1 < k || (k1 == k && l1 < l + 1))
                                            && #[trigger] pair_key(qs[k1], qs[l1]) == (x2 as u32, y2 as u32);
                                    assert(!(k1 == k && l1 == l));
                                }
                                if x2 == x && y2 == y {
                                    assert(pair_key(qs[k as int], qs[l as int]) == (x2 as u32, y2 as u32));
                                }
                            }
                        }
                        l += 1;
                    }
                    proof {
                        assert forall|x: int, y: int| 0 <= x < nq && 0 <= y < nq && x < y implies #[trigger] pair_seen(
                            qs,
                            k as int,
                            qs.len() as int,
                            x as u32,
                            y as u32,
                        ) == pair_seen(qs, k + 1, 0, x as u32, y as u32) by {
                            if pair_seen(qs, k + 1, 0, x as u32, y as u32) {
                                let (k1, l1) = choose|k1: int, l1: int|
                                    0 <= k1 < l1 < qs.len() && (k1 < k + 1 || (k1 == k + 1 && l1 < 0))
                                        && #[trigger] pair_key(qs[k1], qs[l1]) == (x as u32, y as u32);
                                assert(k1 < k || (k1 == k && l1 < qs.len()));
                            }
                        }
                    }
                    k += 1;
                }
                proof {
                    assert forall|x: int, y: int| 0 <= x < nq && 0 <= y < nq && x < y implies #[trigger] pair_seen(
                        qs,
                        qs.len() as int,
                        0,
                        x as u32,
                        y as u32,
                    ) == gate_on_both(insts[i as int], x as u32, y as u32) by {
                        lemma_seen_all(qs, x as u32, y as u32);
                    }
                }
            },
            _ => {},
        }
        i += 1;
    }
    counts
}

/// The hop count charged for a pair of interacting qubits with no path
/// between them: large enough to dominate any real distance.
pub const UNREACHABLE_PENALTY: usize = 1048576;

/// The rows of an interaction matrix.
pub open spec fn matrix(c: Seq<Vec<usize>>) -> Seq<Seq<usize>> {
    c.map_values(|row: Vec<usize>| row@)
}

/// Whether `c` is an `n × n` matrix with entries at most `bound`.
pub open spec fn bounded_square(c: Seq<Seq<usize>>, n: nat, bound: nat) -> bool {
    &&& c.len() == n
    &&& forall|x: int| 0 <= x < n ==> (#[trigger] c[x]).len() == n
    &&& forall|x: int, y: int| 0 <= x < n && 0 <= y < n ==> (#[trigger] c[x][y]) <= bound
}

/// The interaction weight of qubit `q` with qubits `0..r`: the counts of
/// every pair `q` is in, read from the upper triangle.
pub open spec fn weight_upto(c: Seq<Seq<usize>>, q: int, r: int) -> nat
    decreases r,
{
    if r <= 0 {
        0
    } else {
        weight_upto(c, q, r - 1) + if r - 1 < q {
            c[r - 1][q] as nat
        } else if r - 1 > q {
            c[q][r - 1] as nat
        } else {
            0nat
        }
    }
}

/// Whether logical `a` is placed before logical `b`: heavier first, then by
/// index.
pub open spec fn heavier_first(w: Seq<usize>, a: u32, b: u32) -> bool {
    w[a as int] > w[b as int] || (w[a as int] == w[b as int] && a < b)
}

/// The total interaction weight of qubit `q` in an `n × n` count matrix.
fn interaction_weight(c: &Vec<Vec<usize>>, n: usize, q: usize, Ghost(bound): Ghost<nat>) -> (r: usize)
    requires
        bounded_square(matrix(c@), n as nat, bound),
        q < n,
        n * bound <= usize::MAX,
    ensures
        r == weight_upto(matrix(c@), q as int, n as int),
{
    let ghost m = matrix(c@);
    let mut w: usize = 0;
    let mut r: usize = 0;
    while r < n
        invariant
            r <= n,
            q < n,
            m == matrix(c@),
            bounded_square(m, n as nat, bound),
            n * bound <= usize::MAX,
            w == weight_upto(m, q as int, r as int),
            w <= r * bound,
        decreases n - r,
    {
        proof {
            assert(c@[r as int]@ == m[r as int]);
            assert(c@[q as int]@ == m[q as int]);
            assert((r + 1) * bound == r * bound + bound) by (nonlinear_arith);
            assert((r + 1) * bound <= n * bound) by (nonlinear_arith)
                requires
                    r + 1 <= n,
            ;
        }
        if r < q {
            w = w + c[r][q];
        } else if r > q {
            w = w + c[q][r];
        }
        r += 1;
    }
    w
}

/// Logical qubits `0..n` ordered heaviest first, ties by index.
fn weight_order(weights: &Vec<usize>, n: usize) -> (r: Vec<u32>)
    requires
        weights@.len() == n,
        n <= u32::MAX,
    ensures
        r@.len() == n,
        r@.no_duplicates(),
        forall|i: int| 0 <= i < n ==> (#[trigger] r@[i]) < n,
        forall|x: u32| (x as int) < n ==> r@.contains(x),
        forall|i: int, j: int| 0 <= i < j < n ==> heavier_first(weights@, #[trigger] r@[i], #[trigger] r@[j]),
{
    let mut order: Vec<u32> = Vec::new();
    let mut q: usize = 0;
    while q < n
        invariant
            q <= n,
            n <= u32::MAX,
            weights@.len() == n,
            order@.len() == q,
            order@.no_duplicates(),
            forall|i: int| 0 <= i < q ==> (#[trigger] order@[i]) < q,
            forall|x: u32| (x as int) < q ==> order@.contains(x),
            forall|i: int, j: int|
                0 <= i < j < q ==> heavier_first(weights@, #[trigger] order@[i], #[trigger] order@[j]),
        decreases n - q,
    {
        let mut j: usize = 0;
        while j < order.len()
            invariant
                j <= order@.len(),
                q < n,
                n <= u32::MAX,
                weights@.len() == n,
                forall|i: int| 0 <= i < order@.len() ==> (#[trigger] order@[i]) < q,
                forall|i: int| 0 <= i < j ==> heavier_first(weights@, #[trigger] order@[i], q as u32),
            ensures
                j <= order@.len(),
                forall|i: int| 0 <= i < j ==> heavier_first(weights@, #[trigger] order@[i], q as u32),
                j < order@.len() ==> heavier_first(weights@, q as u32, order@[j as int]),
            decreases order@.len() - j,
        {
            let other = order[j] as usize;
            if weights[q] > weights[other] {
                break;
            }
            j += 1;
        }
        let ghost before = order@;
        order.insert(j, q as u32);
        proof {
            assert forall|i: int| 0 <= i < q + 1 implies (#[trigger] order@[i]) < q + 1 by {
                if i < j {
                    assert(order@[i] == before[i]);
                } else if i > j {
                    assert(order@[i] == before[i - 1]);
                }
            }
            assert forall|x: u32| (x as int) < q + 1 implies order@.contains(x) by {
                if x == q as u32 {
                    assert(order@[j as int] == x);
                } else {
                    assert(before.contains(x));
                    let i = choose|i: int| 0 <= i < before.len() && before[i] == x;
                    if i < j {
                        assert(order@[i] == x);
                    } else {
                        assert(order@[i + 1] == x);
                    }
                }
            }
            assert forall|a: int, b: int| 0 <= a < order@.len() && 0 <= b < order@.len() && a != b implies order@[a]
                != order@[b] by {
                let va = if a < j {
                    before[a]
                } else if a == j {
                    q as u32
                } else {
                    before[a - 1]
                };
                let vb = if b < j {
                    before[b]
                } else if b == j {
                    q as u32
                } else {
                    before[b - 1]
                };
                assert(order@[a] == va && order@[b] == vb);
                if a != j && b != j {
                    let ia = if a < j { a } else { a - 1 };
                    let ib = if b < j { b } else { b - 1 };
                    assert(ia != ib);
                    assert(before[ia] != before[ib]);
                }
            }
            assert(order@.no_duplicates());
            assert forall|a: int, b: int| 0 <= a < b < q + 1 implies heavier_first(
                weights@,
                #[trigger] order@[a],
                #[trigger] order@[b],
            ) by {
                if b < j {
                    assert(order@[a] == before[a] && order@[b] == before[b]);
                } else if b == j {
                    assert(order@[a] == before[a]);
                } else if a == j {
                    assert(order@[b] == before[b - 1]);
                    if b - 1 > j {
                        assert(heavier_first(weights@, before[j as int], before[b - 1]));
                    }
                } else if a < j {
                    assert(order@[a] == before[a] && order@[b] == before[b - 1]);
                } else {
                    assert(order@[a] == before[a - 1] && order@[b] == before[b - 1]);
                }
            }
        }
        q += 1;
    }
    order
}

/// Every id below `n` taken by a duplicate-free list of ids below `n` means
/// the list is at least `n` long.
proof fn lemma_cover(used: Seq<u32>, n: nat)
    requires
        n <= u32::MAX,
        used.no_duplicates(),
        forall|c: u32| (c as int) < n ==> used.contains(c),
    ensures
        used.len() >= n,
{
    let ids = used.map_values(|x: u32| x as int);
    assert forall|i: int, j: int| 0 <= i < ids.len() && 0 <= j < ids.len() && i != j implies ids[i]
        != ids[j] by {
        assert(used[i] != used[j]);
    }
    assert(ids.no_duplicates());
    ids.unique_seq_to_set();
    vstd::set_lib::lemma_int_range(0, n as int);
    assert forall|x: int| vstd::set_lib::set_int_range(0, n as int).contains(x) implies ids.to_set().contains(x) by {
        let c = x as u32;
        assert(used.contains(c));
        let i = choose|i: int| 0 <= i < used.len() && used[i] == c;
        assert(ids[i] == x);
    }
    lemma_len_subset(vstd::set_lib::set_int_range(0, n as int), ids.to_set());
}

/// How often logical qubits `x` and `y` interact, read from the upper
/// triangle of the matrix; a qubit does not interact with itself.
pub open spec fn pair_weight(m: Seq<Seq<usize>>, x: int, y: int) -> nat {
    if x < y {
        m[x][y] as nat
    } else if y < x {
        m[y][x] as nat
    } else {
        0
    }
}

/// The hops between two physical qubits, or the penalty when no walk
/// connects them.
pub open spec fn hops_or_penalty(t: TopologyModel, a: PhysicalQubit, b: PhysicalQubit) -> nat {
    match hop_distance(t, a, b, CouplingMode::Undirected) {
        Some(d) => d,
        None => UNREACHABLE_PENALTY as nat,
    }
}

/// The cost of seating `logical` on `candidate`, counting the seated
/// logical qubits among the first `k`: interaction count times hops.
pub open spec fn cost_upto(
    m: Seq<Seq<usize>>,
    placed: Seq<Option<PhysicalQubit>>,
    logical: int,
    candidate: PhysicalQubit,
    t: TopologyModel,
    k: nat,
) -> nat
    decreases k,
{
    if k == 0 {
        0
    } else {
        cost_upto(m, placed, logical, candidate, t, (k - 1) as nat) + match placed[k - 1] {
            Some(p) => pair_weight(m, logical, k - 1) * hops_or_penalty(t, candidate, p),
            None => 0,
        }
    }
}

/// The interaction counts of a circuit as a matrix indexed by logical
/// qubit: entry `[x][y]` for `x < y` counts the gates acting on both; the
/// other entries are zero.
pub open spec fn interaction_matrix(c: CircuitModel) -> Seq<Seq<usize>> {
    Seq::new(
        c.num_qubits as nat,
        |x: int|
            Seq::new(
                c.num_qubits as nat,
                |y: int|
                    if x < y {
                        pair_count(c.instructions, c.instructions.len(), x as u32, y as u32) as usize
                    } else {
                        0usize
                    },
            ),
    )
}

/// The total interaction weight of each of the qubits `0..n`.
pub open spec fn weight_seq(m: Seq<Seq<usize>>, n: nat) -> Seq<usize> {
    Seq::new(n, |q: int| weight_upto(m, q, n as int) as usize)
}

/// Whether `o` lists the qubits `0..n` once each, heaviest first, ties by
/// index.
pub open spec fn is_weight_order(w: Seq<usize>, n: nat, o: Seq<u32>) -> bool {
    &&& o.len() == n
    &&& o.no_duplicates()
    &&& forall|i: int| 0 <= i < n ==> (#[trigger] o[i]) < n
    &&& forall|x: u32| (x as int) < n ==> o.contains(x)
    &&& forall|i: int, j: int| 0 <= i < j < n ==> heavier_first(w, #[trigger] o[i], #[trigger] o[j])
}

/// The seating order of the qubits `0..n`: heaviest first, ties by index.
/// There is exactly one such order.
pub open spec fn dense_order(w: Seq<usize>, n: nat) -> Seq<u32> {
    choose|o: Seq<u32>| is_weight_order(w, n, o)
}

/// How many physical qubits `p` is coupled to, either way round.
pub open spec fn seat_degree(t: TopologyModel, p: u32) -> nat {
    adjacency(t, PhysicalQubit(p), CouplingMode::Undirected, t.qubit_count as nat).len()
}

/// The best free seat among physical qubits `0..c` for `logical`, as its
/// cost, its degree and its index: the lowest cost, then the highest degree,
/// then the lowest index.
pub open spec fn best_seat(
    m: Seq<Seq<usize>>,
    placed: Seq<Option<PhysicalQubit>>,
    taken: Seq<bool>,
    logical: int,
    t: TopologyModel,
    c: nat,
) -> Option<(nat, nat, u32)>
    decreases c,
{
    if c == 0 {
        None
    } else {
        let prev = best_seat(m, placed, taken, logical, t, (c - 1) as nat);
        let cand = (c - 1) as u32;
        if taken[c - 1] {
            prev
        } else {
            let cost = cost_upto(m, placed, logical, PhysicalQubit(cand), t, m.len());
            let degree = seat_degree(t, cand);
            match prev {
                None => Some((cost, degree, cand)),
                Some(b) => if cost < b.0 || (cost == b.0 && degree > b.1) {
                    Some((cost, degree, cand))
                } else {
                    prev
                },
            }
        }
    }
}

/// The seats and the taken physical qubits after the first `k` qubits of
/// `order` have each taken their best free seat.
pub open spec fn greedy_seats(m: Seq<Seq<usize>>, t: TopologyModel, order: Seq<u32>, k: nat) -> (
    Seq<Option<PhysicalQubit>>,
    Seq<bool>,
)
    decreases k,
{
    if k == 0 {
        (Seq::new(m.len(), |l: int| None::<PhysicalQubit>), Seq::new(t.qubit_count as nat, |p: int| false))
    } else {
        let prev = greedy_seats(m, t, order, (k - 1) as nat);
        let logical = order[k - 1];
        match best_seat(m, prev.0, prev.1, logical as int, t, t.qubit_count as nat) {
            Some(b) => (prev.0.update(logical as int, Some(PhysicalQubit(b.2))), prev.1.update(b.2 as int, true)),
            None => prev,
        }
    }
}

/// Where the interaction-weighted greedy placement seats each logical qubit
/// of a circuit on a device.
pub open spec fn dense_plan(c: CircuitModel, t: TopologyModel) -> Seq<PhysicalQubit> {
    let n = c.num_qubits as nat;
    let m = interaction_matrix(c);
    let seats = greedy_seats(m, t, dense_order(weight_seq(m, n), n), n).0;
    Seq::new(n, |l: int| seats[l].unwrap())
}

/// Whether a running best candidate agrees with the specified one.
pub open spec fn agrees(b: Option<(usize, usize, u32)>, s: Option<(nat, nat, u32)>) -> bool {
    match b {
        None => s is None,
        Some(x) => s == Some((x.0 as nat, x.1 as nat, x.2)),
    }
}

/// Two orders that both list `0..n` heaviest first agree on their first `k`
/// entries.
proof fn lemma_order_prefix(w: Seq<usize>, n: nat, o1: Seq<u32>, o2: Seq<u32>, k: int)
    requires
        is_weight_order(w, n, o1),
        is_weight_order(w, n, o2),
        0 <= k <= n,
    ensures
        forall|i: int| 0 <= i < k ==> #[trigger] o1[i] == o2[i],
    decreases k,
{
    if k > 0 {
        lemma_order_prefix(w, n, o1, o2, k - 1);
        let i = k - 1;
        let a = o1[i];
        let b = o2[i];
        if a != b {
            assert(o1.contains(b));
            let j = choose|j: int| 0 <= j < o1.len() && o1[j] == b;
            if j < i {
                assert(o1[j] == o2[j]);
                assert(false);
            }
            assert(heavier_first(w, o1[i], o1[j]));
            assert(o2.contains(a));
            let j2 = choose|j2: int| 0 <= j2 < o2.len() && o2[j2] == a;
            if j2 < i {
                assert(o1[j2] == o2[j2]);
                assert(false);
            }
            assert(heavier_first(w, o2[i], o2[j2]));
        }
    }
}

/// There is at most one order of `0..n`, heaviest first with ties by index.
proof fn lemma_order_unique(w: Seq<usize>, n: nat, o: Seq<u32>)
    requires
        is_weight_order(w, n, o),
    ensures
        dense_order(w, n) == o,
{
    let d = dense_order(w, n);
    assert(is_weight_order(w, n, d));
    lemma_order_prefix(w, n, d, o, n as int);
    assert(d =~= o);
}

/// A seat's distance term is the true number of hops: the length of a
/// shortest walk between the two physical qubits, either way along each
/// coupling, or the penalty when no walk joins them.
pub proof fn lemma_seat_hops_are_distances(t: TopologyModel, a: PhysicalQubit, b: PhysicalQubit, d: nat)
    ensures
        is_hop_distance(t, a, b, CouplingMode::Undirected, d) ==> hops_or_penalty(t, a, b) == d,
        !reachable(t, a, b, CouplingMode::Undirected, nothing_frozen(t.qubit_count as nat))
            ==> hops_or_penalty(t, a, b) == UNREACHABLE_PENALTY,
{
    if is_hop_distance(t, a, b, CouplingMode::Undirected, d) {
        lemma_hop_distance_is(t, a, b, CouplingMode::Undirected, d);
    }
}

/// With one seated partner, a seat's cost is the interaction count times
/// its hops to that partner.
proof fn lemma_single_partner_cost(
    m: Seq<Seq<usize>>,
    placed: Seq<Option<PhysicalQubit>>,
    logical: int,
    partner: int,
    p: PhysicalQubit,
    candidate: PhysicalQubit,
    t: TopologyModel,
    k: nat,
)
    requires
        k <= placed.len(),
        0 <= partner < placed.len(),
        placed[partner] == Some(p),
        forall|x: int| 0 <= x < placed.len() && x != partner ==> (#[trigger] placed[x]) is None,
    ensures
        cost_upto(m, placed, logical, candidate, t, k) == if partner < k {
            pair_weight(m, logical, partner) * hops_or_penalty(t, candidate, p)
        } else {
            0
        },
    decreases k,
{
    if k > 0 {
        lemma_single_partner_cost(m, placed, logical, partner, p, candidate, t, (k - 1) as nat);
    }
}

/// Seating costs grow with distance: when one partner is seated and the
/// two qubits interact, a seat fewer hops from the partner costs strictly
/// less than a seat more hops away.
pub proof fn lemma_nearer_seat_costs_less(
    m: Seq<Seq<usize>>,
    placed: Seq<Option<PhysicalQubit>>,
    logical: int,
    partner: int,
    p: PhysicalQubit,
    near: PhysicalQubit,
    far: PhysicalQubit,
    t: TopologyModel,
    d_near: nat,
    d_far: nat,
)
    requires
        0 <= partner < placed.len(),
        placed[partner] == Some(p),
        forall|x: int| 0 <= x < placed.len() && x != partner ==> (#[trigger] placed[x]) is None,
        pair_weight(m, logical, partner) > 0,
        is_hop_distance(t, near, p, CouplingMode::Undirected, d_near),
        is_hop_distance(t, far, p, CouplingMode::Undirected, d_far),
        d_near < d_far,
    ensures
        cost_upto(m, placed, logical, near, t, placed.len()) < cost_upto(
            m,
            placed,
            logical,
            far,
            t,
            placed.len(),
        ),
{
    lemma_seat_hops_are_distances(t, near, p, d_near);
    lemma_seat_hops_are_distances(t, far, p, d_far);
    lemma_single_partner_cost(m, placed, logical, partner, p, near, t, placed.len());
    lemma_single_partner_cost(m, placed, logical, partner, p, far, t, placed.len());
    let w = pair_weight(m, logical, partner);
    assert(w * d_near < w * d_far) by (nonlinear_arith)
        requires
            w > 0,
            d_near < d_far,
    ;
}

/// The cost of seating `logical` on `candidate`: for every already-seated
/// logical qubit it interacts with, the interaction count times the hop
/// distance between the two physical qubits (a large penalty when there is
/// no path).
fn placement_cost(
    c: &Vec<Vec<usize>>,
    n: usize,
    placed: &Vec<Option<PhysicalQubit>>,
    logical: usize,
    candidate: PhysicalQubit,
    topology: &Topology,
    Ghost(bound): Ghost<nat>,
) -> (r: usize)
    requires
        bounded_square(matrix(c@), n as nat, bound),
        logical < n,
        placed@.len() == n,
        n * bound * (UNREACHABLE_PENALTY + topology@.qubit_count) <= usize::MAX,
    ensures
        r == cost_upto(matrix(c@), placed@, logical as int, candidate, topology@, n as nat),
{
    let ghost m = matrix(c@);
    let ghost step = bound * (UNREACHABLE_PENALTY + topology@.qubit_count);
    proof {
        assert(n * bound * (UNREACHABLE_PENALTY + topology@.qubit_count) == n * step) by (nonlinear_arith)
            requires
                step == bound * (UNREACHABLE_PENALTY + topology@.qubit_count),
        ;
    }
    let mut cost: usize = 0;
    let mut other: usize = 0;
    while other < n
        invariant
            other <= n,
            logical < n,
            m == matrix(c@),
            placed@.len() == n,
            bounded_square(m, n as nat, bound),
            step == bound * (UNREACHABLE_PENALTY + topology@.qubit_count),
            n * step <= usize::MAX,
            cost <= other * step,
            cost == cost_upto(m, placed@, logical as int, candidate, topology@, other as nat),
        decreases n - other,
    {
        proof {
            assert((other + 1) * step == other * step + step) by (nonlinear_arith);
            assert((other + 1) * step <= n * step) by (nonlinear_arith)
                requires
                    other + 1 <= n,
                    step >= 0,
            ;
        }
        if let Some(other_physical) = placed[other] {
            let count = if logical < other {
                proof {
                    assert(c@[logical as int]@ == m[logical as int]);
                }
                c[logical][other]
            } else if other < logical {
                proof {
                    assert(c@[other as int]@ == m[other as int]);
                }
                c[other][logical]
            } else {
                0
            };
            if count != 0 {
                let hops = match topology.distance(candidate, other_physical, CouplingMode::Undirected) {
                    Some(d) => d,
                    None => UNREACHABLE_PENALTY,
                };
                proof {
                    assert(count * hops <= step) by (nonlinear_arith)
                        requires
                            count <= bound,
                            hops <= UNREACHABLE_PENALTY + topology@.qubit_count,
                            step == bound * (UNREACHABLE_PENALTY + topology@.qubit_count),
                    ;
                }
                // The count-hop product never saturates under the size bound.
                cost = cost + count * hops;
                proof {
                    assert(count == pair_weight(m, logical as int, other as int));
                    assert(hops == hops_or_penalty(topology@, candidate, other_physical));
                }
            } else {
                proof {
                    assert(pair_weight(m, logical as int, other as int) == 0);
                    assert(0 * hops_or_penalty(topology@, candidate, other_physical) == 0) by (nonlinear_arith);
                }
            }
        }
        other += 1;
    }
    cost
}

/// Assignments that name logical `0, 1, 2, …` in order, each on its own
/// physical qubit of the device, always make a layout.
proof fn lemma_sequential_pairs_ok(pairs: Seq<(QubitId, PhysicalQubit)>, device_qubits: u32)
    requires
        pairs.len() <= u32::MAX,
        forall|i: int| 0 <= i < pairs.len() ==> (#[trigger] pairs[i]).0 == QubitId(i as u32),
        forall|i: int| 0 <= i < pairs.len() ==> (#[trigger] pairs[i]).1.0 < device_qubits,
        forall|i: int, j: int| 0 <= i < j < pairs.len() ==> (#[trigger] pairs[i]).1 != (#[trigger] pairs[j]).1,
    ensures
        distinct_logicals(pairs),
        from_pairs_spec(pairs, device_qubits) is Ok,
        from_pairs_spec(pairs, device_qubits)->Ok_0.to_physical.len() == pairs.len(),
        forall|i: int| 0 <= i < pairs.len() ==> from_pairs_spec(pairs, device_qubits)->Ok_0.to_physical[i] == (#[trigger] pairs[i]).1,
{
    assert forall|i: int, j: int| 0 <= i < j < pairs.len() implies (#[trigger] pairs[i]).0 != (#[trigger] pairs[j]).0 by {
        assert(pairs[i].0 == QubitId(i as u32) && pairs[j].0 == QubitId(j as u32));
    }
    lemma_sequential_no_error(pairs, device_qubits);
    lemma_sequential_assigned(pairs);
    let m = assigned(pairs);
    lemma_all_mapped(m, pairs.len());
    assert forall|i: int| 0 <= i < pairs.len() implies m[i as u32] == (#[trigger] pairs[i]).1 by {
        lemma_assigned_named(pairs, i);
    }
}

proof fn lemma_sequential_no_error(pairs: Seq<(QubitId, PhysicalQubit)>, device_qubits: u32)
    requires
        pairs.len() <= u32::MAX,
        forall|i: int| 0 <= i < pairs.len() ==> (#[trigger] pairs[i]).0 == QubitId(i as u32),
        forall|i: int| 0 <= i < pairs.len() ==> (#[trigger] pairs[i]).1.0 < device_qubits,
        forall|i: int, j: int| 0 <= i < j < pairs.len() ==> (#[trigger] pairs[i]).1 != (#[trigger] pairs[j]).1,
    ensures
        pairs_error(pairs, device_qubits) is None,
    decreases pairs.len(),
{
    if pairs.len() > 0 {
        let pre = pairs.drop_last();
        assert forall|i: int, j: int| 0 <= i < j < pre.len() implies (#[trigger] pre[i]).1 != (#[trigger] pre[j]).1 by {
            assert(pre[i] == pairs[i] && pre[j] == pairs[j]);
        }
        assert forall|i: int| 0 <= i < pre.len() implies (#[trigger] pre[i]).1.0 < device_qubits by {
            assert(pre[i] == pairs[i]);
        }
        assert forall|i: int| 0 <= i < pre.len() implies (#[trigger] pre[i]).0 == QubitId(i as u32) by {
            assert(pre[i] == pairs[i]);
        }
        lemma_sequential_no_error(pre, device_qubits);
        lemma_sequential_assigned(pre);
        assert(pairs[pairs.len() - 1].0 == QubitId((pairs.len() - 1) as u32));
        assert(!assigned(pre).dom().contains((pairs.len() - 1) as u32));
        let last = pairs.last();
        assert(pairs[pairs.len() - 1] == last);
        lemma_occupant_named(pre, last.1);
        if occupant(pre, last.1) is Some {
            let i = choose|i: int| 0 <= i < pre.len() && pre[i] == (occupant(pre, last.1)->0, last.1);
            assert(pairs[i].1 == pairs[pairs.len() - 1].1);
        }
    }
}

proof fn lemma_sequential_assigned(pairs: Seq<(QubitId, PhysicalQubit)>)
    requires
        pairs.len() <= u32::MAX,
        forall|i: int| 0 <= i < pairs.len() ==> (#[trigger] pairs[i]).0 == QubitId(i as u32),
    ensures
        assigned(pairs).dom() == Set::new(|x: u32| (x as int) < pairs.len()),
        assigned(pairs).dom().finite(),
        assigned(pairs).len() == pairs.len(),
    decreases pairs.len(),
{
    if pairs.len() == 0 {
        assert(assigned(pairs).dom() =~= Set::new(|x: u32| (x as int) < pairs.len()));
    } else {
        let pre = pairs.drop_last();
        assert forall|i: int| 0 <= i < pre.len() implies (#[trigger] pre[i]).0 == QubitId(i as u32) by {
            assert(pre[i] == pairs[i]);
        }
        lemma_sequential_assigned(pre);
        let k = (pairs.len() - 1) as u32;
        assert(pairs[pairs.len() - 1].0 == QubitId(k));
        assert(assigned(pairs).dom() =~= assigned(pre).dom().insert(k));
        assert(assigned(pairs).dom() =~= Set::new(|x: u32| (x as int) < pairs.len()));
        assert(!assigned(pre).dom().contains(k));
    }
}

proof fn lemma_all_mapped(m: Map<u32, PhysicalQubit>, k: nat)
    requires
        k <= u32::MAX + 1,
        forall|x: u32| (x as int) < k ==> m.contains_key(x),
    ensures
        first_unmapped(m, k) is None,
    decreases k,
{
    if k > 0 {
        lemma_all_mapped(m, (k - 1) as nat);
        assert(m.contains_key((k - 1) as u32));
    }
}

/// The trivial layout is consistent.
pub proof fn lemma_trivial_consistent(num_qubits: nat, device_qubits: nat)
    requires
        num_qubits <= device_qubits <= u32::MAX,
    ensures
        layout_consistent(trivial_model(num_qubits, device_qubits)),
{
}

/// Swapping the same pair twice restores a consistent layout: a routing SWAP
/// is undone by the same SWAP.
pub proof fn lemma_swap_involution(m: LayoutModel, a: PhysicalQubit, b: PhysicalQubit)
    requires
        layout_consistent(m),
        a.0 < m.to_logical.len(),
        b.0 < m.to_logical.len(),
    ensures
        swapped_model(swapped_model(m, a, b), a, b) == m,
        layout_consistent(swapped_model(m, a, b)),
{
    lemma_swap_keeps_inv(m, a, b);
    if a != b {
        let s = swapped_model(m, a, b);
        let t = swapped_model(s, a, b);
        assert(t.to_logical =~= m.to_logical);
        assert forall|l: int| 0 <= l < m.to_physical.len() implies #[trigger] t.to_physical[l]
            == m.to_physical[l] by {
            let p = m.to_physical[l];
            assert(m.to_logical[p.0 as int] == Some(QubitId(l as u32)));
            if m.to_logical[a.0 as int] == Some(QubitId(l as u32)) {
                assert(p.0 == a.0);
            }
            if m.to_logical[b.0 as int] == Some(QubitId(l as u32)) {
                assert(p.0 == b.0);
            }
        }
        assert(t.to_physical =~= m.to_physical);
    }
}

/// Exchanging a physical qubit with itself changes nothing.
pub proof fn lemma_swap_self(m: LayoutModel, a: PhysicalQubit)
    ensures
        swapped_model(m, a, a) == m,
{
}

} // verus!
