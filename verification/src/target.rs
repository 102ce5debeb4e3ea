//! What a device looks like to the compiler: its physical qubits and the
//! ordered pairs of them a two-qubit operation may act on.
//!
//! A coupling `(a, b)` declares that a two-qubit operation may run with `a`
//! as its first operand and `b` as its second. Whether a pair is usable
//! depends on how direction is treated, which is a [`CouplingMode`].
use vstd::prelude::*;

verus! {

/// A qubit of the device, as opposed to a logical qubit of a circuit.
#[derive(Debug, Clone, Copy, PartialEq, Eq, Structural, Hash, PartialOrd, Ord)]
pub struct PhysicalQubit(pub u32);

impl PhysicalQubit {
    /// The raw device index, in specifications.
    pub open spec fn id(self) -> u32 {
        self.0
    }

    /// The raw device index.
    pub fn index(self) -> (r: u32)
        ensures
            r == self.0,
    {
        self.0
    }
}

/// How the direction of a declared coupling is read.
#[derive(Debug, Clone, Copy, PartialEq, Eq, Structural)]
pub enum CouplingMode {
    /// Only the declared orientation `(a, b)` couples `a` to `b`.
    Directed,
    /// Either orientation couples the pair.
    Undirected,
    /// Both orientations must be declared.
    Symmetric,
}

/// What classical operations a device can perform.
#[derive(Debug, Clone, Copy, PartialEq, Eq, Structural, Default)]
pub struct MeasurementSupport {
    /// Whether the device can measure at all.
    pub measurement: bool,
    /// Whether a measured qubit may be used again afterwards.
    pub mid_circuit_measurement: bool,
    /// Whether the device can reset a qubit.
    pub reset: bool,
}

/// The abstract value of a [`Topology`].
pub struct TopologyModel {
    /// Number of physical qubits.
    pub qubit_count: u32,
    /// Declared couplings, as `(first, second)` device indices.
    pub couplings: Seq<(u32, u32)>,
}

/// Whether `(a, b)` is declared.
pub open spec fn supports_spec(t: TopologyModel, a: PhysicalQubit, b: PhysicalQubit) -> bool {
    t.couplings.contains((a.0, b.0))
}

/// The state of a breadth-first search: the queue (entries before the head
/// index already expanded), which qubits have been reached, and the qubit
/// each was reached from.
pub struct BfsState {
    /// Reached qubits, in the order reached.
    pub queue: Seq<u32>,
    /// Whether each qubit has been reached.
    pub visited: Seq<bool>,
    /// The qubit each reached qubit was reached from.
    pub parent: Seq<u32>,
}

/// Whether the search may step from `u` to `v`: they are coupled under
/// `mode`, and `v` is not frozen unless it is the destination.
pub open spec fn bfs_edge(
    t: TopologyModel,
    mode: CouplingMode,
    frozen: Seq<bool>,
    b: PhysicalQubit,
    u: u32,
    v: u32,
) -> bool {
    (v == b.0 || !frozen[v as int]) && couples_spec(t, PhysicalQubit(u), PhysicalQubit(v), mode)
}

/// Expanding `u` over the candidates `0..v`, in ascending order: each
/// unreached one it may step to is reached from `u` and queued.
pub open spec fn bfs_scan(
    t: TopologyModel,
    mode: CouplingMode,
    frozen: Seq<bool>,
    b: PhysicalQubit,
    u: u32,
    v: nat,
    st: BfsState,
) -> BfsState
    decreases v,
{
    if v == 0 {
        st
    } else {
        let prev = bfs_scan(t, mode, frozen, b, u, (v - 1) as nat, st);
        let w = (v - 1) as u32;
        if !prev.visited[w as int] && bfs_edge(t, mode, frozen, b, u, w) {
            BfsState {
                queue: prev.queue.push(w),
                visited: prev.visited.update(w as int, true),
                parent: prev.parent.update(w as int, u),
            }
        } else {
            prev
        }
    }
}

/// The search after expanding the first `k` queue entries, starting from
/// `a` alone.
pub open spec fn bfs_run(
    t: TopologyModel,
    mode: CouplingMode,
    frozen: Seq<bool>,
    a: PhysicalQubit,
    b: PhysicalQubit,
    k: nat,
) -> BfsState
    decreases k,
{
    if k == 0 {
        BfsState {
            queue: seq![a.0],
            visited: Seq::new(t.qubit_count as nat, |w: int| w == a.0),
            parent: Seq::new(t.qubit_count as nat, |w: int| 0u32),
        }
    } else {
        let st = bfs_run(t, mode, frozen, a, b, (k - 1) as nat);
        if k - 1 < st.queue.len() {
            bfs_scan(t, mode, frozen, b, st.queue[k - 1], t.qubit_count as nat, st)
        } else {
            st
        }
    }
}

/// Whether `p` runs from `a` to `b` with each qubit reached from the one
/// before it, never repeating a qubit.
pub open spec fn parent_chain(parent: Seq<u32>, a: u32, b: u32, p: Seq<PhysicalQubit>) -> bool {
    &&& p.len() >= 1
    &&& p[0] == PhysicalQubit(a)
    &&& p.last() == PhysicalQubit(b)
    &&& p.no_duplicates()
    &&& forall|k: int| 1 <= k < p.len() ==> p[k - 1].0 == parent[(#[trigger] p[k]).0 as int]
}

/// The walk breadth-first search finds from `a` to `b`: the search is run
/// to exhaustion, expanding neighbours in ascending order, and the walk
/// follows the recorded parents back from `b`. `None` when `b` is not
/// reached or either end is off the device.
pub open spec fn bfs_path(
    t: TopologyModel,
    a: PhysicalQubit,
    b: PhysicalQubit,
    mode: CouplingMode,
    frozen: Seq<bool>,
) -> Option<Seq<PhysicalQubit>> {
    let fin = bfs_run(t, mode, frozen, a, b, t.qubit_count as nat);
    if a.0 >= t.qubit_count || b.0 >= t.qubit_count || !fin.visited[b.0 as int] {
        None
    } else {
        Some(choose|p: Seq<PhysicalQubit>| parent_chain(fin.parent, a.0, b.0, p))
    }
}

/// The entry `i` places before the end of a walk.
pub open spec fn from_end(p: Seq<PhysicalQubit>, i: int) -> PhysicalQubit {
    p[p.len() - 1 - i]
}

/// Two parent chains ending at the same qubit agree on their last `j + 1`
/// entries.
proof fn lemma_chain_suffix(parent: Seq<u32>, a: u32, b: u32, p: Seq<PhysicalQubit>, q: Seq<PhysicalQubit>, j: int)
    requires
        parent_chain(parent, a, b, p),
        parent_chain(parent, a, b, q),
        0 <= j < p.len(),
        j < q.len(),
    ensures
        forall|i: int| #![trigger from_end(p, i)] 0 <= i <= j ==> from_end(p, i) == from_end(q, i),
    decreases j,
{
    if j > 0 {
        lemma_chain_suffix(parent, a, b, p, q, j - 1);
        let x = p.len() - j;
        let y = q.len() - j;
        assert(from_end(p, j - 1) == from_end(q, j - 1));
        assert(p[x] == q[y]);
        assert(p[x - 1].0 == parent[p[x].0 as int]);
        assert(q[y - 1].0 == parent[q[y].0 as int]);
    }
}

/// There is at most one parent chain from `a` to `b`.
proof fn lemma_chain_unique(parent: Seq<u32>, a: u32, b: u32, p: Seq<PhysicalQubit>, q: Seq<PhysicalQubit>)
    requires
        parent_chain(parent, a, b, p),
        parent_chain(parent, a, b, q),
    ensures
        p == q,
{
    if p.len() <= q.len() {
        lemma_chain_suffix(parent, a, b, p, q, p.len() - 1);
        assert forall|i: int| 0 <= i < p.len() implies p[i] == q[q.len() - p.len() + i] by {
            assert(from_end(p, p.len() - 1 - i) == from_end(q, p.len() - 1 - i));
        }
        if p.len() < q.len() {
            assert(q[q.len() - p.len()] == p[0]);
            assert(false);
        }
    } else {
        lemma_chain_suffix(parent, a, b, q, p, q.len() - 1);
        assert(from_end(q, q.len() - 1) == from_end(p, q.len() - 1));
        assert(p[p.len() - q.len()] == q[0]);
        assert(false);
    }
    assert(p =~= q);
}

/// Once every queued qubit is expanded, the search stays where it is.
proof fn lemma_run_settles(
    t: TopologyModel,
    mode: CouplingMode,
    frozen: Seq<bool>,
    a: PhysicalQubit,
    b: PhysicalQubit,
    k: nat,
    j: nat,
)
    requires
        k <= j,
        k >= bfs_run(t, mode, frozen, a, b, k).queue.len(),
    ensures
        bfs_run(t, mode, frozen, a, b, j) == bfs_run(t, mode, frozen, a, b, k),
    decreases j,
{
    if j > k {
        lemma_run_settles(t, mode, frozen, a, b, k, (j - 1) as nat);
    }
}

/// The physical qubits below `v` coupled to `p` under `mode`, ascending.
pub open spec fn adjacency(t: TopologyModel, p: PhysicalQubit, mode: CouplingMode, v: nat) -> Seq<
    PhysicalQubit,
>
    decreases v,
{
    if v == 0 {
        Seq::empty()
    } else if couples_spec(t, p, PhysicalQubit((v - 1) as u32), mode) {
        adjacency(t, p, mode, (v - 1) as nat).push(PhysicalQubit((v - 1) as u32))
    } else {
        adjacency(t, p, mode, (v - 1) as nat)
    }
}

/// Whether `a` and `b` are coupled under `mode`.
pub open spec fn couples_spec(
    t: TopologyModel,
    a: PhysicalQubit,
    b: PhysicalQubit,
    mode: CouplingMode,
) -> bool {
    match mode {
        CouplingMode::Directed => supports_spec(t, a, b),
        CouplingMode::Undirected => supports_spec(t, a, b) || supports_spec(t, b, a),
        CouplingMode::Symmetric => supports_spec(t, a, b) && supports_spec(t, b, a),
    }
}

/// One step of a walk from `u` to `v`: both on the device, coupled under
/// `mode`, and `v` not frozen unless it is the destination.
pub open spec fn allowed_step(
    t: TopologyModel,
    u: PhysicalQubit,
    v: PhysicalQubit,
    mode: CouplingMode,
    frozen: Seq<bool>,
    dest: PhysicalQubit,
) -> bool {
    &&& u.0 < t.qubit_count
    &&& v.0 < t.qubit_count
    &&& couples_spec(t, u, v, mode)
    &&& (v == dest || !frozen[v.0 as int])
}

/// A walk from `path[0]` to `dest` in which every step is allowed.
pub open spec fn allowed_path(
    t: TopologyModel,
    path: Seq<PhysicalQubit>,
    mode: CouplingMode,
    frozen: Seq<bool>,
    dest: PhysicalQubit,
) -> bool {
    &&& path.len() >= 1
    &&& path[0].0 < t.qubit_count
    &&& path.last() == dest
    &&& forall|k: int|
        0 <= k < path.len() - 1 ==> allowed_step(t, #[trigger] path[k], path[k + 1], mode, frozen, dest)
}

/// Whether some allowed walk leads from `a` to `b`.
pub open spec fn reachable(
    t: TopologyModel,
    a: PhysicalQubit,
    b: PhysicalQubit,
    mode: CouplingMode,
    frozen: Seq<bool>,
) -> bool {
    exists|path: Seq<PhysicalQubit>| #[trigger]
        allowed_path(t, path, mode, frozen, b) && path[0] == a
}

/// Whether no allowed walk from `a` to `b` has fewer than `len` qubits.
pub open spec fn no_shorter_walk(
    t: TopologyModel,
    a: PhysicalQubit,
    b: PhysicalQubit,
    mode: CouplingMode,
    frozen: Seq<bool>,
    len: nat,
) -> bool {
    forall|path: Seq<PhysicalQubit>| #[trigger]
        allowed_path(t, path, mode, frozen, b) && path[0] == a ==> len <= path.len()
}

/// Whether `d` hops is the length of a shortest walk from `a` to `b`:
/// some walk has `d + 1` qubits and none has fewer.
pub open spec fn is_hop_distance(t: TopologyModel, a: PhysicalQubit, b: PhysicalQubit, mode: CouplingMode, d: nat) -> bool {
    &&& exists|path: Seq<PhysicalQubit>|
        #[trigger] allowed_path(t, path, mode, nothing_frozen(t.qubit_count as nat), b) && path[0] == a
            && path.len() == d + 1
    &&& no_shorter_walk(t, a, b, mode, nothing_frozen(t.qubit_count as nat), d + 1)
}

/// The number of hops of a shortest walk from `a` to `b`, or `None` when
/// no walk connects them.
pub open spec fn hop_distance(t: TopologyModel, a: PhysicalQubit, b: PhysicalQubit, mode: CouplingMode) -> Option<nat> {
    if reachable(t, a, b, mode, nothing_frozen(t.qubit_count as nat)) {
        Some(choose|d: nat| is_hop_distance(t, a, b, mode, d))
    } else {
        None
    }
}

/// A shortest walk has one length.
pub proof fn lemma_hop_distance_is(t: TopologyModel, a: PhysicalQubit, b: PhysicalQubit, mode: CouplingMode, d: nat)
    requires
        is_hop_distance(t, a, b, mode, d),
    ensures
        hop_distance(t, a, b, mode) == Some(d),
{
    let f = nothing_frozen(t.qubit_count as nat);
    let p1 = choose|path: Seq<PhysicalQubit>|
        #[trigger] allowed_path(t, path, mode, f, b) && path[0] == a && path.len() == d + 1;
    assert(reachable(t, a, b, mode, f));
    let e = choose|e: nat| is_hop_distance(t, a, b, mode, e);
    assert(is_hop_distance(t, a, b, mode, e));
    let p2 = choose|path: Seq<PhysicalQubit>|
        #[trigger] allowed_path(t, path, mode, f, b) && path[0] == a && path.len() == e + 1;
    assert(allowed_path(t, p1, mode, f, b));
    assert(allowed_path(t, p2, mode, f, b));
    assert(e == d);
}

/// No qubit frozen.
pub open spec fn nothing_frozen(n: nat) -> Seq<bool> {
    Seq::new(n, |i: int| false)
}

/// A device's coupling graph.
#[derive(Debug, Clone, PartialEq, Eq)]
pub struct Topology {
    qubit_count: u32,
    couplings: Vec<(u32, u32)>,
}

impl View for Topology {
    type V = TopologyModel;

    closed spec fn view(&self) -> TopologyModel {
        TopologyModel { qubit_count: self.qubit_count, couplings: self.couplings@ }
    }
}


impl Topology {
    /// A device of `qubit_count` qubits with the given declared couplings.
    pub fn new(qubit_count: u32, couplings: Vec<(PhysicalQubit, PhysicalQubit)>) -> (t: Topology)
        ensures
            t@.qubit_count == qubit_count,
            t@.couplings == couplings@.map_values(|c: (PhysicalQubit, PhysicalQubit)| (c.0.0, c.1.0)),
    {
        let mut out: Vec<(u32, u32)> = Vec::new();
        let mut i: usize = 0;
        while i < couplings.len()
            invariant
                i <= couplings@.len(),
                out@ =~= couplings@.take(i as int).map_values(
                    |c: (PhysicalQubit, PhysicalQubit)| (c.0.0, c.1.0),
                ),
            decreases couplings@.len() - i,
        {
            let (a, b) = couplings[i];
            out.push((a.0, b.0));
            i += 1;
        }
        proof {
            assert(couplings@.take(couplings@.len() as int) =~= couplings@);
        }
        Topology { qubit_count, couplings: out }
    }

    /// A line `0 - 1 - … - (n-1)` with every neighbouring pair declared in
    /// both directions.
    pub fn linear(qubit_count: u32) -> (t: Topology)
        ensures
            t@.qubit_count == qubit_count,
            forall|a: u32, b: u32|
                supports_spec(t@, PhysicalQubit(a), PhysicalQubit(b)) <==> (a < qubit_count && b
                    < qubit_count && (a + 1 == b || b + 1 == a)),
    {
        let mut out: Vec<(u32, u32)> = Vec::new();
        let mut i: u32 = 0;
        while i + 1 < qubit_count
            invariant
                i < qubit_count || qubit_count == 0,
                i <= qubit_count,
                forall|a: u32, b: u32|
                    out@.contains((a, b)) <==> (b < i + 1 && a < i + 1 && (a + 1 == b || b + 1
                        == a)),
            decreases qubit_count - i,
        {
            let ghost before = out@;
            out.push((i, i + 1));
            out.push((i + 1, i));
            proof {
                assert forall|a: u32, b: u32|
                    out@.contains((a, b)) <==> (b < i + 2 && a < i + 2 && (a + 1 == b || b + 1
                        == a)) by {
                    if out@.contains((a, b)) {
                        let k = choose|k: int| 0 <= k < out@.len() && out@[k] == (a, b);
                        if k < before.len() {
                            assert(before.contains((a, b)));
                        }
                    }
                    if b < i + 2 && a < i + 2 && (a + 1 == b || b + 1 == a) {
                        if a == i && b == i + 1 {
                            assert(out@[out@.len() - 2] == (a, b));
                        } else if a == i + 1 && b == i {
                            assert(out@[out@.len() - 1] == (a, b));
                        } else {
                            assert(before.contains((a, b)));
                            let k = choose|k: int| 0 <= k < before.len() && before[k] == (a, b);
                            assert(out@[k] == (a, b));
                        }
                    }
                }
            }
            i += 1;
        }
        Topology { qubit_count, couplings: out }
    }

    /// A device with no couplings at all.
    pub fn disconnected(qubit_count: u32) -> (t: Topology)
        ensures
            t@.qubit_count == qubit_count,
            t@.couplings.len() == 0,
    {
        Topology { qubit_count, couplings: Vec::new() }
    }

    /// Number of physical qubits.
    pub fn qubit_count(&self) -> (r: u32)
        ensures
            r == self@.qubit_count,
    {
        self.qubit_count
    }

    /// Whether the orientation `(a, b)` is declared.
    pub fn supports(&self, a: PhysicalQubit, b: PhysicalQubit) -> (r: bool)
        ensures
            r == supports_spec(self@, a, b),
    {
        let mut i: usize = 0;
        while i < self.couplings.len()
            invariant
                i <= self@.couplings.len(),
                forall|k: int| 0 <= k < i ==> self@.couplings[k] != (a.0, b.0),
            decreases self@.couplings.len() - i,
        {
            let (x, y) = self.couplings[i];
            if x == a.0 && y == b.0 {
                proof {
                    assert(self@.couplings[i as int] == (a.0, b.0));
                }
                return true;
            }
            i += 1;
        }
        false
    }

    /// Whether `a` and `b` are coupled under `mode`.
    pub fn couples(&self, a: PhysicalQubit, b: PhysicalQubit, mode: CouplingMode) -> (r: bool)
        ensures
            r == couples_spec(self@, a, b, mode),
    {
        match mode {
            CouplingMode::Directed => self.supports(a, b),
            CouplingMode::Undirected => self.supports(a, b) || self.supports(b, a),
            CouplingMode::Symmetric => self.supports(a, b) && self.supports(b, a),
        }
    }

    /// The physical qubits coupled to `p` under `mode`, ascending.
    pub fn adjacent(&self, p: PhysicalQubit, mode: CouplingMode) -> (r: Vec<PhysicalQubit>)
        ensures
            forall|k: int| 0 <= k < r@.len() ==> (#[trigger] r@[k]).0 < self@.qubit_count,
            forall|k: int, l: int| 0 <= k < l < r@.len() ==> (#[trigger] r@[k]).0 < (#[trigger] r@[l]).0,
            forall|q: PhysicalQubit|
                r@.contains(q) <==> (q.0 < self@.qubit_count && couples_spec(self@, p, q, mode)),
            r@ == adjacency(self@, p, mode, self@.qubit_count as nat),
    {
        let mut out: Vec<PhysicalQubit> = Vec::new();
        let mut v: u32 = 0;
        while v < self.qubit_count
            invariant
                v <= self@.qubit_count,
                forall|k: int| 0 <= k < out@.len() ==> (#[trigger] out@[k]).0 < v,
                forall|k: int, l: int| 0 <= k < l < out@.len() ==> (#[trigger] out@[k]).0 < (#[trigger] out@[l]).0,
                forall|q: PhysicalQubit|
                    out@.contains(q) <==> (q.0 < v && couples_spec(self@, p, q, mode)),
                out@ == adjacency(self@, p, mode, v as nat),
            decreases self@.qubit_count - v,
        {
            if self.couples(p, PhysicalQubit(v), mode) {
                let ghost before = out@;
                out.push(PhysicalQubit(v));
                proof {
                    assert forall|q: PhysicalQubit|
                        out@.contains(q) <==> (q.0 < v + 1 && couples_spec(self@, p, q, mode)) by {
                        if out@.contains(q) && q != PhysicalQubit(v) {
                            let k = choose|k: int| 0 <= k < out@.len() && out@[k] == q;
                            assert(out@[out@.len() - 1] == PhysicalQubit(v));
                            assert(before[k] == q);
                            assert(before.contains(q));
                        }
                        if q.0 == v {
                            assert(q == PhysicalQubit(v));
                        }
                        if q.0 < v && couples_spec(self@, p, q, mode) {
                            assert(before.contains(q));
                            let k = choose|k: int| 0 <= k < before.len() && before[k] == q;
                            assert(out@[k] == q);
                        }
                        if q == PhysicalQubit(v) {
                            assert(out@[out@.len() - 1] == q);
                        }
                    }
                }
            }
            v += 1;
        }
        out
    }

    /// A shortest walk from `a` to `b` in which every step is coupled under
    /// `mode` and no intermediate qubit is frozen, found by breadth-first
    /// search visiting neighbours in ascending order; `None` exactly when
    /// there is no such walk.
    ///
    /// `frozen[p]` marks physical qubit `p` as not to be passed through.
    #[verifier::rlimit(40)]
    #[verifier::spinoff_prover]
    pub fn shortest_path_avoiding(
        &self,
        a: PhysicalQubit,
        b: PhysicalQubit,
        mode: CouplingMode,
        frozen: &Vec<bool>,
    ) -> (r: Option<Vec<PhysicalQubit>>)
        requires
            frozen@.len() == self@.qubit_count,
        ensures
            match r {
                Some(path) => allowed_path(self@, path@, mode, frozen@, b) && path@[0] == a
                    && path@.no_duplicates() && no_shorter_walk(self@, a, b, mode, frozen@, path@.len()),
                None => !reachable(self@, a, b, mode, frozen@),
            },
            r matches Some(path) ==> bfs_path(self@, a, b, mode, frozen@) == Some(path@),
    {
        let n = self.qubit_count;
        if a.0 >= n || b.0 >= n {
            proof {
                if reachable(self@, a, b, mode, frozen@) {
                    let path = choose|path: Seq<PhysicalQubit>|
                        allowed_path(self@, path, mode, frozen@, b) && path[0] == a;
                    if path.len() > 1 {
                        assert(allowed_step(
                            self@,
                            path[path.len() - 2],
                            path[path.len() - 1],
                            mode,
                            frozen@,
                            b,
                        ));
                    }
                }
            }
            return None;
        }
        let mut visited: Vec<bool> = Vec::new();
        let mut parent: Vec<u32> = Vec::new();
        let mut i: u32 = 0;
        while i < n
            invariant
                i <= n,
                visited@.len() == i,
                parent@.len() == i,
                forall|k: int| 0 <= k < i ==> !(#[trigger] visited@[k]),
                forall|k: int| 0 <= k < i ==> #[trigger] parent@[k] == 0,
            decreases n - i,
        {
            visited.push(false);
            parent.push(0);
            i += 1;
        }
        let ghost mut depth: Seq<nat> = Seq::new(n as nat, |k: int| 0nat);
        visited.set(a.0 as usize, true);
        let mut queue: Vec<u32> = Vec::new();
        queue.push(a.0);
        proof {
            assert(visited@ =~= bfs_run(self@, mode, frozen@, a, b, 0).visited);
            assert(parent@ =~= bfs_run(self@, mode, frozen@, a, b, 0).parent);
            assert(queue@ =~= bfs_run(self@, mode, frozen@, a, b, 0).queue);
            reveal(bfs_tree);
            reveal(bfs_queue);
            reveal(bfs_closed);
            reveal(bfs_levels);
            assert forall|w: int| 0 <= w < n && #[trigger] visited@[w] implies queue@.contains(
                w as u32,
            ) by {
                assert(w == a.0);
                assert(queue@[0] == w as u32);
            }
        }
        let mut head: usize = 0;
        while head < queue.len()
            invariant
                n == self@.qubit_count,
                frozen@.len() == n,
                a.0 < n,
                b.0 < n,
                visited@.len() == n,
                parent@.len() == n,
                depth.len() == n,
                head <= queue@.len() <= n,
                visited@[a.0 as int],
                bfs_tree(self@, mode, frozen@, a, b, visited@, parent@, depth),
                bfs_queue(queue@, visited@, n),
                bfs_closed(self@, mode, frozen@, b, queue@, head as int, visited@, depth),
                bfs_levels(queue@, head as int, depth),
                queue@ == bfs_run(self@, mode, frozen@, a, b, head as nat).queue,
                visited@ == bfs_run(self@, mode, frozen@, a, b, head as nat).visited,
                parent@ == bfs_run(self@, mode, frozen@, a, b, head as nat).parent,
            decreases n - head,
        {
            let ghost st0 = bfs_run(self@, mode, frozen@, a, b, head as nat);
            let u = queue[head];
            proof {
                reveal(bfs_queue);
                reveal(bfs_scanned);
                assert(visited@[queue@[head as int] as int]);
            }
            let mut v: u32 = 0;
            while v < n
                invariant
                    n == self@.qubit_count,
                    frozen@.len() == n,
                    a.0 < n,
                    b.0 < n,
                    u < n,
                    u == queue@[head as int],
                    visited@[u as int],
                    visited@.len() == n,
                    parent@.len() == n,
                    depth.len() == n,
                    v <= n,
                    head < queue@.len() <= n,
                    visited@[a.0 as int],
                    bfs_tree(self@, mode, frozen@, a, b, visited@, parent@, depth),
                    bfs_queue(queue@, visited@, n),
                    bfs_closed(self@, mode, frozen@, b, queue@, head as int, visited@, depth),
                    bfs_scanned(self@, mode, frozen@, b, u, v as int, visited@, depth),
                    bfs_levels(queue@, head as int, depth),
                    st0 == bfs_run(self@, mode, frozen@, a, b, head as nat),
                    queue@ == bfs_scan(self@, mode, frozen@, b, u, v as nat, st0).queue,
                    visited@ == bfs_scan(self@, mode, frozen@, b, u, v as nat, st0).visited,
                    parent@ == bfs_scan(self@, mode, frozen@, b, u, v as nat, st0).parent,
                decreases n - v,
            {
                let step = (v == b.0 || !frozen[v as usize]) && self.couples(
                    PhysicalQubit(u),
                    PhysicalQubit(v),
                    mode,
                );
                proof {
                    assert(step == allowed_step(
                        self@,
                        PhysicalQubit(u),
                        PhysicalQubit(v),
                        mode,
                        frozen@,
                        b,
                    ));
                }
                if !visited[v as usize] && step {
                    let ghost old_queue = queue@;
                    let ghost old_visited = visited@;
                    let ghost old_parent = parent@;
                    let ghost old_depth = depth;
                    proof {
                        reveal(bfs_queue);
                        lemma_queue_bound(queue@, visited@, n, v);
                    }
                    visited.set(v as usize, true);
                    parent.set(v as usize, u);
                    proof {
                        depth = depth.update(v as int, depth[u as int] + 1);
                    }
                    queue.push(v);
                    proof {
                        lemma_bfs_visit(
                            self@,
                            mode,
                            frozen@,
                            a,
                            b,
                            u,
                            v,
                            head as int,
                            old_queue,
                            old_visited,
                            old_parent,
                            old_depth,
                        );
                    }
                } else {
                    proof {
                        lemma_bfs_skip(self@, mode, frozen@, b, u, v, head as int, queue@, visited@, depth);
                    }
                }
                v += 1;
            }
            proof {
                lemma_bfs_advance(self@, mode, frozen@, b, queue@, head as int, visited@, depth);
                assert(bfs_run(self@, mode, frozen@, a, b, head as nat + 1) == bfs_scan(
                    self@,
                    mode,
                    frozen@,
                    b,
                    st0.queue[head as int],
                    n as nat,
                    st0,
                ));
            }
            head += 1;
        }
        proof {
            lemma_bfs_done(self@, mode, frozen@, b, queue@, visited@, depth);
            lemma_run_settles(self@, mode, frozen@, a, b, head as nat, n as nat);
        }
        let ghost fin = bfs_run(self@, mode, frozen@, a, b, n as nat);
        if !visited[b.0 as usize] {
            proof {
                lemma_closed_unreachable(self@, a, b, mode, frozen@, visited@);
            }
            return None;
        }
        let mut path: Vec<PhysicalQubit> = Vec::new();
        let mut cur: u32 = b.0;
        path.push(b);
        while cur != a.0
            invariant
                n == self@.qubit_count,
                frozen@.len() == n,
                a.0 < n,
                b.0 < n,
                cur < n,
                visited@.len() == n,
                parent@.len() == n,
                depth.len() == n,
                visited@[cur as int],
                path@.len() >= 1,
                path@[0] == PhysicalQubit(cur),
                path@.last() == b,
                forall|k: int|
                    0 <= k < path@.len() - 1 ==> allowed_step(
                        self@,
                        #[trigger] path@[k],
                        path@[k + 1],
                        mode,
                        frozen@,
                        b,
                    ),
                forall|k: int, l: int|
                    0 <= k < l < path@.len() ==> depth[(#[trigger] path@[k]).0 as int] < depth[(
                    #[trigger] path@[l]).0 as int],
                forall|k: int| 0 <= k < path@.len() ==> (#[trigger] path@[k]).0 < n,
                bfs_tree(self@, mode, frozen@, a, b, visited@, parent@, depth),
                path@.len() + depth[cur as int] == depth[b.0 as int] + 1,
                parent@ == fin.parent,
                forall|k: int| 1 <= k < path@.len() ==> path@[k - 1].0 == parent@[(#[trigger] path@[k]).0 as int],
            decreases depth[cur as int],
        {
            proof {
                reveal(bfs_tree);
                assert(visited@[cur as int] && cur as int != a.0 as int);
            }
            let p = parent[cur as usize];
            let ghost old_path = path@;
            path.insert(0, PhysicalQubit(p));
            proof {
                assert(path@ =~= seq![PhysicalQubit(p)] + old_path);
                assert(PhysicalQubit(cur as int as u32) == PhysicalQubit(cur));
                assert forall|k: int| 0 <= k < path@.len() - 1 implies allowed_step(
                    self@,
                    #[trigger] path@[k],
                    path@[k + 1],
                    mode,
                    frozen@,
                    b,
                ) by {
                    if k > 0 {
                        assert(path@[k] == old_path[k - 1]);
                        assert(path@[k + 1] == old_path[k]);
                    }
                }
                assert forall|k: int, l: int| 0 <= k < l < path@.len() implies depth[(
                #[trigger] path@[k]).0 as int] < depth[(#[trigger] path@[l]).0 as int] by {
                    if k > 0 {
                        assert(path@[k] == old_path[k - 1]);
                    } else {
                        assert(old_path[0] == PhysicalQubit(cur));
                    }
                    assert(path@[l] == old_path[l - 1]);
                }
                assert forall|k: int| 0 <= k < path@.len() implies (#[trigger] path@[k]).0 < n by {
                    if k > 0 {
                        assert(path@[k] == old_path[k - 1]);
                    }
                }
                assert forall|k: int| 1 <= k < path@.len() implies path@[k - 1].0 == parent@[(
                #[trigger] path@[k]).0 as int] by {
                    assert(path@[k] == old_path[k - 1]);
                    if k > 1 {
                        assert(path@[k - 1] == old_path[k - 2]);
                    }
                }
            }
            cur = p;
        }
        proof {
            assert forall|k: int, l: int| 0 <= k < path@.len() && 0 <= l < path@.len() && k != l implies path@[k]
                != path@[l] by {
                if k < l {
                    assert(depth[path@[k].0 as int] < depth[path@[l].0 as int]);
                } else {
                    assert(depth[path@[l].0 as int] < depth[path@[k].0 as int]);
                }
            }
            reveal(bfs_tree);
            assert(path@.len() == depth[b.0 as int] + 1);
            assert forall|q: Seq<PhysicalQubit>| #[trigger]
                allowed_path(self@, q, mode, frozen@, b) && q[0] == a implies path@.len() <= q.len() by {
                lemma_path_depth(self@, q, mode, frozen@, b, queue@, visited@, depth, q.len() - 1);
            }
            assert(parent_chain(fin.parent, a.0, b.0, path@));
            let chosen = choose|q: Seq<PhysicalQubit>| parent_chain(fin.parent, a.0, b.0, q);
            lemma_chain_unique(fin.parent, a.0, b.0, chosen, path@);
        }
        Some(path)
    }

    /// [`Topology::shortest_path_avoiding`] with nothing frozen.
    pub fn shortest_path(&self, a: PhysicalQubit, b: PhysicalQubit, mode: CouplingMode) -> (r: Option<
        Vec<PhysicalQubit>,
    >)
        ensures
            match r {
                Some(path) => allowed_path(
                    self@,
                    path@,
                    mode,
                    nothing_frozen(self@.qubit_count as nat),
                    b,
                ) && path@[0] == a && path@.no_duplicates() && no_shorter_walk(
                    self@,
                    a,
                    b,
                    mode,
                    nothing_frozen(self@.qubit_count as nat),
                    path@.len(),
                ),
                None => !reachable(self@, a, b, mode, nothing_frozen(self@.qubit_count as nat)),
            },
    {
        let mut frozen: Vec<bool> = Vec::new();
        let mut i: u32 = 0;
        while i < self.qubit_count
            invariant
                i <= self@.qubit_count,
                frozen@ =~= nothing_frozen(i as nat),
            decreases self@.qubit_count - i,
        {
            frozen.push(false);
            i += 1;
        }
        self.shortest_path_avoiding(a, b, mode, &frozen)
    }

    /// The number of hops of a shortest walk between the qubits, or `None`
    /// when they are not connected.
    pub fn distance(&self, a: PhysicalQubit, b: PhysicalQubit, mode: CouplingMode) -> (r: Option<
        usize,
    >)
        ensures
            r is None <==> !reachable(self@, a, b, mode, nothing_frozen(self@.qubit_count as nat)),
            match r {
                Some(d) => exists|path: Seq<PhysicalQubit>|
                    allowed_path(self@, path, mode, nothing_frozen(self@.qubit_count as nat), b)
                        && path[0] == a && path.len() == d + 1,
                None => true,
            },
            r matches Some(d) ==> d < self@.qubit_count,
            r matches Some(d) ==> no_shorter_walk(
                self@,
                a,
                b,
                mode,
                nothing_frozen(self@.qubit_count as nat),
                d as nat + 1,
            ),
            match r {
                Some(d) => hop_distance(self@, a, b, mode) == Some(d as nat),
                None => hop_distance(self@, a, b, mode) is None,
            },
    {
        match self.shortest_path(a, b, mode) {
            Some(path) => {
                proof {
                    assert(reachable(self@, a, b, mode, nothing_frozen(self@.qubit_count as nat)));
                    assert forall|i: int| 0 <= i < path@.len() implies (#[trigger] path@[i]).0
                        < self@.qubit_count by {
                        if i > 0 {
                            assert(allowed_step(
                                self@,
                                path@[i - 1],
                                path@[i],
                                mode,
                                nothing_frozen(self@.qubit_count as nat),
                                b,
                            ));
                        }
                    }
                    lemma_distinct_walk_len(path@, self@.qubit_count as nat);
                    assert(allowed_path(
                        self@,
                        path@,
                        mode,
                        nothing_frozen(self@.qubit_count as nat),
                        b,
                    ));
                    lemma_hop_distance_is(self@, a, b, mode, (path@.len() - 1) as nat);
                }
                Some(path.len() - 1)
            },
            None => None,
        }
    }
}

/// A walk that never revisits a qubit of an `n`-qubit device has at most
/// `n` qubits.
pub proof fn lemma_distinct_walk_len(path: Seq<PhysicalQubit>, n: nat)
    requires
        path.no_duplicates(),
        forall|i: int| 0 <= i < path.len() ==> (#[trigger] path[i]).0 < n,
    ensures
        path.len() <= n,
{
    let ids = path.map_values(|p: PhysicalQubit| p.0 as int);
    assert forall|i: int, j: int| 0 <= i < ids.len() && 0 <= j < ids.len() && i != j implies ids[i]
        != ids[j] by {
        assert(path[i] != path[j]);
    }
    assert(ids.no_duplicates());
    ids.unique_seq_to_set();
    vstd::set_lib::lemma_int_range(0, n as int);
    assert forall|x: int| ids.to_set().contains(x) implies vstd::set_lib::set_int_range(0, n as int).contains(x) by {
        let i = choose|i: int| 0 <= i < ids.len() && ids[i] == x;
        assert(path[i].0 < n);
    }
    vstd::set_lib::lemma_len_subset(ids.to_set(), vstd::set_lib::set_int_range(0, n as int));
}

/// A queue of distinct device qubits has room for one more unvisited qubit.
proof fn lemma_queue_bound(queue: Seq<u32>, visited: Seq<bool>, n: u32, v: u32)
    requires
        v < n,
        visited.len() == n,
        !visited[v as int],
        forall|k: int| 0 <= k < queue.len() ==> (#[trigger] queue[k]) < n,
        forall|k: int| 0 <= k < queue.len() ==> visited[#[trigger] queue[k] as int],
        forall|k: int, l: int| 0 <= k < l < queue.len() ==> #[trigger] queue[k] != #[trigger] queue[l],
    ensures
        queue.len() < n,
{
    let s = queue.to_set();
    let range = Set::new(|p: u32| p < n);
    assert(range == <u32 as vstd::set_lib::FiniteRange>::range_set(0u32, n));
    vstd::set_lib::range_set_properties::<u32>(0u32, n);
    assert(queue.no_duplicates()) by {
        assert forall|k: int, l: int| 0 <= k < queue.len() && 0 <= l < queue.len() && k != l implies queue[k]
            != queue[l] by {
            if k < l {
            } else {
                assert(queue[l] != queue[k]);
            }
        }
    }
    queue.unique_seq_to_set();
    assert(s.subset_of(range.remove(v)));
    vstd::set_lib::lemma_len_subset(s, range.remove(v));
}

/// When the visited set contains `a`, excludes `b` and is closed under
/// allowed steps, no allowed walk leads from `a` to `b`.
proof fn lemma_closed_unreachable(
    t: TopologyModel,
    a: PhysicalQubit,
    b: PhysicalQubit,
    mode: CouplingMode,
    frozen: Seq<bool>,
    visited: Seq<bool>,
)
    requires
        visited.len() == t.qubit_count,
        a.0 < t.qubit_count,
        visited[a.0 as int],
        !visited[b.0 as int],
        b.0 < t.qubit_count,
        forall|u: int, w: int|
            0 <= u < t.qubit_count && 0 <= w < t.qubit_count && #[trigger] visited[u] && allowed_step(
                t,
                PhysicalQubit(u as u32),
                PhysicalQubit(w as u32),
                mode,
                frozen,
                b,
            ) ==> #[trigger] visited[w],
    ensures
        !reachable(t, a, b, mode, frozen),
{
    if reachable(t, a, b, mode, frozen) {
        let path = choose|path: Seq<PhysicalQubit>|
            allowed_path(t, path, mode, frozen, b) && path[0] == a;
        assert forall|k: int| 0 <= k < path.len() implies path[k].0 < t.qubit_count && visited[
            #[trigger] path[k].0 as int] by {
            lemma_path_visited(t, path, mode, frozen, b, visited, k);
        }
        assert(visited[path[path.len() - 1].0 as int]);
    }
}

proof fn lemma_path_visited(
    t: TopologyModel,
    path: Seq<PhysicalQubit>,
    mode: CouplingMode,
    frozen: Seq<bool>,
    b: PhysicalQubit,
    visited: Seq<bool>,
    k: int,
)
    requires
        allowed_path(t, path, mode, frozen, b),
        visited.len() == t.qubit_count,
        visited[path[0].0 as int],
        0 <= k < path.len(),
        forall|u: int, w: int|
            0 <= u < t.qubit_count && 0 <= w < t.qubit_count && #[trigger] visited[u] && allowed_step(
                t,
                PhysicalQubit(u as u32),
                PhysicalQubit(w as u32),
                mode,
                frozen,
                b,
            ) ==> #[trigger] visited[w],
    ensures
        path[k].0 < t.qubit_count,
        visited[path[k].0 as int],
    decreases k,
{
    if k > 0 {
        lemma_path_visited(t, path, mode, frozen, b, visited, k - 1);
        assert(allowed_step(t, path[k - 1], path[k], mode, frozen, b));
        assert(PhysicalQubit(path[k - 1].0 as int as u32) == path[k - 1]);
        assert(PhysicalQubit(path[k].0 as int as u32) == path[k]);
    }
}

/// The start is at depth 0, and every other visited qubit was reached from
/// a visited parent by an allowed step and sits one level deeper than it.
#[verifier::opaque]
spec fn bfs_tree(
    t: TopologyModel,
    mode: CouplingMode,
    frozen: Seq<bool>,
    a: PhysicalQubit,
    b: PhysicalQubit,
    visited: Seq<bool>,
    parent: Seq<u32>,
    depth: Seq<nat>,
) -> bool {
    &&& depth[a.0 as int] == 0
    &&& forall|w: int|
        0 <= w < visited.len() && #[trigger] visited[w] && w != a.0 ==> {
            &&& parent[w] < visited.len()
            &&& visited[parent[w] as int]
            &&& depth[w] == depth[parent[w] as int] + 1
            &&& allowed_step(t, PhysicalQubit(parent[w]), PhysicalQubit(w as u32), mode, frozen, b)
        }
}

/// The queue holds distinct device qubits, exactly the visited ones.
#[verifier::opaque]
spec fn bfs_queue(queue: Seq<u32>, visited: Seq<bool>, n: u32) -> bool {
    &&& forall|k: int| 0 <= k < queue.len() ==> (#[trigger] queue[k]) < n
    &&& forall|k: int| 0 <= k < queue.len() ==> visited[#[trigger] queue[k] as int]
    &&& forall|k: int, l: int| 0 <= k < l < queue.len() ==> #[trigger] queue[k] != #[trigger] queue[l]
    &&& forall|w: int| 0 <= w < n && #[trigger] visited[w] ==> queue.contains(w as u32)
}

/// Every allowed step out of the first `head` queued qubits leads to a
/// visited qubit at most one level deeper.
#[verifier::opaque]
spec fn bfs_closed(
    t: TopologyModel,
    mode: CouplingMode,
    frozen: Seq<bool>,
    b: PhysicalQubit,
    queue: Seq<u32>,
    head: int,
    visited: Seq<bool>,
    depth: Seq<nat>,
) -> bool {
    forall|k: int, w: int|
        0 <= k < head && 0 <= w < visited.len() && allowed_step(
            t,
            PhysicalQubit(#[trigger] queue[k]),
            PhysicalQubit(w as u32),
            mode,
            frozen,
            b,
        ) ==> (#[trigger] visited[w]) && depth[w] <= depth[queue[k] as int] + 1
}

/// Depths along the queue never decrease, and none exceeds the depth at
/// `head` by more than one.
#[verifier::opaque]
spec fn bfs_levels(queue: Seq<u32>, head: int, depth: Seq<nat>) -> bool {
    &&& forall|k: int, l: int|
        0 <= k <= l < queue.len() ==> depth[#[trigger] queue[k] as int] <= depth[#[trigger] queue[l] as int]
    &&& head < queue.len() ==> forall|l: int|
        0 <= l < queue.len() ==> depth[#[trigger] queue[l] as int] <= depth[queue[head] as int] + 1
}

/// Every allowed step from `u` to a qubit below `v` leads to a visited one
/// at most one level deeper.
#[verifier::opaque]
spec fn bfs_scanned(
    t: TopologyModel,
    mode: CouplingMode,
    frozen: Seq<bool>,
    b: PhysicalQubit,
    u: u32,
    v: int,
    visited: Seq<bool>,
    depth: Seq<nat>,
) -> bool {
    forall|w: int|
        0 <= w < v && allowed_step(t, PhysicalQubit(u), PhysicalQubit(w as u32), mode, frozen, b)
            ==> (#[trigger] visited[w]) && depth[w] <= depth[u as int] + 1
}

/// Visiting `v` from `u` keeps the search state consistent.
proof fn lemma_bfs_visit(
    t: TopologyModel,
    mode: CouplingMode,
    frozen: Seq<bool>,
    a: PhysicalQubit,
    b: PhysicalQubit,
    u: u32,
    v: u32,
    head: int,
    queue: Seq<u32>,
    visited: Seq<bool>,
    parent: Seq<u32>,
    depth: Seq<nat>,
)
    requires
        visited.len() == t.qubit_count,
        parent.len() == t.qubit_count,
        depth.len() == t.qubit_count,
        u < t.qubit_count,
        v < t.qubit_count,
        a.0 < t.qubit_count,
        visited[u as int],
        visited[a.0 as int],
        !visited[v as int],
        allowed_step(t, PhysicalQubit(u), PhysicalQubit(v), mode, frozen, b),
        bfs_tree(t, mode, frozen, a, b, visited, parent, depth),
        bfs_queue(queue, visited, t.qubit_count),
        bfs_closed(t, mode, frozen, b, queue, head, visited, depth),
        bfs_scanned(t, mode, frozen, b, u, v as int, visited, depth),
        bfs_levels(queue, head, depth),
        0 <= head < queue.len(),
        u == queue[head],
    ensures
        ({
            let vis2 = visited.update(v as int, true);
            let dep2 = depth.update(v as int, depth[u as int] + 1);
            &&& bfs_tree(t, mode, frozen, a, b, vis2, parent.update(v as int, u), dep2)
            &&& bfs_queue(queue.push(v), vis2, t.qubit_count)
            &&& bfs_closed(t, mode, frozen, b, queue.push(v), head, vis2, dep2)
            &&& bfs_scanned(t, mode, frozen, b, u, v + 1, vis2, dep2)
            &&& bfs_levels(queue.push(v), head, dep2)
        }),
{
    lemma_bfs_visit_tree(t, mode, frozen, a, b, u, v, visited, parent, depth);
    lemma_bfs_visit_queue(v, queue, visited, t.qubit_count);
    lemma_bfs_visit_closed(t, mode, frozen, b, u, v, head, queue, visited, depth);
    lemma_bfs_visit_levels(u, v, head, queue, visited, depth, t.qubit_count);
}

proof fn lemma_bfs_visit_tree(
    t: TopologyModel,
    mode: CouplingMode,
    frozen: Seq<bool>,
    a: PhysicalQubit,
    b: PhysicalQubit,
    u: u32,
    v: u32,
    visited: Seq<bool>,
    parent: Seq<u32>,
    depth: Seq<nat>,
)
    requires
        visited.len() == t.qubit_count,
        parent.len() == t.qubit_count,
        depth.len() == t.qubit_count,
        u < t.qubit_count,
        v < t.qubit_count,
        a.0 < t.qubit_count,
        visited[u as int],
        visited[a.0 as int],
        !visited[v as int],
        allowed_step(t, PhysicalQubit(u), PhysicalQubit(v), mode, frozen, b),
        bfs_tree(t, mode, frozen, a, b, visited, parent, depth),
    ensures
        bfs_tree(
            t,
            mode,
            frozen,
            a,
            b,
            visited.update(v as int, true),
            parent.update(v as int, u),
            depth.update(v as int, depth[u as int] + 1),
        ),
{
    reveal(bfs_tree);
    let vis2 = visited.update(v as int, true);
    let par2 = parent.update(v as int, u);
    let dep2 = depth.update(v as int, depth[u as int] + 1);
    assert(a.0 as int != v as int);
    assert forall|w: int| 0 <= w < vis2.len() && #[trigger] vis2[w] && w != a.0 implies {
        &&& par2[w] < vis2.len()
        &&& vis2[par2[w] as int]
        &&& dep2[w] == dep2[par2[w] as int] + 1
        &&& allowed_step(t, PhysicalQubit(par2[w]), PhysicalQubit(w as u32), mode, frozen, b)
    } by {
        if w == v {
            assert(PhysicalQubit(w as u32) == PhysicalQubit(v));
            assert(u as int != v as int);
        } else {
            assert(visited[w]);
            assert(parent[w] as int != v as int);
        }
    }
}

proof fn lemma_bfs_visit_queue(v: u32, queue: Seq<u32>, visited: Seq<bool>, n: u32)
    requires
        visited.len() == n,
        v < n,
        !visited[v as int],
        bfs_queue(queue, visited, n),
    ensures
        bfs_queue(queue.push(v), visited.update(v as int, true), n),
{
    reveal(bfs_queue);
    let vis2 = visited.update(v as int, true);
    let q2 = queue.push(v);
    assert forall|w: int| 0 <= w < n && #[trigger] vis2[w] implies q2.contains(w as u32) by {
        if w == v {
            assert(q2[q2.len() - 1] == v);
        } else {
            assert(visited[w]);
            let k = choose|k: int| 0 <= k < queue.len() && queue[k] == w as u32;
            assert(q2[k] == w as u32);
        }
    }
    assert forall|k: int, l: int| 0 <= k < l < q2.len() implies #[trigger] q2[k] != #[trigger] q2[l] by {
        if l == q2.len() - 1 {
            assert(visited[queue[k] as int]);
        } else {
            assert(queue[k] != queue[l]);
        }
    }
    assert forall|k: int| 0 <= k < q2.len() implies vis2[#[trigger] q2[k] as int] by {
        if k < queue.len() {
            assert(visited[queue[k] as int]);
        }
    }
    assert forall|k: int| 0 <= k < q2.len() implies (#[trigger] q2[k]) < n by {
        if k < queue.len() {
            assert(queue[k] < n);
        }
    }
}

proof fn lemma_bfs_visit_closed(
    t: TopologyModel,
    mode: CouplingMode,
    frozen: Seq<bool>,
    b: PhysicalQubit,
    u: u32,
    v: u32,
    head: int,
    queue: Seq<u32>,
    visited: Seq<bool>,
    depth: Seq<nat>,
)
    requires
        visited.len() == t.qubit_count,
        depth.len() == t.qubit_count,
        v < t.qubit_count,
        u < t.qubit_count,
        visited[u as int],
        !visited[v as int],
        0 <= head < queue.len(),
        bfs_queue(queue, visited, t.qubit_count),
        bfs_closed(t, mode, frozen, b, queue, head, visited, depth),
        bfs_scanned(t, mode, frozen, b, u, v as int, visited, depth),
    ensures
        bfs_closed(
            t,
            mode,
            frozen,
            b,
            queue.push(v),
            head,
            visited.update(v as int, true),
            depth.update(v as int, depth[u as int] + 1),
        ),
        bfs_scanned(
            t,
            mode,
            frozen,
            b,
            u,
            v + 1,
            visited.update(v as int, true),
            depth.update(v as int, depth[u as int] + 1),
        ),
{
    reveal(bfs_closed);
    reveal(bfs_scanned);
    reveal(bfs_queue);
    let vis2 = visited.update(v as int, true);
    let dep2 = depth.update(v as int, depth[u as int] + 1);
    let q2 = queue.push(v);
    assert forall|k: int, w: int|
        0 <= k < head && 0 <= w < vis2.len() && allowed_step(
            t,
            PhysicalQubit(#[trigger] q2[k]),
            PhysicalQubit(w as u32),
            mode,
            frozen,
            b,
        ) implies (#[trigger] vis2[w]) && dep2[w] <= dep2[q2[k] as int] + 1 by {
        assert(q2[k] == queue[k]);
        assert(visited[queue[k] as int]);
        assert(queue[k] as int != v as int);
        assert(allowed_step(t, PhysicalQubit(queue[k]), PhysicalQubit(w as u32), mode, frozen, b));
        assert(visited[w]);
        assert(depth[w] <= depth[queue[k] as int] + 1);
        assert(w != v as int);
    }
    assert forall|w: int|
        0 <= w < v + 1 && allowed_step(t, PhysicalQubit(u), PhysicalQubit(w as u32), mode, frozen, b)
            implies (#[trigger] vis2[w]) && dep2[w] <= dep2[u as int] + 1 by {
        assert(u as int != v as int);
        if w != v {
            assert(visited[w]);
        }
    }
}

proof fn lemma_bfs_visit_levels(
    u: u32,
    v: u32,
    head: int,
    queue: Seq<u32>,
    visited: Seq<bool>,
    depth: Seq<nat>,
    n: u32,
)
    requires
        visited.len() == n,
        depth.len() == n,
        v < n,
        !visited[v as int],
        0 <= head < queue.len(),
        u == queue[head],
        bfs_queue(queue, visited, n),
        bfs_levels(queue, head, depth),
    ensures
        bfs_levels(queue.push(v), head, depth.update(v as int, depth[u as int] + 1)),
{
    reveal(bfs_queue);
    reveal(bfs_levels);
    let dep2 = depth.update(v as int, depth[u as int] + 1);
    let q2 = queue.push(v);
    assert forall|k: int| 0 <= k < queue.len() implies dep2[#[trigger] q2[k] as int] == depth[queue[k] as int] by {
        assert(visited[queue[k] as int]);
        assert(queue[k] as int != v as int);
    }
    assert(dep2[q2[head] as int] == depth[u as int]);
    assert forall|k: int, l: int| 0 <= k <= l < q2.len() implies dep2[#[trigger] q2[k] as int] <= dep2[
        #[trigger] q2[l] as int] by {
        if l < queue.len() {
            assert(dep2[q2[k] as int] == depth[queue[k] as int]);
            assert(dep2[q2[l] as int] == depth[queue[l] as int]);
        } else if k < queue.len() {
            assert(dep2[q2[k] as int] == depth[queue[k] as int]);
            assert(depth[queue[k] as int] <= depth[queue[head] as int] + 1);
        }
    }
    assert forall|l: int| 0 <= l < q2.len() implies dep2[#[trigger] q2[l] as int] <= dep2[q2[head] as int] + 1 by {
        if l < queue.len() {
            assert(dep2[q2[l] as int] == depth[queue[l] as int]);
            assert(depth[queue[l] as int] <= depth[queue[head] as int] + 1);
        }
    }
}

/// Passing over `v` (already visited, or not an allowed step) keeps the
/// scan of `u` complete up to `v + 1`.
proof fn lemma_bfs_skip(
    t: TopologyModel,
    mode: CouplingMode,
    frozen: Seq<bool>,
    b: PhysicalQubit,
    u: u32,
    v: u32,
    head: int,
    queue: Seq<u32>,
    visited: Seq<bool>,
    depth: Seq<nat>,
)
    requires
        visited.len() == t.qubit_count,
        v < t.qubit_count,
        0 <= head < queue.len(),
        u == queue[head],
        visited[v as int] || !allowed_step(t, PhysicalQubit(u), PhysicalQubit(v), mode, frozen, b),
        bfs_queue(queue, visited, t.qubit_count),
        bfs_levels(queue, head, depth),
        bfs_scanned(t, mode, frozen, b, u, v as int, visited, depth),
    ensures
        bfs_scanned(t, mode, frozen, b, u, v + 1, visited, depth),
{
    reveal(bfs_scanned);
    reveal(bfs_queue);
    reveal(bfs_levels);
    if visited[v as int] {
        assert(queue.contains(v));
        let l = choose|l: int| 0 <= l < queue.len() && queue[l] == v;
        assert(depth[queue[l] as int] <= depth[queue[head] as int] + 1);
    }
    assert forall|w: int|
        0 <= w < v + 1 && allowed_step(t, PhysicalQubit(u), PhysicalQubit(w as u32), mode, frozen, b)
            implies (#[trigger] visited[w]) && depth[w] <= depth[u as int] + 1 by {
        if w == v {
            assert(PhysicalQubit(w as u32) == PhysicalQubit(v));
        }
    }
}

/// Once every neighbour of `queue[head]` is scanned, the first `head + 1`
/// queued qubits are closed.
proof fn lemma_bfs_advance(
    t: TopologyModel,
    mode: CouplingMode,
    frozen: Seq<bool>,
    b: PhysicalQubit,
    queue: Seq<u32>,
    head: int,
    visited: Seq<bool>,
    depth: Seq<nat>,
)
    requires
        0 <= head < queue.len(),
        visited.len() == t.qubit_count,
        bfs_closed(t, mode, frozen, b, queue, head, visited, depth),
        bfs_scanned(t, mode, frozen, b, queue[head], t.qubit_count as int, visited, depth),
        bfs_levels(queue, head, depth),
    ensures
        bfs_closed(t, mode, frozen, b, queue, head + 1, visited, depth),
        bfs_levels(queue, head + 1, depth),
{
    reveal(bfs_closed);
    reveal(bfs_scanned);
    reveal(bfs_levels);
    if head + 1 < queue.len() {
        assert forall|l: int| 0 <= l < queue.len() implies depth[#[trigger] queue[l] as int] <= depth[
            queue[head + 1] as int] + 1 by {
            assert(depth[queue[head] as int] <= depth[queue[head + 1] as int]);
        }
    }
}

/// When the whole queue is processed, the visited set is closed under
/// allowed steps.
proof fn lemma_bfs_done(
    t: TopologyModel,
    mode: CouplingMode,
    frozen: Seq<bool>,
    b: PhysicalQubit,
    queue: Seq<u32>,
    visited: Seq<bool>,
    depth: Seq<nat>,
)
    requires
        visited.len() == t.qubit_count,
        bfs_queue(queue, visited, t.qubit_count),
        bfs_closed(t, mode, frozen, b, queue, queue.len() as int, visited, depth),
    ensures
        forall|u: int, w: int|
            0 <= u < t.qubit_count && 0 <= w < t.qubit_count && #[trigger] visited[u] && allowed_step(
                t,
                PhysicalQubit(u as u32),
                PhysicalQubit(w as u32),
                mode,
                frozen,
                b,
            ) ==> #[trigger] visited[w],
{
    assert forall|u: int, w: int|
        0 <= u < t.qubit_count && 0 <= w < t.qubit_count && #[trigger] visited[u] && allowed_step(
            t,
            PhysicalQubit(u as u32),
            PhysicalQubit(w as u32),
            mode,
            frozen,
            b,
        ) implies #[trigger] visited[w] by {
        lemma_bfs_step(t, mode, frozen, b, queue, visited, depth, u, w);
    }
}

/// In a finished search, an allowed step from a visited qubit leads to a
/// visited qubit at most one level deeper.
proof fn lemma_bfs_step(
    t: TopologyModel,
    mode: CouplingMode,
    frozen: Seq<bool>,
    b: PhysicalQubit,
    queue: Seq<u32>,
    visited: Seq<bool>,
    depth: Seq<nat>,
    u: int,
    w: int,
)
    requires
        visited.len() == t.qubit_count,
        bfs_queue(queue, visited, t.qubit_count),
        bfs_closed(t, mode, frozen, b, queue, queue.len() as int, visited, depth),
        0 <= u < t.qubit_count,
        0 <= w < t.qubit_count,
        visited[u],
        allowed_step(t, PhysicalQubit(u as u32), PhysicalQubit(w as u32), mode, frozen, b),
    ensures
        visited[w],
        depth[w] <= depth[u] + 1,
{
    reveal(bfs_queue);
    reveal(bfs_closed);
    assert(queue.contains(u as u32));
    let k = choose|k: int| 0 <= k < queue.len() && queue[k] == u as u32;
    assert(PhysicalQubit(queue[k]) == PhysicalQubit(u as u32));
    assert(queue[k] as int == u);
    assert(allowed_step(t, PhysicalQubit(queue[k]), PhysicalQubit(w as u32), mode, frozen, b));
    assert(visited[w]);
    assert(depth[w] <= depth[queue[k] as int] + 1);
}

/// In a finished search, every qubit of an allowed walk from the start is
/// visited, at a depth no greater than its position on the walk.
proof fn lemma_path_depth(
    t: TopologyModel,
    path: Seq<PhysicalQubit>,
    mode: CouplingMode,
    frozen: Seq<bool>,
    b: PhysicalQubit,
    queue: Seq<u32>,
    visited: Seq<bool>,
    depth: Seq<nat>,
    k: int,
)
    requires
        allowed_path(t, path, mode, frozen, b),
        visited.len() == t.qubit_count,
        visited[path[0].0 as int],
        depth[path[0].0 as int] == 0,
        0 <= k < path.len(),
        bfs_queue(queue, visited, t.qubit_count),
        bfs_closed(t, mode, frozen, b, queue, queue.len() as int, visited, depth),
    ensures
        path[k].0 < t.qubit_count,
        visited[path[k].0 as int],
        depth[path[k].0 as int] <= k,
    decreases k,
{
    if k > 0 {
        lemma_path_depth(t, path, mode, frozen, b, queue, visited, depth, k - 1);
        assert(allowed_step(t, path[k - 1], path[k], mode, frozen, b));
        assert(PhysicalQubit(path[k - 1].0 as int as u32) == path[k - 1]);
        assert(PhysicalQubit(path[k].0 as int as u32) == path[k]);
        lemma_bfs_step(t, mode, frozen, b, queue, visited, depth, path[k - 1].0 as int, path[k].0 as int);
    }
}

} // verus!
