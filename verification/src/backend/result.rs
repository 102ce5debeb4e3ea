//! What a run asks of a backend, and what makes its result citable.
use std::collections::BTreeMap;

use vstd::prelude::*;

use crate::text::{lemma_text_lt_order, text_before, text_lt};

verus! {

/// Everything needed to reproduce and cite a result: the circuit, the
/// compiler build, the target, the cost model and its configuration, what
/// ran, where the qubits started and ended, and the shots.
#[derive(Debug, Clone, PartialEq, Eq)]
pub struct Provenance {
    /// The source circuit's name.
    pub circuit: String,
    /// The compiler's version.
    pub compiler_version: String,
    /// The commit the compiler was built from, or `"unknown"`.
    pub git_commit: String,
    /// The backend this was prepared for.
    pub backend_id: String,
    /// The target profile, as `id@version`.
    pub profile_id: String,
    /// The cost model the profile names.
    pub cost_model_id: String,
    /// That cost model's version.
    pub cost_model_version: String,
    /// Its configuration, weights included.
    pub cost_model_configuration: BTreeMap<String, String>,
    /// The optimization passes that ran, in order.
    pub pass_pipeline: Vec<String>,
    /// The lowering steps that ran, in order.
    pub lowering_steps: Vec<String>,
    /// Decomposition rules that fired.
    pub decomposition_rules: Vec<String>,
    /// Where each logical qubit started: logical index to physical index.
    pub initial_layout: Vec<u32>,
    /// Where each logical qubit ended.
    pub final_layout: Vec<u32>,
    /// SWAPs routing inserted.
    pub swaps_inserted: usize,
    /// Shots requested.
    pub shots: u32,
    /// The simulator seed, when one was fixed.
    pub seed: Option<u64>,
}

/// How many shots to take, with what seed, and whether to keep per-shot
/// results.
#[derive(Debug, Clone, PartialEq, Eq)]
pub struct ExecutionSettings {
    /// Number of shots.
    pub shots: u32,
    /// Seed for a simulator's sampler, when reproducibility is wanted.
    pub seed: Option<u64>,
    /// Whether to keep the result of every shot.
    pub memory: bool,
}

impl Default for ExecutionSettings {
    /// 1024 shots, no seed, no per-shot memory.
    fn default() -> (r: Self)
        ensures
            r.shots == 1024,
            r.seed is None,
            !r.memory,
    {
        ExecutionSettings { shots: 1024, seed: None, memory: false }
    }
}

/// The total of the counts of a measurement histogram.
pub open spec fn count_total(counts: Seq<(String, u64)>) -> int
    decreases counts.len(),
{
    if counts.len() == 0 {
        0
    } else {
        count_total(counts.drop_last()) + counts.last().1
    }
}

/// Total shots actually observed: the sum of a histogram's counts, one
/// entry per measured bitstring. Derived from the data rather than from the
/// shots requested, so a backend that returned fewer is visible.
pub fn observed_shots(counts: &Vec<(String, u64)>) -> (r: u64)
    requires
        count_total(counts@) <= u64::MAX,
    ensures
        r == count_total(counts@),
{
    let mut total: u64 = 0;
    let mut k: usize = 0;
    while k < counts.len()
        invariant
            k <= counts@.len(),
            count_total(counts@) <= u64::MAX,
            total == count_total(counts@.take(k as int)),
        decreases counts@.len() - k,
    {
        proof {
            assert(counts@.take(k as int + 1).drop_last() =~= counts@.take(k as int));
            lemma_total_prefix(counts@, k as nat + 1);
        }
        total = total + counts[k].1;
        k += 1;
    }
    proof {
        assert(counts@.take(counts@.len() as int) =~= counts@);
    }
    total
}

/// A prefix of a histogram never totals more than the whole.
proof fn lemma_total_prefix(counts: Seq<(String, u64)>, k: nat)
    requires
        k <= counts.len(),
    ensures
        count_total(counts.take(k as int)) <= count_total(counts),
    decreases counts.len() - k,
{
    if k < counts.len() {
        lemma_total_prefix(counts, k + 1);
        assert(counts.take(k as int + 1).drop_last() =~= counts.take(k as int));
    } else {
        assert(counts.take(k as int) =~= counts);
    }
}

/// Whether `(bits, count)` is the most frequent outcome of a histogram: it
/// is an entry, no entry is more frequent, and no entry as frequent has a
/// bitstring that sorts before it.
pub open spec fn is_most_frequent(counts: Seq<(String, u64)>, bits: Seq<char>, count: u64) -> bool {
    &&& exists|k: int| 0 <= k < counts.len() && (#[trigger] counts[k]).0@ == bits && counts[k].1 == count
    &&& forall|k: int| 0 <= k < counts.len() ==> (#[trigger] counts[k]).1 <= count
    &&& forall|k: int|
        0 <= k < counts.len() && (#[trigger] counts[k]).1 == count ==> !text_lt(counts[k].0@, bits)
}

/// The most frequent outcome with its count. Ties go to the bitstring that
/// sorts first, so the answer depends on the data alone, not on the order
/// of the entries.
pub fn most_frequent(counts: &Vec<(String, u64)>) -> (r: Option<(String, u64)>)
    ensures
        r is None <==> counts@.len() == 0,
        r matches Some((bits, count)) ==> is_most_frequent(counts@, bits@, count),
{
    if counts.len() == 0 {
        return None;
    }
    let mut best: usize = 0;
    let mut k: usize = 1;
    proof {
        lemma_text_lt_order(counts@[0].0@, counts@[0].0@, counts@[0].0@);
    }
    while k < counts.len()
        invariant
            1 <= k <= counts@.len(),
            best < k,
            forall|j: int| 0 <= j < k ==> (#[trigger] counts@[j]).1 <= counts@[best as int].1,
            forall|j: int|
                0 <= j < k && (#[trigger] counts@[j]).1 == counts@[best as int].1 ==> !text_lt(
                    counts@[j].0@,
                    counts@[best as int].0@,
                ),
        decreases counts@.len() - k,
    {
        let here = &counts[k];
        let top = &counts[best];
        if here.1 > top.1 || (here.1 == top.1 && text_before(here.0.as_str(), top.0.as_str())) {
            proof {
                assert forall|j: int|
                    0 <= j < k + 1 && (#[trigger] counts@[j]).1 == counts@[k as int].1 implies !text_lt(
                    counts@[j].0@,
                    counts@[k as int].0@,
                ) by {
                    lemma_text_lt_order(counts@[j].0@, counts@[k as int].0@, counts@[best as int].0@);
                }
            }
            best = k;
        } else {
            proof {
                lemma_text_lt_order(counts@[k as int].0@, counts@[k as int].0@, counts@[k as int].0@);
            }
        }
        k += 1;
    }
    let bits = counts[best].0.clone();
    let count = counts[best].1;
    proof {
        assert(bits@ == counts@[best as int].0@);
        assert(counts@[best as int].0@ == bits@ && counts@[best as int].1 == count);
    }
    Some((bits, count))
}

/// Whether histogram `a` has an entry with this bitstring and count.
pub open spec fn has_entry(a: Seq<(String, u64)>, bits: Seq<char>, count: u64) -> bool {
    exists|j: int| 0 <= j < a.len() && (#[trigger] a[j]).0@ == bits && a[j].1 == count
}

/// The most frequent outcome is a function of the histogram's entries, not
/// of their order: two histograms with the same entries have the same one.
pub proof fn lemma_most_frequent_order_free(
    a: Seq<(String, u64)>,
    b: Seq<(String, u64)>,
    bits_a: Seq<char>,
    count_a: u64,
    bits_b: Seq<char>,
    count_b: u64,
)
    requires
        forall|k: int| 0 <= k < a.len() ==> has_entry(b, (#[trigger] a[k]).0@, a[k].1),
        forall|k: int| 0 <= k < b.len() ==> has_entry(a, (#[trigger] b[k]).0@, b[k].1),
        is_most_frequent(a, bits_a, count_a),
        is_most_frequent(b, bits_b, count_b),
    ensures
        bits_a == bits_b,
        count_a == count_b,
{
    let ka = choose|k: int| 0 <= k < a.len() && (#[trigger] a[k]).0@ == bits_a && a[k].1 == count_a;
    let kb = choose|k: int| 0 <= k < b.len() && (#[trigger] b[k]).0@ == bits_b && b[k].1 == count_b;
    assert(has_entry(b, a[ka].0@, a[ka].1));
    assert(has_entry(a, b[kb].0@, b[kb].1));
    let ja = choose|j: int| 0 <= j < b.len() && (#[trigger] b[j]).0@ == bits_a && b[j].1 == count_a;
    let jb = choose|j: int| 0 <= j < a.len() && (#[trigger] a[j]).0@ == bits_b && a[j].1 == count_b;
    assert(b[ja].1 <= count_b);
    assert(a[jb].1 <= count_a);
    lemma_text_lt_order(bits_a, bits_b, bits_a);
}

} // verus!
