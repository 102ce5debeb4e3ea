//! Structural diffing of two circuits.
//!
//! A diff is a sequence of kept, removed and added instructions, in the
//! shape of `git diff`. It is a longest-common-subsequence alignment of the
//! two instruction lists: kept instructions are as many as a longest common
//! subsequence holds, dropping the kept and added entries gives back the
//! "before" circuit, and dropping the kept and removed ones gives back the
//! "after" circuit.
use vstd::prelude::*;

use crate::ir::qc::{insts_model, Circuit, Instruction, InstructionModel};

verus! {

/// The abstract value of a [`DiffEntry`].
pub enum EntryModel {
    /// Present in both circuits.
    Unchanged(InstructionModel),
    /// Present only in the "before" circuit.
    Removed(InstructionModel),
    /// Present only in the "after" circuit.
    Added(InstructionModel),
}

/// One aligned position in a circuit diff.
#[derive(Debug, Clone, PartialEq)]
pub enum DiffEntry {
    /// Present in both circuits.
    Unchanged(Instruction),
    /// Present only in the "before" circuit.
    Removed(Instruction),
    /// Present only in the "after" circuit.
    Added(Instruction),
}

impl View for DiffEntry {
    type V = EntryModel;

    open spec fn view(&self) -> EntryModel {
        match self {
            DiffEntry::Unchanged(i) => EntryModel::Unchanged(i@),
            DiffEntry::Removed(i) => EntryModel::Removed(i@),
            DiffEntry::Added(i) => EntryModel::Added(i@),
        }
    }
}

/// The models of a list of entries.
pub open spec fn entries_model(es: Seq<DiffEntry>) -> Seq<EntryModel> {
    es.map_values(|e: DiffEntry| e@)
}

/// The instruction an entry refers to.
pub open spec fn entry_instruction(e: EntryModel) -> InstructionModel {
    match e {
        EntryModel::Unchanged(i) => i,
        EntryModel::Removed(i) => i,
        EntryModel::Added(i) => i,
    }
}

impl DiffEntry {
    /// The instruction this entry refers to, whatever its disposition.
    pub fn instruction(&self) -> (r: &Instruction)
        ensures
            r@ == entry_instruction(self@),
    {
        match self {
            DiffEntry::Unchanged(i) => i,
            DiffEntry::Removed(i) => i,
            DiffEntry::Added(i) => i,
        }
    }

    /// The `git`-style marker for this entry: `' '`, `'-'` or `'+'`.
    pub fn marker(&self) -> (r: char)
        ensures
            r == match self@ {
                EntryModel::Unchanged(_) => ' ',
                EntryModel::Removed(_) => '-',
                EntryModel::Added(_) => '+',
            },
    {
        match self {
            DiffEntry::Unchanged(_) => ' ',
            DiffEntry::Removed(_) => '-',
            DiffEntry::Added(_) => '+',
        }
    }
}

/// The length of a longest common subsequence of `a` and `b`, by the
/// textbook recurrence.
pub open spec fn lcs_len(a: Seq<InstructionModel>, b: Seq<InstructionModel>) -> nat
    decreases a.len() + b.len(),
{
    if a.len() == 0 || b.len() == 0 {
        0
    } else if a[0] == b[0] {
        lcs_len(a.drop_first(), b.drop_first()) + 1
    } else {
        let down = lcs_len(a.drop_first(), b);
        let right = lcs_len(a, b.drop_first());
        if down >= right {
            down
        } else {
            right
        }
    }
}

/// The alignment of `a` with `b`: a match is kept; otherwise the side whose
/// removal keeps the longer common subsequence available gives way, the
/// "before" side on a tie; once one side is exhausted the rest of the other
/// is removed or added.
pub open spec fn alignment(a: Seq<InstructionModel>, b: Seq<InstructionModel>) -> Seq<EntryModel>
    decreases a.len() + b.len(),
{
    if a.len() == 0 && b.len() == 0 {
        Seq::empty()
    } else if a.len() == 0 {
        seq![EntryModel::Added(b[0])] + alignment(a, b.drop_first())
    } else if b.len() == 0 {
        seq![EntryModel::Removed(a[0])] + alignment(a.drop_first(), b)
    } else if a[0] == b[0] {
        seq![EntryModel::Unchanged(a[0])] + alignment(a.drop_first(), b.drop_first())
    } else if lcs_len(a.drop_first(), b) >= lcs_len(a, b.drop_first()) {
        seq![EntryModel::Removed(a[0])] + alignment(a.drop_first(), b)
    } else {
        seq![EntryModel::Added(b[0])] + alignment(a, b.drop_first())
    }
}

/// The instructions of the entries present in the "before" circuit.
pub open spec fn before_side(es: Seq<EntryModel>) -> Seq<InstructionModel>
    decreases es.len(),
{
    if es.len() == 0 {
        Seq::empty()
    } else {
        match es[0] {
            EntryModel::Added(_) => before_side(es.drop_first()),
            _ => seq![entry_instruction(es[0])] + before_side(es.drop_first()),
        }
    }
}

/// The instructions of the entries present in the "after" circuit.
pub open spec fn after_side(es: Seq<EntryModel>) -> Seq<InstructionModel>
    decreases es.len(),
{
    if es.len() == 0 {
        Seq::empty()
    } else {
        match es[0] {
            EntryModel::Removed(_) => after_side(es.drop_first()),
            _ => seq![entry_instruction(es[0])] + after_side(es.drop_first()),
        }
    }
}

/// An entry's disposition: `0` unchanged, `1` removed, `2` added.
pub open spec fn disposition(e: EntryModel) -> u8 {
    match e {
        EntryModel::Unchanged(_) => 0,
        EntryModel::Removed(_) => 1,
        EntryModel::Added(_) => 2,
    }
}

/// How many entries have disposition `which`.
pub open spec fn count_of(es: Seq<EntryModel>, which: u8) -> nat
    decreases es.len(),
{
    if es.len() == 0 {
        0
    } else {
        count_of(es.drop_last(), which) + if disposition(es.last()) == which {
            1nat
        } else {
            0nat
        }
    }
}

/// The result of aligning two circuits.
#[derive(Debug, Clone, PartialEq, Default)]
pub struct CircuitDiff {
    /// Aligned entries, in order.
    pub entries: Vec<DiffEntry>,
}

impl CircuitDiff {
    /// Whether the two circuits have identical instruction sequences: every
    /// entry is unchanged.
    pub fn is_empty(&self) -> (r: bool)
        ensures
            r == (forall|k: int|
                0 <= k < self.entries@.len() ==> #[trigger] self.entries@[k]@ is Unchanged),
    {
        let mut i: usize = 0;
        while i < self.entries.len()
            invariant
                i <= self.entries@.len(),
                forall|k: int| 0 <= k < i ==> #[trigger] self.entries@[k]@ is Unchanged,
            decreases self.entries@.len() - i,
        {
            match &self.entries[i] {
                DiffEntry::Unchanged(_) => {},
                _ => {
                    proof {
                        assert(!(self.entries@[i as int]@ is Unchanged));
                    }
                    return false;
                },
            }
            i += 1;
        }
        true
    }

    /// Number of instructions present only in the "before" circuit.
    pub fn removed_count(&self) -> (r: usize)
        ensures
            r == count_of(entries_model(self.entries@), 1),
    {
        self.count_disposition(1)
    }

    /// Number of instructions present only in the "after" circuit.
    pub fn added_count(&self) -> (r: usize)
        ensures
            r == count_of(entries_model(self.entries@), 2),
    {
        self.count_disposition(2)
    }

    /// Counts the entries of one disposition.
    fn count_disposition(&self, which: u8) -> (r: usize)
        ensures
            r == count_of(entries_model(self.entries@), which),
    {
        let ghost es = entries_model(self.entries@);
        let mut n: usize = 0;
        let mut i: usize = 0;
        while i < self.entries.len()
            invariant
                i <= self.entries@.len(),
                es == entries_model(self.entries@),
                n == count_of(es.take(i as int), which),
                n <= i,
            decreases self.entries@.len() - i,
        {
            let d: u8 = match &self.entries[i] {
                DiffEntry::Unchanged(_) => 0,
                DiffEntry::Removed(_) => 1,
                DiffEntry::Added(_) => 2,
            };
            proof {
                assert(es.take(i + 1).drop_last() =~= es.take(i as int));
                assert(es.take(i + 1).last() == es[i as int]);
                assert(es[i as int] == self.entries@[i as int]@);
            }
            if d == which {
                n += 1;
            }
            i += 1;
        }
        proof {
            assert(es.take(self.entries@.len() as int) =~= es);
        }
        n
    }
}

/// A longest common subsequence is no longer than either side.
pub proof fn lemma_lcs_bounded(a: Seq<InstructionModel>, b: Seq<InstructionModel>)
    ensures
        lcs_len(a, b) <= a.len(),
        lcs_len(a, b) <= b.len(),
    decreases a.len() + b.len(),
{
    if a.len() > 0 && b.len() > 0 {
        lemma_lcs_bounded(a.drop_first(), b.drop_first());
        lemma_lcs_bounded(a.drop_first(), b);
        lemma_lcs_bounded(a, b.drop_first());
    }
}

/// Aligns two circuits' instruction sequences.
pub fn diff_circuits(before: &Circuit, after: &Circuit) -> (r: CircuitDiff)
    requires
        before@.instructions.len() < usize::MAX,
        after@.instructions.len() < usize::MAX,
    ensures
        entries_model(r.entries@) == alignment(before@.instructions, after@.instructions),
{
    CircuitDiff { entries: align(before.instructions(), after.instructions()) }
}

/// Longest-common-subsequence alignment of two instruction slices.
fn align(before: &[Instruction], after: &[Instruction]) -> (r: Vec<DiffEntry>)
    requires
        before@.len() < usize::MAX,
        after@.len() < usize::MAX,
    ensures
        entries_model(r@) == alignment(insts_model(before@), insts_model(after@)),
{
    let n = before.len();
    let m = after.len();
    let ghost a = insts_model(before@);
    let ghost b = insts_model(after@);
    // rows[k] holds, for i = n - k, the LCS lengths of a[i..] against every
    // suffix of b.
    let mut rows: Vec<Vec<usize>> = Vec::new();
    let mut last: Vec<usize> = Vec::new();
    let mut z: usize = 0;
    while z <= m
        invariant
            z <= m + 1,
            m < usize::MAX,
            m == b.len(),
            n == a.len(),
            last@.len() == z,
            forall|jj: int| 0 <= jj < z ==> #[trigger] last@[jj] == lcs_len(
                a.subrange(n as int, n as int),
                b.subrange(jj, m as int),
            ),
        decreases m + 1 - z,
    {
        last.push(0);
        z += 1;
    }
    rows.push(last);
    let mut k: usize = 0;
    while k < n
        invariant
            k <= n,
            n == a.len(),
            m == b.len(),
            a == insts_model(before@),
            b == insts_model(after@),
            rows@.len() == k + 1,
            m < usize::MAX,
            forall|kk: int| 0 <= kk <= k ==> (#[trigger] rows@[kk])@.len() == m + 1,
            forall|kk: int, jj: int|
                0 <= kk <= k && 0 <= jj <= m ==> #[trigger] rows@[kk]@[jj] == lcs_len(
                    a.subrange(n - kk, n as int),
                    b.subrange(jj, m as int),
                ),
        decreases n - k,
    {
        let i = n - k - 1;
        let prev = &rows[k];
        let mut row: Vec<usize> = Vec::new();
        let mut z2: usize = 0;
        while z2 <= m
            invariant
                z2 <= m + 1,
                m < usize::MAX,
                row@.len() == z2,
                forall|jj: int| 0 <= jj < z2 ==> #[trigger] row@[jj] == 0,
            decreases m + 1 - z2,
        {
            row.push(0);
            z2 += 1;
        }
        let ghost sa = a.subrange(i as int, n as int);
        proof {
            assert(sa.drop_first() =~= a.subrange(i + 1, n as int));
            assert(sa[0] == a[i as int]);
            assert(b.subrange(m as int, m as int).len() == 0);
        }
        let mut j: usize = m;
        while j > 0
            invariant
                j <= m,
                i < n,
                n == a.len(),
                m == b.len(),
                a == insts_model(before@),
                b == insts_model(after@),
                sa == a.subrange(i as int, n as int),
                sa.drop_first() == a.subrange(i + 1, n as int),
                sa[0] == a[i as int],
                prev@.len() == m + 1,
                forall|jj: int| 0 <= jj <= m ==> #[trigger] prev@[jj] == lcs_len(
                    a.subrange(i + 1, n as int),
                    b.subrange(jj, m as int),
                ),
                row@.len() == m + 1,
                row@[m as int] == 0,
                forall|jj: int| j <= jj <= m ==> #[trigger] row@[jj] == lcs_len(
                    sa,
                    b.subrange(jj, m as int),
                ),
            decreases j,
        {
            let jj = j - 1;
            let ghost sb = b.subrange(jj as int, m as int);
            proof {
                assert(sb.drop_first() =~= b.subrange(jj + 1, m as int));
                assert(sb[0] == b[jj as int]);
                assert(before@[i as int]@ == a[i as int]);
                assert(after@[jj as int]@ == b[jj as int]);
                lemma_lcs_bounded(a.subrange(i + 1, n as int), b.subrange(jj + 1, m as int));
            }
            let v = if before[i].same_as(&after[jj]) {
                prev[jj + 1] + 1
            } else {
                let down = prev[jj];
                let right = row[jj + 1];
                if down >= right {
                    down
                } else {
                    right
                }
            };
            row.set(jj, v);
            j = jj;
        }
        rows.push(row);
        proof {
            assert forall|jj: int| 0 <= jj <= m implies #[trigger] rows@[k + 1]@[jj] == lcs_len(
                a.subrange(n - (k + 1), n as int),
                b.subrange(jj, m as int),
            ) by {
                assert(a.subrange(n - (k + 1), n as int) == sa);
            }
        }
        k += 1;
    }
    let mut out: Vec<DiffEntry> = Vec::new();
    let mut i: usize = 0;
    let mut j: usize = 0;
    proof {
        assert(a.subrange(0, n as int) =~= a);
        assert(b.subrange(0, m as int) =~= b);
        assert(entries_model(out@) + alignment(a, b) =~= alignment(a, b));
    }
    while i < n && j < m
        invariant
            i <= n,
            j <= m,
            n == a.len(),
            m == b.len(),
            a == insts_model(before@),
            b == insts_model(after@),
            rows@.len() == n + 1,
            forall|kk: int| 0 <= kk <= n ==> (#[trigger] rows@[kk])@.len() == m + 1,
            forall|kk: int, jj: int|
                0 <= kk <= n && 0 <= jj <= m ==> #[trigger] rows@[kk]@[jj] == lcs_len(
                    a.subrange(n - kk, n as int),
                    b.subrange(jj, m as int),
                ),
            entries_model(out@) + alignment(a.subrange(i as int, n as int), b.subrange(j as int, m as int))
                == alignment(a, b),
        decreases n - i + m - j,
    {
        let ghost sa = a.subrange(i as int, n as int);
        let ghost sb = b.subrange(j as int, m as int);
        let ghost before_out = entries_model(out@);
        proof {
            assert(sa.drop_first() =~= a.subrange(i + 1, n as int));
            assert(sb.drop_first() =~= b.subrange(j + 1, m as int));
            assert(sa[0] == a[i as int]);
            assert(sb[0] == b[j as int]);
            assert(before@[i as int]@ == a[i as int]);
            assert(after@[j as int]@ == b[j as int]);
        }
        if before[i].same_as(&after[j]) {
            out.push(DiffEntry::Unchanged(before[i].clone()));
            proof {
                assert(entries_model(out@) =~= before_out.push(EntryModel::Unchanged(a[i as int])));
                assert(entries_model(out@) + alignment(sa.drop_first(), sb.drop_first()) =~= before_out
                    + alignment(sa, sb));
            }
            i += 1;
            j += 1;
        } else if rows[n - i - 1][j] >= rows[n - i][j + 1] {
            proof {
                assert(a.subrange(n - (n - i - 1), n as int) == sa.drop_first());
                assert(a.subrange(n - (n - i), n as int) == sa);
            }
            out.push(DiffEntry::Removed(before[i].clone()));
            proof {
                assert(entries_model(out@) =~= before_out.push(EntryModel::Removed(a[i as int])));
                assert(entries_model(out@) + alignment(sa.drop_first(), sb) =~= before_out
                    + alignment(sa, sb));
            }
            i += 1;
        } else {
            proof {
                assert(a.subrange(n - (n - i - 1), n as int) == sa.drop_first());
                assert(a.subrange(n - (n - i), n as int) == sa);
            }
            out.push(DiffEntry::Added(after[j].clone()));
            proof {
                assert(entries_model(out@) =~= before_out.push(EntryModel::Added(b[j as int])));
                assert(entries_model(out@) + alignment(sa, sb.drop_first()) =~= before_out
                    + alignment(sa, sb));
            }
            j += 1;
        }
    }
    while i < n
        invariant
            i <= n,
            j <= m,
            n == a.len(),
            m == b.len(),
            i < n ==> j == m,
            a == insts_model(before@),
            b == insts_model(after@),
            entries_model(out@) + alignment(a.subrange(i as int, n as int), b.subrange(j as int, m as int))
                == alignment(a, b),
        decreases n - i,
    {
        let ghost sa = a.subrange(i as int, n as int);
        let ghost sb = b.subrange(j as int, m as int);
        let ghost before_out = entries_model(out@);
        proof {
            assert(sa.drop_first() =~= a.subrange(i + 1, n as int));
            assert(sa[0] == a[i as int]);
            assert(before@[i as int]@ == a[i as int]);
            assert(sb.len() == 0);
        }
        out.push(DiffEntry::Removed(before[i].clone()));
        proof {
            assert(entries_model(out@) =~= before_out.push(EntryModel::Removed(a[i as int])));
            assert(entries_model(out@) + alignment(sa.drop_first(), sb) =~= before_out + alignment(sa, sb));
        }
        i += 1;
    }
    while j < m
        invariant
            i == n,
            j <= m,
            n == a.len(),
            m == b.len(),
            a == insts_model(before@),
            b == insts_model(after@),
            entries_model(out@) + alignment(a.subrange(i as int, n as int), b.subrange(j as int, m as int))
                == alignment(a, b),
        decreases m - j,
    {
        let ghost sa = a.subrange(i as int, n as int);
        let ghost sb = b.subrange(j as int, m as int);
        let ghost before_out = entries_model(out@);
        proof {
            assert(sb.drop_first() =~= b.subrange(j + 1, m as int));
            assert(sb[0] == b[j as int]);
            assert(after@[j as int]@ == b[j as int]);
            assert(sa.len() == 0);
        }
        out.push(DiffEntry::Added(after[j].clone()));
        proof {
            assert(entries_model(out@) =~= before_out.push(EntryModel::Added(b[j as int])));
            assert(entries_model(out@) + alignment(sa, sb.drop_first()) =~= before_out + alignment(sa, sb));
        }
        j += 1;
    }
    proof {
        assert(alignment(a.subrange(n as int, n as int), b.subrange(m as int, m as int)) =~= Seq::empty());
        assert(entries_model(out@) =~= entries_model(out@) + Seq::<EntryModel>::empty());
    }
    out
}

/// Dropping what was added gives back the "before" instructions, and
/// dropping what was removed gives back the "after" ones: a diff loses
/// nothing of either circuit.
pub proof fn lemma_alignment_sides(a: Seq<InstructionModel>, b: Seq<InstructionModel>)
    ensures
        before_side(alignment(a, b)) == a,
        after_side(alignment(a, b)) == b,
    decreases a.len() + b.len(),
{
    let al = alignment(a, b);
    if a.len() == 0 && b.len() == 0 {
    } else if a.len() == 0 {
        lemma_alignment_sides(a, b.drop_first());
        assert(al.drop_first() =~= alignment(a, b.drop_first()));
        assert(b =~= seq![b[0]] + b.drop_first());
    } else if b.len() == 0 {
        lemma_alignment_sides(a.drop_first(), b);
        assert(al.drop_first() =~= alignment(a.drop_first(), b));
        assert(a =~= seq![a[0]] + a.drop_first());
    } else if a[0] == b[0] {
        lemma_alignment_sides(a.drop_first(), b.drop_first());
        assert(al.drop_first() =~= alignment(a.drop_first(), b.drop_first()));
        assert(a =~= seq![a[0]] + a.drop_first());
        assert(b =~= seq![b[0]] + b.drop_first());
    } else if lcs_len(a.drop_first(), b) >= lcs_len(a, b.drop_first()) {
        lemma_alignment_sides(a.drop_first(), b);
        assert(al.drop_first() =~= alignment(a.drop_first(), b));
        assert(a =~= seq![a[0]] + a.drop_first());
    } else {
        lemma_alignment_sides(a, b.drop_first());
        assert(al.drop_first() =~= alignment(a, b.drop_first()));
        assert(b =~= seq![b[0]] + b.drop_first());
    }
}

/// Counting dispositions over an entry put in front.
proof fn lemma_count_front(e: EntryModel, rest: Seq<EntryModel>, which: u8)
    ensures
        count_of(seq![e] + rest, which) == count_of(rest, which) + if disposition(e) == which {
            1nat
        } else {
            0nat
        },
    decreases rest.len(),
{
    let all = seq![e] + rest;
    if rest.len() > 0 {
        lemma_count_front(e, rest.drop_last(), which);
        assert(all.drop_last() =~= seq![e] + rest.drop_last());
        assert(all.last() == rest.last());
        assert(count_of(all, which) == count_of(all.drop_last(), which) + if disposition(all.last())
            == which {
            1nat
        } else {
            0nat
        });
    } else {
        assert(all.drop_last() =~= Seq::<EntryModel>::empty());
        assert(all.last() == e);
        assert(count_of(Seq::<EntryModel>::empty(), which) == 0);
    }
}

/// The diff keeps exactly as many instructions as a longest common
/// subsequence of the two circuits holds.
pub proof fn lemma_alignment_optimal(a: Seq<InstructionModel>, b: Seq<InstructionModel>)
    ensures
        count_of(alignment(a, b), 0) == lcs_len(a, b),
    decreases a.len() + b.len(),
{
    let al = alignment(a, b);
    if a.len() == 0 && b.len() == 0 {
    } else if a.len() == 0 {
        lemma_alignment_optimal(a, b.drop_first());
        lemma_count_front(al[0], alignment(a, b.drop_first()), 0);
    } else if b.len() == 0 {
        lemma_alignment_optimal(a.drop_first(), b);
        lemma_count_front(al[0], alignment(a.drop_first(), b), 0);
    } else if a[0] == b[0] {
        lemma_alignment_optimal(a.drop_first(), b.drop_first());
        lemma_count_front(al[0], alignment(a.drop_first(), b.drop_first()), 0);
    } else if lcs_len(a.drop_first(), b) >= lcs_len(a, b.drop_first()) {
        lemma_alignment_optimal(a.drop_first(), b);
        lemma_count_front(al[0], alignment(a.drop_first(), b), 0);
    } else {
        lemma_alignment_optimal(a, b.drop_first());
        lemma_count_front(al[0], alignment(a, b.drop_first()), 0);
    }
}

/// A circuit compared with itself is unchanged throughout.
pub proof fn lemma_alignment_identical(a: Seq<InstructionModel>)
    ensures
        forall|k: int| 0 <= k < alignment(a, a).len() ==> #[trigger] alignment(a, a)[k] is Unchanged,
        alignment(a, a).len() == a.len(),
    decreases a.len(),
{
    if a.len() > 0 {
        lemma_alignment_identical(a.drop_first());
        let al = alignment(a, a);
        assert(al =~= seq![EntryModel::Unchanged(a[0])] + alignment(a.drop_first(), a.drop_first()));
        assert forall|k: int| 0 <= k < al.len() implies #[trigger] al[k] is Unchanged by {
            if k > 0 {
                assert(al[k] == alignment(a.drop_first(), a.drop_first())[k - 1]);
            }
        }
    }
}

} // verus!
