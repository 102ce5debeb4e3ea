//! What the command line decides before any compiling: which passes a run
//! selects, and which pipeline stages it records.
pub mod pipeline;
pub mod snapshot;

use vstd::prelude::*;

use crate::pass::{default_pipeline_ids, id_set, PassSelection, SelectionModel};
use crate::text::push_str;

verus! {

/// Whether `id` names a pass of the default pipeline.
pub open spec fn known_pass(id: Seq<char>) -> bool {
    id == "canonicalize"@ || id == "gate-cancellation"@ || id == "rotation-merge"@ || id
        == "schedule"@
}

/// The list of pass ids shown when an unknown one is named.
pub open spec fn available_passes() -> Seq<char> {
    "canonicalize, gate-cancellation, rotation-merge, canonicalize, schedule"@
}

/// The message refusing an unknown pass id.
pub open spec fn unknown_pass_message(id: Seq<char>) -> Seq<char> {
    "unknown pass `"@ + id + "`; available: "@ + available_passes()
}

/// The message refusing a run that both selects and disables passes.
pub open spec fn conflicting_selection_message() -> Seq<char> {
    "--passes and --disable cannot be combined; use one or the other"@
}

/// Rejects unknown pass ids rather than silently running a different
/// pipeline than the one asked for.
///
/// # Errors
///
/// The usage message naming the first unknown id and the ids available.
pub fn validate_ids(ids: &[String]) -> (r: Result<(), String>)
    ensures
        match r {
            Ok(()) => forall|k: int| 0 <= k < ids@.len() ==> known_pass((#[trigger] ids@[k])@),
            Err(m) => exists|k: int|
                0 <= k < ids@.len() && !known_pass((#[trigger] ids@[k])@) && (forall|j: int|
                    0 <= j < k ==> known_pass((#[trigger] ids@[j])@)) && m@ == unknown_pass_message(
                    ids@[k]@,
                ),
        },
{
    let known = default_pipeline_ids();
    let mut i: usize = 0;
    while i < ids.len()
        invariant
            i <= ids@.len(),
            known@.len() == 5,
            known@[0]@ == "canonicalize"@,
            known@[1]@ == "gate-cancellation"@,
            known@[2]@ == "rotation-merge"@,
            known@[3]@ == "canonicalize"@,
            known@[4]@ == "schedule"@,
            forall|k: int| 0 <= k < i ==> known_pass((#[trigger] ids@[k])@),
        decreases ids@.len() - i,
    {
        let mut found = false;
        let mut j: usize = 0;
        while j < known.len()
            invariant
                j <= known@.len(),
                known@.len() == 5,
                known@[0]@ == "canonicalize"@,
                known@[1]@ == "gate-cancellation"@,
                known@[2]@ == "rotation-merge"@,
                known@[3]@ == "canonicalize"@,
                known@[4]@ == "schedule"@,
                i < ids@.len(),
                found <==> exists|jj: int| 0 <= jj < j && (#[trigger] known@[jj])@ == ids@[i as int]@,
            decreases known@.len() - j,
        {
            if ids[i].eq(&known[j].to_string()) {
                found = true;
            }
            j += 1;
        }
        if !found {
            let mut m = String::new();
            push_str(&mut m, "unknown pass `");
            push_str(&mut m, ids[i].as_str());
            push_str(&mut m, "`; available: ");
            push_str(&mut m, "canonicalize, gate-cancellation, rotation-merge, canonicalize, schedule");
            proof {
                assert(m@ =~= unknown_pass_message(ids@[i as int]@));
                if known_pass(ids@[i as int]@) {
                    if ids@[i as int]@ == "canonicalize"@ {
                        assert((known@[0])@ == ids@[i as int]@);
                    } else if ids@[i as int]@ == "gate-cancellation"@ {
                        assert((known@[1])@ == ids@[i as int]@);
                    } else if ids@[i as int]@ == "rotation-merge"@ {
                        assert((known@[2])@ == ids@[i as int]@);
                    } else {
                        assert((known@[4])@ == ids@[i as int]@);
                    }
                }
            }
            return Err(m);
        }
        proof {
            let jj = choose|jj: int| 0 <= jj < 5 && (#[trigger] known@[jj])@ == ids@[i as int]@;
            assert(known_pass(ids@[i as int]@));
        }
        i += 1;
    }
    Ok(())
}

/// The pass selection a run's `--passes` and `--disable` lists ask for:
/// everything when both are empty, only the listed passes, or everything
/// but the listed ones.
///
/// # Errors
///
/// The usage message when both lists are given, or when a listed id names
/// no pass.
pub fn selection_from(only: &[String], except: &[String]) -> (r: Result<PassSelection, String>)
    ensures
        only@.len() == 0 && except@.len() == 0 ==> r is Ok && r->Ok_0@ is All,
        only@.len() > 0 && except@.len() == 0 ==> match r {
            Ok(s) => (forall|k: int| 0 <= k < only@.len() ==> known_pass((#[trigger] only@[k])@))
                && s@ == SelectionModel::Only(id_set(only@)),
            Err(m) => exists|k: int|
                0 <= k < only@.len() && !known_pass((#[trigger] only@[k])@) && m@
                    == unknown_pass_message(only@[k]@),
        },
        only@.len() == 0 && except@.len() > 0 ==> match r {
            Ok(s) => (forall|k: int| 0 <= k < except@.len() ==> known_pass((#[trigger] except@[k])@))
                && s@ == SelectionModel::AllExcept(id_set(except@)),
            Err(m) => exists|k: int|
                0 <= k < except@.len() && !known_pass((#[trigger] except@[k])@) && m@
                    == unknown_pass_message(except@[k]@),
        },
        only@.len() > 0 && except@.len() > 0 ==> r is Err && r->Err_0@ == conflicting_selection_message(),
{
    if only.len() == 0 && except.len() == 0 {
        Ok(PassSelection::All)
    } else if except.len() == 0 {
        match validate_ids(only) {
            Ok(()) => Ok(PassSelection::only(only)),
            Err(m) => Err(m),
        }
    } else if only.len() == 0 {
        match validate_ids(except) {
            Ok(()) => Ok(PassSelection::all_except(except)),
            Err(m) => Err(m),
        }
    } else {
        let mut m = String::new();
        push_str(&mut m, "--passes and --disable cannot be combined; use one or the other");
        Err(m)
    }
}

} // verus!
