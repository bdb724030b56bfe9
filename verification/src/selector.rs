//! Latest-match selection: among the completed records, the one whose
//! completion timestamp denotes the greatest instant, ties going to the
//! record that appears later in the input.

use vstd::prelude::*;
use crate::record::MatchRecord;
use crate::timestamp::Timestamp;

verus! {

/// What can go fatally wrong inside a poll cycle's decision logic.
#[derive(Clone, Copy, Debug, PartialEq, Eq, Structural)]
pub enum PollError {
    /// A completed record's completion timestamp text does not parse.
    MalformedTimestamp,
}

/// Every listed index is in range and names a completed record.
pub open spec fn valid_completed(matches: Seq<MatchRecord>, completed: Seq<usize>) -> bool {
    forall|k: int| 0 <= k < completed.len()
        ==> (#[trigger] completed[k]) < matches.len()
            && matches[completed[k] as int].is_completed()
}

/// Every listed record's timestamp text parses.
pub open spec fn all_parse(matches: Seq<MatchRecord>, completed: Seq<usize>) -> bool {
    forall|k: int| 0 <= k < completed.len()
        ==> matches[(#[trigger] completed[k]) as int].timestamp() is Some
}

/// Position `j` of `completed` holds the latest instant; ties go to the
/// later position.
pub open spec fn latest_at(matches: Seq<MatchRecord>, completed: Seq<usize>, j: int) -> bool {
    0 <= j < completed.len()
    && (forall|k: int| 0 <= k < completed.len()
        ==> matches[(#[trigger] completed[k]) as int].instant()
            <= matches[completed[j] as int].instant())
    && (forall|k: int| j < k < completed.len()
        ==> matches[(#[trigger] completed[k]) as int].instant()
            < matches[completed[j] as int].instant())
}

/// At most one position holds the latest instant with ties broken to the
/// later position: selection is deterministic, and re-running it on the
/// same input yields the same result.
pub proof fn lemma_latest_at_unique(
    matches: Seq<MatchRecord>, completed: Seq<usize>, j1: int, j2: int,
)
    requires
        latest_at(matches, completed, j1),
        latest_at(matches, completed, j2),
    ensures
        j1 == j2,
{
    if j1 < j2 {
        assert(matches[completed[j2] as int].instant()
            < matches[completed[j1] as int].instant());
    }
    if j2 < j1 {
        assert(matches[completed[j1] as int].instant()
            < matches[completed[j2] as int].instant());
    }
}

/// Any two indices that selection can return for the same input are the
/// same index: the selector is idempotent.
pub proof fn lemma_selection_deterministic(
    matches: Seq<MatchRecord>, completed: Seq<usize>, i1: usize, i2: usize,
)
    requires
        exists|j: int| latest_at(matches, completed, j) && completed[j] == i1,
        exists|j: int| latest_at(matches, completed, j) && completed[j] == i2,
    ensures
        i1 == i2,
{
    let j1 = choose|j: int| latest_at(matches, completed, j) && completed[j] == i1;
    let j2 = choose|j: int| latest_at(matches, completed, j) && completed[j] == i2;
    lemma_latest_at_unique(matches, completed, j1, j2);
}

/// Select the completed record with the greatest completion instant,
/// breaking ties toward the later entry of `completed`. Fails with
/// `MalformedTimestamp` exactly when some listed record's timestamp text
/// does not parse.
pub fn select_latest(matches: &Vec<MatchRecord>, completed: &Vec<usize>) -> (r: Result<
    usize,
    PollError,
>)
    requires
        completed@.len() > 0,
        valid_completed(matches@, completed@),
    ensures
        (r is Err) <==> !all_parse(matches@, completed@),
        (r matches Err(e) ==> e == PollError::MalformedTimestamp),
        (r matches Ok(i) ==> exists|j: int|
            latest_at(matches@, completed@, j) && completed@[j] == i),
{
    let n = completed.len();
    let mut ts: Vec<Timestamp> = Vec::new();
    for k in 0..n
        invariant
            n == completed@.len(),
            valid_completed(matches@, completed@),
            ts@.len() == k,
            forall|m: int| 0 <= m < k
                ==> matches@[completed@[m] as int].timestamp() == Some(#[trigger] ts@[m])
                    && ts@[m].wf(),
    {
        let idx = completed[k];
        match matches[idx].parsed_timestamp() {
            Some(t) => { ts.push(t); },
            None => {
                proof {
                    assert(matches@[completed@[k as int] as int].timestamp() is None);
                    assert(!all_parse(matches@, completed@));
                }
                return Err(PollError::MalformedTimestamp);
            },
        }
    }
    assert(all_parse(matches@, completed@)) by {
        assert forall|k: int| 0 <= k < completed@.len() implies
            matches@[(#[trigger] completed@[k]) as int].timestamp() is Some by {
            assert(matches@[completed@[k] as int].timestamp() == Some(ts@[k]));
        }
    }
    let mut best: usize = 0;
    for k in 1..n
        invariant
            n == completed@.len(),
            valid_completed(matches@, completed@),
            ts@.len() == n,
            forall|m: int| 0 <= m < n
                ==> matches@[completed@[m] as int].timestamp() == Some(#[trigger] ts@[m])
                    && ts@[m].wf(),
            best < k,
            forall|m: int| 0 <= m < k
                ==> matches@[(#[trigger] completed@[m]) as int].instant()
                    <= matches@[completed@[best as int] as int].instant(),
            forall|m: int| best < m < k
                ==> matches@[(#[trigger] completed@[m]) as int].instant()
                    < matches@[completed@[best as int] as int].instant(),
    {
        if ts[best].le(&ts[k]) {
            best = k;
        }
    }
    assert(latest_at(matches@, completed@, best as int));
    Ok(completed[best])
}

} // verus!
