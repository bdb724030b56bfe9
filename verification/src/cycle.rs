//! One poll cycle's decision logic, as a pure function of the baseline
//! state and the freshly fetched match list. The caller performs the
//! fetch beforehand and the console output, notification dispatch and
//! sleep afterwards.

use vstd::prelude::*;
use crate::record::MatchRecord;
use crate::record::completed_index_seq;
use crate::record::completed_indices;
use crate::record::lemma_completed_index_seq;
use crate::selector::PollError;
use crate::selector::latest_at;
use crate::selector::select_latest;
use crate::selector::valid_completed;
use crate::tracker::PollState;
use crate::tracker::ProgressDecision;
use crate::tracker::assess_progress;
use crate::tracker::spec_progress;

verus! {

/// Index `i` names the latest completed record of `matches`: its
/// instant is at or above every completed record's, and strictly above
/// those of completed records later in the input — ties go to the later
/// record.
pub open spec fn is_latest_match(matches: Seq<MatchRecord>, i: int) -> bool {
    0 <= i < matches.len() && matches[i].is_completed()
    && (forall|k: int| 0 <= k < matches.len() && (#[trigger] matches[k]).is_completed()
        ==> matches[k].instant() <= matches[i].instant())
    && (forall|k: int| i < k < matches.len() && (#[trigger] matches[k]).is_completed()
        ==> matches[k].instant() < matches[i].instant())
}

/// Some completed record of `matches` carries a timestamp text that
/// does not parse.
pub open spec fn has_malformed_completed(matches: Seq<MatchRecord>) -> bool {
    exists|i: int| 0 <= i < matches.len() && (#[trigger] matches[i]).is_completed()
        && matches[i].timestamp() is None
}

/// What one cycle decides.
#[derive(Clone, Copy, Debug, PartialEq, Eq)]
pub enum CycleOutcome {
    /// Nothing to announce; `last_completed` is the index of the last
    /// completed record in input order, if any, for verbose display.
    NoNewMatches { last_completed: Option<usize> },
    /// Announce the record at index `notify`: the latest completed match.
    NewMatchFound { notify: usize },
}

/// Everything one successful cycle reports back.
#[derive(Clone, Copy, Debug, PartialEq, Eq)]
pub struct CycleReport {
    /// The baseline to carry into the next cycle: always the current
    /// completed count, whatever was decided.
    pub new_state: PollState,
    /// How many of the fetched records are completed.
    pub completed_count: usize,
    /// How many records were fetched in all.
    pub total_count: usize,
    /// The decision.
    pub outcome: CycleOutcome,
}

/// Run the decision part of one poll cycle over the fetched `matches`:
/// count the completed records, compare against the baseline, and on
/// progress select the latest completed match to announce. Fails with
/// `MalformedTimestamp` exactly when progress was detected and some
/// completed record's timestamp text does not parse; without progress
/// nothing is parsed, as the selector is never consulted.
pub fn poll_cycle(state: &PollState, matches: &Vec<MatchRecord>) -> (r: Result<
    CycleReport,
    PollError,
>)
    ensures
        ({
            let cis = completed_index_seq(matches@);
            let cc = cis.len();
            let progress = spec_progress(cc, state.previous_completed_count as nat)
                is Progress;
            &&& ((r is Err) <==> (progress && has_malformed_completed(matches@)))
            &&& (r matches Err(e) ==> e == PollError::MalformedTimestamp)
            &&& (r matches Ok(rep) ==> {
                &&& rep.total_count == matches@.len()
                &&& rep.completed_count == cc
                &&& rep.new_state.previous_completed_count == cc
                &&& (!progress ==> (rep.outcome matches CycleOutcome::NoNewMatches {
                    last_completed }
                    && (cc == 0 ==> last_completed is None)
                    && (cc > 0 ==> (last_completed matches Some(x) && x as int == cis[
                        cc - 1]))))
                &&& (progress ==> (rep.outcome matches CycleOutcome::NewMatchFound { notify }
                    && is_latest_match(matches@, notify as int)))
            })
        }),
{
    let ghost cis = completed_index_seq(matches@);
    let completed = completed_indices(matches);
    proof {
        lemma_completed_index_seq(matches@);
        assert forall|k: int| 0 <= k < completed@.len() implies
            (#[trigger] completed@[k]) < matches@.len()
                && matches@[completed@[k] as int].is_completed() by {
            assert(completed@[k] as int == cis[k]);
        }
        assert(valid_completed(matches@, completed@));
    }
    let cc = completed.len();
    let total = matches.len();
    let decision = assess_progress(cc, state.previous_completed_count);
    let new_state = PollState { previous_completed_count: cc };
    match decision {
        ProgressDecision::NoProgress => {
            let last_completed = if cc == 0 {
                None
            } else {
                proof {
                    assert(completed@[cc - 1] as int == cis[cc - 1]);
                }
                Some(completed[cc - 1])
            };
            Ok(CycleReport {
                new_state,
                completed_count: cc,
                total_count: total,
                outcome: CycleOutcome::NoNewMatches { last_completed },
            })
        },
        ProgressDecision::Progress => {
            match select_latest(matches, &completed) {
                Ok(i) => {
                    proof {
                        lemma_selection_to_matches(matches@, completed@, i);
                        assert(!has_malformed_completed(matches@)) by {
                            assert forall|m: int| 0 <= m < matches@.len()
                                && (#[trigger] matches@[m]).is_completed() implies
                                matches@[m].timestamp() is Some by {
                                assert(cis.contains(m));
                                let j = choose|j: int| 0 <= j < cis.len() && cis[j] == m;
                                assert(completed@[j] as int == cis[j]);
                                assert(matches@[(completed@[j]) as int].timestamp()
                                    is Some);
                            }
                        }
                    }
                    Ok(CycleReport {
                        new_state,
                        completed_count: cc,
                        total_count: total,
                        outcome: CycleOutcome::NewMatchFound { notify: i },
                    })
                },
                Err(e) => {
                    proof {
                        let k = choose|k: int| 0 <= k < completed@.len()
                            && !(matches@[(completed@[k]) as int].timestamp() is Some);
                        assert(completed@[k] as int == cis[k]);
                        let w = completed@[k] as int;
                        assert(0 <= w < matches@.len() && matches@[w].is_completed()
                            && matches@[w].timestamp() is None);
                    }
                    Err(e)
                },
            }
        },
    }
}

/// A position that is latest within the completed-index list names the
/// latest completed match of the whole list: the completed indices are
/// exactly the completed records, in input order.
proof fn lemma_selection_to_matches(
    matches: Seq<MatchRecord>, completed: Seq<usize>, i: usize,
)
    requires
        completed.map_values(|x: usize| x as int) == completed_index_seq(matches),
        exists|j: int| latest_at(matches, completed, j) && completed[j] == i,
    ensures
        is_latest_match(matches, i as int),
{
    let cis = completed_index_seq(matches);
    lemma_completed_index_seq(matches);
    let j = choose|j: int| latest_at(matches, completed, j) && completed[j] == i;
    assert(completed[j] as int == cis[j]);
    assert(matches[i as int].is_completed());
    assert forall|k: int| 0 <= k < matches.len() && (#[trigger] matches[k]).is_completed()
        implies matches[k].instant() <= matches[i as int].instant() by {
        assert(cis.contains(k));
        let m = choose|m: int| 0 <= m < cis.len() && cis[m] == k;
        assert(completed[m] as int == cis[m]);
        assert(matches[(completed[m]) as int].instant()
            <= matches[completed[j] as int].instant());
    }
    assert forall|k: int| i < k < matches.len() && (#[trigger] matches[k]).is_completed()
        implies matches[k].instant() < matches[i as int].instant() by {
        assert(cis.contains(k));
        let m = choose|m: int| 0 <= m < cis.len() && cis[m] == k;
        assert(completed[m] as int == cis[m]);
        if m <= j {
            if m < j {
                assert(cis[m] < cis[j]);
            }
            assert(false);
        }
        assert(matches[(completed[m]) as int].instant()
            < matches[completed[j] as int].instant());
    }
}

} // verus!
