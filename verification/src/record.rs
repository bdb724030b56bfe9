//! Match records as the poller sees them: a completion timestamp text,
//! present exactly when the match has concluded, and opaque metadata.

use vstd::prelude::*;
use crate::timestamp::parse_spec;
use crate::timestamp::parse_rfc3339;
use crate::timestamp::Timestamp;

verus! {

/// One bracket match as reported by the remote service.
#[derive(Debug)]
pub struct MatchRecord {
    /// RFC 3339 completion timestamp text; `None` until the match has
    /// concluded. A record is completed exactly when this is present.
    pub completed_at: Option<Vec<u8>>,
    /// Everything else the service reports of the match (participants,
    /// scores), opaque to the core and carried through untouched.
    pub metadata: Vec<u8>,
}

impl MatchRecord {
    /// Completion state: the completion timestamp is present.
    pub open spec fn is_completed(self) -> bool {
        self.completed_at is Some
    }

    /// The timestamp a record carries, when it is completed and its
    /// text parses.
    pub open spec fn timestamp(self) -> Option<Timestamp> {
        match self.completed_at {
            Some(v) => parse_spec(v@),
            None => None,
        }
    }

    /// The instant of the record's timestamp; meaningful only when
    /// `timestamp()` is present.
    pub open spec fn instant(self) -> int
        recommends
            self.timestamp() is Some,
    {
        self.timestamp()->Some_0.instant()
    }

    /// Completion test, as in `is_completed`.
    pub fn has_completed(&self) -> (r: bool)
        ensures
            r == self.is_completed(),
    {
        self.completed_at.is_some()
    }

    /// Parse the record's completion timestamp text: `None` either when
    /// the record is not completed or when the text is malformed.
    pub fn parsed_timestamp(&self) -> (r: Option<Timestamp>)
        ensures
            r == self.timestamp(),
            (r matches Some(t) ==> t.wf()),
    {
        match &self.completed_at {
            Some(v) => parse_rfc3339(v),
            None => None,
        }
    }
}

/// The indices of the completed records of `s`, in input order.
pub open spec fn completed_index_seq(s: Seq<MatchRecord>) -> Seq<int>
    decreases s.len(),
{
    if s.len() == 0 {
        Seq::empty()
    } else {
        completed_index_seq(s.drop_last())
            + if s.last().is_completed() { seq![s.len() - 1] } else { Seq::empty() }
    }
}

/// What `completed_index_seq` holds: exactly the completed indices, in
/// range, strictly increasing, none missing.
pub proof fn lemma_completed_index_seq(s: Seq<MatchRecord>)
    ensures
        forall|j: int| 0 <= j < completed_index_seq(s).len()
            ==> 0 <= #[trigger] completed_index_seq(s)[j] < s.len()
                && s[completed_index_seq(s)[j]].is_completed(),
        forall|j1: int, j2: int| 0 <= j1 < j2 < completed_index_seq(s).len()
            ==> completed_index_seq(s)[j1] < completed_index_seq(s)[j2],
        forall|i: int| 0 <= i < s.len() && s[i].is_completed()
            ==> completed_index_seq(s).contains(i),
    decreases s.len(),
{
    let cis = completed_index_seq(s);
    if s.len() > 0 {
        let s0 = s.drop_last();
        let cis0 = completed_index_seq(s0);
        lemma_completed_index_seq(s0);
        assert forall|j: int| 0 <= j < cis.len() implies
            0 <= #[trigger] cis[j] < s.len() && s[cis[j]].is_completed() by {
            if j < cis0.len() {
                assert(cis[j] == cis0[j]);
                assert(s[cis0[j]] == s0[cis0[j]]);
            } else {
                assert(cis[j] == s.len() - 1);
            }
        }
        assert forall|i: int| 0 <= i < s.len() && s[i].is_completed() implies
            cis.contains(i) by {
            if i < s.len() - 1 {
                assert(s0[i] == s[i]);
                assert(cis0.contains(i));
                let j = choose|j: int| 0 <= j < cis0.len() && cis0[j] == i;
                assert(cis[j] == i);
            } else {
                assert(cis[cis0.len() as int] == i);
            }
        }
    }
}

/// Collect the indices of the completed records, in input order.
pub fn completed_indices(matches: &Vec<MatchRecord>) -> (r: Vec<usize>)
    ensures
        r@.map_values(|x: usize| x as int) == completed_index_seq(matches@),
{
    let mut r: Vec<usize> = Vec::new();
    let n = matches.len();
    for i in 0..n
        invariant
            n == matches@.len(),
            r@.map_values(|x: usize| x as int) == completed_index_seq(matches@.take(i as int)),
    {
        proof {
            assert(matches@.take(i + 1).drop_last() =~= matches@.take(i as int));
            assert(matches@.take(i + 1).last() == matches@[i as int]);
        }
        if matches[i].has_completed() {
            r.push(i);
            proof {
                assert(r@.map_values(|x: usize| x as int) =~= completed_index_seq(
                    matches@.take(i + 1)));
            }
        } else {
            proof {
                assert(r@.map_values(|x: usize| x as int) =~= completed_index_seq(
                    matches@.take(i + 1)));
            }
        }
    }
    proof {
        assert(matches@.take(n as int) =~= matches@);
    }
    r
}

} // verus!
