//! Bounded retry polling of a block observation.
//!
//! State updates reach the observer some time after the command that caused
//! them, so a single read is unreliable. The poller is the decision half of a
//! loop whose other half probes and sleeps: it is told each observation and
//! answers whether to stop or to probe again.

use vstd::prelude::*;
use crate::matching::{block_matches, ids_match};

verus! {

/// How many observations a poll makes at most, unless told otherwise.
pub const BLOCK_POLL_ATTEMPTS: u32 = 10;

/// The pause between two observations, in milliseconds.
pub const BLOCK_POLL_DELAY_MS: u64 = 50;

/// What the poller decides after an observation.
#[derive(Clone, Copy, Debug, PartialEq, Eq, Structural)]
pub enum PollStep {
    /// The observation matches: stop and report it.
    Matched,
    /// No match yet: wait the poll delay and observe again.
    Retry,
    /// No match and no attempts left: report this last observation.
    Exhausted,
}

/// The decision after observation number `made` (counting from 1) out of at
/// most `max`.
pub open spec fn poll_decision(made: nat, max: nat, matched: bool) -> PollStep {
    if matched {
        PollStep::Matched
    } else if made < max {
        PollStep::Retry
    } else {
        PollStep::Exhausted
    }
}

/// Polls until an observed block matches `expected`, for at most
/// `max_attempts` observations.
pub struct RetryPoller {
    pub expected: String,
    pub max_attempts: u32,
    pub attempts: u32,
}

impl RetryPoller {
    /// A poller that has made no observation yet.
    pub fn new(expected: String, max_attempts: u32) -> (r: RetryPoller)
        requires
            max_attempts >= 1,
        ensures
            r.expected@ == expected@,
            r.max_attempts == max_attempts,
            r.attempts == 0,
            r.wf(),
    {
        RetryPoller { expected, max_attempts, attempts: 0 }
    }

    /// A poller may still observe: it has attempts left and has not stopped.
    pub open spec fn wf(&self) -> bool {
        self.attempts < self.max_attempts
    }

    /// Takes one observation and decides. A match stops the poll at once;
    /// otherwise the poll goes on while attempts remain.
    pub fn observe(&mut self, observed: &Option<String>) -> (r: PollStep)
        requires
            old(self).wf(),
        ensures
            final(self).attempts == old(self).attempts + 1,
            final(self).max_attempts == old(self).max_attempts,
            final(self).expected == old(self).expected,
            r == poll_decision(
                final(self).attempts as nat,
                old(self).max_attempts as nat,
                match observed {
                    Some(o) => ids_match(o@, old(self).expected@),
                    None => false,
                },
            ),
            r == PollStep::Retry ==> final(self).wf(),
    {
        self.attempts = self.attempts + 1;
        let matched = match observed {
            Some(o) => block_matches(o.as_str(), self.expected.as_str()),
            None => false,
        };
        if matched {
            PollStep::Matched
        } else if self.attempts < self.max_attempts {
            PollStep::Retry
        } else {
            PollStep::Exhausted
        }
    }
}

/// How many observations a poll of at most `max` makes when the successive
/// observations match as `matches` says, having made `made` already.
pub open spec fn observations_made(matches: Seq<bool>, max: nat, made: nat) -> nat
    decreases max - made,
{
    if made >= max || made >= matches.len() {
        made
    } else if poll_decision(made + 1, max, matches[made as int]) == PollStep::Retry {
        observations_made(matches, max, made + 1)
    } else {
        made + 1
    }
}

/// A poll stops at the first matching observation: when observation `k`
/// (from 0) is the first that matches and `k < max`, exactly `k + 1`
/// observations are made.
pub proof fn lemma_poll_stops_at_first_match(matches: Seq<bool>, max: nat, k: nat)
    requires
        k < max,
        k < matches.len(),
        matches[k as int],
        forall|j: int| 0 <= j < k ==> !matches[j],
    ensures
        observations_made(matches, max, 0) == k + 1,
{
    lemma_poll_from(matches, max, k, 0);
}

proof fn lemma_poll_from(matches: Seq<bool>, max: nat, k: nat, made: nat)
    requires
        made <= k,
        k < max,
        k < matches.len(),
        matches[k as int],
        forall|j: int| 0 <= j < k ==> !matches[j],
    ensures
        observations_made(matches, max, made) == k + 1,
    decreases k - made,
{
    if made < k {
        lemma_poll_from(matches, max, k, made + 1);
    }
}

/// A poll in which nothing matches makes all `max` observations.
pub proof fn lemma_poll_exhausts(matches: Seq<bool>, max: nat)
    requires
        max <= matches.len(),
        forall|j: int| 0 <= j < max ==> !matches[j],
    ensures
        observations_made(matches, max, 0) == max,
{
    lemma_exhausts_from(matches, max, 0);
}

proof fn lemma_exhausts_from(matches: Seq<bool>, max: nat, made: nat)
    requires
        made <= max,
        max <= matches.len(),
        forall|j: int| 0 <= j < max ==> !matches[j],
    ensures
        observations_made(matches, max, made) == max,
    decreases max - made,
{
    if made < max {
        lemma_exhausts_from(matches, max, made + 1);
    }
}

} // verus!
