//! The batch retry controller.
//!
//! It drives the group dispatcher across up to `max_retries` whole-batch
//! attempts, each over the still-missing subset of locations, folds every
//! attempt's results into a cumulative set, and decides after each attempt
//! whether to go on (after a backoff), stop complete, or stop exhausted —
//! the one case in which a notification is owed.

use vstd::prelude::*;

use crate::slots::{clone_bytes, LocationBookings, LocationView};
use crate::cache::bytes_eq;

verus! {

/// Whether `id` is one of the ids.
pub open spec fn in_ids(ids: Seq<Seq<u8>>, id: Seq<u8>) -> bool {
    exists|i: int| 0 <= i < ids.len() && ids[i] == id
}

/// Whether some entry is published under `id`.
pub open spec fn has_loc(rs: Seq<LocationView>, id: Seq<u8>) -> bool {
    exists|i: int| 0 <= i < rs.len() && rs[i].location == id
}

/// The entries of an attempt's result that answer still-missing locations,
/// in result order.
pub open spec fn captured_entries(remaining: Seq<Seq<u8>>, result: Seq<LocationView>) -> Seq<
    LocationView,
>
    decreases result.len(),
{
    if result.len() == 0 {
        Seq::empty()
    } else {
        captured_entries(remaining, result.drop_last()) + if in_ids(
            remaining,
            result.last().location,
        ) {
            seq![result.last()]
        } else {
            Seq::empty()
        }
    }
}

/// The locations still missing after an attempt: those the result did not
/// answer, in their old order.
pub open spec fn still_missing(remaining: Seq<Seq<u8>>, result: Seq<LocationView>) -> Seq<Seq<u8>>
    decreases remaining.len(),
{
    if remaining.len() == 0 {
        Seq::empty()
    } else {
        still_missing(remaining.drop_last(), result) + if has_loc(result, remaining.last()) {
            Seq::empty()
        } else {
            seq![remaining.last()]
        }
    }
}

/// No two entries answer the same location.
pub open spec fn unique_locs(rs: Seq<LocationView>) -> bool {
    forall|i: int, j: int|
        0 <= i < j < rs.len() ==> (#[trigger] rs[i]).location != (#[trigger] rs[j]).location
}

/// None of the entries answers one of the ids.
pub open spec fn locs_disjoint(rs: Seq<LocationView>, ids: Seq<Seq<u8>>) -> bool {
    forall|i: int| 0 <= i < rs.len() ==> !in_ids(ids, (#[trigger] rs[i]).location)
}

/// Whatever was captured answers a still-missing location and came from
/// the attempt's result.
proof fn lemma_captured_entries_from(remaining: Seq<Seq<u8>>, result: Seq<LocationView>)
    ensures
        forall|i: int|
            0 <= i < captured_entries(remaining, result).len() ==> in_ids(
                remaining,
                (#[trigger] captured_entries(remaining, result)[i]).location,
            ) && has_loc(result, captured_entries(remaining, result)[i].location),
    decreases result.len(),
{
    if result.len() > 0 {
        lemma_captured_entries_from(remaining, result.drop_last());
        let prev = captured_entries(remaining, result.drop_last());
        assert forall|i: int|
            0 <= i < captured_entries(remaining, result).len() implies in_ids(
            remaining,
            (#[trigger] captured_entries(remaining, result)[i]).location,
        ) && has_loc(result, captured_entries(remaining, result)[i].location) by {
            if i < prev.len() {
                assert(captured_entries(remaining, result)[i] == prev[i]);
                assert(has_loc(result.drop_last(), prev[i].location) ==> has_loc(
                    result,
                    prev[i].location,
                )) by {
                    if has_loc(result.drop_last(), prev[i].location) {
                        let w = choose|w: int|
                            0 <= w < result.drop_last().len() && result.drop_last()[w].location
                                == prev[i].location;
                        assert(result[w].location == prev[i].location);
                    }
                }
            } else {
                assert(captured_entries(remaining, result)[i] == result.last());
                assert(result[result.len() - 1].location == result.last().location);
            }
        }
    }
}

/// A unique attempt result yields unique captured entries.
proof fn lemma_captured_entries_unique(remaining: Seq<Seq<u8>>, result: Seq<LocationView>)
    requires
        unique_locs(result),
    ensures
        unique_locs(captured_entries(remaining, result)),
    decreases result.len(),
{
    if result.len() > 0 {
        assert(unique_locs(result.drop_last())) by {
            assert(forall|i: int, j: int|
                0 <= i < j < result.drop_last().len() ==> (#[trigger] result.drop_last()[i])
                    .location != (#[trigger] result.drop_last()[j]).location);
        }
        lemma_captured_entries_unique(remaining, result.drop_last());
        lemma_captured_entries_from(remaining, result.drop_last());
        let prev = captured_entries(remaining, result.drop_last());
        let cur = captured_entries(remaining, result);
        if in_ids(remaining, result.last().location) {
            assert forall|i: int, j: int|
                0 <= i < j < cur.len() implies (#[trigger] cur[i]).location
                != (#[trigger] cur[j]).location by {
                if j < prev.len() {
                    assert(cur[i] == prev[i] && cur[j] == prev[j]);
                } else {
                    assert(cur[j] == result.last());
                    assert(cur[i] == prev[i]);
                    // The last result entry's location never occurs
                    // earlier in a unique result.
                    assert(has_loc(result.drop_last(), prev[i].location));
                    let w = choose|w: int|
                        0 <= w < result.drop_last().len() && result.drop_last()[w].location
                            == prev[i].location;
                    assert(result[w].location == prev[i].location);
                    assert(result[w].location != result[result.len() - 1].location);
                }
            }
        } else {
            assert(cur =~= prev);
        }
    }
}

/// What is still missing neither was answered nor left the old set.
proof fn lemma_still_missing_from(remaining: Seq<Seq<u8>>, result: Seq<LocationView>)
    ensures
        forall|x: Seq<u8>|
            #[trigger] in_ids(still_missing(remaining, result), x) ==> in_ids(remaining, x)
                && !has_loc(result, x),
    decreases remaining.len(),
{
    if remaining.len() > 0 {
        lemma_still_missing_from(remaining.drop_last(), result);
        let prev = still_missing(remaining.drop_last(), result);
        let cur = still_missing(remaining, result);
        assert forall|x: Seq<u8>| #[trigger] in_ids(cur, x) implies in_ids(remaining, x)
            && !has_loc(result, x) by {
            let w = choose|w: int| 0 <= w < cur.len() && cur[w] == x;
            if w < prev.len() {
                assert(cur[w] == prev[w]);
                assert(in_ids(prev, x)) by {
                    assert(prev[w] == x);
                }
                let v = choose|v: int|
                    0 <= v < remaining.drop_last().len() && remaining.drop_last()[v] == x;
                assert(remaining[v] == x);
            } else {
                assert(cur[w] == remaining.last());
                assert(remaining[remaining.len() - 1] == x);
            }
        }
    }
}

/// Folding a unique attempt result into unique, disjoint cumulative
/// results keeps them unique and disjoint from what is still missing:
/// carried along the whole run, the published set holds at most one entry
/// per location id.
pub proof fn lemma_merge_keeps_unique(
    acquired: Seq<LocationView>,
    remaining: Seq<Seq<u8>>,
    result: Seq<LocationView>,
)
    requires
        unique_locs(acquired),
        locs_disjoint(acquired, remaining),
        unique_locs(result),
    ensures
        unique_locs(acquired + captured_entries(remaining, result)),
        locs_disjoint(
            acquired + captured_entries(remaining, result),
            still_missing(remaining, result),
        ),
{
    lemma_captured_entries_unique(remaining, result);
    lemma_captured_entries_from(remaining, result);
    lemma_still_missing_from(remaining, result);
    let cap = captured_entries(remaining, result);
    let combined = acquired + cap;
    let missing = still_missing(remaining, result);
    assert forall|i: int, j: int|
        0 <= i < j < combined.len() implies (#[trigger] combined[i]).location
        != (#[trigger] combined[j]).location by {
        if j < acquired.len() {
            assert(combined[i] == acquired[i] && combined[j] == acquired[j]);
        } else if i >= acquired.len() {
            assert(combined[i] == cap[i - acquired.len()]);
            assert(combined[j] == cap[j - acquired.len()]);
        } else {
            assert(combined[i] == acquired[i]);
            assert(combined[j] == cap[j - acquired.len()]);
            assert(in_ids(remaining, cap[j - acquired.len()].location));
            assert(!in_ids(remaining, acquired[i].location));
        }
    }
    assert forall|i: int| 0 <= i < combined.len() implies !in_ids(
        missing,
        (#[trigger] combined[i]).location,
    ) by {
        if i < acquired.len() {
            assert(combined[i] == acquired[i]);
            if in_ids(missing, acquired[i].location) {
                assert(in_ids(remaining, acquired[i].location));
            }
        } else {
            assert(combined[i] == cap[i - acquired.len()]);
            if in_ids(missing, cap[i - acquired.len()].location) {
                assert(!has_loc(result, cap[i - acquired.len()].location));
            }
        }
    }
}

/// What the controller decides after one attempt.
#[derive(Clone, Copy, PartialEq, Eq, Structural, Debug)]
pub enum RetryDecision {
    /// Locations are still missing and attempts are left: back off, then
    /// dispatch the next attempt.
    Continue,
    /// Every requested location is covered: stop early.
    Complete,
    /// The attempt budget is spent with locations still missing: send one
    /// notification, then stop.
    Exhausted,
}

/// The decision after an attempt, given what is still missing.
pub open spec fn decision_of(missing: nat, attempts: u64, max_retries: u64) -> RetryDecision {
    if missing == 0 {
        RetryDecision::Complete
    } else if attempts >= max_retries {
        RetryDecision::Exhausted
    } else {
        RetryDecision::Continue
    }
}

/// Folding a whole run of attempt results over the controller state.
pub open spec fn run_attempts(
    remaining: Seq<Seq<u8>>,
    acquired: Seq<LocationView>,
    results: Seq<Seq<LocationView>>,
) -> (Seq<Seq<u8>>, Seq<LocationView>)
    decreases results.len(),
{
    if results.len() == 0 {
        (remaining, acquired)
    } else {
        run_attempts(
            still_missing(remaining, results[0]),
            acquired + captured_entries(remaining, results[0]),
            results.skip(1),
        )
    }
}

/// An attempt that answers nothing changes nothing: what is missing stays
/// missing and nothing is acquired.
pub proof fn lemma_empty_attempt(remaining: Seq<Seq<u8>>)
    ensures
        still_missing(remaining, Seq::<LocationView>::empty()) == remaining,
        captured_entries(remaining, Seq::<LocationView>::empty()) == Seq::<LocationView>::empty(),
    decreases remaining.len(),
{
    if remaining.len() > 0 {
        lemma_empty_attempt(remaining.drop_last());
        assert(still_missing(remaining.drop_last(), Seq::<LocationView>::empty())
            + seq![remaining.last()] =~= remaining);
    }
}

/// Against a dispatcher that always returns an empty map, a whole run of
/// any length leaves every location missing and acquires nothing: after
/// `max_retries` such attempts the decision is `Exhausted`, so exactly one
/// notification is sent, and with nothing acquired no cache update is
/// performed.
pub proof fn lemma_retry_fruitless_run(
    remaining0: Seq<Seq<u8>>,
    results: Seq<Seq<LocationView>>,
)
    requires
        forall|i: int| 0 <= i < results.len() ==> (#[trigger] results[i]).len() == 0,
    ensures
        run_attempts(remaining0, Seq::<LocationView>::empty(), results).0 == remaining0,
        run_attempts(remaining0, Seq::<LocationView>::empty(), results).1
            == Seq::<LocationView>::empty(),
        remaining0.len() > 0 ==> forall|attempts: u64, max_retries: u64|
            attempts >= max_retries ==> decision_of(
                remaining0.len(),
                attempts,
                max_retries,
            ) == RetryDecision::Exhausted,
    decreases results.len(),
{
    if results.len() > 0 {
        assert(results[0] =~= Seq::<LocationView>::empty());
        lemma_empty_attempt(remaining0);
        assert(Seq::<LocationView>::empty() + Seq::<LocationView>::empty()
            =~= Seq::<LocationView>::empty());
        lemma_retry_fruitless_run(remaining0, results.skip(1));
    }
}

/// An attempt that answers every still-missing location ends the run
/// complete, however many attempts are left.
pub proof fn lemma_retry_stops_when_covered(remaining: Seq<Seq<u8>>, result: Seq<LocationView>)
    requires
        forall|i: int| 0 <= i < remaining.len() ==> has_loc(result, #[trigger] remaining[i]),
    ensures
        still_missing(remaining, result).len() == 0,
        forall|attempts: u64, max_retries: u64|
            decision_of(still_missing(remaining, result).len(), attempts, max_retries)
                == RetryDecision::Complete,
    decreases remaining.len(),
{
    if remaining.len() > 0 {
        lemma_retry_stops_when_covered(remaining.drop_last(), result);
    }
}

/// The batch retry controller state: the still-missing subset, the
/// cumulative results, and the attempt budget.
pub struct RetryController {
    remaining: Vec<Vec<u8>>,
    acquired: Vec<LocationBookings>,
    attempts: u64,
    max_retries: u64,
}

impl RetryController {
    /// The locations still to be scraped.
    pub closed spec fn remaining_ids(&self) -> Seq<Seq<u8>> {
        Seq::new(self.remaining@.len(), |i: int| self.remaining@[i]@)
    }

    /// The cumulative results of the run so far.
    pub closed spec fn acquired_entries(&self) -> Seq<LocationView> {
        Seq::new(self.acquired@.len(), |i: int| self.acquired@[i]@)
    }

    /// Attempts dispatched so far.
    pub closed spec fn attempts_made(&self) -> u64 {
        self.attempts
    }

    /// The whole-batch attempt budget.
    pub closed spec fn retry_limit(&self) -> u64 {
        self.max_retries
    }

    /// A fresh run over the full location list.
    pub fn new(locations: Vec<Vec<u8>>, max_retries: u64) -> (r: RetryController)
        ensures
            r.remaining_ids() == Seq::new(locations@.len(), |i: int| locations@[i]@),
            r.acquired_entries() == Seq::<LocationView>::empty(),
            r.attempts_made() == 0,
            r.retry_limit() == max_retries,
    {
        let r = RetryController { remaining: locations, acquired: Vec::new(), attempts: 0, max_retries };
        proof {
            assert(r.acquired_entries() =~= Seq::<LocationView>::empty());
        }
        r
    }

    /// The subset to hand the dispatcher for the next attempt.
    pub fn next_batch(&self) -> (r: Vec<Vec<u8>>)
        ensures
            Seq::new(r@.len(), |i: int| r@[i]@) == self.remaining_ids(),
    {
        let mut out: Vec<Vec<u8>> = Vec::new();
        let mut i: usize = 0;
        while i < self.remaining.len()
            invariant
                i <= self.remaining.len(),
                out@.len() == i as int,
                forall|k: int| 0 <= k < i as int ==> out@[k]@ == self.remaining@[k]@,
            decreases self.remaining.len() - i,
        {
            out.push(clone_bytes(&self.remaining[i]));
            i += 1;
        }
        proof {
            assert(Seq::new(out@.len(), |k: int| out@[k]@) =~= self.remaining_ids());
        }
        out
    }

    /// How many locations are still missing.
    pub fn missing_count(&self) -> (n: usize)
        ensures
            n == self.remaining_ids().len(),
    {
        self.remaining.len()
    }

    /// Whether the run has anything to publish: the commit policy is to
    /// replace the published snapshot only when something was scraped.
    pub fn should_publish(&self) -> (r: bool)
        ensures
            r == (self.acquired_entries().len() > 0),
    {
        self.acquired.len() > 0
    }

    /// The cumulative results, to be published as a full replace.
    pub fn results(&self) -> (r: Vec<LocationBookings>)
        ensures
            Seq::new(r@.len(), |i: int| r@[i]@) == self.acquired_entries(),
    {
        let mut out: Vec<LocationBookings> = Vec::new();
        let mut i: usize = 0;
        while i < self.acquired.len()
            invariant
                i <= self.acquired.len(),
                out@.len() == i as int,
                forall|k: int| 0 <= k < i as int ==> out@[k]@ == self.acquired@[k]@,
            decreases self.acquired.len() - i,
        {
            out.push(self.acquired[i].duplicate());
            i += 1;
        }
        proof {
            assert(Seq::new(out@.len(), |k: int| out@[k]@) =~= self.acquired_entries());
        }
        out
    }

    /// Fold one attempt's results in: keep what answers a still-missing
    /// location, shrink the missing set, spend one attempt, and decide.
    pub fn record_attempt(&mut self, result: &Vec<LocationBookings>) -> (d: RetryDecision)
        requires
            old(self).attempts_made() < old(self).retry_limit(),
        ensures
            final(self).attempts_made() == old(self).attempts_made() + 1,
            final(self).retry_limit() == old(self).retry_limit(),
            final(self).acquired_entries() == old(self).acquired_entries() + captured_entries(
                old(self).remaining_ids(),
                Seq::new(result@.len(), |i: int| result@[i]@),
            ),
            final(self).remaining_ids() == still_missing(
                old(self).remaining_ids(),
                Seq::new(result@.len(), |i: int| result@[i]@),
            ),
            d == decision_of(
                final(self).remaining_ids().len(),
                final(self).attempts_made(),
                final(self).retry_limit(),
            ),
    {
        let ghost rem0 = self.remaining_ids();
        let ghost resv = Seq::new(result@.len(), |i: int| result@[i]@);
        // Keep the entries that answer a still-missing location.
        let mut i: usize = 0;
        while i < result.len()
            invariant
                i <= result.len(),
                rem0 == self.remaining_ids(),
                resv == Seq::new(result@.len(), |k: int| result@[k]@),
                self.acquired_entries() == old(self).acquired_entries() + captured_entries(
                    rem0,
                    resv.take(i as int),
                ),
                self.remaining@ == old(self).remaining@,
                self.attempts == old(self).attempts,
                self.max_retries == old(self).max_retries,
            decreases result.len() - i,
        {
            let ghost before = self.acquired_entries();
            proof {
                assert(resv.take(i + 1 as int).drop_last() =~= resv.take(i as int));
                assert(resv.take(i + 1 as int).last() == resv[i as int]);
                assert(resv[i as int] == result@[i as int]@);
            }
            if self.contains_remaining(&result[i].location) {
                self.acquired.push(result[i].duplicate());
                proof {
                    assert(self.acquired_entries() =~= before + seq![resv[i as int]]);
                }
            } else {
                proof {
                    assert(before + Seq::<LocationView>::empty() =~= before);
                }
            }
            i += 1;
        }
        proof {
            assert(resv.take(resv.len() as int) =~= resv);
        }
        // Shrink the missing set to what the result did not answer.
        let mut missing: Vec<Vec<u8>> = Vec::new();
        let mut j: usize = 0;
        while j < self.remaining.len()
            invariant
                j <= self.remaining.len(),
                rem0 == self.remaining_ids(),
                resv == Seq::new(result@.len(), |k: int| result@[k]@),
                Seq::new(missing@.len(), |k: int| missing@[k]@) == still_missing(
                    rem0.take(j as int),
                    resv,
                ),
                self.remaining@ == old(self).remaining@,
            decreases self.remaining.len() - j,
        {
            let ghost before = Seq::new(missing@.len(), |k: int| missing@[k]@);
            proof {
                assert(rem0.take(j + 1 as int).drop_last() =~= rem0.take(j as int));
                assert(rem0.take(j + 1 as int).last() == rem0[j as int]);
                assert(rem0[j as int] == self.remaining@[j as int]@);
            }
            if !contains_location(result, &self.remaining[j]) {
                missing.push(clone_bytes(&self.remaining[j]));
                proof {
                    assert(Seq::new(missing@.len(), |k: int| missing@[k]@) =~= before
                        + seq![rem0[j as int]]);
                }
            } else {
                proof {
                    assert(before + Seq::<Seq<u8>>::empty() =~= before);
                }
            }
            j += 1;
        }
        proof {
            assert(rem0.take(rem0.len() as int) =~= rem0);
        }
        self.remaining = missing;
        self.attempts = self.attempts + 1;
        if self.remaining.len() == 0 {
            RetryDecision::Complete
        } else if self.attempts >= self.max_retries {
            RetryDecision::Exhausted
        } else {
            RetryDecision::Continue
        }
    }

    /// Whether an id is still missing.
    fn contains_remaining(&self, id: &Vec<u8>) -> (r: bool)
        ensures
            r == in_ids(self.remaining_ids(), id@),
    {
        let mut i: usize = 0;
        while i < self.remaining.len()
            invariant
                i <= self.remaining.len(),
                forall|k: int| 0 <= k < i as int ==> self.remaining@[k]@ != id@,
            decreases self.remaining.len() - i,
        {
            if bytes_eq(&self.remaining[i], id) {
                assert(self.remaining_ids()[i as int] == id@);
                return true;
            }
            i += 1;
        }
        false
    }
}

/// Whether a result set answers the given location.
fn contains_location(result: &Vec<LocationBookings>, id: &Vec<u8>) -> (r: bool)
    ensures
        r == has_loc(Seq::new(result@.len(), |i: int| result@[i]@), id@),
{
    let ghost resv = Seq::new(result@.len(), |i: int| result@[i]@);
    let mut i: usize = 0;
    while i < result.len()
        invariant
            i <= result.len(),
            resv == Seq::new(result@.len(), |k: int| result@[k]@),
            forall|k: int| 0 <= k < i as int ==> (#[trigger] resv[k]).location != id@,
        decreases result.len() - i,
    {
        if bytes_eq(&result[i].location, id) {
            assert(resv[i as int].location == id@);
            return true;
        }
        i += 1;
    }
    false
}

} // verus!
