//! The change-detection cache: one logical cell holding the published
//! dataset and its content hash, with read queries, an atomic replace on
//! update, and a snapshot codec for durable storage.
//!
//! The manager also carries the background-refresh guard flag, so that a
//! second concurrent start of the refresh loop is a no-op.

use vstd::prelude::*;

use crate::codec::{parse_booking_data, parse_data, render_booking_data, render_data};
use crate::hash::{content_hash, content_hash_of, data_hash, entry_hash, location_hash};
use crate::slots::{
    clone_bytes, BookingData, DataView, LocationBookings, LocationView, SlotView, TimeSlot,
};

verus! {

// ---------------------------------------------------------------------------
// Cleaning: unavailable slots are dropped before publication
// ---------------------------------------------------------------------------

/// The bookable slots of a list, in order.
pub open spec fn keep_available(slots: Seq<SlotView>) -> Seq<SlotView>
    decreases slots.len(),
{
    if slots.len() == 0 {
        Seq::empty()
    } else {
        keep_available(slots.drop_last()) + if slots.last().availability {
            seq![slots.last()]
        } else {
            Seq::empty()
        }
    }
}

/// One location entry with only its bookable slots.
pub open spec fn clean_location(v: LocationView) -> LocationView {
    LocationView {
        location: v.location,
        slots: keep_available(v.slots),
        next_available_date: v.next_available_date,
    }
}

/// The published form of a results list.
pub open spec fn clean_results(rs: Seq<LocationView>) -> Seq<LocationView> {
    Seq::new(rs.len(), |i: int| clean_location(rs[i]))
}

/// Keep only the bookable slots of one list.
fn clean_slots(slots: &Vec<TimeSlot>) -> (out: Vec<TimeSlot>)
    ensures
        Seq::new(out@.len(), |i: int| out@[i]@) == keep_available(
            Seq::new(slots@.len(), |i: int| slots@[i]@),
        ),
{
    let ghost sv = Seq::new(slots@.len(), |i: int| slots@[i]@);
    let mut out: Vec<TimeSlot> = Vec::new();
    let mut i: usize = 0;
    while i < slots.len()
        invariant
            i <= slots.len(),
            sv == Seq::new(slots@.len(), |k: int| slots@[k]@),
            Seq::new(out@.len(), |k: int| out@[k]@) == keep_available(sv.take(i as int)),
        decreases slots.len() - i,
    {
        let ghost before = Seq::new(out@.len(), |k: int| out@[k]@);
        proof {
            assert(sv.take(i + 1 as int).drop_last() =~= sv.take(i as int));
            assert(sv.take(i + 1 as int).last() == sv[i as int]);
        }
        if slots[i].availability {
            out.push(slots[i].duplicate());
            proof {
                assert(Seq::new(out@.len(), |k: int| out@[k]@) =~= before + seq![sv[i as int]]);
            }
        } else {
            proof {
                assert(before + Seq::<SlotView>::empty() =~= before);
            }
        }
        i += 1;
    }
    proof {
        assert(sv.take(sv.len() as int) =~= sv);
    }
    out
}

/// Strip unavailable slots from every location: the cache stores only
/// bookable slots.
pub fn clean_data(results: &Vec<LocationBookings>) -> (out: Vec<LocationBookings>)
    ensures
        Seq::new(out@.len(), |i: int| out@[i]@) == clean_results(
            Seq::new(results@.len(), |i: int| results@[i]@),
        ),
{
    let ghost rv = Seq::new(results@.len(), |i: int| results@[i]@);
    let mut out: Vec<LocationBookings> = Vec::new();
    let mut i: usize = 0;
    while i < results.len()
        invariant
            i <= results.len(),
            rv == Seq::new(results@.len(), |k: int| results@[k]@),
            out@.len() == i as int,
            forall|k: int| 0 <= k < i as int ==> out@[k]@ == clean_location(rv[k]),
        decreases results.len() - i,
    {
        let entry = &results[i];
        let cleaned = LocationBookings {
            location: clone_bytes(&entry.location),
            slots: clean_slots(&entry.slots),
            next_available_date: match &entry.next_available_date {
                Some(d) => Some(clone_bytes(d)),
                None => None,
            },
        };
        assert(cleaned@ == clean_location(rv[i as int]));
        out.push(cleaned);
        i += 1;
    }
    proof {
        assert(Seq::new(out@.len(), |k: int| out@[k]@) =~= clean_results(rv));
    }
    out
}

/// Cleaning keeps each entry's location, so a results list with at most
/// one entry per location id stays that way when published.
pub proof fn lemma_clean_keeps_unique(rs: Seq<LocationView>)
    requires
        crate::retry::unique_locs(rs),
    ensures
        crate::retry::unique_locs(clean_results(rs)),
{
    assert forall|i: int, j: int|
        0 <= i < j < clean_results(rs).len() implies (#[trigger] clean_results(rs)[i]).location
        != (#[trigger] clean_results(rs)[j]).location by {
        assert(clean_results(rs)[i] == clean_location(rs[i]));
        assert(clean_results(rs)[j] == clean_location(rs[j]));
        assert(rs[i].location != rs[j].location);
    }
}

// ---------------------------------------------------------------------------
// Queries over the published results
// ---------------------------------------------------------------------------

/// The first entry published under the given location id, if any.
pub open spec fn lookup(rs: Seq<LocationView>, id: Seq<u8>) -> Option<LocationView>
    decreases rs.len(),
{
    if rs.len() == 0 {
        None
    } else if rs[0].location == id {
        Some(rs[0])
    } else {
        lookup(rs.skip(1), id)
    }
}

/// The bookable slots of one entry, paired with its location id.
pub open spec fn pairs_of_slots(loc: Seq<u8>, slots: Seq<SlotView>) -> Seq<(Seq<u8>, SlotView)>
    decreases slots.len(),
{
    if slots.len() == 0 {
        Seq::empty()
    } else {
        pairs_of_slots(loc, slots.drop_last()) + if slots.last().availability {
            seq![(loc, slots.last())]
        } else {
            Seq::empty()
        }
    }
}

/// Every bookable slot of every location, flattened in publication order.
pub open spec fn available_pairs(rs: Seq<LocationView>) -> Seq<(Seq<u8>, SlotView)>
    decreases rs.len(),
{
    if rs.len() == 0 {
        Seq::empty()
    } else {
        available_pairs(rs.drop_last()) + pairs_of_slots(rs.last().location, rs.last().slots)
    }
}

/// Byte-string equality.
pub fn bytes_eq(a: &Vec<u8>, b: &Vec<u8>) -> (r: bool)
    ensures
        r == (a@ == b@),
{
    if a.len() != b.len() {
        return false;
    }
    let mut i: usize = 0;
    while i < a.len()
        invariant
            i <= a.len(),
            a@.len() == b@.len(),
            forall|k: int| 0 <= k < i as int ==> a@[k] == b@[k],
        decreases a.len() - i,
    {
        if a[i] != b[i] {
            return false;
        }
        i += 1;
    }
    proof {
        assert(a@ =~= b@);
    }
    true
}

// ---------------------------------------------------------------------------
// The guard-flag transitions of the background scheduler
// ---------------------------------------------------------------------------

/// What starting the refresh loop does to the guard flag: the flag is set
/// afterwards, and the caller is granted the loop exactly when it was clear.
pub open spec fn begin_transition(before: bool, after: bool, granted: bool) -> bool {
    after == true && granted == !before
}

/// What stopping does: the flag is clear afterwards.
pub open spec fn stop_transition(before: bool, after: bool) -> bool {
    after == false
}

/// Two starts yield exactly one active loop: the first caller is granted
/// it, the second is a no-op.
pub proof fn lemma_single_active_loop(s0: bool, s1: bool, s2: bool, g1: bool, g2: bool)
    requires
        !s0,
        begin_transition(s0, s1, g1),
        begin_transition(s1, s2, g2),
    ensures
        g1,
        !g2,
{
}

/// After a stop, a fresh start is granted again.
pub proof fn lemma_restart_after_stop(s0: bool, s1: bool, s2: bool, g: bool)
    requires
        stop_transition(s0, s1),
        begin_transition(s1, s2, g),
    ensures
        g,
{
}

// ---------------------------------------------------------------------------
// The manager
// ---------------------------------------------------------------------------

/// Relies on chrono's `Utc::now().to_rfc3339()` for the `last_updated`
/// stamp. The result depends on the clock, so nothing but non-emptiness is
/// assumed of it.
#[verifier::external_body]
fn now_rfc3339() -> (r: Vec<u8>)
    ensures
        r@.len() > 0,
{
    chrono::Utc::now().to_rfc3339().into_bytes()
}

/// The cache cell and the background-refresh guard.
pub struct BookingManager {
    data: BookingData,
    hash: u64,
    background_running: bool,
}

impl BookingManager {
    /// The published dataset.
    pub closed spec fn dataset(&self) -> DataView {
        self.data@
    }

    /// The published change token.
    pub closed spec fn etag(&self) -> u64 {
        self.hash
    }

    /// Whether a refresh loop is active.
    pub closed spec fn running(&self) -> bool {
        self.background_running
    }

    /// The hash always matches the published content.
    pub closed spec fn inv(&self) -> bool {
        self.hash == data_hash(self.data@)
    }

    /// An empty cache: no results, no timestamp, no active refresh loop.
    pub fn new() -> (r: BookingManager)
        ensures
            r.inv(),
            r.dataset().results.len() == 0,
            r.dataset().last_updated is None,
            !r.running(),
    {
        let data = BookingData::empty();
        let hash = content_hash(&data.results);
        proof {
            assert(Seq::new(data.results@.len(), |i: int| data.results@[i]@)
                =~= data@.results);
        }
        BookingManager { data, hash, background_running: false }
    }

    /// Read the whole published dataset with its change token.
    pub fn get_data(&self) -> (r: (BookingData, u64))
        ensures
            r.0@ == self.dataset(),
            r.1 == self.etag(),
    {
        (self.data.duplicate(), self.hash)
    }

    /// Read one location's published entry with its own change token.
    pub fn get_location_data(&self, location_id: &Vec<u8>) -> (r: Option<(LocationBookings, u64)>)
        ensures
            match r {
                Some((entry, h)) => lookup(self.dataset().results, location_id@) == Some(entry@)
                    && h == location_hash(entry@),
                None => lookup(self.dataset().results, location_id@) is None,
            },
    {
        let ghost rs = self.dataset().results;
        let mut i: usize = 0;
        proof {
            assert(rs.skip(0) =~= rs);
        }
        while i < self.data.results.len()
            invariant
                i <= self.data.results.len(),
                rs == self.dataset().results,
                lookup(rs, location_id@) == lookup(rs.skip(i as int), location_id@),
            decreases self.data.results.len() - i,
        {
            let entry = &self.data.results[i];
            proof {
                assert(rs.skip(i as int)[0] == rs[i as int]);
                assert(rs[i as int] == entry@);
            }
            if bytes_eq(&entry.location, location_id) {
                let copy = entry.duplicate();
                let h = entry_hash(&copy);
                return Some((copy, h));
            }
            proof {
                assert(rs.skip(i as int).skip(1) =~= rs.skip(i + 1 as int));
            }
            i += 1;
        }
        proof {
            assert(rs.skip(i as int).len() == 0);
        }
        None
    }

    /// Read one location's published slots.
    pub fn get_location_slots(&self, location_code: &Vec<u8>) -> (r: Option<Vec<TimeSlot>>)
        ensures
            match r {
                Some(slots) => match lookup(self.dataset().results, location_code@) {
                    Some(entry) => Seq::new(slots@.len(), |i: int| slots@[i]@) == entry.slots,
                    None => false,
                },
                None => lookup(self.dataset().results, location_code@) is None,
            },
    {
        match self.get_location_data(location_code) {
            Some((entry, _)) => Some(entry.slots),
            None => None,
        }
    }

    /// Every published bookable slot, paired with its location id.
    pub fn get_available_slots(&self) -> (r: Vec<(Vec<u8>, TimeSlot)>)
        ensures
            Seq::new(r@.len(), |i: int| (r@[i].0@, r@[i].1@)) == available_pairs(
                self.dataset().results,
            ),
    {
        let ghost rs = self.dataset().results;
        let mut out: Vec<(Vec<u8>, TimeSlot)> = Vec::new();
        let mut i: usize = 0;
        while i < self.data.results.len()
            invariant
                i <= self.data.results.len(),
                rs == self.dataset().results,
                Seq::new(out@.len(), |k: int| (out@[k].0@, out@[k].1@)) == available_pairs(
                    rs.take(i as int),
                ),
            decreases self.data.results.len() - i,
        {
            let entry = &self.data.results[i];
            proof {
                assert(rs[i as int] == entry@);
            }
            let ghost loc = entry@.location;
            let ghost slots = entry@.slots;
            let mut j: usize = 0;
            while j < entry.slots.len()
                invariant
                    j <= entry.slots.len(),
                    rs == self.dataset().results,
                    i < self.data.results.len(),
                    rs[i as int] == entry@,
                    loc == entry@.location,
                    slots == entry@.slots,
                    Seq::new(out@.len(), |k: int| (out@[k].0@, out@[k].1@)) == available_pairs(
                        rs.take(i as int),
                    ) + pairs_of_slots(loc, slots.take(j as int)),
                decreases entry.slots.len() - j,
            {
                let ghost before = Seq::new(out@.len(), |k: int| (out@[k].0@, out@[k].1@));
                proof {
                    assert(slots.take(j + 1 as int).drop_last() =~= slots.take(j as int));
                    assert(slots.take(j + 1 as int).last() == slots[j as int]);
                    assert(slots[j as int] == entry.slots@[j as int]@);
                }
                let slot = &entry.slots[j];
                if slot.availability {
                    out.push((clone_bytes(&entry.location), slot.duplicate()));
                    proof {
                        assert(Seq::new(out@.len(), |k: int| (out@[k].0@, out@[k].1@))
                            =~= before + seq![(loc, slots[j as int])]);
                        assert(before + seq![(loc, slots[j as int])] =~= available_pairs(
                            rs.take(i as int),
                        ) + pairs_of_slots(loc, slots.take(j + 1 as int)));
                    }
                } else {
                    proof {
                        assert(before + Seq::<(Seq<u8>, SlotView)>::empty() =~= before);
                        assert(pairs_of_slots(loc, slots.take(j + 1 as int)) =~= pairs_of_slots(
                            loc,
                            slots.take(j as int),
                        ));
                    }
                }
                j += 1;
            }
            proof {
                assert(slots.take(slots.len() as int) =~= slots);
                assert(rs.take(i + 1 as int).drop_last() =~= rs.take(i as int));
                assert(rs.take(i + 1 as int).last() == rs[i as int]);
            }
            i += 1;
        }
        proof {
            assert(rs.take(rs.len() as int) =~= rs);
        }
        out
    }

    /// Atomically replace the published dataset: strip unavailable slots,
    /// stamp the given time, recompute the content hash.
    pub fn update_data_at(&mut self, results: &Vec<LocationBookings>, now: Vec<u8>)
        ensures
            final(self).inv(),
            final(self).dataset().results == clean_results(
                Seq::new(results@.len(), |i: int| results@[i]@),
            ),
            final(self).dataset().last_updated == Some(now@),
            final(self).etag() == content_hash_of(
                clean_results(Seq::new(results@.len(), |i: int| results@[i]@)),
            ),
            final(self).running() == old(self).running(),
    {
        let cleaned = clean_data(results);
        let hash = content_hash(&cleaned);
        let data = BookingData { results: cleaned, last_updated: Some(now) };
        proof {
            assert(Seq::new(data.results@.len(), |i: int| data.results@[i]@) =~= data@.results);
        }
        self.data = data;
        self.hash = hash;
    }

    /// Replace the published dataset, stamped with the current time.
    pub fn update_data(&mut self, results: &Vec<LocationBookings>)
        ensures
            final(self).inv(),
            final(self).dataset().results == clean_results(
                Seq::new(results@.len(), |i: int| results@[i]@),
            ),
            final(self).dataset().last_updated is Some,
            final(self).etag() == content_hash_of(
                clean_results(Seq::new(results@.len(), |i: int| results@[i]@)),
            ),
            final(self).running() == old(self).running(),
    {
        let now = now_rfc3339();
        self.update_data_at(results, now);
    }

    /// Re-stamp the published dataset with the current time. The content,
    /// and with it the change token, stays as it is.
    pub fn update_date(&mut self)
        requires
            old(self).inv(),
        ensures
            final(self).inv(),
            final(self).dataset().results == old(self).dataset().results,
            final(self).dataset().last_updated is Some,
            final(self).etag() == old(self).etag(),
            final(self).running() == old(self).running(),
    {
        let now = now_rfc3339();
        self.data.last_updated = Some(now);
    }

    /// The bytes to persist after an update.
    pub fn snapshot_bytes(&self) -> (out: Vec<u8>)
        ensures
            out@ == render_data(self.dataset()),
    {
        render_booking_data(&self.data)
    }

    /// Hydrate the cell from a stored snapshot. A malformed snapshot is
    /// reported and leaves the cache untouched, which is not a fault.
    pub fn load_snapshot(&mut self, bytes: &Vec<u8>) -> (ok: bool)
        ensures
            match parse_data(bytes@) {
                Some(d) => ok && final(self).dataset() == d && final(self).inv()
                    && final(self).running() == old(self).running(),
                None => !ok && *final(self) == *old(self),
            },
    {
        match parse_booking_data(bytes) {
            Some(data) => {
                let hash = content_hash(&data.results);
                proof {
                    assert(Seq::new(data.results@.len(), |i: int| data.results@[i]@)
                        =~= data@.results);
                }
                self.data = data;
                self.hash = hash;
                true
            },
            None => false,
        }
    }

    /// Begin the background refresh loop if none is active. The caller may
    /// run the loop exactly when the answer is true; a second concurrent
    /// start gets false and must not start another loop.
    pub fn try_begin_background_updates(&mut self) -> (granted: bool)
        ensures
            begin_transition(old(self).running(), final(self).running(), granted),
            final(self).dataset() == old(self).dataset(),
            final(self).etag() == old(self).etag(),
            old(self).inv() ==> final(self).inv(),
    {
        let was_running = self.background_running;
        self.background_running = true;
        !was_running
    }

    /// Ask the background refresh loop to end after its current iteration.
    pub fn stop_background_updates(&mut self)
        ensures
            stop_transition(old(self).running(), final(self).running()),
            final(self).dataset() == old(self).dataset(),
            final(self).etag() == old(self).etag(),
            old(self).inv() ==> final(self).inv(),
    {
        self.background_running = false;
    }
}

} // verus!
