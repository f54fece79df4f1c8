//! The published data model: time slots, per-location bookings, and the
//! aggregate dataset.
//!
//! Text is carried as bytes so that the snapshot codec and the structured
//! date parser can speak about every value exactly. The layer around the
//! library converts to and from `String` at its edges.

use vstd::prelude::*;

verus! {

/// Mathematical image of a `TimeSlot`.
pub struct SlotView {
    pub availability: bool,
    pub slot_number: Option<u32>,
    pub start_time: Seq<u8>,
}

/// One bookable (or blocked) appointment slot, identified by its start time.
#[derive(Clone)]
pub struct TimeSlot {
    pub availability: bool,
    pub slot_number: Option<u32>,
    pub start_time: Vec<u8>,
}

impl View for TimeSlot {
    type V = SlotView;

    open spec fn view(&self) -> SlotView {
        SlotView {
            availability: self.availability,
            slot_number: self.slot_number,
            start_time: self.start_time@,
        }
    }
}

impl TimeSlot {
    /// An explicit copy; the fields are plain data.
    pub fn duplicate(&self) -> (r: TimeSlot)
        ensures
            r@ == self@,
    {
        TimeSlot {
            availability: self.availability,
            slot_number: self.slot_number,
            start_time: clone_bytes(&self.start_time),
        }
    }
}

/// Mathematical image of a `LocationBookings`.
pub struct LocationView {
    pub location: Seq<u8>,
    pub slots: Seq<SlotView>,
    pub next_available_date: Option<Seq<u8>>,
}

/// The slots captured for one location in one scrape cycle.
#[derive(Clone)]
pub struct LocationBookings {
    pub location: Vec<u8>,
    pub slots: Vec<TimeSlot>,
    pub next_available_date: Option<Vec<u8>>,
}

impl View for LocationBookings {
    type V = LocationView;

    open spec fn view(&self) -> LocationView {
        LocationView {
            location: self.location@,
            slots: Seq::new(self.slots@.len(), |i: int| self.slots@[i]@),
            next_available_date: match self.next_available_date {
                Some(d) => Some(d@),
                None => None,
            },
        }
    }
}

impl LocationBookings {
    /// An explicit copy; the fields are plain data.
    pub fn duplicate(&self) -> (r: LocationBookings)
        ensures
            r@ == self@,
    {
        let mut slots: Vec<TimeSlot> = Vec::new();
        let mut i: usize = 0;
        while i < self.slots.len()
            invariant
                i <= self.slots.len(),
                slots@.len() == i as int,
                forall|j: int| 0 <= j < i as int ==> slots@[j]@ == self.slots@[j]@,
            decreases self.slots.len() - i,
        {
            slots.push(self.slots[i].duplicate());
            i += 1;
        }
        let r = LocationBookings {
            location: clone_bytes(&self.location),
            slots,
            next_available_date: match &self.next_available_date {
                Some(d) => Some(clone_bytes(d)),
                None => None,
            },
        };
        assert(r@.slots =~= self@.slots);
        r
    }
}

/// Mathematical image of a `BookingData`.
pub struct DataView {
    pub results: Seq<LocationView>,
    pub last_updated: Option<Seq<u8>>,
}

/// The published aggregate: at most one entry per location id.
#[derive(Clone)]
pub struct BookingData {
    pub results: Vec<LocationBookings>,
    pub last_updated: Option<Vec<u8>>,
}

impl View for BookingData {
    type V = DataView;

    open spec fn view(&self) -> DataView {
        DataView {
            results: Seq::new(self.results@.len(), |i: int| self.results@[i]@),
            last_updated: match self.last_updated {
                Some(d) => Some(d@),
                None => None,
            },
        }
    }
}

impl BookingData {
    /// The empty dataset the cache starts with.
    pub fn empty() -> (r: BookingData)
        ensures
            r@.results.len() == 0,
            r@.last_updated is None,
    {
        BookingData { results: Vec::new(), last_updated: None }
    }

    /// An explicit copy; the fields are plain data.
    pub fn duplicate(&self) -> (r: BookingData)
        ensures
            r@ == self@,
    {
        let mut results: Vec<LocationBookings> = Vec::new();
        let mut i: usize = 0;
        while i < self.results.len()
            invariant
                i <= self.results.len(),
                results@.len() == i as int,
                forall|j: int| 0 <= j < i as int ==> results@[j]@ == self.results@[j]@,
            decreases self.results.len() - i,
        {
            results.push(self.results[i].duplicate());
            i += 1;
        }
        let r = BookingData {
            results,
            last_updated: match &self.last_updated {
                Some(d) => Some(clone_bytes(d)),
                None => None,
            },
        };
        assert(r@.results =~= self@.results);
        r
    }
}

/// An explicit byte-for-byte copy of a byte string.
pub fn clone_bytes(v: &Vec<u8>) -> (r: Vec<u8>)
    ensures
        r@ == v@,
{
    let mut r: Vec<u8> = Vec::new();
    let mut i: usize = 0;
    while i < v.len()
        invariant
            i <= v.len(),
            r@ == v@.subrange(0, i as int),
        decreases v.len() - i,
    {
        r.push(v[i]);
        assert(r@ =~= v@.subrange(0, i + 1 as int));
        i += 1;
    }
    assert(r@ =~= v@);
    r
}

} // verus!
