//! What the serving layer reads: view models over the published dataset,
//! with the content hash as a change token. A caller presenting a hash
//! that still matches receives an explicit unchanged signal instead of the
//! payload.

use vstd::prelude::*;

use crate::cache::{lookup, BookingManager};
use crate::hash::location_hash;
use crate::slots::{clone_bytes, LocationBookings, TimeSlot};
use crate::times::{earliest_available, is_earliest_available};

verus! {

/// One location with its earliest bookable slot.
pub struct LocationBookingViewModel {
    pub location: Vec<u8>,
    pub earliest_slot: Option<TimeSlot>,
}

/// The whole dataset as the serving layer shows it.
pub struct BookingResponse {
    pub bookings: Vec<LocationBookingViewModel>,
    pub last_updated: Option<Vec<u8>>,
    pub etag: u64,
}

/// One location's slots as the serving layer shows them.
pub struct LocationDetailBookingResponse {
    pub location: Vec<u8>,
    pub slots: Vec<TimeSlot>,
    pub etag: u64,
}

/// The requested location is not published.
#[derive(Clone, Copy, PartialEq, Eq, Structural, Debug)]
pub struct LocationNotFound;

/// The earliest-slot field of a view model, as a spec value.
pub open spec fn earliest_view(m: &LocationBookingViewModel) -> Option<crate::slots::SlotView> {
    match m.earliest_slot {
        Some(s) => Some(s@),
        None => None,
    }
}

/// The dataset view models, or nothing when the caller's change token
/// still matches.
pub fn get_location_bookings(cache: &BookingManager, client_etag: u64) -> (r: Option<
    BookingResponse,
>)
    ensures
        (r is None) <==> client_etag == cache.etag(),
        match r {
            Some(resp) => ({
                &&& resp.etag == cache.etag()
                &&& match resp.last_updated {
                    Some(t) => cache.dataset().last_updated == Some(t@),
                    None => cache.dataset().last_updated is None,
                }
                &&& resp.bookings@.len() == cache.dataset().results.len()
                &&& forall|i: int|
                    0 <= i < resp.bookings@.len() ==> (#[trigger] resp.bookings@[i]).location@
                        == cache.dataset().results[i].location && is_earliest_available(
                        cache.dataset().results[i].slots,
                        earliest_view(&resp.bookings@[i]),
                    )
            }),
            None => true,
        },
{
    let (data, etag) = cache.get_data();
    if client_etag == etag {
        return None;
    }
    let mut bookings: Vec<LocationBookingViewModel> = Vec::new();
    let mut i: usize = 0;
    while i < data.results.len()
        invariant
            i <= data.results.len(),
            data@ == cache.dataset(),
            bookings@.len() == i as int,
            forall|k: int|
                0 <= k < i as int ==> (#[trigger] bookings@[k]).location@
                    == data@.results[k].location && is_earliest_available(
                    data@.results[k].slots,
                    earliest_view(&bookings@[k]),
                ),
        decreases data.results.len() - i,
    {
        let entry = &data.results[i];
        assert(entry@ == data@.results[i as int]);
        let earliest_slot = earliest_available(&entry.slots);
        let vm = LocationBookingViewModel {
            location: clone_bytes(&entry.location),
            earliest_slot,
        };
        proof {
            assert(Seq::new(entry.slots@.len(), |k: int| entry.slots@[k]@) =~= entry@.slots);
        }
        bookings.push(vm);
        i += 1;
    }
    Some(BookingResponse { bookings, last_updated: data.last_updated, etag })
}

/// One location's detail view, nothing when the caller's per-location
/// token still matches, or an error when the location is not published.
pub fn get_location_details(
    cache: &BookingManager,
    location_id: &Vec<u8>,
    client_etag: u64,
) -> (r: Result<Option<LocationDetailBookingResponse>, LocationNotFound>)
    ensures
        match r {
            Err(e) => lookup(cache.dataset().results, location_id@) is None,
            Ok(inner) => match lookup(cache.dataset().results, location_id@) {
                None => false,
                Some(entry) => match inner {
                    None => client_etag == location_hash(entry),
                    Some(resp) => ({
                        &&& client_etag != location_hash(entry)
                        &&& resp.etag == location_hash(entry)
                        &&& resp.location@ == entry.location
                        &&& Seq::new(resp.slots@.len(), |i: int| resp.slots@[i]@) == entry.slots
                    }),
                },
            },
        },
{
    match cache.get_location_data(location_id) {
        None => Err(LocationNotFound),
        Some((entry, server_etag)) => {
            if client_etag == server_etag {
                Ok(None)
            } else {
                proof {
                    assert(Seq::new(entry.slots@.len(), |i: int| entry.slots@[i]@)
                        =~= entry@.slots);
                }
                Ok(
                    Some(
                        LocationDetailBookingResponse {
                            location: entry.location,
                            slots: entry.slots,
                            etag: server_etag,
                        },
                    ),
                )
            }
        },
    }
}

} // verus!
