//! Content hashing for change detection.
//!
//! The hash is a 64-bit FNV-1a digest of the canonical rendering of the
//! results list. It is a content-addressed token, not a version counter:
//! equal content (same locations, same slots, same order) always gives the
//! same hash, and reordering unchanged content changes the rendering and
//! with it, in general, the hash. The timestamp is deliberately left out,
//! so that re-stamping unchanged content is not reported as a change.

use vstd::prelude::*;

use crate::codec::{render_location, render_location_list};
use crate::slots::{BookingData, DataView, LocationBookings, LocationView};

verus! {

/// One FNV-1a step: fold a byte into the running hash.
pub open spec fn fnv_step(h: u64, b: u8) -> u64 {
    vstd::wrapping::u64_specs::wrapping_mul((h ^ (b as u64)) as u64, 1099511628211u64)
}

/// FNV-1a over a byte string.
pub open spec fn fnv1a(s: Seq<u8>) -> u64
    decreases s.len(),
{
    if s.len() == 0 {
        14695981039346656037u64
    } else {
        fnv_step(fnv1a(s.drop_last()), s.last())
    }
}

/// The content hash of a results list.
pub open spec fn content_hash_of(results: Seq<LocationView>) -> u64 {
    fnv1a(render_location_list(results))
}

/// The content hash of a whole dataset: the timestamp is not part of it.
pub open spec fn data_hash(d: DataView) -> u64 {
    content_hash_of(d.results)
}

/// The change token of one location entry.
pub open spec fn location_hash(v: LocationView) -> u64 {
    fnv1a(render_location(v))
}

/// FNV-1a over a byte buffer.
pub fn fnv1a_bytes(s: &Vec<u8>) -> (h: u64)
    ensures
        h == fnv1a(s@),
{
    let mut h: u64 = 14695981039346656037;
    let mut i: usize = 0;
    while i < s.len()
        invariant
            i <= s.len(),
            h == fnv1a(s@.take(i as int)),
        decreases s.len() - i,
    {
        proof {
            assert(s@.take(i + 1 as int).drop_last() =~= s@.take(i as int));
            assert(s@.take(i + 1 as int).last() == s@[i as int]);
        }
        h = (h ^ (s[i] as u64)).wrapping_mul(1099511628211u64);
        i += 1;
    }
    assert(s@.take(s@.len() as int) =~= s@);
    h
}

/// The content hash of a results list, computed over its canonical rendering.
pub fn content_hash(results: &Vec<LocationBookings>) -> (h: u64)
    ensures
        h == content_hash_of(Seq::new(results@.len(), |i: int| results@[i]@)),
{
    let bytes = crate::codec::render_results_bytes(results);
    fnv1a_bytes(&bytes)
}

/// The change token of one location entry.
pub fn entry_hash(entry: &LocationBookings) -> (h: u64)
    ensures
        h == location_hash(entry@),
{
    let bytes = crate::codec::render_location_bytes(entry);
    fnv1a_bytes(&bytes)
}

impl LocationBookings {
    /// This entry's change token.
    pub fn calculate_hash(&self) -> (h: u64)
        ensures
            h == location_hash(self@),
    {
        entry_hash(self)
    }
}

impl BookingData {
    /// The dataset's change token; the timestamp is not part of it.
    pub fn calculate_hash(&self) -> (h: u64)
        ensures
            h == data_hash(self@),
    {
        let h = content_hash(&self.results);
        proof {
            assert(Seq::new(self.results@.len(), |i: int| self.results@[i]@) =~= self@.results);
        }
        h
    }
}

/// Equal content always hashes equally: the hash is a function of the
/// results list alone, whatever the timestamp says.
pub proof fn lemma_hash_of_content(a: DataView, b: DataView)
    requires
        a.results == b.results,
    ensures
        data_hash(a) == data_hash(b),
{
}

} // verus!
