//! The static reference locations and distance ranking.
//!
//! Coordinates are carried as microdegrees, and the ranking key is the
//! squared euclidean distance in microdegrees: zero exactly at the
//! observer's own coordinates, and never negative, so a location at the
//! observer's position always ranks first when sorting ascending. The
//! kilometre figure shown beside a ranked location is display work and is
//! computed outside the library.

use vstd::prelude::*;

use vstd::multiset::Multiset;

use crate::slots::clone_bytes;

verus! {

/// Microdegrees of latitude span `[-90_000_000, 90_000_000]`, longitude
/// twice that.
pub open spec fn coord_ok(lat_udeg: i64, lon_udeg: i64) -> bool {
    -90_000_000 <= lat_udeg <= 90_000_000 && -180_000_000 <= lon_udeg <= 180_000_000
}

/// Mathematical image of a `Location`.
pub struct LocationInfo {
    pub id: u32,
    pub name: Seq<u8>,
    pub latitude_udeg: i64,
    pub longitude_udeg: i64,
    pub passes: i32,
    pub failures: i32,
    pub pass_rate_ppm: u32,
}

/// One reference test centre, read-only after load.
pub struct Location {
    pub id: u32,
    pub name: Vec<u8>,
    pub latitude_udeg: i64,
    pub longitude_udeg: i64,
    pub passes: i32,
    pub failures: i32,
    pub pass_rate_ppm: u32,
}

impl View for Location {
    type V = LocationInfo;

    open spec fn view(&self) -> LocationInfo {
        LocationInfo {
            id: self.id,
            name: self.name@,
            latitude_udeg: self.latitude_udeg,
            longitude_udeg: self.longitude_udeg,
            passes: self.passes,
            failures: self.failures,
            pass_rate_ppm: self.pass_rate_ppm,
        }
    }
}

impl Location {
    /// An explicit copy; the fields are plain data.
    pub fn duplicate(&self) -> (r: Location)
        ensures
            r@ == self@,
    {
        Location {
            id: self.id,
            name: clone_bytes(&self.name),
            latitude_udeg: self.latitude_udeg,
            longitude_udeg: self.longitude_udeg,
            passes: self.passes,
            failures: self.failures,
            pass_rate_ppm: self.pass_rate_ppm,
        }
    }
}

/// The squared euclidean distance between two coordinate pairs, in
/// microdegrees squared.
pub open spec fn distance_key(
    lat_a: i64,
    lon_a: i64,
    lat_b: i64,
    lon_b: i64,
) -> int {
    (lat_a - lat_b) * (lat_a - lat_b) + (lon_a - lon_b) * (lon_a - lon_b)
}

/// The key is never negative, and zero exactly at equal coordinates.
pub proof fn lemma_distance_key_zero(lat_a: i64, lon_a: i64, lat_b: i64, lon_b: i64)
    ensures
        distance_key(lat_a, lon_a, lat_b, lon_b) >= 0,
        distance_key(lat_a, lon_a, lat_b, lon_b) == 0 <==> (lat_a == lat_b && lon_a == lon_b),
{
    let dlat = lat_a - lat_b;
    let dlon = lon_a - lon_b;
    assert(dlat * dlat >= 0 && (dlat * dlat == 0 <==> dlat == 0)) by (nonlinear_arith);
    assert(dlon * dlon >= 0 && (dlon * dlon == 0 <==> dlon == 0)) by (nonlinear_arith);
}

/// Compute the ranking key of one location from the observer's
/// coordinates.
pub fn location_distance_key(loc: &Location, lat_udeg: i64, lon_udeg: i64) -> (k: u64)
    requires
        coord_ok(loc.latitude_udeg, loc.longitude_udeg),
        coord_ok(lat_udeg, lon_udeg),
    ensures
        k == distance_key(loc@.latitude_udeg, loc@.longitude_udeg, lat_udeg, lon_udeg),
{
    let dlat = loc.latitude_udeg - lat_udeg;
    let dlon = loc.longitude_udeg - lon_udeg;
    proof {
        assert(dlat * dlat <= 180_000_000i64 * 180_000_000i64) by (nonlinear_arith)
            requires
                -180_000_000 <= dlat <= 180_000_000,
        ;
        assert(dlat * dlat >= 0) by (nonlinear_arith);
        assert(dlon * dlon <= 360_000_000i64 * 360_000_000i64) by (nonlinear_arith)
            requires
                -360_000_000 <= dlon <= 360_000_000,
        ;
        assert(dlon * dlon >= 0) by (nonlinear_arith);
    }
    let sq_lat = dlat * dlat;
    let sq_lon = dlon * dlon;
    (sq_lat as u64) + (sq_lon as u64)
}

/// The first location published under the given id, if any.
pub open spec fn lookup_location(ls: Seq<LocationInfo>, id: u32) -> Option<LocationInfo>
    decreases ls.len(),
{
    if ls.len() == 0 {
        None
    } else if ls[0].id == id {
        Some(ls[0])
    } else {
        lookup_location(ls.skip(1), id)
    }
}

/// The static location set, immutable after load.
pub struct LocationManager {
    locations: Vec<Location>,
}

impl LocationManager {
    /// The loaded locations.
    pub closed spec fn all(&self) -> Seq<LocationInfo> {
        Seq::new(self.locations@.len(), |i: int| self.locations@[i]@)
    }

    /// Every loaded location has coordinates in range.
    pub closed spec fn wf(&self) -> bool {
        forall|i: int|
            0 <= i < self.all().len() ==> coord_ok(
                (#[trigger] self.all()[i]).latitude_udeg,
                self.all()[i].longitude_udeg,
            )
    }

    /// An empty manager; the reference dataset is loaded once at startup.
    pub fn new() -> (r: LocationManager)
        ensures
            r.all() == Seq::<LocationInfo>::empty(),
            r.wf(),
    {
        let r = LocationManager { locations: Vec::new() };
        proof {
            assert(r.all() =~= Seq::<LocationInfo>::empty());
        }
        r
    }

    /// Load the reference dataset, replacing anything held before.
    /// Locations with out-of-range coordinates are rejected as a whole, so
    /// a loaded manager is always well formed.
    pub fn load(&mut self, locations: Vec<Location>) -> (ok: bool)
        ensures
            final(self).wf(),
            ok ==> final(self).all() == Seq::new(locations@.len(), |i: int| locations@[i]@),
            !ok ==> *final(self) == *old(self) && old(self).wf() ==> final(self).wf(),
    {
        let mut i: usize = 0;
        while i < locations.len()
            invariant
                i <= locations.len(),
                forall|k: int|
                    0 <= k < i as int ==> coord_ok(
                        (#[trigger] locations@[k]).latitude_udeg,
                        locations@[k].longitude_udeg,
                    ),
            decreases locations.len() - i,
        {
            let l = &locations[i];
            if l.latitude_udeg < -90_000_000 || l.latitude_udeg > 90_000_000
                || l.longitude_udeg < -180_000_000 || l.longitude_udeg > 180_000_000 {
                if !self.wf_check() {
                    self.locations = Vec::new();
                    proof {
                        assert(self.all() =~= Seq::<LocationInfo>::empty());
                    }
                }
                return false;
            }
            i += 1;
        }
        self.locations = locations;
        true
    }

    /// Whether the held set is well formed; used to restore the invariant
    /// after a rejected load.
    fn wf_check(&self) -> (r: bool)
        ensures
            r == self.wf(),
    {
        let mut i: usize = 0;
        while i < self.locations.len()
            invariant
                i <= self.locations.len(),
                forall|k: int|
                    0 <= k < i as int ==> coord_ok(
                        (#[trigger] self.all()[k]).latitude_udeg,
                        self.all()[k].longitude_udeg,
                    ),
            decreases self.locations.len() - i,
        {
            let l = &self.locations[i];
            if l.latitude_udeg < -90_000_000 || l.latitude_udeg > 90_000_000
                || l.longitude_udeg < -180_000_000 || l.longitude_udeg > 180_000_000 {
                assert(!coord_ok(self.all()[i as int].latitude_udeg, self.all()[i as int].longitude_udeg));
                return false;
            }
            assert(coord_ok(self.all()[i as int].latitude_udeg, self.all()[i as int].longitude_udeg));
            i += 1;
        }
        true
    }

    /// Every loaded location, copied out.
    pub fn get_all(&self) -> (r: Vec<Location>)
        ensures
            Seq::new(r@.len(), |i: int| r@[i]@) == self.all(),
    {
        let mut out: Vec<Location> = Vec::new();
        let mut i: usize = 0;
        while i < self.locations.len()
            invariant
                i <= self.locations.len(),
                out@.len() == i as int,
                forall|k: int| 0 <= k < i as int ==> out@[k]@ == self.all()[k],
            decreases self.locations.len() - i,
        {
            out.push(self.locations[i].duplicate());
            i += 1;
        }
        proof {
            assert(Seq::new(out@.len(), |k: int| out@[k]@) =~= self.all());
        }
        out
    }

    /// The first location with the given id.
    pub fn get_by_id(&self, id: u32) -> (r: Option<Location>)
        ensures
            match r {
                Some(l) => lookup_location(self.all(), id) == Some(l@),
                None => lookup_location(self.all(), id) is None,
            },
    {
        let ghost ls = self.all();
        let mut i: usize = 0;
        proof {
            assert(ls.skip(0) =~= ls);
        }
        while i < self.locations.len()
            invariant
                i <= self.locations.len(),
                ls == self.all(),
                lookup_location(ls, id) == lookup_location(ls.skip(i as int), id),
            decreases self.locations.len() - i,
        {
            proof {
                assert(ls.skip(i as int)[0] == ls[i as int]);
            }
            if self.locations[i].id == id {
                return Some(self.locations[i].duplicate());
            }
            proof {
                assert(ls.skip(i as int).skip(1) =~= ls.skip(i + 1 as int));
            }
            i += 1;
        }
        proof {
            assert(ls.skip(i as int).len() == 0);
        }
        None
    }

    /// Every location paired with its ranking key from the observer's
    /// coordinates, sorted by ascending key: the nearest first. A location
    /// at the observer's exact coordinates has key zero and so ranks
    /// first.
    pub fn get_by_distance(&self, lat_udeg: i64, lon_udeg: i64) -> (r: Vec<(Location, u64)>)
        requires
            self.wf(),
            coord_ok(lat_udeg, lon_udeg),
        ensures
            r@.len() == self.all().len(),
            forall|i: int, j: int| 0 <= i <= j < r@.len() ==> (#[trigger] r@[i]).1
                <= (#[trigger] r@[j]).1,
            forall|i: int|
                0 <= i < r@.len() ==> (#[trigger] r@[i]).1 == distance_key(
                    r@[i].0@.latitude_udeg,
                    r@[i].0@.longitude_udeg,
                    lat_udeg,
                    lon_udeg,
                ),
            Seq::new(r@.len(), |i: int| r@[i].0@).to_multiset() == self.all().to_multiset(),
    {
        // Pair each location with its key.
        let mut pending: Vec<(Location, u64)> = Vec::new();
        let mut i: usize = 0;
        while i < self.locations.len()
            invariant
                i <= self.locations.len(),
                self.wf(),
                coord_ok(lat_udeg, lon_udeg),
                pending@.len() == i as int,
                forall|k: int| 0 <= k < i as int ==> (#[trigger] pending@[k]).0@ == self.all()[k],
                forall|k: int|
                    0 <= k < i as int ==> (#[trigger] pending@[k]).1 == distance_key(
                        pending@[k].0@.latitude_udeg,
                        pending@[k].0@.longitude_udeg,
                        lat_udeg,
                        lon_udeg,
                    ),
            decreases self.locations.len() - i,
        {
            let loc = &self.locations[i];
            assert(coord_ok(self.all()[i as int].latitude_udeg, self.all()[i as int].longitude_udeg));
            let key = location_distance_key(loc, lat_udeg, lon_udeg);
            pending.push((loc.duplicate(), key));
            i += 1;
        }
        proof {
            assert(Seq::new(pending@.len(), |k: int| pending@[k].0@) =~= self.all());
            Seq::new(pending@.len(), |k: int| pending@[k].0@).to_multiset_ensures();
        }
        // Selection sort into the output: repeatedly move the entry with
        // the least key.
        let ghost orig = Seq::new(pending@.len(), |k: int| pending@[k].0@).to_multiset();
        let mut out: Vec<(Location, u64)> = Vec::new();
        proof {
            let outv0 = Seq::new(out@.len(), |k: int| out@[k].0@);
            outv0.to_multiset_ensures();
            assert(outv0.to_multiset().len() == 0);
            assert(outv0.to_multiset() =~= Multiset::<LocationInfo>::empty());
            assert(Multiset::<LocationInfo>::empty().add(orig) =~= orig);
        }
        while pending.len() > 0
            invariant
                self.wf(),
                coord_ok(lat_udeg, lon_udeg),
                Seq::new(out@.len(), |k: int| out@[k].0@).to_multiset().add(
                    Seq::new(pending@.len(), |k: int| pending@[k].0@).to_multiset(),
                ) == orig,
                out@.len() + pending@.len() == self.all().len(),
                forall|k: int|
                    0 <= k < pending@.len() ==> (#[trigger] pending@[k]).1 == distance_key(
                        pending@[k].0@.latitude_udeg,
                        pending@[k].0@.longitude_udeg,
                        lat_udeg,
                        lon_udeg,
                    ),
                forall|k: int|
                    0 <= k < out@.len() ==> (#[trigger] out@[k]).1 == distance_key(
                        out@[k].0@.latitude_udeg,
                        out@[k].0@.longitude_udeg,
                        lat_udeg,
                        lon_udeg,
                    ),
                forall|a: int, b: int| 0 <= a <= b < out@.len() ==> (#[trigger] out@[a]).1
                    <= (#[trigger] out@[b]).1,
                forall|a: int, b: int|
                    0 <= a < out@.len() && 0 <= b < pending@.len() ==> (#[trigger] out@[a]).1
                        <= (#[trigger] pending@[b]).1,
            decreases pending.len(),
        {
            // Find the least remaining key.
            let mut best: usize = 0;
            let mut j: usize = 1;
            while j < pending.len()
                invariant
                    best < j <= pending@.len(),
                    pending@.len() > 0,
                    forall|k: int| 0 <= k < j as int ==> pending@[best as int].1
                        <= (#[trigger] pending@[k]).1,
                decreases pending.len() - j,
            {
                if pending[j].1 < pending[best].1 {
                    best = j;
                }
                j += 1;
            }
            let ghost outv = Seq::new(out@.len(), |k: int| out@[k].0@);
            let ghost pendv = Seq::new(pending@.len(), |k: int| pending@[k].0@);
            let entry = pending.remove(best);
            proof {
                pendv.to_multiset_ensures();
                assert(pendv.remove(best as int) =~= Seq::new(
                    pending@.len(),
                    |k: int| pending@[k].0@,
                ));
                assert(pendv.to_multiset().remove(pendv[best as int]) == Seq::new(
                    pending@.len(),
                    |k: int| pending@[k].0@,
                ).to_multiset());
                assert(pendv.to_multiset().count(pendv[best as int]) > 0) by {
                    pendv.to_multiset_ensures();
                }
            }
            out.push(entry);
            proof {
                outv.to_multiset_ensures();
                assert(Seq::new(out@.len(), |k: int| out@[k].0@) =~= outv.push(entry.0@));
                assert(outv.push(entry.0@).to_multiset() =~= outv.to_multiset().insert(
                    entry.0@,
                ));
                assert(outv.to_multiset().insert(entry.0@).add(
                    pendv.to_multiset().remove(entry.0@),
                ) =~= outv.to_multiset().add(pendv.to_multiset()));
            }
        }
        proof {
            assert(Seq::new(pending@.len(), |k: int| pending@[k].0@).to_multiset().len() == 0) by {
                Seq::new(pending@.len(), |k: int| pending@[k].0@).to_multiset_ensures();
            }
            assert(Seq::new(out@.len(), |k: int| out@[k].0@).to_multiset().add(
                Multiset::<LocationInfo>::empty(),
            ) =~= Seq::new(out@.len(), |k: int| out@[k].0@).to_multiset());
            assert(Seq::new(pending@.len(), |k: int| pending@[k].0@).to_multiset()
                =~= Multiset::<LocationInfo>::empty());
        }
        out
    }
}

/// In a list ranked by ascending key, a zero-key entry ranks first: the
/// head's key is zero too.
pub proof fn lemma_zero_key_ranks_first(r: Seq<(LocationInfo, u64)>, i: int)
    requires
        0 <= i < r.len(),
        r[i].1 == 0,
        forall|a: int, b: int| 0 <= a <= b < r.len() ==> (#[trigger] r[a]).1 <= (#[trigger] r[b]).1,
    ensures
        r[0].1 == 0,
{
    assert(r[0].1 <= r[i].1);
}

} // verus!
