//! Chronological ordering of slots.
//!
//! Slot start times arrive as `day/month/year hour:minute` text. Comparing
//! the raw strings mis-orders slots across month and year boundaries, so the
//! text is parsed into a structured time and slots are ordered by year,
//! month, day, hour, minute. Slots whose text does not parse sort after all
//! parseable ones.

use vstd::prelude::*;

use crate::codec::{expect, parse_num};
use crate::slots::{SlotView, TimeSlot};

verus! {

/// A structured slot start time.
#[derive(Clone, Copy, PartialEq, Eq, Structural, Debug)]
pub struct SlotTime {
    pub day: u32,
    pub month: u32,
    pub year: u32,
    pub hour: u32,
    pub minute: u32,
}

/// Spec-level parse of `day/month/year hour:minute`; nothing may trail.
pub open spec fn parse_slot_time(s: Seq<u8>) -> Option<SlotTime> {
    match parse_num(s) {
        None => None,
        Some((day, r1)) => match expect(r1, seq![47u8]) {
            None => None,
            Some(r2) => match parse_num(r2) {
                None => None,
                Some((month, r3)) => match expect(r3, seq![47u8]) {
                    None => None,
                    Some(r4) => match parse_num(r4) {
                        None => None,
                        Some((year, r5)) => match expect(r5, seq![32u8]) {
                            None => None,
                            Some(r6) => match parse_num(r6) {
                                None => None,
                                Some((hour, r7)) => match expect(r7, seq![58u8]) {
                                    None => None,
                                    Some(r8) => match parse_num(r8) {
                                        None => None,
                                        Some((minute, r9)) => if r9.len() == 0 {
                                            Some(SlotTime { day, month, year, hour, minute })
                                        } else {
                                            None
                                        },
                                    },
                                },
                            },
                        },
                    },
                },
            },
        },
    }
}

/// Chronological order on structured times: year, month, day, hour, minute.
pub open spec fn time_le(a: SlotTime, b: SlotTime) -> bool {
    if a.year != b.year {
        a.year < b.year
    } else if a.month != b.month {
        a.month < b.month
    } else if a.day != b.day {
        a.day < b.day
    } else if a.hour != b.hour {
        a.hour < b.hour
    } else {
        a.minute <= b.minute
    }
}

/// Total preorder on slots: parseable start times sort chronologically and
/// before unparseable ones.
pub open spec fn slot_le(a: SlotView, b: SlotView) -> bool {
    match (parse_slot_time(a.start_time), parse_slot_time(b.start_time)) {
        (Some(x), Some(y)) => time_le(x, y),
        (Some(x), None) => true,
        (None, Some(y)) => false,
        (None, None) => true,
    }
}

/// `slot_le` is total.
pub proof fn lemma_slot_le_total(a: SlotView, b: SlotView)
    ensures
        slot_le(a, b) || slot_le(b, a),
{
}

/// `slot_le` is transitive.
pub proof fn lemma_slot_le_trans(a: SlotView, b: SlotView, c: SlotView)
    requires
        slot_le(a, b),
        slot_le(b, c),
    ensures
        slot_le(a, c),
{
}

/// Parse a start time; consumes the whole byte string or yields nothing.
pub fn slot_time_of(s: &Vec<u8>) -> (r: Option<SlotTime>)
    ensures
        r == parse_slot_time(s@),
{
    proof {
        assert(s@.skip(0) =~= s@);
    }
    let (day, j1) = match crate::codec::parse_num_at(s, 0) {
        Some(p) => p,
        None => {
            return None;
        },
    };
    let j2 = match eat_byte(s, j1, 47) {
        Some(j) => j,
        None => {
            return None;
        },
    };
    let (month, j3) = match crate::codec::parse_num_at(s, j2) {
        Some(p) => p,
        None => {
            return None;
        },
    };
    let j4 = match eat_byte(s, j3, 47) {
        Some(j) => j,
        None => {
            return None;
        },
    };
    let (year, j5) = match crate::codec::parse_num_at(s, j4) {
        Some(p) => p,
        None => {
            return None;
        },
    };
    let j6 = match eat_byte(s, j5, 32) {
        Some(j) => j,
        None => {
            return None;
        },
    };
    let (hour, j7) = match crate::codec::parse_num_at(s, j6) {
        Some(p) => p,
        None => {
            return None;
        },
    };
    let j8 = match eat_byte(s, j7, 58) {
        Some(j) => j,
        None => {
            return None;
        },
    };
    let (minute, j9) = match crate::codec::parse_num_at(s, j8) {
        Some(p) => p,
        None => {
            return None;
        },
    };
    if j9 != s.len() {
        assert(s@.skip(j9 as int).len() > 0);
        return None;
    }
    assert(s@.skip(j9 as int).len() == 0);
    Some(SlotTime { day, month, year, hour, minute })
}

/// Consume one exact byte.
fn eat_byte(buf: &Vec<u8>, i: usize, b: u8) -> (r: Option<usize>)
    requires
        i <= buf.len(),
    ensures
        match r {
            Some(j) => j == i + 1 && j <= buf@.len() && expect(buf@.skip(i as int), seq![b])
                == Some(buf@.skip(j as int)),
            None => expect(buf@.skip(i as int), seq![b]) is None,
        },
{
    if i < buf.len() && buf[i] == b {
        proof {
            let s = buf@.skip(i as int);
            assert(s.take(1) =~= seq![b]);
            assert(s.skip(1) =~= buf@.skip(i + 1 as int));
        }
        Some(i + 1)
    } else {
        proof {
            let s = buf@.skip(i as int);
            if s.len() >= 1 && s.take(1) == seq![b] {
                assert(s.take(1)[0] == s[0]);
                assert(s[0] == buf@[i as int]);
                assert(false);
            }
        }
        None
    }
}

/// Compare two slots by chronological start time.
pub fn slot_chrono_le(a: &TimeSlot, b: &TimeSlot) -> (r: bool)
    ensures
        r == slot_le(a@, b@),
{
    let ta = slot_time_of(&a.start_time);
    let tb = slot_time_of(&b.start_time);
    match (ta, tb) {
        (Some(x), Some(y)) => {
            if x.year != y.year {
                x.year < y.year
            } else if x.month != y.month {
                x.month < y.month
            } else if x.day != y.day {
                x.day < y.day
            } else if x.hour != y.hour {
                x.hour < y.hour
            } else {
                x.minute <= y.minute
            }
        },
        (Some(_), None) => true,
        (None, Some(_)) => false,
        (None, None) => true,
    }
}

/// What it means for `r` to be the earliest bookable slot of `slots`.
pub open spec fn is_earliest_available(slots: Seq<SlotView>, r: Option<SlotView>) -> bool {
    match r {
        Some(s) => s.availability && (exists|i: int| 0 <= i < slots.len() && slots[i] == s)
            && (forall|i: int|
            0 <= i < slots.len() && #[trigger] slots[i].availability ==> slot_le(s, slots[i])),
        None => forall|i: int| 0 <= i < slots.len() ==> !(#[trigger] slots[i].availability),
    }
}

/// The chronologically first slot that is still bookable, if any.
pub fn earliest_available(slots: &Vec<TimeSlot>) -> (r: Option<TimeSlot>)
    ensures
        match r {
            Some(s) => is_earliest_available(Seq::new(slots@.len(), |i: int| slots@[i]@), Some(s@)),
            None => is_earliest_available(Seq::new(slots@.len(), |i: int| slots@[i]@), None),
        },
{
    let ghost sv = Seq::new(slots@.len(), |i: int| slots@[i]@);
    let mut best: Option<TimeSlot> = None;
    let mut i: usize = 0;
    while i < slots.len()
        invariant
            i <= slots.len(),
            sv == Seq::new(slots@.len(), |k: int| slots@[k]@),
            match best {
                Some(s) => s@.availability && (exists|k: int| 0 <= k < i as int && sv[k] == s@)
                    && (forall|k: int|
                    0 <= k < i as int && #[trigger] sv[k].availability ==> slot_le(s@, sv[k])),
                None => forall|k: int| 0 <= k < i as int ==> !(#[trigger] sv[k].availability),
            },
        decreases slots.len() - i,
    {
        let cand = &slots[i];
        assert(sv[i as int] == cand@);
        if cand.availability {
            proof {
                lemma_slot_le_total(cand@, cand@);
            }
            match &best {
                None => {
                    best = Some(cand.duplicate());
                },
                Some(cur) => {
                    if slot_chrono_le(cand, cur) {
                        proof {
                            let old_best = cur@;
                            assert(forall|k: int|
                                0 <= k < i as int && #[trigger] sv[k].availability ==> slot_le(
                                    old_best,
                                    sv[k],
                                ));
                            assert forall|k: int|
                                0 <= k < i as int && #[trigger] sv[k].availability implies slot_le(
                                cand@,
                                sv[k],
                            ) by {
                                lemma_slot_le_trans(cand@, old_best, sv[k]);
                            }
                        }
                        best = Some(cand.duplicate());
                    } else {
                        proof {
                            lemma_slot_le_total(cand@, cur@);
                        }
                    }
                },
            }
        }
        i += 1;
    }
    best
}

} // verus!
