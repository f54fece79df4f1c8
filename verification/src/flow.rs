//! The per-session flow state machine.
//!
//! One live browser session is driven through login, booking-type
//! selection, and a loop over its assigned locations. The machine here
//! decides; the session runner outside the library performs each action
//! and reports what happened. A failure while processing one location
//! aborts only that location's capture: after a successful best-effort
//! recovery the machine moves on to the next location, and only a failed
//! recovery ends the whole session. Locations the machine cannot complete
//! are simply absent from the result, never partially populated.

use vstd::prelude::*;

use crate::codec::{expect, parse_opt_string, parse_slot_list};
use crate::slots::{clone_bytes, LocationBookings, SlotView, TimeSlot};

verus! {

// ---------------------------------------------------------------------------
// The slot payload exposed by the portal's in-page script
// ---------------------------------------------------------------------------

/// `{"ajaxresult":{"slots":{"nextAvailableDate":`
pub open spec fn key_payload_head() -> Seq<u8> {
    seq![123u8, 34u8, 97u8, 106u8, 97u8, 120u8, 114u8, 101u8, 115u8, 117u8, 108u8, 116u8, 34u8,
        58u8, 123u8, 34u8, 115u8, 108u8, 111u8, 116u8, 115u8, 34u8, 58u8, 123u8, 34u8, 110u8,
        101u8, 120u8, 116u8, 65u8, 118u8, 97u8, 105u8, 108u8, 97u8, 98u8, 108u8, 101u8, 68u8,
        97u8, 116u8, 101u8, 34u8, 58u8]
}

/// `,"listTimeSlot":`
pub open spec fn key_list_time_slot() -> Seq<u8> {
    seq![44u8, 34u8, 108u8, 105u8, 115u8, 116u8, 84u8, 105u8, 109u8, 101u8, 83u8, 108u8, 111u8,
        116u8, 34u8, 58u8]
}

/// The payload document: the next available date and the slot list, inside
/// three nested objects.
pub open spec fn parse_payload(s: Seq<u8>) -> Option<(Option<Seq<u8>>, Seq<SlotView>)> {
    match expect(s, key_payload_head()) {
        None => None,
        Some(s1) => match parse_opt_string(s1) {
            None => None,
            Some((date, s2)) => match expect(s2, key_list_time_slot()) {
                None => None,
                Some(s3) => match parse_slot_list(s3) {
                    None => None,
                    Some((slots, s4)) => match expect(s4, seq![125u8, 125u8, 125u8]) {
                        None => None,
                        Some(s5) => if s5.len() == 0 {
                            Some((date, slots))
                        } else {
                            None
                        },
                    },
                },
            },
        },
    }
}

fn key_payload_head_bytes() -> (r: Vec<u8>)
    ensures
        r@ == key_payload_head(),
{
    let mut v: Vec<u8> = Vec::new();
    v.push(123u8);
    v.push(34u8);
    v.push(97u8);
    v.push(106u8);
    v.push(97u8);
    v.push(120u8);
    v.push(114u8);
    v.push(101u8);
    v.push(115u8);
    v.push(117u8);
    v.push(108u8);
    v.push(116u8);
    v.push(34u8);
    v.push(58u8);
    v.push(123u8);
    v.push(34u8);
    v.push(115u8);
    v.push(108u8);
    v.push(111u8);
    v.push(116u8);
    v.push(115u8);
    v.push(34u8);
    v.push(58u8);
    v.push(123u8);
    v.push(34u8);
    v.push(110u8);
    v.push(101u8);
    v.push(120u8);
    v.push(116u8);
    v.push(65u8);
    v.push(118u8);
    v.push(97u8);
    v.push(105u8);
    v.push(108u8);
    v.push(97u8);
    v.push(98u8);
    v.push(108u8);
    v.push(101u8);
    v.push(68u8);
    v.push(97u8);
    v.push(116u8);
    v.push(101u8);
    v.push(34u8);
    v.push(58u8);
    assert(v@ =~= key_payload_head());
    v
}

fn key_list_time_slot_bytes() -> (r: Vec<u8>)
    ensures
        r@ == key_list_time_slot(),
{
    let mut v: Vec<u8> = Vec::new();
    v.push(44u8);
    v.push(34u8);
    v.push(108u8);
    v.push(105u8);
    v.push(115u8);
    v.push(116u8);
    v.push(84u8);
    v.push(105u8);
    v.push(109u8);
    v.push(101u8);
    v.push(83u8);
    v.push(108u8);
    v.push(111u8);
    v.push(116u8);
    v.push(34u8);
    v.push(58u8);
    assert(v@ =~= key_list_time_slot());
    v
}

fn triple_close_bytes() -> (r: Vec<u8>)
    ensures
        r@ == seq![125u8, 125u8, 125u8],
{
    let mut v: Vec<u8> = Vec::new();
    v.push(125u8);
    v.push(125u8);
    v.push(125u8);
    assert(v@ =~= seq![125u8, 125u8, 125u8]);
    v
}

/// Read the slot payload. A payload that does not match the expected shape
/// yields an empty slot list and no date — absence of the fields is not an
/// error.
pub fn extract_payload(bytes: &Vec<u8>) -> (r: (Option<Vec<u8>>, Vec<TimeSlot>))
    ensures
        match parse_payload(bytes@) {
            Some((date, slots)) => ({
                &&& match r.0 {
                    Some(d) => date == Some(d@),
                    None => date is None,
                }
                &&& Seq::new(r.1@.len(), |i: int| r.1@[i]@) == slots
            }),
            None => r.0 is None && r.1@.len() == 0,
        },
{
    proof {
        assert(bytes@.skip(0) =~= bytes@);
    }
    let head = key_payload_head_bytes();
    let j1 = match crate::codec::eat(bytes, 0, &head) {
        Some(j) => j,
        None => {
            return (None, Vec::new());
        },
    };
    let (date, j2) = match crate::codec::parse_opt_string_at(bytes, j1) {
        Some(p) => p,
        None => {
            return (None, Vec::new());
        },
    };
    let key_l = key_list_time_slot_bytes();
    let j3 = match crate::codec::eat(bytes, j2, &key_l) {
        Some(j) => j,
        None => {
            return (None, Vec::new());
        },
    };
    let (slots, j4) = match crate::codec::parse_slot_list_at(bytes, j3) {
        Some(p) => p,
        None => {
            return (None, Vec::new());
        },
    };
    let closer = triple_close_bytes();
    let j5 = match crate::codec::eat(bytes, j4, &closer) {
        Some(j) => j,
        None => {
            return (None, Vec::new());
        },
    };
    if j5 != bytes.len() {
        assert(bytes@.skip(j5 as int).len() > 0);
        return (None, Vec::new());
    }
    assert(bytes@.skip(j5 as int).len() == 0);
    (date, slots)
}

// ---------------------------------------------------------------------------
// The state machine
// ---------------------------------------------------------------------------

/// Where the session stands. The index counts through the assigned
/// locations.
#[derive(Clone, Copy, PartialEq, Eq, Structural, Debug)]
pub enum FlowState {
    /// Nothing done yet: the login page is next.
    Start,
    /// Credentials accepted: the booking-type branch is next.
    LoggedIn,
    /// The location-selection control is reachable: selecting a location
    /// is next.
    SelectLocation { index: usize },
    /// A location is selected and its slots are loading.
    AwaitSlots { index: usize },
    /// One location's failure is being recovered from, best effort.
    Recovering { index: usize },
    /// Every assigned location was visited.
    Done,
    /// Recovery failed: the rest of this session's locations are given up.
    SessionFatal,
}

/// What the session runner must do next.
#[derive(Clone, Copy, PartialEq, Eq, Structural, Debug)]
pub enum FlowAction {
    /// Navigate to the login page, type both credentials with jittered
    /// keystrokes, submit.
    Login,
    /// Walk the booking-type branch (manage an existing booking, or the
    /// new-booking path) down to the location-selection control.
    SelectBookingType,
    /// Open the dropdown, select the location, submit, optionally trigger
    /// the earliest-slot shortcut, and wait for the asynchronous load.
    OpenLocation { index: usize },
    /// Read the script-exposed slot payload and click the
    /// another-location control.
    CaptureSlots { index: usize },
    /// Best-effort click on the another-location control.
    Recover { index: usize },
    /// Close the session.
    Finish,
}

/// What the session runner reports back.
pub enum FlowEvent {
    /// The action was carried out.
    Performed,
    /// The action failed: a wait timed out or a selection was rejected.
    Failed,
    /// The slot payload was captured and the loop-entry control clicked.
    Captured { date: Option<Vec<u8>>, slots: Vec<TimeSlot> },
    /// The recovery click restored the loop-entry state.
    Recovered,
    /// The recovery control was unavailable or failed.
    Unrecoverable,
}

/// One session's machine: the assigned locations, the current state, and
/// what was fully captured so far.
pub struct FlowMachine {
    locations: Vec<Vec<u8>>,
    state: FlowState,
    captured: Vec<LocationBookings>,
}

impl FlowMachine {
    /// The assigned location ids.
    pub closed spec fn assigned(&self) -> Seq<Seq<u8>> {
        Seq::new(self.locations@.len(), |i: int| self.locations@[i]@)
    }

    /// The current state.
    pub closed spec fn state(&self) -> FlowState {
        self.state
    }

    /// The fully captured results so far.
    pub closed spec fn captured_so_far(&self) -> Seq<crate::slots::LocationView> {
        Seq::new(self.captured@.len(), |i: int| self.captured@[i]@)
    }

    /// The machine never leaves a state where it still owes an action
    /// while pointing past the assigned locations.
    pub closed spec fn wf(&self) -> bool {
        match self.state {
            FlowState::SelectLocation { index } => index < self.locations@.len(),
            FlowState::AwaitSlots { index } => index < self.locations@.len(),
            FlowState::Recovering { index } => index < self.locations@.len(),
            _ => true,
        }
    }

    /// A fresh machine for one session.
    pub fn new(locations: Vec<Vec<u8>>) -> (r: FlowMachine)
        ensures
            r.wf(),
            r.state() == FlowState::Start,
            r.assigned() == Seq::new(locations@.len(), |i: int| locations@[i]@),
            r.captured_so_far() == Seq::<crate::slots::LocationView>::empty(),
    {
        let r = FlowMachine { locations, state: FlowState::Start, captured: Vec::new() };
        proof {
            assert(r.captured_so_far() =~= Seq::<crate::slots::LocationView>::empty());
        }
        r
    }

    /// Whether the session still owes an action.
    pub fn is_active(&self) -> (r: bool)
        ensures
            r == !(self.state() == FlowState::Done || self.state() == FlowState::SessionFatal),
    {
        match self.state {
            FlowState::Done => false,
            FlowState::SessionFatal => false,
            _ => true,
        }
    }

    /// The next action the session runner must perform.
    pub fn next_action(&self) -> (a: FlowAction)
        requires
            self.state() != FlowState::Done,
            self.state() != FlowState::SessionFatal,
        ensures
            a == match self.state() {
                FlowState::Start => FlowAction::Login,
                FlowState::LoggedIn => FlowAction::SelectBookingType,
                FlowState::SelectLocation { index } => FlowAction::OpenLocation { index },
                FlowState::AwaitSlots { index } => FlowAction::CaptureSlots { index },
                FlowState::Recovering { index } => FlowAction::Recover { index },
                _ => FlowAction::Finish,
            },
    {
        match self.state {
            FlowState::Start => FlowAction::Login,
            FlowState::LoggedIn => FlowAction::SelectBookingType,
            FlowState::SelectLocation { index } => FlowAction::OpenLocation { index },
            FlowState::AwaitSlots { index } => FlowAction::CaptureSlots { index },
            FlowState::Recovering { index } => FlowAction::Recover { index },
            FlowState::Done => FlowAction::Finish,
            FlowState::SessionFatal => FlowAction::Finish,
        }
    }

    /// The state after location `index` is dealt with: the next assigned
    /// location, or done.
    fn advance_after(&self, index: usize) -> (s: FlowState)
        requires
            index < self.locations@.len(),
        ensures
            s == if index + 1 < self.assigned().len() {
                FlowState::SelectLocation { index: (index + 1) as usize }
            } else {
                FlowState::Done
            },
    {
        let n = self.locations.len();
        if n - index > 1 {
            FlowState::SelectLocation { index: index + 1 }
        } else {
            FlowState::Done
        }
    }

    /// Feed one event back into the machine.
    ///
    /// A capture appends exactly one fully populated entry, under the id
    /// of the location being processed. A per-location failure moves to
    /// recovery; a recovered session goes on with the next location; a
    /// failed recovery ends the session. Nothing else ever changes the
    /// captured results.
    pub fn step(&mut self, event: FlowEvent)
        requires
            old(self).wf(),
            old(self).state() != FlowState::Done,
            old(self).state() != FlowState::SessionFatal,
        ensures
            final(self).wf(),
            final(self).assigned() == old(self).assigned(),
            match old(self).state() {
                FlowState::Start => final(self).captured_so_far() == old(self).captured_so_far()
                    && final(self).state() == (match event {
                    FlowEvent::Performed => FlowState::LoggedIn,
                    _ => FlowState::SessionFatal,
                }),
                FlowState::LoggedIn => final(self).captured_so_far() == old(self).captured_so_far() && final(self).state() == (match event {
                    FlowEvent::Performed => if old(self).assigned().len() > 0 {
                        FlowState::SelectLocation { index: 0 }
                    } else {
                        FlowState::Done
                    },
                    _ => FlowState::SessionFatal,
                }),
                FlowState::SelectLocation { index } => final(self).captured_so_far() == old(self).captured_so_far() && final(self).state() == (match event {
                    FlowEvent::Performed => FlowState::AwaitSlots { index },
                    _ => FlowState::Recovering { index },
                }),
                FlowState::AwaitSlots { index } => match event {
                    FlowEvent::Captured { date, slots } => ({
                        &&& final(self).captured_so_far() == old(self).captured_so_far().push(
                            crate::slots::LocationView {
                                location: old(self).assigned()[index as int],
                                slots: Seq::new(slots@.len(), |i: int| slots@[i]@),
                                next_available_date: match date {
                                    Some(d) => Some(d@),
                                    None => None,
                                },
                            },
                        )
                        &&& final(self).state() == (if index + 1 < old(self).assigned().len() {
                            FlowState::SelectLocation { index: (index + 1) as usize }
                        } else {
                            FlowState::Done
                        })
                    }),
                    _ => final(self).captured_so_far() == old(self).captured_so_far() && final(self).state() == FlowState::Recovering { index },
                },
                FlowState::Recovering { index } => final(self).captured_so_far() == old(self).captured_so_far() && final(self).state() == (match event {
                    FlowEvent::Recovered => if index + 1 < old(self).assigned().len() {
                        FlowState::SelectLocation { index: (index + 1) as usize }
                    } else {
                        FlowState::Done
                    },
                    _ => FlowState::SessionFatal,
                }),
                _ => true,
            },
    {
        let ghost before = self.captured_so_far();
        match self.state {
            FlowState::Start => {
                self.state = match event {
                    FlowEvent::Performed => FlowState::LoggedIn,
                    _ => FlowState::SessionFatal,
                };
            },
            FlowState::LoggedIn => {
                self.state = match event {
                    FlowEvent::Performed => if self.locations.len() > 0 {
                        FlowState::SelectLocation { index: 0 }
                    } else {
                        FlowState::Done
                    },
                    _ => FlowState::SessionFatal,
                };
            },
            FlowState::SelectLocation { index } => {
                self.state = match event {
                    FlowEvent::Performed => FlowState::AwaitSlots { index },
                    _ => FlowState::Recovering { index },
                };
            },
            FlowState::AwaitSlots { index } => {
                match event {
                    FlowEvent::Captured { date, slots } => {
                        let entry = LocationBookings {
                            location: clone_bytes(&self.locations[index]),
                            slots,
                            next_available_date: date,
                        };
                        proof {
                            assert(entry@.slots =~= Seq::new(
                                entry.slots@.len(),
                                |i: int| entry.slots@[i]@,
                            ));
                        }
                        self.captured.push(entry);
                        proof {
                            assert(self.captured_so_far() =~= before.push(
                                self.captured@.last()@,
                            ));
                            assert(index < self.locations@.len());
                        }
                        self.state = self.advance_after(index);
                    },
                    _ => {
                        self.state = FlowState::Recovering { index };
                    },
                }
            },
            FlowState::Recovering { index } => {
                proof {
                    assert(index < self.locations@.len());
                }
                self.state = match event {
                    FlowEvent::Recovered => self.advance_after(index),
                    _ => FlowState::SessionFatal,
                };
            },
            FlowState::Done => {},
            FlowState::SessionFatal => {},
        }
    }

    /// Hand out whatever was fully captured, ending the machine's use.
    pub fn into_results(self) -> (r: Vec<LocationBookings>)
        ensures
            Seq::new(r@.len(), |i: int| r@[i]@) == self.captured_so_far(),
    {
        let r = self.captured;
        proof {
            assert(Seq::new(r@.len(), |i: int| r@[i]@) =~= Seq::new(
                r@.len(),
                |i: int| r@[i]@,
            ));
        }
        r
    }
}

} // verus!
