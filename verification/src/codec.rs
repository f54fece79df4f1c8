//! Snapshot codec: the persisted dataset is a JSON document of the shape
//! `{"results":[{"location":..,"slots":[{"availability":..,"slot_number":..,
//! "startTime":..}],"next_available_date":..}],"last_updated":..}`.
//!
//! The renderer and the parser are both verified against one spec-level
//! grammar, and a round-trip law says that loading a rendered snapshot
//! reproduces the dataset exactly.

use vstd::prelude::*;

use crate::slots::{BookingData, DataView, LocationBookings, LocationView, SlotView, TimeSlot};

verus! {

// ---------------------------------------------------------------------------
// Spec-level rendering
// ---------------------------------------------------------------------------

/// A hexadecimal digit in lower case.
pub open spec fn hex_digit(n: u8) -> u8 {
    if n < 10 {
        (48 + n) as u8
    } else {
        (87 + n) as u8
    }
}

/// JSON escape of one byte: quote and backslash get a backslash escape,
/// control bytes a `\u00XX` escape, everything else passes through.
pub open spec fn esc_byte(b: u8) -> Seq<u8> {
    if b == 34 {
        seq![92u8, 34u8]
    } else if b == 92 {
        seq![92u8, 92u8]
    } else if b < 32 {
        seq![92u8, 117u8, 48u8, 48u8, hex_digit(b / 16), hex_digit(b % 16)]
    } else {
        seq![b]
    }
}

/// JSON escape of a byte string.
pub open spec fn esc(s: Seq<u8>) -> Seq<u8>
    decreases s.len(),
{
    if s.len() == 0 {
        Seq::empty()
    } else {
        esc_byte(s[0]) + esc(s.skip(1))
    }
}

/// A quoted, escaped JSON string.
pub open spec fn render_string(s: Seq<u8>) -> Seq<u8> {
    seq![34u8] + esc(s) + seq![34u8]
}

/// Decimal digits of `n`, most significant first.
pub open spec fn dec(n: nat) -> Seq<u8>
    decreases n,
{
    if n < 10 {
        seq![(48 + n) as u8]
    } else {
        dec(n / 10) + seq![(48 + n % 10) as u8]
    }
}

pub open spec fn lit_true() -> Seq<u8> {
    seq![116u8, 114u8, 117u8, 101u8]
}

pub open spec fn lit_false() -> Seq<u8> {
    seq![102u8, 97u8, 108u8, 115u8, 101u8]
}

pub open spec fn lit_null() -> Seq<u8> {
    seq![110u8, 117u8, 108u8, 108u8]
}

pub open spec fn render_bool(b: bool) -> Seq<u8> {
    if b {
        lit_true()
    } else {
        lit_false()
    }
}

pub open spec fn render_opt_num(n: Option<u32>) -> Seq<u8> {
    match n {
        Some(v) => dec(v as nat),
        None => lit_null(),
    }
}

pub open spec fn render_opt_string(s: Option<Seq<u8>>) -> Seq<u8> {
    match s {
        Some(v) => render_string(v),
        None => lit_null(),
    }
}

/// `{"availability":`
pub open spec fn key_availability() -> Seq<u8> {
    seq![123u8, 34u8, 97u8, 118u8, 97u8, 105u8, 108u8, 97u8, 98u8, 105u8, 108u8, 105u8, 116u8, 121u8, 34u8, 58u8]
}

/// `,"slot_number":`
pub open spec fn key_slot_number() -> Seq<u8> {
    seq![44u8, 34u8, 115u8, 108u8, 111u8, 116u8, 95u8, 110u8, 117u8, 109u8, 98u8, 101u8, 114u8, 34u8, 58u8]
}

/// `,"startTime":`
pub open spec fn key_start_time() -> Seq<u8> {
    seq![44u8, 34u8, 115u8, 116u8, 97u8, 114u8, 116u8, 84u8, 105u8, 109u8, 101u8, 34u8, 58u8]
}

/// `{"location":`
pub open spec fn key_location() -> Seq<u8> {
    seq![123u8, 34u8, 108u8, 111u8, 99u8, 97u8, 116u8, 105u8, 111u8, 110u8, 34u8, 58u8]
}

/// `,"slots":`
pub open spec fn key_slots() -> Seq<u8> {
    seq![44u8, 34u8, 115u8, 108u8, 111u8, 116u8, 115u8, 34u8, 58u8]
}

/// `,"next_available_date":`
pub open spec fn key_next_available() -> Seq<u8> {
    seq![44u8, 34u8, 110u8, 101u8, 120u8, 116u8, 95u8, 97u8, 118u8, 97u8, 105u8, 108u8, 97u8, 98u8, 108u8,
        101u8, 95u8, 100u8, 97u8, 116u8, 101u8, 34u8, 58u8]
}

/// `{"results":`
pub open spec fn key_results() -> Seq<u8> {
    seq![123u8, 34u8, 114u8, 101u8, 115u8, 117u8, 108u8, 116u8, 115u8, 34u8, 58u8]
}

/// `,"last_updated":`
pub open spec fn key_last_updated() -> Seq<u8> {
    seq![44u8, 34u8, 108u8, 97u8, 115u8, 116u8, 95u8, 117u8, 112u8, 100u8, 97u8, 116u8, 101u8, 100u8, 34u8,
        58u8]
}

pub open spec fn render_slot(s: SlotView) -> Seq<u8> {
    key_availability() + render_bool(s.availability) + key_slot_number()
        + render_opt_num(s.slot_number) + key_start_time() + render_string(s.start_time)
        + seq![125u8]
}

/// The elements of a JSON array after the first, each preceded by a comma.
pub open spec fn render_slot_rest(l: Seq<SlotView>) -> Seq<u8>
    decreases l.len(),
{
    if l.len() == 0 {
        Seq::empty()
    } else {
        seq![44u8] + render_slot(l[0]) + render_slot_rest(l.skip(1))
    }
}

pub open spec fn render_slot_list(l: Seq<SlotView>) -> Seq<u8> {
    if l.len() == 0 {
        seq![91u8, 93u8]
    } else {
        seq![91u8] + render_slot(l[0]) + render_slot_rest(l.skip(1)) + seq![93u8]
    }
}

pub open spec fn render_location(v: LocationView) -> Seq<u8> {
    key_location() + render_string(v.location) + key_slots() + render_slot_list(v.slots)
        + key_next_available() + render_opt_string(v.next_available_date) + seq![125u8]
}

pub open spec fn render_location_rest(l: Seq<LocationView>) -> Seq<u8>
    decreases l.len(),
{
    if l.len() == 0 {
        Seq::empty()
    } else {
        seq![44u8] + render_location(l[0]) + render_location_rest(l.skip(1))
    }
}

pub open spec fn render_location_list(l: Seq<LocationView>) -> Seq<u8> {
    if l.len() == 0 {
        seq![91u8, 93u8]
    } else {
        seq![91u8] + render_location(l[0]) + render_location_rest(l.skip(1)) + seq![93u8]
    }
}

/// The whole snapshot document.
pub open spec fn render_data(d: DataView) -> Seq<u8> {
    key_results() + render_location_list(d.results) + key_last_updated()
        + render_opt_string(d.last_updated) + seq![125u8]
}

// ---------------------------------------------------------------------------
// Spec-level parsing
//
// Each parser takes the remaining input and yields the parsed value together
// with what is left, or nothing when the input does not match the grammar.
// ---------------------------------------------------------------------------

pub open spec fn is_digit(b: u8) -> bool {
    48 <= b <= 57
}

pub open spec fn is_hex(b: u8) -> bool {
    is_digit(b) || (97 <= b <= 102)
}

pub open spec fn hex_val(b: u8) -> nat {
    if is_digit(b) {
        (b - 48) as nat
    } else {
        (b - 87) as nat
    }
}

/// The longest prefix of decimal digits.
pub open spec fn digit_run(s: Seq<u8>) -> Seq<u8>
    decreases s.len(),
{
    if s.len() > 0 && is_digit(s[0]) {
        seq![s[0]] + digit_run(s.skip(1))
    } else {
        Seq::empty()
    }
}

/// The value of a digit string, most significant digit first.
pub open spec fn digits_val(d: Seq<u8>) -> nat
    decreases d.len(),
{
    if d.len() == 0 {
        0
    } else {
        digits_val(d.drop_last()) * 10 + ((d.last() - 48) as nat)
    }
}

/// Consume an exact literal.
pub open spec fn expect(s: Seq<u8>, lit: Seq<u8>) -> Option<Seq<u8>> {
    if lit.len() <= s.len() && s.take(lit.len() as int) == lit {
        Some(s.skip(lit.len() as int))
    } else {
        None
    }
}

pub open spec fn parse_num(s: Seq<u8>) -> Option<(u32, Seq<u8>)> {
    let run = digit_run(s);
    if run.len() == 0 {
        None
    } else if digits_val(run) > u32::MAX {
        None
    } else {
        Some((digits_val(run) as u32, s.skip(run.len() as int)))
    }
}

pub open spec fn parse_bool(s: Seq<u8>) -> Option<(bool, Seq<u8>)> {
    match expect(s, lit_true()) {
        Some(r) => Some((true, r)),
        None => match expect(s, lit_false()) {
            Some(r) => Some((false, r)),
            None => None,
        },
    }
}

/// The body of a quoted string, after the opening quote.
pub open spec fn parse_str_body(s: Seq<u8>) -> Option<(Seq<u8>, Seq<u8>)>
    decreases s.len(),
{
    if s.len() == 0 {
        None
    } else if s[0] == 34 {
        Some((Seq::empty(), s.skip(1)))
    } else if s[0] == 92 {
        if s.len() < 2 {
            None
        } else if s[1] == 34 || s[1] == 92 {
            match parse_str_body(s.skip(2)) {
                Some((v, r)) => Some((seq![s[1]] + v, r)),
                None => None,
            }
        } else if s[1] == 117 {
            if s.len() < 6 {
                None
            } else if is_hex(s[2]) && is_hex(s[3]) && is_hex(s[4]) && is_hex(s[5]) {
                let code = hex_val(s[2]) * 4096 + hex_val(s[3]) * 256 + hex_val(s[4]) * 16
                    + hex_val(s[5]);
                if code < 256 {
                    match parse_str_body(s.skip(6)) {
                        Some((v, r)) => Some((seq![code as u8] + v, r)),
                        None => None,
                    }
                } else {
                    None
                }
            } else {
                None
            }
        } else {
            None
        }
    } else {
        match parse_str_body(s.skip(1)) {
            Some((v, r)) => Some((seq![s[0]] + v, r)),
            None => None,
        }
    }
}

pub open spec fn parse_string(s: Seq<u8>) -> Option<(Seq<u8>, Seq<u8>)> {
    if s.len() > 0 && s[0] == 34 {
        parse_str_body(s.skip(1))
    } else {
        None
    }
}

pub open spec fn parse_opt_num(s: Seq<u8>) -> Option<(Option<u32>, Seq<u8>)> {
    if s.len() > 0 && s[0] == 110 {
        match expect(s, lit_null()) {
            Some(r) => Some((None, r)),
            None => None,
        }
    } else {
        match parse_num(s) {
            Some((v, r)) => Some((Some(v), r)),
            None => None,
        }
    }
}

pub open spec fn parse_opt_string(s: Seq<u8>) -> Option<(Option<Seq<u8>>, Seq<u8>)> {
    if s.len() > 0 && s[0] == 34 {
        match parse_string(s) {
            Some((v, r)) => Some((Some(v), r)),
            None => None,
        }
    } else {
        match expect(s, lit_null()) {
            Some(r) => Some((None, r)),
            None => None,
        }
    }
}

pub open spec fn parse_slot(s: Seq<u8>) -> Option<(SlotView, Seq<u8>)> {
    match expect(s, key_availability()) {
        None => None,
        Some(s1) => match parse_bool(s1) {
            None => None,
            Some((av, s2)) => match expect(s2, key_slot_number()) {
                None => None,
                Some(s3) => match parse_opt_num(s3) {
                    None => None,
                    Some((num, s4)) => match expect(s4, key_start_time()) {
                        None => None,
                        Some(s5) => match parse_string(s5) {
                            None => None,
                            Some((st, s6)) => match expect(s6, seq![125u8]) {
                                None => None,
                                Some(s7) => Some(
                                    (
                                        SlotView {
                                            availability: av,
                                            slot_number: num,
                                            start_time: st,
                                        },
                                        s7,
                                    ),
                                ),
                            },
                        },
                    },
                },
            },
        },
    }
}

/// A parsed string leaves a strictly shorter remainder.
pub proof fn lemma_str_body_shrinks(s: Seq<u8>)
    ensures
        match parse_str_body(s) {
            Some((v, r)) => r.len() < s.len(),
            None => true,
        },
    decreases s.len(),
{
    if s.len() == 0 {
    } else if s[0] == 34 {
    } else if s[0] == 92 {
        if s.len() >= 2 && (s[1] == 34 || s[1] == 92) {
            lemma_str_body_shrinks(s.skip(2));
        } else if s.len() >= 6 && s[1] == 117 {
            lemma_str_body_shrinks(s.skip(6));
        }
    } else {
        lemma_str_body_shrinks(s.skip(1));
    }
}

/// A parsed digit run is a prefix of the input.
pub proof fn lemma_digit_run_prefix(s: Seq<u8>)
    ensures
        digit_run(s).len() <= s.len(),
    decreases s.len(),
{
    if s.len() > 0 && is_digit(s[0]) {
        lemma_digit_run_prefix(s.skip(1));
    }
}

/// A parsed slot leaves a strictly shorter remainder.
pub proof fn lemma_parse_slot_shrinks(s: Seq<u8>)
    ensures
        match parse_slot(s) {
            Some((v, r)) => r.len() < s.len(),
            None => true,
        },
{
    match expect(s, key_availability()) {
        None => {},
        Some(s1) => {
            assert(s1.len() < s.len());
            match parse_bool(s1) {
                None => {},
                Some((av, s2)) => {
                    assert(s2.len() <= s1.len());
                    match expect(s2, key_slot_number()) {
                        None => {},
                        Some(s3) => {
                            assert(s3.len() < s2.len());
                            match parse_opt_num(s3) {
                                None => {},
                                Some((num, s4)) => {
                                    assert(s4.len() <= s3.len()) by {
                                        lemma_digit_run_prefix(s3);
                                    }
                                    match expect(s4, key_start_time()) {
                                        None => {},
                                        Some(s5) => {
                                            assert(s5.len() < s4.len());
                                            match parse_string(s5) {
                                                None => {},
                                                Some((st, s6)) => {
                                                    assert(s6.len() < s5.len()) by {
                                                        if s5.len() > 0 && s5[0] == 34 {
                                                            lemma_str_body_shrinks(s5.skip(1));
                                                        }
                                                    }
                                                },
                                            }
                                        },
                                    }
                                },
                            }
                        },
                    }
                },
            }
        },
    }
}

/// The elements of a slot array after the first, up to the closing bracket.
pub open spec fn parse_slot_tail(s: Seq<u8>) -> Option<(Seq<SlotView>, Seq<u8>)>
    decreases s.len(),
    via parse_slot_tail_dec
{
    if s.len() == 0 {
        None
    } else if s[0] == 93 {
        Some((Seq::empty(), s.skip(1)))
    } else if s[0] == 44 {
        match parse_slot(s.skip(1)) {
            Some((v, rem)) => match parse_slot_tail(rem) {
                Some((l, r2)) => Some((seq![v] + l, r2)),
                None => None,
            },
            None => None,
        }
    } else {
        None
    }
}

#[via_fn]
proof fn parse_slot_tail_dec(s: Seq<u8>) {
    if s.len() > 0 && s[0] != 93 && s[0] == 44 {
        lemma_parse_slot_shrinks(s.skip(1));
    }
}

pub open spec fn parse_slot_list(s: Seq<u8>) -> Option<(Seq<SlotView>, Seq<u8>)> {
    if s.len() < 2 || s[0] != 91 {
        None
    } else if s[1] == 93 {
        Some((Seq::empty(), s.skip(2)))
    } else {
        match parse_slot(s.skip(1)) {
            Some((v, rem)) => match parse_slot_tail(rem) {
                Some((l, r2)) => Some((seq![v] + l, r2)),
                None => None,
            },
            None => None,
        }
    }
}

pub open spec fn parse_location(s: Seq<u8>) -> Option<(LocationView, Seq<u8>)> {
    match expect(s, key_location()) {
        None => None,
        Some(s1) => match parse_string(s1) {
            None => None,
            Some((loc, s2)) => match expect(s2, key_slots()) {
                None => None,
                Some(s3) => match parse_slot_list(s3) {
                    None => None,
                    Some((slots, s4)) => match expect(s4, key_next_available()) {
                        None => None,
                        Some(s5) => match parse_opt_string(s5) {
                            None => None,
                            Some((next, s6)) => match expect(s6, seq![125u8]) {
                                None => None,
                                Some(s7) => Some(
                                    (
                                        LocationView {
                                            location: loc,
                                            slots,
                                            next_available_date: next,
                                        },
                                        s7,
                                    ),
                                ),
                            },
                        },
                    },
                },
            },
        },
    }
}

/// A parsed slot array leaves a remainder no longer than the input.
pub proof fn lemma_parse_slot_tail_shrinks(s: Seq<u8>)
    ensures
        match parse_slot_tail(s) {
            Some((l, r)) => r.len() < s.len(),
            None => true,
        },
    decreases s.len(),
{
    if s.len() > 0 && s[0] != 93 && s[0] == 44 {
        lemma_parse_slot_shrinks(s.skip(1));
        match parse_slot(s.skip(1)) {
            Some((v, rem)) => {
                lemma_parse_slot_tail_shrinks(rem);
            },
            None => {},
        }
    }
}

pub proof fn lemma_parse_slot_list_shrinks(s: Seq<u8>)
    ensures
        match parse_slot_list(s) {
            Some((l, r)) => r.len() < s.len(),
            None => true,
        },
{
    if s.len() >= 2 && s[0] == 91 && s[1] != 93 {
        lemma_parse_slot_shrinks(s.skip(1));
        match parse_slot(s.skip(1)) {
            Some((v, rem)) => {
                lemma_parse_slot_tail_shrinks(rem);
            },
            None => {},
        }
    }
}

/// A parsed location leaves a strictly shorter remainder.
pub proof fn lemma_parse_location_shrinks(s: Seq<u8>)
    ensures
        match parse_location(s) {
            Some((v, r)) => r.len() < s.len(),
            None => true,
        },
{
    match expect(s, key_location()) {
        None => {},
        Some(s1) => {
            assert(s1.len() < s.len());
            match parse_string(s1) {
                None => {},
                Some((loc, s2)) => {
                    assert(s2.len() < s1.len()) by {
                        if s1.len() > 0 && s1[0] == 34 {
                            lemma_str_body_shrinks(s1.skip(1));
                        }
                    }
                    match expect(s2, key_slots()) {
                        None => {},
                        Some(s3) => {
                            match parse_slot_list(s3) {
                                None => {},
                                Some((slots, s4)) => {
                                    assert(s4.len() < s3.len()) by {
                                        lemma_parse_slot_list_shrinks(s3);
                                    }
                                    match expect(s4, key_next_available()) {
                                        None => {},
                                        Some(s5) => {
                                            match parse_opt_string(s5) {
                                                None => {},
                                                Some((next, s6)) => {
                                                    assert(s6.len() <= s5.len()) by {
                                                        if s5.len() > 0 && s5[0] == 34 {
                                                            lemma_str_body_shrinks(s5.skip(1));
                                                        }
                                                    }
                                                },
                                            }
                                        },
                                    }
                                },
                            }
                        },
                    }
                },
            }
        },
    }
}

/// The elements of the results array after the first.
pub open spec fn parse_location_tail(s: Seq<u8>) -> Option<(Seq<LocationView>, Seq<u8>)>
    decreases s.len(),
    via parse_location_tail_dec
{
    if s.len() == 0 {
        None
    } else if s[0] == 93 {
        Some((Seq::empty(), s.skip(1)))
    } else if s[0] == 44 {
        match parse_location(s.skip(1)) {
            Some((v, rem)) => match parse_location_tail(rem) {
                Some((l, r2)) => Some((seq![v] + l, r2)),
                None => None,
            },
            None => None,
        }
    } else {
        None
    }
}

#[via_fn]
proof fn parse_location_tail_dec(s: Seq<u8>) {
    if s.len() > 0 && s[0] != 93 && s[0] == 44 {
        lemma_parse_location_shrinks(s.skip(1));
    }
}

pub open spec fn parse_location_list(s: Seq<u8>) -> Option<(Seq<LocationView>, Seq<u8>)> {
    if s.len() < 2 || s[0] != 91 {
        None
    } else if s[1] == 93 {
        Some((Seq::empty(), s.skip(2)))
    } else {
        match parse_location(s.skip(1)) {
            Some((v, rem)) => match parse_location_tail(rem) {
                Some((l, r2)) => Some((seq![v] + l, r2)),
                None => None,
            },
            None => None,
        }
    }
}

/// The whole snapshot document; trailing bytes are rejected.
pub open spec fn parse_data(s: Seq<u8>) -> Option<DataView> {
    match expect(s, key_results()) {
        None => None,
        Some(s1) => match parse_location_list(s1) {
            None => None,
            Some((results, s2)) => match expect(s2, key_last_updated()) {
                None => None,
                Some(s3) => match parse_opt_string(s3) {
                    None => None,
                    Some((lu, s4)) => match expect(s4, seq![125u8]) {
                        None => None,
                        Some(s5) => if s5.len() == 0 {
                            Some(DataView { results, last_updated: lu })
                        } else {
                            None
                        },
                    },
                },
            },
        },
    }
}

// ---------------------------------------------------------------------------
// Round trip: parsing a rendered snapshot gives the dataset back
// ---------------------------------------------------------------------------

/// A literal prefix is consumed exactly.
proof fn lemma_expect_prefix(lit: Seq<u8>, rest: Seq<u8>)
    ensures
        expect(lit + rest, lit) == Some(rest),
{
    assert((lit + rest).take(lit.len() as int) =~= lit);
    assert((lit + rest).skip(lit.len() as int) =~= rest);
}

proof fn lemma_hex_digit_val(n: u8)
    requires
        n < 16,
    ensures
        is_hex(hex_digit(n)),
        hex_val(hex_digit(n)) == n,
{
}

/// The string body parser inverts escaping.
proof fn lemma_parse_str_body_render(s: Seq<u8>, rest: Seq<u8>)
    ensures
        parse_str_body(esc(s) + seq![34u8] + rest) == Some((s, rest)),
    decreases s.len(),
{
    let buf = esc(s) + seq![34u8] + rest;
    if s.len() == 0 {
        assert(buf =~= seq![34u8] + rest);
        assert(buf[0] == 34);
        assert(buf.skip(1) =~= rest);
        assert(parse_str_body(buf) == Some((Seq::<u8>::empty(), rest)));
    } else {
        let b = s[0];
        let tail_buf = esc(s.skip(1)) + seq![34u8] + rest;
        assert(buf =~= esc_byte(b) + tail_buf);
        lemma_parse_str_body_render(s.skip(1), rest);
        if b == 34 || b == 92 {
            assert(buf[0] == 92);
            assert(buf[1] == b);
            assert(buf.skip(2) =~= tail_buf);
            assert(seq![b] + s.skip(1) =~= s);
            assert(parse_str_body(buf) == Some((s, rest)));
        } else if b < 32 {
            assert(buf[0] == 92);
            assert(buf[1] == 117);
            assert(buf[2] == 48);
            assert(buf[3] == 48);
            assert(buf[4] == hex_digit(b / 16));
            assert(buf[5] == hex_digit(b % 16));
            lemma_hex_digit_val(b / 16);
            lemma_hex_digit_val(b % 16);
            assert(hex_val(48) == 0);
            let code = hex_val(buf[2]) * 4096 + hex_val(buf[3]) * 256 + hex_val(buf[4]) * 16
                + hex_val(buf[5]);
            assert(code == (b / 16) * 16 + (b % 16));
            assert(code == b);
            assert(buf.skip(6) =~= tail_buf);
            assert(seq![b] + s.skip(1) =~= s);
            assert(parse_str_body(buf) == Some((s, rest)));
        } else {
            assert(buf[0] == b);
            assert(b != 34 && b != 92);
            assert(buf.skip(1) =~= tail_buf);
            assert(seq![b] + s.skip(1) =~= s);
            assert(parse_str_body(buf) == Some((s, rest)));
        }
    }
}

proof fn lemma_parse_string_render(s: Seq<u8>, rest: Seq<u8>)
    ensures
        parse_string(render_string(s) + rest) == Some((s, rest)),
{
    let buf = render_string(s) + rest;
    assert(buf[0] == 34);
    assert(buf.skip(1) =~= esc(s) + seq![34u8] + rest);
    lemma_parse_str_body_render(s, rest);
}

/// Every byte of a decimal rendering is a digit, and there is at least one.
proof fn lemma_dec_digits(n: nat)
    ensures
        dec(n).len() >= 1,
        forall|i: int| 0 <= i < dec(n).len() ==> is_digit(#[trigger] dec(n)[i]),
    decreases n,
{
    if n >= 10 {
        lemma_dec_digits(n / 10);
    }
}

/// Parsing the digits of `n` yields `n`.
proof fn lemma_digits_val_dec(n: nat)
    ensures
        digits_val(dec(n)) == n,
    decreases n,
{
    if n < 10 {
        assert(dec(n).drop_last() =~= Seq::<u8>::empty());
        assert(dec(n).last() == 48 + n);
        assert(digits_val(dec(n)) == digits_val(Seq::<u8>::empty()) * 10 + n);
    } else {
        lemma_digits_val_dec(n / 10);
        assert(dec(n).drop_last() =~= dec(n / 10));
        assert(dec(n).last() == 48 + n % 10);
        assert(digits_val(dec(n)) == (n / 10) * 10 + n % 10);
        assert(n == (n / 10) * 10 + n % 10) by (nonlinear_arith);
    }
}

/// The digit run of an all-digit prefix followed by a non-digit is that prefix.
proof fn lemma_digit_run_exact(d: Seq<u8>, rest: Seq<u8>)
    requires
        forall|i: int| 0 <= i < d.len() ==> is_digit(#[trigger] d[i]),
        rest.len() == 0 || !is_digit(rest[0]),
    ensures
        digit_run(d + rest) == d,
    decreases d.len(),
{
    let buf = d + rest;
    if d.len() == 0 {
        assert(buf =~= rest);
        assert(digit_run(buf) =~= d);
    } else {
        assert(buf[0] == d[0]);
        assert(buf.skip(1) =~= d.skip(1) + rest);
        lemma_digit_run_exact(d.skip(1), rest);
        assert(digit_run(buf) =~= seq![d[0]] + d.skip(1));
        assert(seq![d[0]] + d.skip(1) =~= d);
    }
}

proof fn lemma_parse_num_render(n: u32, rest: Seq<u8>)
    requires
        rest.len() == 0 || !is_digit(rest[0]),
    ensures
        parse_num(dec(n as nat) + rest) == Some((n, rest)),
{
    let d = dec(n as nat);
    lemma_dec_digits(n as nat);
    lemma_digit_run_exact(d, rest);
    lemma_digits_val_dec(n as nat);
    assert((d + rest).skip(d.len() as int) =~= rest);
}

proof fn lemma_parse_bool_render(b: bool, rest: Seq<u8>)
    ensures
        parse_bool(render_bool(b) + rest) == Some((b, rest)),
{
    let buf = render_bool(b) + rest;
    if b {
        lemma_expect_prefix(lit_true(), rest);
    } else {
        lemma_expect_prefix(lit_false(), rest);
        assert(buf[0] == 102);
        if lit_true().len() <= buf.len() && buf.take(lit_true().len() as int) == lit_true() {
            assert(buf.take(4)[0] == buf[0]);
            assert(false);
        }
    }
}

proof fn lemma_parse_opt_num_render(n: Option<u32>, rest: Seq<u8>)
    requires
        rest.len() == 0 || !is_digit(rest[0]),
    ensures
        parse_opt_num(render_opt_num(n) + rest) == Some((n, rest)),
{
    let buf = render_opt_num(n) + rest;
    match n {
        Some(v) => {
            lemma_dec_digits(v as nat);
            assert(buf[0] == dec(v as nat)[0]);
            assert(buf[0] != 110);
            lemma_parse_num_render(v, rest);
        },
        None => {
            assert(buf[0] == 110);
            lemma_expect_prefix(lit_null(), rest);
        },
    }
}

proof fn lemma_parse_opt_string_render(s: Option<Seq<u8>>, rest: Seq<u8>)
    ensures
        parse_opt_string(render_opt_string(s) + rest) == Some((s, rest)),
{
    let buf = render_opt_string(s) + rest;
    match s {
        Some(v) => {
            assert(buf[0] == 34);
            lemma_parse_string_render(v, rest);
            assert(render_string(v) + rest =~= buf);
        },
        None => {
            assert(buf[0] == 110);
            lemma_expect_prefix(lit_null(), rest);
        },
    }
}

/// The number clause of a slot object parses back.
#[verifier::rlimit(100)]
proof fn lemma_slot_fields_num(num: Option<u32>, start: Seq<u8>, rest: Seq<u8>)
    ensures
        parse_opt_num(
            render_opt_num(num) + key_start_time() + render_string(start) + seq![125u8] + rest,
        ) == Some((num, key_start_time() + render_string(start) + seq![125u8] + rest)),
        expect(
            key_start_time() + render_string(start) + seq![125u8] + rest,
            key_start_time(),
        ) == Some(render_string(start) + seq![125u8] + rest),
        parse_string(render_string(start) + seq![125u8] + rest) == Some(
            (start, seq![125u8] + rest),
        ),
        expect(seq![125u8] + rest, seq![125u8]) == Some(rest),
{
    let r3 = render_opt_num(num) + key_start_time() + render_string(start) + seq![125u8] + rest;
    let r4 = key_start_time() + render_string(start) + seq![125u8] + rest;
    assert(r3 =~= render_opt_num(num) + r4);
    assert(r4[0] == 44);
    lemma_parse_opt_num_render(num, r4);
    let r5 = render_string(start) + seq![125u8] + rest;
    assert(r4 =~= key_start_time() + r5);
    lemma_expect_prefix(key_start_time(), r5);
    let r6 = seq![125u8] + rest;
    assert(r5 =~= render_string(start) + r6);
    lemma_parse_string_render(start, r6);
    lemma_expect_prefix(seq![125u8], rest);
}

/// The slot parser inverts the slot renderer.
#[verifier::rlimit(100)]
proof fn lemma_parse_slot_render(v: SlotView, rest: Seq<u8>)
    ensures
        parse_slot(render_slot(v) + rest) == Some((v, rest)),
{
    let buf = render_slot(v) + rest;
    let r1 = render_bool(v.availability) + key_slot_number() + render_opt_num(v.slot_number)
        + key_start_time() + render_string(v.start_time) + seq![125u8] + rest;
    assert(buf =~= key_availability() + r1);
    lemma_expect_prefix(key_availability(), r1);
    let r2 = key_slot_number() + render_opt_num(v.slot_number) + key_start_time() + render_string(
        v.start_time,
    ) + seq![125u8] + rest;
    assert(r1 =~= render_bool(v.availability) + r2);
    lemma_parse_bool_render(v.availability, r2);
    let r3 = render_opt_num(v.slot_number) + key_start_time() + render_string(v.start_time)
        + seq![125u8] + rest;
    assert(r2 =~= key_slot_number() + r3);
    lemma_expect_prefix(key_slot_number(), r3);
    lemma_slot_fields_num(v.slot_number, v.start_time, rest);
}

#[verifier::rlimit(100)]
proof fn lemma_parse_slot_tail_render(l: Seq<SlotView>, rest: Seq<u8>)
    ensures
        parse_slot_tail(render_slot_rest(l) + seq![93u8] + rest) == Some((l, rest)),
    decreases l.len(),
{
    let buf = render_slot_rest(l) + seq![93u8] + rest;
    if l.len() == 0 {
        assert(buf =~= seq![93u8] + rest);
        assert(buf[0] == 93);
        assert(buf.skip(1) =~= rest);
    } else {
        let after = render_slot_rest(l.skip(1)) + seq![93u8] + rest;
        assert(buf =~= seq![44u8] + render_slot(l[0]) + after);
        assert(buf[0] == 44);
        assert(buf[0] != 93);
        assert(buf.skip(1) =~= render_slot(l[0]) + after);
        lemma_parse_slot_render(l[0], after);
        lemma_parse_slot_tail_render(l.skip(1), rest);
        assert(seq![l[0]] + l.skip(1) =~= l);
    }
}

#[verifier::rlimit(100)]
#[verifier::rlimit(100)]
proof fn lemma_parse_slot_list_render_cons(l: Seq<SlotView>, rest: Seq<u8>)
    requires
        l.len() > 0,
    ensures
        parse_slot_list(render_slot_list(l) + rest) == Some((l, rest)),
{
    let buf = render_slot_list(l) + rest;
    let after = render_slot_rest(l.skip(1)) + seq![93u8] + rest;
    assert(buf =~= seq![91u8] + render_slot(l[0]) + after);
    assert(buf[0] == 91);
    assert(render_slot(l[0])[0] == key_availability()[0]);
    assert(buf[1] == 123);
    assert(buf.skip(1) =~= render_slot(l[0]) + after);
    lemma_parse_slot_render(l[0], after);
    lemma_parse_slot_tail_render(l.skip(1), rest);
    assert(seq![l[0]] + l.skip(1) =~= l);
}

#[verifier::rlimit(100)]
proof fn lemma_parse_slot_list_render(l: Seq<SlotView>, rest: Seq<u8>)
    ensures
        parse_slot_list(render_slot_list(l) + rest) == Some((l, rest)),
{
    let buf = render_slot_list(l) + rest;
    if l.len() == 0 {
        assert(buf[0] == 91);
        assert(buf[1] == 93);
        assert(buf.skip(2) =~= rest);
    } else {
        lemma_parse_slot_list_render_cons(l, rest);
    }
}

/// The slots clause of a location object parses back.
#[verifier::rlimit(100)]
proof fn lemma_fields_slots(slots: Seq<SlotView>, next: Option<Seq<u8>>, rest: Seq<u8>)
    ensures
        parse_slot_list(
            render_slot_list(slots) + key_next_available() + render_opt_string(next) + seq![125u8]
                + rest,
        ) == Some(
            (slots, key_next_available() + render_opt_string(next) + seq![125u8] + rest),
        ),
{
    let r3 = render_slot_list(slots) + key_next_available() + render_opt_string(next)
        + seq![125u8] + rest;
    let r4 = key_next_available() + render_opt_string(next) + seq![125u8] + rest;
    assert(r3 =~= render_slot_list(slots) + r4);
    lemma_parse_slot_list_render(slots, r4);
}

/// The next-available clause of a location object parses back.
#[verifier::rlimit(100)]
proof fn lemma_fields_next(next: Option<Seq<u8>>, rest: Seq<u8>)
    ensures
        expect(
            key_next_available() + render_opt_string(next) + seq![125u8] + rest,
            key_next_available(),
        ) == Some(render_opt_string(next) + seq![125u8] + rest),
        parse_opt_string(render_opt_string(next) + seq![125u8] + rest) == Some(
            (next, seq![125u8] + rest),
        ),
        expect(seq![125u8] + rest, seq![125u8]) == Some(rest),
{
    let r4 = key_next_available() + render_opt_string(next) + seq![125u8] + rest;
    let r5 = render_opt_string(next) + seq![125u8] + rest;
    assert(r4 =~= key_next_available() + r5);
    lemma_expect_prefix(key_next_available(), r5);
    let r6 = seq![125u8] + rest;
    assert(r5 =~= render_opt_string(next) + r6);
    lemma_parse_opt_string_render(next, r6);
    lemma_expect_prefix(seq![125u8], rest);
}

/// The location parser inverts the location renderer.
#[verifier::rlimit(100)]
proof fn lemma_parse_location_render(v: LocationView, rest: Seq<u8>)
    ensures
        parse_location(render_location(v) + rest) == Some((v, rest)),
{
    let buf = render_location(v) + rest;
    let r1 = render_string(v.location) + key_slots() + render_slot_list(v.slots)
        + key_next_available() + render_opt_string(v.next_available_date) + seq![125u8] + rest;
    assert(buf =~= key_location() + r1);
    lemma_expect_prefix(key_location(), r1);
    let r2 = key_slots() + render_slot_list(v.slots) + key_next_available() + render_opt_string(
        v.next_available_date,
    ) + seq![125u8] + rest;
    assert(r1 =~= render_string(v.location) + r2);
    lemma_parse_string_render(v.location, r2);
    let r3 = render_slot_list(v.slots) + key_next_available() + render_opt_string(
        v.next_available_date,
    ) + seq![125u8] + rest;
    assert(r2 =~= key_slots() + r3);
    lemma_expect_prefix(key_slots(), r3);
    lemma_fields_slots(v.slots, v.next_available_date, rest);
    lemma_fields_next(v.next_available_date, rest);
}

#[verifier::rlimit(100)]
proof fn lemma_parse_location_tail_render(l: Seq<LocationView>, rest: Seq<u8>)
    ensures
        parse_location_tail(render_location_rest(l) + seq![93u8] + rest) == Some((l, rest)),
    decreases l.len(),
{
    let buf = render_location_rest(l) + seq![93u8] + rest;
    if l.len() == 0 {
        assert(buf =~= seq![93u8] + rest);
        assert(buf[0] == 93);
        assert(buf.skip(1) =~= rest);
    } else {
        let after = render_location_rest(l.skip(1)) + seq![93u8] + rest;
        assert(buf =~= seq![44u8] + render_location(l[0]) + after);
        assert(buf[0] == 44);
        assert(buf[0] != 93);
        assert(buf.skip(1) =~= render_location(l[0]) + after);
        lemma_parse_location_render(l[0], after);
        lemma_parse_location_tail_render(l.skip(1), rest);
        assert(seq![l[0]] + l.skip(1) =~= l);
    }
}

#[verifier::rlimit(100)]
#[verifier::rlimit(100)]
proof fn lemma_parse_location_list_render_cons(l: Seq<LocationView>, rest: Seq<u8>)
    requires
        l.len() > 0,
    ensures
        parse_location_list(render_location_list(l) + rest) == Some((l, rest)),
{
    let buf = render_location_list(l) + rest;
    let after = render_location_rest(l.skip(1)) + seq![93u8] + rest;
    assert(buf =~= seq![91u8] + render_location(l[0]) + after);
    assert(buf[0] == 91);
    assert(render_location(l[0])[0] == key_location()[0]);
    assert(buf[1] == 123);
    assert(buf.skip(1) =~= render_location(l[0]) + after);
    lemma_parse_location_render(l[0], after);
    lemma_parse_location_tail_render(l.skip(1), rest);
    assert(seq![l[0]] + l.skip(1) =~= l);
}

#[verifier::rlimit(100)]
proof fn lemma_parse_location_list_render(l: Seq<LocationView>, rest: Seq<u8>)
    ensures
        parse_location_list(render_location_list(l) + rest) == Some((l, rest)),
{
    let buf = render_location_list(l) + rest;
    if l.len() == 0 {
        assert(buf[0] == 91);
        assert(buf[1] == 93);
        assert(buf.skip(2) =~= rest);
    } else {
        lemma_parse_location_list_render_cons(l, rest);
    }
}

/// Round trip: a rendered snapshot parses back to the same dataset.
///
/// Persisting the cache and hydrating it from storage reproduces the
/// dataset value exactly, and with it the content hash.
#[verifier::rlimit(100)]
pub proof fn lemma_snapshot_roundtrip(d: DataView)
    ensures
        parse_data(render_data(d)) == Some(d),
{
    let buf = render_data(d);
    let r1 = render_location_list(d.results) + key_last_updated() + render_opt_string(
        d.last_updated,
    ) + seq![125u8];
    assert(buf =~= key_results() + r1);
    lemma_expect_prefix(key_results(), r1);
    let r2 = key_last_updated() + render_opt_string(d.last_updated) + seq![125u8];
    assert(r1 =~= render_location_list(d.results) + r2);
    lemma_parse_location_list_render(d.results, r2);
    let r3 = render_opt_string(d.last_updated) + seq![125u8];
    assert(r2 =~= key_last_updated() + r3);
    lemma_expect_prefix(key_last_updated(), r3);
    let r4 = seq![125u8];
    assert(r3 =~= render_opt_string(d.last_updated) + r4);
    lemma_parse_opt_string_render(d.last_updated, r4);
    lemma_expect_prefix(seq![125u8], Seq::<u8>::empty());
    assert(seq![125u8] + Seq::<u8>::empty() =~= seq![125u8]);
}

// ---------------------------------------------------------------------------
// Executable rendering
// ---------------------------------------------------------------------------

/// Escaping distributes over concatenation.
pub proof fn lemma_esc_append(a: Seq<u8>, b: Seq<u8>)
    ensures
        esc(a + b) == esc(a) + esc(b),
    decreases a.len(),
{
    if a.len() == 0 {
        assert(a + b =~= b);
        assert(esc(a) + esc(b) =~= esc(b));
    } else {
        assert((a + b).skip(1) =~= a.skip(1) + b);
        lemma_esc_append(a.skip(1), b);
        assert(esc(a + b) =~= esc(a) + esc(b));
    }
}

/// Escaping a single byte is the escape of that byte.
proof fn lemma_esc_singleton(b: u8)
    ensures
        esc(seq![b]) == esc_byte(b),
{
    let s = seq![b];
    assert(s.len() == 1);
    assert(s[0] == b);
    assert(s.skip(1) =~= Seq::<u8>::empty());
    assert(esc(Seq::<u8>::empty()) == Seq::<u8>::empty());
    assert(esc(s) == esc_byte(b) + esc(Seq::<u8>::empty()));
    assert(esc_byte(b) + Seq::<u8>::empty() =~= esc_byte(b));
}

fn push_esc_byte(out: &mut Vec<u8>, b: u8)
    ensures
        final(out)@ == old(out)@ + esc_byte(b),
{
    if b == 34 {
        out.push(92);
        out.push(34);
    } else if b == 92 {
        out.push(92);
        out.push(92);
    } else if b < 32 {
        out.push(92);
        out.push(117);
        out.push(48);
        out.push(48);
        let hi = b / 16;
        let lo = b % 16;
        out.push(if hi < 10 { 48 + hi } else { 87 + hi });
        out.push(if lo < 10 { 48 + lo } else { 87 + lo });
    } else {
        out.push(b);
    }
    assert(final(out)@ =~= old(out)@ + esc_byte(b));
}

fn push_string(out: &mut Vec<u8>, s: &Vec<u8>)
    ensures
        final(out)@ == old(out)@ + render_string(s@),
{
    out.push(34);
    let mut i: usize = 0;
    while i < s.len()
        invariant
            i <= s.len(),
            out@ == old(out)@ + seq![34u8] + esc(s@.take(i as int)),
        decreases s.len() - i,
    {
        proof {
            assert(s@.take(i + 1 as int) =~= s@.take(i as int) + seq![s@[i as int]]);
            lemma_esc_append(s@.take(i as int), seq![s@[i as int]]);
            lemma_esc_singleton(s@[i as int]);
        }
        push_esc_byte(out, s[i]);
        i += 1;
    }
    out.push(34);
    proof {
        assert(s@.take(s@.len() as int) =~= s@);
        assert(final(out)@ =~= old(out)@ + render_string(s@));
    }
}

/// Decimal rendering of a number, most significant digit first.
fn push_dec(out: &mut Vec<u8>, n: u32)
    ensures
        final(out)@ == old(out)@ + dec(n as nat),
    decreases n,
{
    if n < 10 {
        out.push(48 + n as u8);
        assert(final(out)@ =~= old(out)@ + dec(n as nat));
    } else {
        push_dec(out, n / 10);
        out.push(48 + (n % 10) as u8);
        assert(final(out)@ =~= old(out)@ + dec(n as nat));
    }
}

fn push_bool(out: &mut Vec<u8>, b: bool)
    ensures
        final(out)@ == old(out)@ + render_bool(b),
{
    if b {
        out.push(116u8);
        out.push(114u8);
        out.push(117u8);
        out.push(101u8);
    } else {
        out.push(102u8);
        out.push(97u8);
        out.push(108u8);
        out.push(115u8);
        out.push(101u8);
    }
    assert(final(out)@ =~= old(out)@ + render_bool(b));
}

fn push_null(out: &mut Vec<u8>)
    ensures
        final(out)@ == old(out)@ + lit_null(),
{
    out.push(110u8);
    out.push(117u8);
    out.push(108u8);
    out.push(108u8);
    assert(final(out)@ =~= old(out)@ + lit_null());
}

fn push_key_availability(out: &mut Vec<u8>)
    ensures
        final(out)@ == old(out)@ + key_availability(),
{
    out.push(123u8);
    out.push(34u8);
    out.push(97u8);
    out.push(118u8);
    out.push(97u8);
    out.push(105u8);
    out.push(108u8);
    out.push(97u8);
    out.push(98u8);
    out.push(105u8);
    out.push(108u8);
    out.push(105u8);
    out.push(116u8);
    out.push(121u8);
    out.push(34u8);
    out.push(58u8);
    assert(final(out)@ =~= old(out)@ + key_availability());
}

fn push_key_slot_number(out: &mut Vec<u8>)
    ensures
        final(out)@ == old(out)@ + key_slot_number(),
{
    out.push(44u8);
    out.push(34u8);
    out.push(115u8);
    out.push(108u8);
    out.push(111u8);
    out.push(116u8);
    out.push(95u8);
    out.push(110u8);
    out.push(117u8);
    out.push(109u8);
    out.push(98u8);
    out.push(101u8);
    out.push(114u8);
    out.push(34u8);
    out.push(58u8);
    assert(final(out)@ =~= old(out)@ + key_slot_number());
}

fn push_key_start_time(out: &mut Vec<u8>)
    ensures
        final(out)@ == old(out)@ + key_start_time(),
{
    out.push(44u8);
    out.push(34u8);
    out.push(115u8);
    out.push(116u8);
    out.push(97u8);
    out.push(114u8);
    out.push(116u8);
    out.push(84u8);
    out.push(105u8);
    out.push(109u8);
    out.push(101u8);
    out.push(34u8);
    out.push(58u8);
    assert(final(out)@ =~= old(out)@ + key_start_time());
}

fn push_slot(out: &mut Vec<u8>, s: &TimeSlot)
    ensures
        final(out)@ == old(out)@ + render_slot(s@),
{
    push_key_availability(out);
    push_bool(out, s.availability);
    assert(out@ =~= old(out)@ + key_availability() + render_bool(s@.availability));
    push_key_slot_number(out);
    match s.slot_number {
        Some(n) => push_dec(out, n),
        None => push_null(out),
    }
    assert(out@ =~= old(out)@ + key_availability() + render_bool(s@.availability)
        + key_slot_number() + render_opt_num(s@.slot_number));
    push_key_start_time(out);
    push_string(out, &s.start_time);
    out.push(125u8);
    assert(final(out)@ =~= old(out)@ + render_slot(s@));
}

/// `render_slot_rest` over a longer suffix unrolls one element at a time.
proof fn lemma_slot_rest_take(l: Seq<SlotView>, i: int)
    requires
        0 <= i < l.len(),
    ensures
        render_slot_rest(l.take(i)) + seq![44u8] + render_slot(l[i]) == render_slot_rest(
            l.take(i + 1),
        ),
    decreases i,
{
    if i == 0 {
        assert(l.take(0) =~= Seq::<SlotView>::empty());
        assert(l.take(1)[0] == l[0]);
        assert(l.take(1).skip(1) =~= Seq::<SlotView>::empty());
        assert(render_slot_rest(l.take(0)) + seq![44u8] + render_slot(l[0]) =~= render_slot_rest(
            l.take(1),
        ));
    } else {
        lemma_slot_rest_take(l.skip(1), i - 1);
        assert(l.take(i).skip(1) =~= l.skip(1).take(i - 1));
        assert(l.take(i + 1).skip(1) =~= l.skip(1).take(i));
        assert(l.take(i)[0] == l[0]);
        assert(l.take(i + 1)[0] == l[0]);
        assert(l.skip(1)[i - 1] == l[i]);
        assert(render_slot_rest(l.take(i)) + seq![44u8] + render_slot(l[i]) =~= render_slot_rest(
            l.take(i + 1),
        ));
    }
}

fn push_slot_list(out: &mut Vec<u8>, l: &Vec<TimeSlot>)
    ensures
        final(out)@ == old(out)@ + render_slot_list(Seq::new(l@.len(), |i: int| l@[i]@)),
{
    let ghost lv = Seq::new(l@.len(), |i: int| l@[i]@);
    out.push(91u8);
    if l.len() == 0 {
        out.push(93u8);
        assert(final(out)@ =~= old(out)@ + render_slot_list(lv));
        return ;
    }
    push_slot(out, &l[0]);
    let mut i: usize = 1;
    while i < l.len()
        invariant
            1 <= i <= l.len(),
            l@.len() == lv.len(),
            forall|j: int| 0 <= j < lv.len() ==> lv[j] == l@[j]@,
            out@ == old(out)@ + seq![91u8] + render_slot(lv[0]) + render_slot_rest(
                lv.skip(1).take(i - 1),
            ),
        decreases l.len() - i,
    {
        out.push(44u8);
        push_slot(out, &l[i]);
        proof {
            if i < lv.len() {
                lemma_slot_rest_take(lv.skip(1), i - 1);
                assert(lv.skip(1)[i - 1] == lv[i as int]);
            }
            assert(out@ =~= old(out)@ + seq![91u8] + render_slot(lv[0]) + render_slot_rest(
                lv.skip(1).take(i as int),
            ));
        }
        i += 1;
    }
    out.push(93u8);
    proof {
        assert(lv.skip(1).take(lv.skip(1).len() as int) =~= lv.skip(1));
        assert(final(out)@ =~= old(out)@ + render_slot_list(lv));
    }
}

fn push_key_location(out: &mut Vec<u8>)
    ensures
        final(out)@ == old(out)@ + key_location(),
{
    out.push(123u8);
    out.push(34u8);
    out.push(108u8);
    out.push(111u8);
    out.push(99u8);
    out.push(97u8);
    out.push(116u8);
    out.push(105u8);
    out.push(111u8);
    out.push(110u8);
    out.push(34u8);
    out.push(58u8);
    assert(final(out)@ =~= old(out)@ + key_location());
}

fn push_key_slots(out: &mut Vec<u8>)
    ensures
        final(out)@ == old(out)@ + key_slots(),
{
    out.push(44u8);
    out.push(34u8);
    out.push(115u8);
    out.push(108u8);
    out.push(111u8);
    out.push(116u8);
    out.push(115u8);
    out.push(34u8);
    out.push(58u8);
    assert(final(out)@ =~= old(out)@ + key_slots());
}

fn push_key_next_available(out: &mut Vec<u8>)
    ensures
        final(out)@ == old(out)@ + key_next_available(),
{
    out.push(44u8);
    out.push(34u8);
    out.push(110u8);
    out.push(101u8);
    out.push(120u8);
    out.push(116u8);
    out.push(95u8);
    out.push(97u8);
    out.push(118u8);
    out.push(97u8);
    out.push(105u8);
    out.push(108u8);
    out.push(97u8);
    out.push(98u8);
    out.push(108u8);
    out.push(101u8);
    out.push(95u8);
    out.push(100u8);
    out.push(97u8);
    out.push(116u8);
    out.push(101u8);
    out.push(34u8);
    out.push(58u8);
    assert(final(out)@ =~= old(out)@ + key_next_available());
}

fn push_location(out: &mut Vec<u8>, v: &LocationBookings)
    ensures
        final(out)@ == old(out)@ + render_location(v@),
{
    push_key_location(out);
    push_string(out, &v.location);
    assert(out@ =~= old(out)@ + key_location() + render_string(v@.location));
    push_key_slots(out);
    push_slot_list(out, &v.slots);
    assert(out@ =~= old(out)@ + key_location() + render_string(v@.location) + key_slots()
        + render_slot_list(v@.slots));
    push_key_next_available(out);
    match &v.next_available_date {
        Some(d) => push_string(out, d),
        None => push_null(out),
    }
    out.push(125u8);
    assert(final(out)@ =~= old(out)@ + render_location(v@));
}

proof fn lemma_location_rest_take(l: Seq<LocationView>, i: int)
    requires
        0 <= i < l.len(),
    ensures
        render_location_rest(l.take(i)) + seq![44u8] + render_location(l[i])
            == render_location_rest(l.take(i + 1)),
    decreases i,
{
    if i == 0 {
        assert(l.take(0) =~= Seq::<LocationView>::empty());
        assert(l.take(1)[0] == l[0]);
        assert(l.take(1).skip(1) =~= Seq::<LocationView>::empty());
        assert(render_location_rest(l.take(0)) + seq![44u8] + render_location(l[0])
            =~= render_location_rest(l.take(1)));
    } else {
        lemma_location_rest_take(l.skip(1), i - 1);
        assert(l.take(i).skip(1) =~= l.skip(1).take(i - 1));
        assert(l.take(i + 1).skip(1) =~= l.skip(1).take(i));
        assert(l.take(i)[0] == l[0]);
        assert(l.take(i + 1)[0] == l[0]);
        assert(l.skip(1)[i - 1] == l[i]);
        assert(render_location_rest(l.take(i)) + seq![44u8] + render_location(l[i])
            =~= render_location_rest(l.take(i + 1)));
    }
}

#[verifier::rlimit(60)]
fn push_location_list(out: &mut Vec<u8>, l: &Vec<LocationBookings>)
    ensures
        final(out)@ == old(out)@ + render_location_list(Seq::new(l@.len(), |i: int| l@[i]@)),
{
    let ghost lv = Seq::new(l@.len(), |i: int| l@[i]@);
    out.push(91u8);
    if l.len() == 0 {
        out.push(93u8);
        assert(final(out)@ =~= old(out)@ + render_location_list(lv));
        return ;
    }
    push_location(out, &l[0]);
    let mut i: usize = 1;
    while i < l.len()
        invariant
            1 <= i <= l.len(),
            l@.len() == lv.len(),
            forall|j: int| 0 <= j < lv.len() ==> lv[j] == l@[j]@,
            out@ == old(out)@ + seq![91u8] + render_location(lv[0]) + render_location_rest(
                lv.skip(1).take(i - 1),
            ),
        decreases l.len() - i,
    {
        out.push(44u8);
        push_location(out, &l[i]);
        proof {
            if i < lv.len() {
                lemma_location_rest_take(lv.skip(1), i - 1);
                assert(lv.skip(1)[i - 1] == lv[i as int]);
            }
            assert(out@ =~= old(out)@ + seq![91u8] + render_location(lv[0]) + render_location_rest(
                lv.skip(1).take(i as int),
            ));
        }
        i += 1;
    }
    out.push(93u8);
    proof {
        assert(lv.skip(1).take(lv.skip(1).len() as int) =~= lv.skip(1));
        assert(final(out)@ =~= old(out)@ + render_location_list(lv));
    }
}

fn push_key_results(out: &mut Vec<u8>)
    ensures
        final(out)@ == old(out)@ + key_results(),
{
    out.push(123u8);
    out.push(34u8);
    out.push(114u8);
    out.push(101u8);
    out.push(115u8);
    out.push(117u8);
    out.push(108u8);
    out.push(116u8);
    out.push(115u8);
    out.push(34u8);
    out.push(58u8);
    assert(final(out)@ =~= old(out)@ + key_results());
}

fn push_key_last_updated(out: &mut Vec<u8>)
    ensures
        final(out)@ == old(out)@ + key_last_updated(),
{
    out.push(44u8);
    out.push(34u8);
    out.push(108u8);
    out.push(97u8);
    out.push(115u8);
    out.push(116u8);
    out.push(95u8);
    out.push(117u8);
    out.push(112u8);
    out.push(100u8);
    out.push(97u8);
    out.push(116u8);
    out.push(101u8);
    out.push(100u8);
    out.push(34u8);
    out.push(58u8);
    assert(final(out)@ =~= old(out)@ + key_last_updated());
}

// ---------------------------------------------------------------------------
// Executable parsing
//
// Each function consumes from position `i` of the buffer and is proved to
// agree with the spec-level parser on the remaining input.
// ---------------------------------------------------------------------------

/// Prefixing the accumulated bytes onto a parse result.
pub open spec fn prepend_bytes(acc: Seq<u8>, r: Option<(Seq<u8>, Seq<u8>)>) -> Option<
    (Seq<u8>, Seq<u8>),
> {
    match r {
        Some((v, rem)) => Some((acc + v, rem)),
        None => None,
    }
}

/// Prefixing the accumulated slots onto a parse result.
pub open spec fn prepend_slots(acc: Seq<SlotView>, r: Option<(Seq<SlotView>, Seq<u8>)>) -> Option<
    (Seq<SlotView>, Seq<u8>),
> {
    match r {
        Some((l, rem)) => Some((acc + l, rem)),
        None => None,
    }
}

/// Prefixing the accumulated locations onto a parse result.
pub open spec fn prepend_locations(
    acc: Seq<LocationView>,
    r: Option<(Seq<LocationView>, Seq<u8>)>,
) -> Option<(Seq<LocationView>, Seq<u8>)> {
    match r {
        Some((l, rem)) => Some((acc + l, rem)),
        None => None,
    }
}

/// One step of the slot-array loop: consuming a comma and one slot moves the
/// element into the accumulator.
proof fn lemma_prepend_slots_cons(accv: Seq<SlotView>, v: SlotView, s: Seq<u8>, rem: Seq<u8>)
    requires
        s.len() > 0,
        s[0] == 44,
        parse_slot(s.skip(1)) == Some((v, rem)),
    ensures
        prepend_slots(accv, parse_slot_tail(s)) == prepend_slots(
            accv + seq![v],
            parse_slot_tail(rem),
        ),
{
    match parse_slot_tail(rem) {
        Some((l, r)) => {
            assert((accv + seq![v]) + l =~= accv + (seq![v] + l));
        },
        None => {},
    }
}

/// One step of the results-array loop.
proof fn lemma_prepend_locations_cons(
    accv: Seq<LocationView>,
    v: LocationView,
    s: Seq<u8>,
    rem: Seq<u8>,
)
    requires
        s.len() > 0,
        s[0] == 44,
        parse_location(s.skip(1)) == Some((v, rem)),
    ensures
        prepend_locations(accv, parse_location_tail(s)) == prepend_locations(
            accv + seq![v],
            parse_location_tail(rem),
        ),
{
    match parse_location_tail(rem) {
        Some((l, r)) => {
            assert((accv + seq![v]) + l =~= accv + (seq![v] + l));
        },
        None => {},
    }
}

/// Consume the exact literal `lit` at position `i`.
pub(crate) fn eat(buf: &Vec<u8>, i: usize, lit: &Vec<u8>) -> (r: Option<usize>)
    requires
        i <= buf.len(),
    ensures
        match r {
            Some(j) => j == i + lit@.len() && j <= buf@.len() && expect(
                buf@.skip(i as int),
                lit@,
            ) == Some(buf@.skip(j as int)),
            None => expect(buf@.skip(i as int), lit@) is None,
        },
{
    if buf.len() - i < lit.len() {
        return None;
    }
    let mut k: usize = 0;
    while k < lit.len()
        invariant
            k <= lit.len(),
            i <= buf.len(),
            lit.len() <= buf.len() - i,
            forall|m: int| 0 <= m < k as int ==> buf@[i + m] == lit@[m],
        decreases lit.len() - k,
    {
        if buf[i + k] != lit[k] {
            proof {
                let s = buf@.skip(i as int);
                if s.take(lit@.len() as int) == lit@ {
                    assert(s.take(lit@.len() as int)[k as int] == s[k as int]);
                    assert(false);
                }
            }
            return None;
        }
        k += 1;
    }
    proof {
        let s = buf@.skip(i as int);
        assert(s.take(lit@.len() as int) =~= lit@);
        assert(s.skip(lit@.len() as int) =~= buf@.skip(i + lit@.len()));
    }
    Some(i + lit.len())
}

fn key_availability_bytes() -> (r: Vec<u8>)
    ensures
        r@ == key_availability(),
{
    let mut v: Vec<u8> = Vec::new();
    push_key_availability(&mut v);
    assert(v@ =~= key_availability());
    v
}

fn key_slot_number_bytes() -> (r: Vec<u8>)
    ensures
        r@ == key_slot_number(),
{
    let mut v: Vec<u8> = Vec::new();
    push_key_slot_number(&mut v);
    assert(v@ =~= key_slot_number());
    v
}

fn key_start_time_bytes() -> (r: Vec<u8>)
    ensures
        r@ == key_start_time(),
{
    let mut v: Vec<u8> = Vec::new();
    push_key_start_time(&mut v);
    assert(v@ =~= key_start_time());
    v
}

fn key_location_bytes() -> (r: Vec<u8>)
    ensures
        r@ == key_location(),
{
    let mut v: Vec<u8> = Vec::new();
    push_key_location(&mut v);
    assert(v@ =~= key_location());
    v
}

fn key_slots_bytes() -> (r: Vec<u8>)
    ensures
        r@ == key_slots(),
{
    let mut v: Vec<u8> = Vec::new();
    push_key_slots(&mut v);
    assert(v@ =~= key_slots());
    v
}

fn key_next_available_bytes() -> (r: Vec<u8>)
    ensures
        r@ == key_next_available(),
{
    let mut v: Vec<u8> = Vec::new();
    push_key_next_available(&mut v);
    assert(v@ =~= key_next_available());
    v
}

fn key_results_bytes() -> (r: Vec<u8>)
    ensures
        r@ == key_results(),
{
    let mut v: Vec<u8> = Vec::new();
    push_key_results(&mut v);
    assert(v@ =~= key_results());
    v
}

fn key_last_updated_bytes() -> (r: Vec<u8>)
    ensures
        r@ == key_last_updated(),
{
    let mut v: Vec<u8> = Vec::new();
    push_key_last_updated(&mut v);
    assert(v@ =~= key_last_updated());
    v
}

fn lit_true_bytes() -> (r: Vec<u8>)
    ensures
        r@ == lit_true(),
{
    let mut v: Vec<u8> = Vec::new();
    v.push(116u8);
    v.push(114u8);
    v.push(117u8);
    v.push(101u8);
    assert(v@ =~= lit_true());
    v
}

fn lit_false_bytes() -> (r: Vec<u8>)
    ensures
        r@ == lit_false(),
{
    let mut v: Vec<u8> = Vec::new();
    v.push(102u8);
    v.push(97u8);
    v.push(108u8);
    v.push(115u8);
    v.push(101u8);
    assert(v@ =~= lit_false());
    v
}

fn lit_null_bytes() -> (r: Vec<u8>)
    ensures
        r@ == lit_null(),
{
    let mut v: Vec<u8> = Vec::new();
    v.push(110u8);
    v.push(117u8);
    v.push(108u8);
    v.push(108u8);
    assert(v@ =~= lit_null());
    v
}

fn close_brace_bytes() -> (r: Vec<u8>)
    ensures
        r@ == seq![125u8],
{
    let mut v: Vec<u8> = Vec::new();
    v.push(125u8);
    assert(v@ =~= seq![125u8]);
    v
}

fn parse_bool_at(buf: &Vec<u8>, i: usize) -> (r: Option<(bool, usize)>)
    requires
        i <= buf.len(),
    ensures
        match r {
            Some((v, j)) => i < j <= buf@.len() && parse_bool(buf@.skip(i as int)) == Some(
                (v, buf@.skip(j as int)),
            ),
            None => parse_bool(buf@.skip(i as int)) is None,
        },
{
    let t = lit_true_bytes();
    match eat(buf, i, &t) {
        Some(j) => {
            return Some((true, j));
        },
        None => {},
    }
    let f = lit_false_bytes();
    match eat(buf, i, &f) {
        Some(j) => Some((false, j)),
        None => None,
    }
}

/// Monotonicity of the value under digit prefixes.
proof fn lemma_digits_val_mono(d: Seq<u8>, m: int)
    requires
        0 <= m <= d.len(),
    ensures
        digits_val(d.take(m)) <= digits_val(d),
    decreases d.len(),
{
    if m == d.len() {
        assert(d.take(m) =~= d);
    } else if d.len() > 0 {
        lemma_digits_val_mono(d.drop_last(), m);
        assert(d.drop_last().take(m) =~= d.take(m));
    }
}

pub(crate) fn parse_num_at(buf: &Vec<u8>, i: usize) -> (r: Option<(u32, usize)>)
    requires
        i <= buf.len(),
    ensures
        match r {
            Some((v, j)) => i < j <= buf@.len() && parse_num(buf@.skip(i as int)) == Some(
                (v, buf@.skip(j as int)),
            ),
            None => parse_num(buf@.skip(i as int)) is None,
        },
{
    let ghost s = buf@.skip(i as int);
    let mut j: usize = i;
    while j < buf.len() && buf[j] >= 48 && buf[j] <= 57
        invariant
            i <= j <= buf.len(),
            forall|m: int| i as int <= m < j as int ==> is_digit(#[trigger] buf@[m]),
        decreases buf.len() - j,
    {
        j += 1;
    }
    proof {
        assert(s =~= buf@.subrange(i as int, j as int) + buf@.skip(j as int));
        lemma_digit_run_exact(buf@.subrange(i as int, j as int), buf@.skip(j as int));
    }
    let ghost run = buf@.subrange(i as int, j as int);
    assert(digit_run(s) == run);
    if j == i {
        assert(run.len() == 0);
        return None;
    }
    let mut acc: u64 = 0;
    let mut k: usize = i;
    while k < j
        invariant
            i <= k <= j <= buf.len(),
            run == buf@.subrange(i as int, j as int),
            digit_run(s) == run,
            run.len() > 0,
            s == buf@.skip(i as int),
            forall|m: int| i as int <= m < j as int ==> is_digit(#[trigger] buf@[m]),
            acc == digits_val(run.take(k - i)),
            acc <= u32::MAX,
        decreases j - k,
    {
        let d = buf[k];
        proof {
            assert(run.take(k - i + 1).drop_last() =~= run.take(k - i));
            assert(run.take(k - i + 1).last() == buf@[k as int]);
        }
        acc = acc * 10 + ((d - 48) as u64);
        assert(acc == digits_val(run.take(k - i + 1)));
        k += 1;
        if acc > 0xffff_ffff {
            proof {
                lemma_digits_val_mono(run, k - i);
                assert(run.take(run.len() as int) =~= run);
            }
            return None;
        }
    }
    proof {
        assert(run.take(run.len() as int) =~= run);
        assert(acc == digits_val(run));
        assert(s.skip(run.len() as int) =~= buf@.skip(j as int));
    }
    Some((acc as u32, j))
}

#[verifier::rlimit(100)]
fn parse_string_at(buf: &Vec<u8>, i: usize) -> (r: Option<(Vec<u8>, usize)>)
    requires
        i <= buf.len(),
    ensures
        match r {
            Some((v, j)) => i < j <= buf@.len() && parse_string(buf@.skip(i as int)) == Some(
                (v@, buf@.skip(j as int)),
            ),
            None => parse_string(buf@.skip(i as int)) is None,
        },
{
    if i >= buf.len() || buf[i] != 34 {
        return None;
    }
    assert(buf@.skip(i as int).len() > 0);
    assert(buf@.skip(i as int)[0] == 34);
    assert(buf@.skip(i as int).skip(1) =~= buf@.skip(i + 1 as int));
    let mut acc: Vec<u8> = Vec::new();
    let mut cur: usize = i + 1;
    loop
        invariant
            i + 1 <= cur <= buf.len(),
            i < buf.len(),
            parse_string(buf@.skip(i as int)) == parse_str_body(buf@.skip(i + 1 as int)),
            parse_str_body(buf@.skip(i + 1 as int)) == prepend_bytes(
                acc@,
                parse_str_body(buf@.skip(cur as int)),
            ),
        decreases buf.len() - cur,
    {
        let ghost s = buf@.skip(cur as int);
        if cur >= buf.len() {
            assert(s.len() == 0);
            return None;
        }
        let b = buf[cur];
        assert(s[0] == b);
        if b == 34 {
            proof {
                assert(s.skip(1) =~= buf@.skip(cur + 1 as int));
                assert(acc@ + Seq::<u8>::empty() =~= acc@);
            }
            return Some((acc, cur + 1));
        }
        if b == 92 {
            if cur + 1 >= buf.len() {
                assert(s.len() < 2);
                return None;
            }
            let e = buf[cur + 1];
            assert(s[1] == e);
            if e == 34 || e == 92 {
                proof {
                    assert(s.skip(2) =~= buf@.skip(cur + 2 as int));
                    assert((acc@ + seq![e]) + match parse_str_body(buf@.skip(cur + 2 as int)) {
                        Some((v, _)) => v,
                        None => Seq::<u8>::empty(),
                    } =~= acc@ + (seq![e] + match parse_str_body(buf@.skip(cur + 2 as int)) {
                        Some((v, _)) => v,
                        None => Seq::<u8>::empty(),
                    }));
                }
                acc.push(e);
                cur = cur + 2;
            } else if e == 117 {
                if buf.len() - cur < 6 {
                    assert(s.len() < 6);
                    return None;
                }
                let h2 = buf[cur + 2];
                let h3 = buf[cur + 3];
                let h4 = buf[cur + 4];
                let h5 = buf[cur + 5];
                assert(s[2] == h2 && s[3] == h3 && s[4] == h4 && s[5] == h5);
                let v2 = hex_value(h2);
                let v3 = hex_value(h3);
                let v4 = hex_value(h4);
                let v5 = hex_value(h5);
                match (v2, v3, v4, v5) {
                    (Some(a2), Some(a3), Some(a4), Some(a5)) => {
                        let code: u32 = (a2 as u32) * 4096 + (a3 as u32) * 256 + (a4 as u32) * 16
                            + (a5 as u32);
                        if code >= 256 {
                            return None;
                        }
                        let cb = code as u8;
                        proof {
                            assert(s.skip(6) =~= buf@.skip(cur + 6 as int));
                            assert((acc@ + seq![cb]) + match parse_str_body(
                                buf@.skip(cur + 6 as int),
                            ) {
                                Some((v, _)) => v,
                                None => Seq::<u8>::empty(),
                            } =~= acc@ + (seq![cb] + match parse_str_body(
                                buf@.skip(cur + 6 as int),
                            ) {
                                Some((v, _)) => v,
                                None => Seq::<u8>::empty(),
                            }));
                        }
                        acc.push(cb);
                        cur = cur + 6;
                    },
                    _ => {
                        return None;
                    },
                }
            } else {
                return None;
            }
        } else {
            proof {
                assert(s.skip(1) =~= buf@.skip(cur + 1 as int));
                assert((acc@ + seq![b]) + match parse_str_body(buf@.skip(cur + 1 as int)) {
                    Some((v, _)) => v,
                    None => Seq::<u8>::empty(),
                } =~= acc@ + (seq![b] + match parse_str_body(buf@.skip(cur + 1 as int)) {
                    Some((v, _)) => v,
                    None => Seq::<u8>::empty(),
                }));
            }
            acc.push(b);
            cur = cur + 1;
        }
    }
}

/// The value of one hexadecimal digit, if it is one.
fn hex_value(b: u8) -> (r: Option<u8>)
    ensures
        match r {
            Some(v) => is_hex(b) && v == hex_val(b),
            None => !is_hex(b),
        },
{
    if 48 <= b && b <= 57 {
        Some(b - 48)
    } else if 97 <= b && b <= 102 {
        Some(b - 87)
    } else {
        None
    }
}

fn parse_opt_num_at(buf: &Vec<u8>, i: usize) -> (r: Option<(Option<u32>, usize)>)
    requires
        i <= buf.len(),
    ensures
        match r {
            Some((v, j)) => i < j <= buf@.len() && parse_opt_num(buf@.skip(i as int)) == Some(
                (v, buf@.skip(j as int)),
            ),
            None => parse_opt_num(buf@.skip(i as int)) is None,
        },
{
    if i < buf.len() && buf[i] == 110 {
        let n = lit_null_bytes();
        match eat(buf, i, &n) {
            Some(j) => Some((None, j)),
            None => None,
        }
    } else {
        match parse_num_at(buf, i) {
            Some((v, j)) => Some((Some(v), j)),
            None => None,
        }
    }
}

pub(crate) fn parse_opt_string_at(buf: &Vec<u8>, i: usize) -> (r: Option<(Option<Vec<u8>>, usize)>)
    requires
        i <= buf.len(),
    ensures
        match r {
            Some((v, j)) => i < j <= buf@.len() && parse_opt_string(buf@.skip(i as int)) == Some(
                (
                    match v {
                        Some(b) => Some(b@),
                        None => None,
                    },
                    buf@.skip(j as int),
                ),
            ),
            None => parse_opt_string(buf@.skip(i as int)) is None,
        },
{
    if i < buf.len() && buf[i] == 34 {
        match parse_string_at(buf, i) {
            Some((v, j)) => Some((Some(v), j)),
            None => None,
        }
    } else {
        let n = lit_null_bytes();
        match eat(buf, i, &n) {
            Some(j) => Some((None, j)),
            None => None,
        }
    }
}

#[verifier::rlimit(100)]
fn parse_slot_at(buf: &Vec<u8>, i: usize) -> (r: Option<(TimeSlot, usize)>)
    requires
        i <= buf.len(),
    ensures
        match r {
            Some((v, j)) => i < j <= buf@.len() && parse_slot(buf@.skip(i as int)) == Some(
                (v@, buf@.skip(j as int)),
            ),
            None => parse_slot(buf@.skip(i as int)) is None,
        },
{
    let key_a = key_availability_bytes();
    let j1 = match eat(buf, i, &key_a) {
        Some(j) => j,
        None => {
            return None;
        },
    };
    let (availability, j2) = match parse_bool_at(buf, j1) {
        Some(p) => p,
        None => {
            return None;
        },
    };
    let key_n = key_slot_number_bytes();
    let j3 = match eat(buf, j2, &key_n) {
        Some(j) => j,
        None => {
            return None;
        },
    };
    let (slot_number, j4) = match parse_opt_num_at(buf, j3) {
        Some(p) => p,
        None => {
            return None;
        },
    };
    let key_s = key_start_time_bytes();
    let j5 = match eat(buf, j4, &key_s) {
        Some(j) => j,
        None => {
            return None;
        },
    };
    let (start_time, j6) = match parse_string_at(buf, j5) {
        Some(p) => p,
        None => {
            return None;
        },
    };
    let cb = close_brace_bytes();
    let j7 = match eat(buf, j6, &cb) {
        Some(j) => j,
        None => {
            return None;
        },
    };
    Some((TimeSlot { availability, slot_number, start_time }, j7))
}

#[verifier::rlimit(100)]
pub(crate) fn parse_slot_list_at(buf: &Vec<u8>, i: usize) -> (r: Option<(Vec<TimeSlot>, usize)>)
    requires
        i <= buf.len(),
    ensures
        match r {
            Some((v, j)) => i < j <= buf@.len() && parse_slot_list(buf@.skip(i as int)) == Some(
                (Seq::new(v@.len(), |k: int| v@[k]@), buf@.skip(j as int)),
            ),
            None => parse_slot_list(buf@.skip(i as int)) is None,
        },
{
    if i >= buf.len() || buf[i] != 91 {
        return None;
    }
    if i + 1 >= buf.len() {
        assert(buf@.skip(i as int).len() < 2);
        return None;
    }
    assert(buf@.skip(i as int)[0] == 91);
    assert(buf@.skip(i as int)[1] == buf@[i + 1 as int]);
    if buf[i + 1] == 93 {
        let empty: Vec<TimeSlot> = Vec::new();
        proof {
            assert(buf@.skip(i as int).skip(2) =~= buf@.skip(i + 2 as int));
            assert(Seq::new(0, |k: int| empty@[k]@) =~= Seq::<SlotView>::empty());
        }
        return Some((empty, i + 2));
    }
    assert(buf@.skip(i as int).skip(1) =~= buf@.skip(i + 1 as int));
    let (first, j0) = match parse_slot_at(buf, i + 1) {
        Some(p) => p,
        None => {
            return None;
        },
    };
    let mut acc: Vec<TimeSlot> = Vec::new();
    acc.push(first);
    let mut cur: usize = j0;
    proof {
        assert(Seq::new(acc@.len(), |k: int| acc@[k]@) =~= seq![first@]);
    }
    loop
        invariant
            i < cur <= buf.len(),
            parse_slot_list(buf@.skip(i as int)) == prepend_slots(
                Seq::new(acc@.len(), |k: int| acc@[k]@),
                parse_slot_tail(buf@.skip(cur as int)),
            ),
        decreases buf.len() - cur,
    {
        let ghost accv = Seq::new(acc@.len(), |k: int| acc@[k]@);
        let ghost s = buf@.skip(cur as int);
        if cur >= buf.len() {
            return None;
        }
        let b = buf[cur];
        assert(s[0] == b);
        if b == 93 {
            proof {
                assert(s.skip(1) =~= buf@.skip(cur + 1 as int));
                assert(accv + Seq::<SlotView>::empty() =~= accv);
            }
            return Some((acc, cur + 1));
        }
        if b != 44 {
            return None;
        }
        assert(s.skip(1) =~= buf@.skip(cur + 1 as int));
        let (v, j) = match parse_slot_at(buf, cur + 1) {
            Some(p) => p,
            None => {
                return None;
            },
        };
        proof {
            lemma_prepend_slots_cons(accv, v@, s, buf@.skip(j as int));
        }
        acc.push(v);
        cur = j;
        proof {
            assert(Seq::new(acc@.len(), |k: int| acc@[k]@) =~= accv + seq![v@]);
        }
    }
}

#[verifier::rlimit(100)]
fn parse_location_at(buf: &Vec<u8>, i: usize) -> (r: Option<(LocationBookings, usize)>)
    requires
        i <= buf.len(),
    ensures
        match r {
            Some((v, j)) => i < j <= buf@.len() && parse_location(buf@.skip(i as int)) == Some(
                (v@, buf@.skip(j as int)),
            ),
            None => parse_location(buf@.skip(i as int)) is None,
        },
{
    let key_l = key_location_bytes();
    let j1 = match eat(buf, i, &key_l) {
        Some(j) => j,
        None => {
            return None;
        },
    };
    let (location, j2) = match parse_string_at(buf, j1) {
        Some(p) => p,
        None => {
            return None;
        },
    };
    let key_s = key_slots_bytes();
    let j3 = match eat(buf, j2, &key_s) {
        Some(j) => j,
        None => {
            return None;
        },
    };
    let (slots, j4) = match parse_slot_list_at(buf, j3) {
        Some(p) => p,
        None => {
            return None;
        },
    };
    let key_n = key_next_available_bytes();
    let j5 = match eat(buf, j4, &key_n) {
        Some(j) => j,
        None => {
            return None;
        },
    };
    let (next_available_date, j6) = match parse_opt_string_at(buf, j5) {
        Some(p) => p,
        None => {
            return None;
        },
    };
    let cb = close_brace_bytes();
    let j7 = match eat(buf, j6, &cb) {
        Some(j) => j,
        None => {
            return None;
        },
    };
    let out = LocationBookings { location, slots, next_available_date };
    proof {
        assert(out@.slots =~= Seq::new(out.slots@.len(), |k: int| out.slots@[k]@));
    }
    Some((out, j7))
}

#[verifier::rlimit(100)]
fn parse_location_list_at(buf: &Vec<u8>, i: usize) -> (r: Option<(Vec<LocationBookings>, usize)>)
    requires
        i <= buf.len(),
    ensures
        match r {
            Some((v, j)) => i < j <= buf@.len() && parse_location_list(buf@.skip(i as int))
                == Some((Seq::new(v@.len(), |k: int| v@[k]@), buf@.skip(j as int))),
            None => parse_location_list(buf@.skip(i as int)) is None,
        },
{
    if i >= buf.len() || buf[i] != 91 {
        return None;
    }
    if i + 1 >= buf.len() {
        assert(buf@.skip(i as int).len() < 2);
        return None;
    }
    assert(buf@.skip(i as int)[0] == 91);
    assert(buf@.skip(i as int)[1] == buf@[i + 1 as int]);
    if buf[i + 1] == 93 {
        let empty: Vec<LocationBookings> = Vec::new();
        proof {
            assert(buf@.skip(i as int).skip(2) =~= buf@.skip(i + 2 as int));
            assert(Seq::new(0, |k: int| empty@[k]@) =~= Seq::<LocationView>::empty());
        }
        return Some((empty, i + 2));
    }
    assert(buf@.skip(i as int).skip(1) =~= buf@.skip(i + 1 as int));
    let (first, j0) = match parse_location_at(buf, i + 1) {
        Some(p) => p,
        None => {
            return None;
        },
    };
    let mut acc: Vec<LocationBookings> = Vec::new();
    acc.push(first);
    let mut cur: usize = j0;
    proof {
        assert(Seq::new(acc@.len(), |k: int| acc@[k]@) =~= seq![first@]);
    }
    loop
        invariant
            i < cur <= buf.len(),
            parse_location_list(buf@.skip(i as int)) == prepend_locations(
                Seq::new(acc@.len(), |k: int| acc@[k]@),
                parse_location_tail(buf@.skip(cur as int)),
            ),
        decreases buf.len() - cur,
    {
        let ghost accv = Seq::new(acc@.len(), |k: int| acc@[k]@);
        let ghost s = buf@.skip(cur as int);
        if cur >= buf.len() {
            return None;
        }
        let b = buf[cur];
        assert(s[0] == b);
        if b == 93 {
            proof {
                assert(s.skip(1) =~= buf@.skip(cur + 1 as int));
                assert(accv + Seq::<LocationView>::empty() =~= accv);
            }
            return Some((acc, cur + 1));
        }
        if b != 44 {
            return None;
        }
        assert(s.skip(1) =~= buf@.skip(cur + 1 as int));
        let (v, j) = match parse_location_at(buf, cur + 1) {
            Some(p) => p,
            None => {
                return None;
            },
        };
        proof {
            lemma_prepend_locations_cons(accv, v@, s, buf@.skip(j as int));
        }
        acc.push(v);
        cur = j;
        proof {
            assert(Seq::new(acc@.len(), |k: int| acc@[k]@) =~= accv + seq![v@]);
        }
    }
}

/// Parse a snapshot document; anything that does not match the grammar
/// yields nothing, so a malformed file never produces a dataset.
#[verifier::rlimit(100)]
pub fn parse_booking_data(buf: &Vec<u8>) -> (r: Option<BookingData>)
    ensures
        match r {
            Some(d) => parse_data(buf@) == Some(d@),
            None => parse_data(buf@) is None,
        },
{
    proof {
        assert(buf@.skip(0) =~= buf@);
    }
    let key_r = key_results_bytes();
    let j1 = match eat(buf, 0, &key_r) {
        Some(j) => j,
        None => {
            return None;
        },
    };
    let (results, j2) = match parse_location_list_at(buf, j1) {
        Some(p) => p,
        None => {
            return None;
        },
    };
    let key_u = key_last_updated_bytes();
    let j3 = match eat(buf, j2, &key_u) {
        Some(j) => j,
        None => {
            return None;
        },
    };
    let (last_updated, j4) = match parse_opt_string_at(buf, j3) {
        Some(p) => p,
        None => {
            return None;
        },
    };
    let cb = close_brace_bytes();
    let j5 = match eat(buf, j4, &cb) {
        Some(j) => j,
        None => {
            return None;
        },
    };
    if j5 != buf.len() {
        assert(buf@.skip(j5 as int).len() > 0);
        return None;
    }
    let out = BookingData { results, last_updated };
    proof {
        assert(buf@.skip(j5 as int).len() == 0);
        assert(out@.results =~= Seq::new(out.results@.len(), |k: int| out.results@[k]@));
    }
    Some(out)
}

/// Canonical rendering of a results list alone, as hashed for change
/// detection.
pub(crate) fn render_results_bytes(results: &Vec<LocationBookings>) -> (out: Vec<u8>)
    ensures
        out@ == render_location_list(Seq::new(results@.len(), |i: int| results@[i]@)),
{
    let mut out: Vec<u8> = Vec::new();
    push_location_list(&mut out, results);
    assert(out@ =~= render_location_list(Seq::new(results@.len(), |i: int| results@[i]@)));
    out
}

/// Canonical rendering of one location entry, as hashed for its change token.
pub(crate) fn render_location_bytes(entry: &LocationBookings) -> (out: Vec<u8>)
    ensures
        out@ == render_location(entry@),
{
    let mut out: Vec<u8> = Vec::new();
    push_location(&mut out, entry);
    assert(out@ =~= render_location(entry@));
    out
}

/// Serialize a dataset to the snapshot document.
pub fn render_booking_data(d: &BookingData) -> (out: Vec<u8>)
    ensures
        out@ == render_data(d@),
{
    let mut out: Vec<u8> = Vec::new();
    push_key_results(&mut out);
    push_location_list(&mut out, &d.results);
    assert(out@ =~= key_results() + render_location_list(d@.results));
    push_key_last_updated(&mut out);
    match &d.last_updated {
        Some(t) => push_string(&mut out, t),
        None => push_null(&mut out),
    }
    out.push(125u8);
    assert(out@ =~= render_data(d@));
    out
}

} // verus!
