//! Scrape-orchestration library for a slot-availability harvester.
//!
//! The library models the decision logic of the harvester: the per-session
//! flow state machine, the parallel group dispatcher, the batch retry
//! controller, the change-detection cache with its content hash and snapshot
//! codec, and the background refresh scheduler guard. All I/O (the browser
//! protocol, files, the webhook) lives outside the library and hands plain
//! values in and out.

mod cache;
mod codec;
mod config;
mod dispatch;
mod flow;
mod hash;
mod locations;
mod responses;
mod retry;
mod slots;
mod times;
mod timing;

pub use cache::{available_pairs, begin_transition, bytes_eq, clean_data, clean_location, clean_results, keep_available, lemma_clean_keeps_unique, lemma_restart_after_stop, lemma_single_active_loop, lookup, pairs_of_slots, stop_transition, BookingManager};
pub use codec::{lemma_snapshot_roundtrip, parse_booking_data, parse_data, render_booking_data, render_data};
pub use config::{env_ref, env_ref_spec, parse_proxy_list, proxy_lines, truncate_body, Settings};
pub use dispatch::{group_union, id_views, lemma_rr_partition_balanced, lemma_rr_partition_len, lemma_rr_partition_sizes, lemma_rr_partition_union, merge_group_results, partition_groups, plan_groups, proxy_rotations, rotation_chunks, rr_partition};
pub use flow::{extract_payload, parse_payload, FlowAction, FlowEvent, FlowMachine, FlowState};
pub use hash::{content_hash, data_hash, entry_hash, fnv1a_bytes, lemma_hash_of_content};
pub use locations::{coord_ok, distance_key, lemma_distance_key_zero, lemma_zero_key_ranks_first, location_distance_key, lookup_location, Location, LocationInfo, LocationManager};
pub use responses::{get_location_bookings, get_location_details, BookingResponse, LocationBookingViewModel, LocationDetailBookingResponse, LocationNotFound};
pub use retry::{captured_entries, decision_of, has_loc, in_ids, lemma_empty_attempt, lemma_merge_keeps_unique, lemma_retry_fruitless_run, lemma_retry_stops_when_covered, locs_disjoint, run_attempts, still_missing, unique_locs, RetryController, RetryDecision};
pub use slots::{BookingData, DataView, LocationBookings, LocationView, SlotView, TimeSlot};
pub use times::{earliest_available, slot_chrono_le, slot_time_of, SlotTime};
pub use timing::{jitter_millis, jittered_delay};
