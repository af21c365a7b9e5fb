//! Tests of the streaming-search lifecycle and its cleanup protocol.

use simple_ldap::stream::{StreamLifecycle, StreamState};
use simple_ldap::require_single;
use simple_ldap::Error;

#[test]
fn early_stop_twice_issues_single_abandon() {
    let mut lifecycle = StreamLifecycle::new();
    lifecycle.record_event(StreamState::Active);

    // First early stop: finish, then abandon the still-open search.
    assert!(lifecycle.begin_cleanup());
    let abandoned = lifecycle.finish_observed(StreamState::Active);
    assert!(abandoned);
    assert_eq!(lifecycle.abandon_count(), 1);

    // Second early stop: the stream is closed, nothing happens.
    assert!(!lifecycle.begin_cleanup());
    assert_eq!(lifecycle.abandon_count(), 1);
}

#[test]
fn drop_after_partial_consumption_abandons_once() {
    // Three entries are available; the caller retrieves exactly one,
    // then discards the stream.
    let entries = ["a", "b", "c"];
    let mut lifecycle = StreamLifecycle::new();
    lifecycle.record_event(StreamState::Active);
    let _first = entries[0];

    // The drop path runs cleanup: finish, recheck, abandon.
    assert!(lifecycle.begin_cleanup());
    let abandoned = lifecycle.finish_observed(StreamState::Active);
    assert!(abandoned);

    assert_eq!(lifecycle.abandon_count(), 1);
    assert_eq!(lifecycle.state(), StreamState::Closed);
}

#[test]
fn drained_stream_needs_no_cleanup() {
    let mut lifecycle = StreamLifecycle::new();
    lifecycle.record_event(StreamState::Active);
    lifecycle.record_event(StreamState::Done);

    assert!(!lifecycle.begin_cleanup());
    assert_eq!(lifecycle.abandon_count(), 0);
    assert_eq!(lifecycle.state(), StreamState::Done);
}

#[test]
fn finish_that_completes_avoids_abandon() {
    let mut lifecycle = StreamLifecycle::new();
    lifecycle.record_event(StreamState::Active);

    assert!(lifecycle.begin_cleanup());
    // The transport's finish call ran the stream to its normal end.
    let abandoned = lifecycle.finish_observed(StreamState::Done);
    assert!(!abandoned);
    assert_eq!(lifecycle.abandon_count(), 0);
    assert_eq!(lifecycle.state(), StreamState::Done);
}

#[test]
fn errored_stream_is_not_abandoned() {
    let mut lifecycle = StreamLifecycle::new();
    lifecycle.record_event(StreamState::Active);
    lifecycle.record_event(StreamState::Error);

    assert!(lifecycle.begin_cleanup());
    let abandoned = lifecycle.finish_observed(StreamState::Error);
    assert!(!abandoned);
    assert_eq!(lifecycle.abandon_count(), 0);
}

#[test]
fn fresh_stream_discarded_is_abandoned() {
    let mut lifecycle = StreamLifecycle::new();

    assert!(lifecycle.begin_cleanup());
    let abandoned = lifecycle.finish_observed(StreamState::Fresh);
    assert!(abandoned);
    assert_eq!(lifecycle.abandon_count(), 1);
    assert_eq!(lifecycle.state(), StreamState::Closed);
}

#[test]
fn require_single_selects_the_sole_record() {
    assert_eq!(require_single(vec![7u32]), Ok(7));

    let none: Result<u32, Error> = require_single(vec![]);
    assert!(matches!(none, Err(Error::NotFound(_))));

    let many = require_single(vec![1u32, 2]);
    assert!(matches!(many, Err(Error::MultipleResults(_))));
}
