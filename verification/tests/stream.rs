//! Stream requests and swaps.

use std::time::{Duration, Instant};

use hyperv_rdp_extras::session::layout::ENGAGE_SETTLE_MS;
use hyperv_rdp_extras::session::stream::{
    Begin, POLL_TIMEOUT_MS, PollAction, PollOutcome, StreamEvent, StreamSwap, ThreadFault,
    after_poll, bind_version, fault_message,
};
use hyperv_rdp_extras::session::{
    SETTLE_CLOSE_MS, STREAM_CREATE_TIMEOUT_MS, StreamOutcome, StreamRequestMachine,
    outcome_to_reply, take_due_settle_close,
};

#[test]
fn first_conclusive_event_wins() {
    let mut sm = StreamRequestMachine::new();
    assert_eq!(
        sm.transition(Some(StreamOutcome::Created { node: 7 })),
        Some(StreamOutcome::Created { node: 7 })
    );
    // A Closed following the Created must not double-deliver.
    assert_eq!(sm.transition(Some(StreamOutcome::Closed)), None);
    assert_eq!(
        sm.transition(Some(StreamOutcome::Failed {
            reason: "late".into()
        })),
        None
    );
}

#[test]
fn failed_then_closed_does_not_double_deliver() {
    let mut sm = StreamRequestMachine::new();
    assert_eq!(
        sm.transition(Some(StreamOutcome::Failed {
            reason: "nope".into()
        })),
        Some(StreamOutcome::Failed {
            reason: "nope".into()
        })
    );
    assert_eq!(sm.transition(Some(StreamOutcome::Closed)), None);
}

#[test]
fn reset_re_arms_the_machine() {
    let mut sm = StreamRequestMachine::new();
    assert!(sm.transition(Some(StreamOutcome::Closed)).is_some());
    sm.reset();
    assert_eq!(
        sm.transition(Some(StreamOutcome::Created { node: 1 })),
        Some(StreamOutcome::Created { node: 1 })
    );
}

#[test]
fn non_conclusive_events_pass_through() {
    let mut sm = StreamRequestMachine::new();
    assert_eq!(sm.transition(None), None);
    assert_eq!(sm.transition(None), None);
    // Machine still armed.
    assert_eq!(
        sm.transition(Some(StreamOutcome::Created { node: 3 })),
        Some(StreamOutcome::Created { node: 3 })
    );
}

#[test]
fn settle_close_stays_parked_until_deadline() {
    // REGRESSION: consuming the proxy on every not-yet-due poll iteration
    // (`if let Some(x) = take() && due`) drops it when the guard fails — one
    // leaked virtual output per swap (zombie outputs stole the panel and
    // shifted geometry).
    let clock = Instant::now();
    let now = || u64::try_from(clock.elapsed().as_millis()).unwrap();
    let mut closing = Some(("old-stream", now() + SETTLE_CLOSE_MS));
    // Simulate many fast poll passes before the deadline.
    for _ in 0..10 {
        assert!(take_due_settle_close(&mut closing, now()).is_none());
        // The item must still be parked, not dropped.
        assert!(closing.is_some(), "parked close was dropped before its deadline");
        assert_eq!(closing.as_ref().map(|(s, _)| *s), Some("old-stream"));
    }
}

#[test]
fn settle_close_returns_once_when_due() {
    let now: u64 = 1_000_000;
    let mut closing = Some(("old-stream", now - 1));
    assert_eq!(take_due_settle_close(&mut closing, now), Some("old-stream"));
    // Consumed exactly once; the slot is empty afterwards.
    assert!(closing.is_none());
    assert!(take_due_settle_close(&mut closing, now).is_none());
}

#[test]
fn settle_close_empty_slot_is_noop() {
    let mut closing: Option<(u32, u64)> = None;
    assert!(take_due_settle_close(&mut closing, 5).is_none());
    assert!(closing.is_none());
}

#[test]
fn settle_close_is_due_at_its_deadline() {
    let mut closing = Some(("old-stream", 750));
    assert_eq!(take_due_settle_close(&mut closing, 749), None);
    assert_eq!(take_due_settle_close(&mut closing, 750), Some("old-stream"));
}

#[test]
fn settle_window_mirrors_engage_settle() {
    // The teardown settle exists for the same reason as the engage
    // settle (clients bind wl_output globals asynchronously); the two
    // windows are deliberately equal. If either changes deliberately,
    // change both — and update this pin.
    assert_eq!(Duration::from_millis(SETTLE_CLOSE_MS), Duration::from_millis(750));
    assert_eq!(ENGAGE_SETTLE_MS, SETTLE_CLOSE_MS);
}

#[test]
fn create_timeout_is_ten_seconds() {
    assert_eq!(Duration::from_millis(STREAM_CREATE_TIMEOUT_MS), Duration::from_secs(10));
}

#[test]
fn default_machine_is_armed() {
    let mut sm = StreamRequestMachine::default();
    assert_eq!(sm.transition(Some(StreamOutcome::Closed)), Some(StreamOutcome::Closed));
}

#[test]
fn outcomes_translate_to_replies() {
    assert_eq!(outcome_to_reply(StreamOutcome::Created { node: 42 }), Ok(42));
    assert_eq!(
        outcome_to_reply(StreamOutcome::Failed { reason: "no".into() }),
        Err("no".to_string())
    );
    assert_eq!(
        outcome_to_reply(StreamOutcome::Closed),
        Err("stream closed by compositor".to_string())
    );
}

#[test]
fn events_bring_their_outcomes() {
    assert_eq!(
        StreamEvent::Created { node: 9 }.into_outcome(),
        Some(StreamOutcome::Created { node: 9 })
    );
    assert_eq!(
        StreamEvent::Failed { error: "x".into() }.into_outcome(),
        Some(StreamOutcome::Failed { reason: "x".into() })
    );
    assert_eq!(StreamEvent::Closed.into_outcome(), Some(StreamOutcome::Closed));
    assert_eq!(StreamEvent::Other.into_outcome(), None);
}

/// A swap with the global bound and `stream` live, asked for by `reply`.
fn live(stream: &'static str, reply: &'static str) -> StreamSwap<&'static str, &'static str> {
    let mut swap = StreamSwap::new();
    swap.bind();
    create(&mut swap, stream, reply);
    let reaction = swap.react(StreamEvent::Created { node: 1 }, 0);
    assert_eq!(reaction.reply, Some((reply, Ok(1))));
    assert_eq!(reaction.discarded, None);
    swap
}

/// Ask for `stream`; returns the orphan to close and who was abandoned.
fn create(
    swap: &mut StreamSwap<&'static str, &'static str>,
    stream: &'static str,
    reply: &'static str,
) -> (Option<&'static str>, Option<&'static str>) {
    match swap.begin_create() {
        Begin::Ready { orphan, abandoned } => {
            swap.install(stream, reply);
            (orphan, abandoned)
        }
        Begin::Refused(reason) => panic!("refused: {reason}"),
    }
}

#[test]
fn create_is_refused_until_the_global_is_bound() {
    let mut swap: StreamSwap<&str, &str> = StreamSwap::new();
    assert!(!swap.is_bound());
    match swap.begin_create() {
        Begin::Refused(reason) => assert_eq!(reason, "zkde_screencast global not bound"),
        Begin::Ready { .. } => panic!("must be refused"),
    }
    swap.bind();
    assert!(swap.is_bound());
    assert!(matches!(swap.begin_create(), Begin::Ready { orphan: None, abandoned: None }));
}

#[test]
fn previous_stream_is_closed_only_after_the_settle_window() {
    let mut swap = live("old", "first");
    assert_eq!(create(&mut swap, "new", "second"), (None, None));
    // The replacement is not there yet: nothing may be closed.
    assert!(swap.take_settled(u64::MAX).is_empty());
    let reaction = swap.react(StreamEvent::Created { node: 2 }, 1_000);
    assert_eq!(reaction.reply, Some(("second", Ok(2))));
    assert!(swap.take_settled(1_749).is_empty());
    assert_eq!(swap.take_settled(1_750), vec!["old"]);
    assert!(swap.take_settled(u64::MAX).is_empty());
    assert_eq!(swap.release().streams, vec!["new"]);
}

#[test]
fn failed_replacement_restores_the_previous_stream() {
    let mut swap = live("old", "first");
    create(&mut swap, "new", "second");
    let reaction = swap.react(StreamEvent::Failed { error: "nope".into() }, 10);
    assert_eq!(reaction.reply, Some(("second", Err("nope".to_string()))));
    assert_eq!(reaction.discarded, Some("new"));
    assert!(swap.take_settled(u64::MAX).is_empty());
    assert_eq!(swap.release().streams, vec!["old"]);
}

#[test]
fn closed_replacement_restores_the_previous_stream() {
    let mut swap = live("old", "first");
    create(&mut swap, "new", "second");
    let reaction = swap.react(StreamEvent::Closed, 10);
    assert_eq!(
        reaction.reply,
        Some(("second", Err("stream closed by compositor".to_string())))
    );
    assert_eq!(reaction.discarded, Some("new"));
    assert_eq!(swap.release().streams, vec!["old"]);
}

#[test]
fn later_events_of_a_request_change_nothing() {
    let mut swap = live("old", "first");
    create(&mut swap, "new", "second");
    swap.react(StreamEvent::Created { node: 2 }, 0);
    for event in [StreamEvent::Closed, StreamEvent::Other, StreamEvent::Created { node: 3 }] {
        let reaction = swap.react(event, 5);
        assert_eq!(reaction.reply, None);
        assert_eq!(reaction.discarded, None);
        }
    assert_eq!(swap.release().streams, vec!["new", "old"]);
}

#[test]
fn abandoned_swap_hands_out_its_orphan() {
    let mut swap = live("one", "a");
    create(&mut swap, "two", "b");
    // No outcome ever came; another create follows.
    assert_eq!(create(&mut swap, "three", "c"), (Some("one"), Some("b")));
    let release = swap.release();
    assert_eq!(release.streams, vec!["three", "two"]);
    assert_eq!(release.abandoned, Some("c"));
}

#[test]
fn release_covers_pending_retiring_and_parked() {
    let mut swap = live("one", "a");
    create(&mut swap, "two", "b");
    swap.react(StreamEvent::Created { node: 2 }, 0);
    create(&mut swap, "three", "c");
    let release = swap.release();
    assert_eq!(release.streams, vec!["three", "two", "one"]);
    assert!(swap.release().streams.is_empty());
    assert!(swap.take_settled(u64::MAX).is_empty());
}

#[test]
fn quick_swaps_each_wait_out_their_settle_window() {
    let mut swap = live("one", "a");
    create(&mut swap, "two", "b");
    swap.react(StreamEvent::Created { node: 2 }, 100);
    create(&mut swap, "three", "c");
    // The first parked stream is not touched by the second swap.
    let reaction = swap.react(StreamEvent::Created { node: 3 }, 200);
    assert_eq!(reaction.discarded, None);
    assert!(swap.take_settled(849).is_empty());
    assert_eq!(swap.take_settled(850), vec!["one"]);
    assert!(swap.take_settled(949).is_empty());
    assert_eq!(swap.take_settled(950), vec!["two"]);
    assert_eq!(swap.release().streams, vec!["three"]);
}

#[test]
fn parked_streams_are_due_together_or_released_together() {
    let swapped_twice = || {
        let mut swap = live("one", "a");
        create(&mut swap, "two", "b");
        swap.react(StreamEvent::Created { node: 2 }, 0);
        create(&mut swap, "three", "c");
        swap.react(StreamEvent::Created { node: 3 }, 10);
        swap
    };
    assert_eq!(swapped_twice().take_settled(760), vec!["one", "two"]);
    assert_eq!(swapped_twice().release().streams, vec!["three", "one", "two"]);
}

#[test]
fn lost_connection_hands_out_who_waits() {
    let mut swap = live("one", "a");
    assert_eq!(swap.abort(), None);
    create(&mut swap, "two", "b");
    assert_eq!(swap.abort(), Some("b"));
    assert_eq!(swap.abort(), None);
}

#[test]
fn only_the_screencast_global_is_bound() {
    assert_eq!(bind_version("zkde_screencast_unstable_v1", 6), Some(4));
    assert_eq!(bind_version("zkde_screencast_unstable_v1", 4), Some(4));
    assert_eq!(bind_version("zkde_screencast_unstable_v1", 3), Some(3));
    assert_eq!(bind_version("wl_output", 4), None);
    assert_eq!(bind_version("zkde_screencast_unstable_v10", 4), None);
}

#[test]
fn polls_lead_to_the_right_step() {
    assert_eq!(after_poll(PollOutcome::Ready { count: 1, readable: true }), PollAction::Dispatch);
    assert_eq!(after_poll(PollOutcome::Ready { count: 1, readable: false }), PollAction::Commands);
    assert_eq!(after_poll(PollOutcome::Ready { count: 0, readable: true }), PollAction::Commands);
    assert_eq!(after_poll(PollOutcome::Interrupted), PollAction::Again);
    assert_eq!(after_poll(PollOutcome::Failed), PollAction::Exit);
    assert_eq!(POLL_TIMEOUT_MS, 50);
}

#[test]
fn faults_are_named_in_the_reply() {
    assert_eq!(fault_message(ThreadFault::Connect, "e"), "wayland connection failed: e");
    assert_eq!(fault_message(ThreadFault::Poll, "e"), "poll failed: e");
    assert_eq!(fault_message(ThreadFault::Read, "e"), "wayland read failed: e");
    assert_eq!(fault_message(ThreadFault::Dispatch, "e"), "dispatch failed: e");
}
