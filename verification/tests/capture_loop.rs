use gamepad_capture::capture_loop::{DISCOVERY_INTERVAL_MICROS, REPAINT_INTERVAL_MICROS};
use gamepad_capture::{CaptureLoop, LoopControl, PollKind, SendOutcome};

#[test]
fn discovery_runs_at_start_then_every_half_second() {
    let mut state = CaptureLoop::new(1_000);
    assert_eq!(state.poll_kind(1_000), PollKind::Discover);
    assert_eq!(state.next_discovery, 501_000);
    assert_eq!(state.poll_kind(9_000), PollKind::ActiveOnly);
    assert_eq!(state.poll_kind(500_999), PollKind::ActiveOnly);
    assert_eq!(state.poll_kind(501_000), PollKind::Discover);
    assert_eq!(state.next_discovery, 501_000 + DISCOVERY_INTERVAL_MICROS);
}

#[test]
fn discovery_time_saturates_instead_of_overflowing() {
    let mut state = CaptureLoop::new(u64::MAX - 10);
    assert_eq!(state.poll_kind(u64::MAX - 10), PollKind::Discover);
    assert_eq!(state.next_discovery, u64::MAX);
}

#[test]
fn refused_events_are_counted_and_reported_once_queued() {
    let mut state = CaptureLoop::new(0);
    assert_eq!(state.begin_tick(), None);
    assert_eq!(state.event_sent(SendOutcome::Full), LoopControl::Continue);
    assert_eq!(state.event_sent(SendOutcome::Full), LoopControl::Continue);
    assert_eq!(state.dropped, 2);
    assert!(!state.sent_this_tick);

    assert_eq!(state.begin_tick(), Some(2));
    assert_eq!(state.notice_sent(SendOutcome::Full), LoopControl::Continue);
    assert_eq!(state.dropped, 2);
    assert_eq!(state.begin_tick(), Some(2));
    assert_eq!(state.notice_sent(SendOutcome::Sent), LoopControl::Continue);
    assert_eq!(state.dropped, 0);
    assert!(state.sent_this_tick);
    assert_eq!(state.begin_tick(), None);
    assert!(!state.sent_this_tick);
}

#[test]
fn the_refusal_count_saturates() {
    let mut state = CaptureLoop::new(0);
    state.dropped = usize::MAX;
    state.event_sent(SendOutcome::Full);
    assert_eq!(state.dropped, usize::MAX);
}

#[test]
fn a_closed_display_channel_stops_the_loop() {
    let mut state = CaptureLoop::new(0);
    assert_eq!(state.event_sent(SendOutcome::Closed), LoopControl::Stop);
    state.dropped = 3;
    assert_eq!(state.notice_sent(SendOutcome::Closed), LoopControl::Stop);
    assert_eq!(state.dropped, 3);
}

#[test]
fn repaints_are_requested_only_after_queued_events_and_throttled() {
    let mut state = CaptureLoop::new(0);
    state.begin_tick();
    assert!(!state.repaint_due(0));
    state.event_sent(SendOutcome::Sent);
    assert!(state.repaint_due(0));
    assert_eq!(state.next_repaint, REPAINT_INTERVAL_MICROS);
    state.begin_tick();
    state.event_sent(SendOutcome::Sent);
    assert!(!state.repaint_due(15_999));
    assert!(state.repaint_due(16_000));
    assert_eq!(state.next_repaint, 32_000);
}
