//! Decisions of the tester's live capture loop.
//!
//! The loop itself (a worker thread, a bounded display channel and a short
//! sleep per tick) runs outside the library; each tick it asks this state
//! machine what to do and hands back what happened. Times are whole
//! microseconds since the loop started.

use vstd::prelude::*;

verus! {

/// A full discovery poll runs at most this often, in microseconds.
pub const DISCOVERY_INTERVAL_MICROS: u64 = 500_000;

/// The GUI is asked to repaint at most this often, in microseconds.
pub const REPAINT_INTERVAL_MICROS: u64 = 16_000;

/// Which poll a tick makes.
#[derive(Debug, Clone, Copy, PartialEq, Eq, Structural)]
pub enum PollKind {
    /// Rescan the host's devices, then read the open sources.
    Discover,
    /// Read only the sources already open.
    ActiveOnly,
}

/// What became of one attempt to hand an event to the display channel.
#[derive(Debug, Clone, Copy, PartialEq, Eq, Structural)]
pub enum SendOutcome {
    /// The event was queued.
    Sent,
    /// The channel was full; the event was not queued.
    Full,
    /// The receiving side is gone.
    Closed,
}

/// Whether the loop goes on after a send.
#[derive(Debug, Clone, Copy, PartialEq, Eq, Structural)]
pub enum LoopControl {
    Continue,
    Stop,
}

/// `t + step`, or the largest time when that does not fit.
pub open spec fn later(t: u64, step: u64) -> u64 {
    if t + step > u64::MAX {
        u64::MAX
    } else {
        (t + step) as u64
    }
}

/// The live capture loop's state between and within ticks.
#[derive(Debug, Clone, Copy, PartialEq, Eq, Structural)]
pub struct CaptureLoop {
    /// Earliest time of the next full discovery poll.
    pub next_discovery: u64,
    /// Earliest time the GUI may be asked to repaint again.
    pub next_repaint: u64,
    /// Complete events the full display channel has refused since the last
    /// notice went out.
    pub dropped: usize,
    /// Whether this tick has queued an event for display.
    pub sent_this_tick: bool,
}

impl CaptureLoop {
    /// A loop started at `now`: discovery and repaint are due at once.
    pub fn new(now: u64) -> (l: Self)
        ensures
            l == (CaptureLoop { next_discovery: now, next_repaint: now, dropped: 0, sent_this_tick: false }),
    {
        CaptureLoop { next_discovery: now, next_repaint: now, dropped: 0, sent_this_tick: false }
    }

    /// Start a tick: nothing is queued yet, and the number of refused events
    /// to report first, if any were refused.
    pub fn begin_tick(&mut self) -> (notice: Option<usize>)
        ensures
            *final(self) == (CaptureLoop { sent_this_tick: false, ..*old(self) }),
            notice == if old(self).dropped > 0 {
                Some(old(self).dropped)
            } else {
                None::<usize>
            },
    {
        self.sent_this_tick = false;
        if self.dropped > 0 {
            Some(self.dropped)
        } else {
            None
        }
    }

    /// What became of the notice of refused events: once queued, the count
    /// starts again from zero; a full channel keeps it for the next tick; a
    /// closed channel stops the loop.
    pub fn notice_sent(&mut self, outcome: SendOutcome) -> (c: LoopControl)
        ensures
            c == (if outcome == SendOutcome::Closed { LoopControl::Stop } else { LoopControl::Continue }),
            outcome == SendOutcome::Sent ==> *final(self) == (CaptureLoop {
                dropped: 0,
                sent_this_tick: true,
                ..*old(self)
            }),
            outcome != SendOutcome::Sent ==> *final(self) == *old(self),
    {
        match outcome {
            SendOutcome::Sent => {
                self.dropped = 0;
                self.sent_this_tick = true;
                LoopControl::Continue
            },
            SendOutcome::Full => LoopControl::Continue,
            SendOutcome::Closed => LoopControl::Stop,
        }
    }

    /// Which poll this tick makes: a full discovery once its time has come,
    /// with the next one due an interval later; otherwise only the open
    /// sources, and nothing changes.
    pub fn poll_kind(&mut self, now: u64) -> (k: PollKind)
        ensures
            now >= old(self).next_discovery ==> k == PollKind::Discover && *final(self) == (CaptureLoop {
                next_discovery: later(now, DISCOVERY_INTERVAL_MICROS),
                ..*old(self)
            }),
            now < old(self).next_discovery ==> k == PollKind::ActiveOnly && *final(self) == *old(self),
    {
        if now >= self.next_discovery {
            self.next_discovery = now.saturating_add(DISCOVERY_INTERVAL_MICROS);
            PollKind::Discover
        } else {
            PollKind::ActiveOnly
        }
    }

    /// What became of one polled event: queued; refused by the full channel
    /// and counted (saturating); or the receiver is gone and the loop stops.
    pub fn event_sent(&mut self, outcome: SendOutcome) -> (c: LoopControl)
        ensures
            c == (if outcome == SendOutcome::Closed { LoopControl::Stop } else { LoopControl::Continue }),
            outcome == SendOutcome::Sent ==> *final(self) == (CaptureLoop { sent_this_tick: true, ..*old(self) }),
            outcome == SendOutcome::Full ==> *final(self) == (CaptureLoop {
                dropped: if old(self).dropped == usize::MAX {
                    usize::MAX
                } else {
                    (old(self).dropped + 1) as usize
                },
                ..*old(self)
            }),
            outcome == SendOutcome::Closed ==> *final(self) == *old(self),
    {
        match outcome {
            SendOutcome::Sent => {
                self.sent_this_tick = true;
                LoopControl::Continue
            },
            SendOutcome::Full => {
                self.dropped = self.dropped.saturating_add(1);
                LoopControl::Continue
            },
            SendOutcome::Closed => LoopControl::Stop,
        }
    }

    /// Whether to ask the GUI to repaint at the end of a tick whose poll
    /// succeeded: only when the tick queued something and the last request
    /// is an interval old, the next one then being due an interval later.
    pub fn repaint_due(&mut self, now: u64) -> (r: bool)
        ensures
            r == (old(self).sent_this_tick && now >= old(self).next_repaint),
            r ==> *final(self) == (CaptureLoop { next_repaint: later(now, REPAINT_INTERVAL_MICROS), ..*old(self) }),
            !r ==> *final(self) == *old(self),
    {
        if self.sent_this_tick && now >= self.next_repaint {
            self.next_repaint = now.saturating_add(REPAINT_INTERVAL_MICROS);
            true
        } else {
            false
        }
    }
}

} // verus!
