//! The frames on their way to Coderpack.
//!
//! Whoever sends never waits.  Frames queue up while Coderpack is busy, and when
//! it falls behind, events are dropped and counted.  A question is never
//! dropped: the game thread is stopped until somebody answers it.
use std::collections::VecDeque;

use vstd::prelude::*;

use crate::codec::{encoded, Frame, FrameView};
use crate::number::{decimal, decimal_text};
use crate::text::{given, same};

verus! {

/// The frames that wait to be written, the oldest first.
pub struct Outbox {
    pub waiting: VecDeque<Frame>,
    /// With this many frames waiting, events are dropped.
    pub limit: usize,
    /// Whether somebody still writes the frames.
    pub open: bool,
    /// Frames dropped since that was last reported.
    pub dropped: u64,
}

/// What an outbox holds.
pub struct OutboxView {
    pub waiting: Seq<FrameView>,
    pub limit: nat,
    pub open: bool,
    pub dropped: u64,
}

/// What the frames of a list hold.
pub open spec fn frames(list: Seq<Frame>) -> Seq<FrameView> {
    list.map_values(|frame: Frame| frame@)
}

impl View for Outbox {
    type V = OutboxView;

    open spec fn view(&self) -> OutboxView {
        OutboxView {
            waiting: frames(self.waiting@),
            limit: self.limit as nat,
            open: self.open,
            dropped: self.dropped,
        }
    }
}

/// Whether a frame reports an event, which nobody waits for.
pub open spec fn is_event(frame: FrameView) -> bool {
    frame.verb == "EVT"@
}

/// Whether an outbox takes a frame.
pub open spec fn takes(outbox: OutboxView, frame: FrameView) -> bool {
    outbox.open && (is_event(frame) ==> outbox.waiting.len() < outbox.limit)
}

/// An outbox after a frame was handed to it. The count stays at its maximum
/// once it is there.
pub open spec fn after_send(outbox: OutboxView, frame: FrameView) -> OutboxView {
    if takes(outbox, frame) {
        OutboxView { waiting: outbox.waiting.push(frame), ..outbox }
    } else if outbox.dropped < u64::MAX {
        OutboxView { dropped: (outbox.dropped + 1) as u64, ..outbox }
    } else {
        outbox
    }
}

/// The line that tells Coderpack how many frames it missed: a diagnostic, which
/// has a level and a text and no number.
pub open spec fn loss(dropped: u64) -> Seq<char> {
    "LOG warn dropped="@ + decimal(dropped as nat)
}

/// The line that is written next. Once nothing else waits, Coderpack has caught
/// up, and what was dropped is reported.
pub open spec fn next_line_of(outbox: OutboxView) -> Option<Seq<char>> {
    if outbox.waiting.len() > 0 {
        Some(encoded(outbox.waiting[0]))
    } else if outbox.dropped > 0 {
        Some(loss(outbox.dropped))
    } else {
        None
    }
}

/// An outbox after the next line was taken from it.
pub open spec fn after_next(outbox: OutboxView) -> OutboxView {
    if outbox.waiting.len() > 0 {
        OutboxView { waiting: outbox.waiting.drop_first(), ..outbox }
    } else {
        OutboxView { dropped: 0, ..outbox }
    }
}

impl Outbox {
    /// An outbox that drops events while `limit` frames are waiting.
    pub fn new(limit: usize) -> (outbox: Outbox)
        ensures
            outbox@ == (OutboxView {
                waiting: Seq::empty(),
                limit: limit as nat,
                open: true,
                dropped: 0,
            }),
    {
        let outbox = Outbox { waiting: VecDeque::new(), limit, open: true, dropped: 0 };
        assert(outbox@.waiting == Seq::<FrameView>::empty());
        outbox
    }

    /// Hands over a frame, and says whether it was taken rather than dropped.
    pub fn send(&mut self, frame: Frame) -> (taken: bool)
        ensures
            taken == takes(old(self)@, frame@),
            final(self)@ == after_send(old(self)@, frame@),
    {
        let event = same(&frame.verb, "EVT");
        if self.open && (!event || self.waiting.len() < self.limit) {
            self.waiting.push_back(frame);
            assert(frames(self.waiting@) == frames(old(self).waiting@).push(frame@));
            true
        } else {
            if self.dropped < u64::MAX {
                self.dropped = self.dropped + 1;
            }
            false
        }
    }

    /// The line that is written next, if any.
    pub fn next_line(&mut self) -> (line: Option<String>)
        ensures
            given(line) == next_line_of(old(self)@),
            final(self)@ == after_next(old(self)@),
    {
        match self.waiting.pop_front() {
            Some(frame) => {
                assert(frames(self.waiting@) == frames(old(self).waiting@).drop_first());
                Some(frame.encode())
            },
            None => {
                if self.dropped == 0 {
                    return None;
                }
                let mut line = "LOG warn dropped=".to_owned();
                line.append(&decimal_text(self.dropped));
                self.dropped = 0;
                Some(line)
            },
        }
    }

    /// Nobody writes frames any more.
    pub fn close(&mut self)
        ensures
            final(self)@ == (OutboxView { open: false, ..old(self)@ }),
    {
        self.open = false;
    }
}

} // verus!
