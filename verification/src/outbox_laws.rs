//! Laws of the frames on their way to Coderpack.
use vstd::prelude::*;

use crate::codec::{encoded, FrameView};
use crate::outbox::{after_next, after_send, is_event, loss, next_line_of, takes, OutboxView};

verus! {

/// What happens to an outbox: a frame is handed to it, or the next one is
/// written.
pub enum Step {
    Send(FrameView),
    Next,
}

/// An outbox after some steps.
pub open spec fn state(outbox: OutboxView, steps: Seq<Step>) -> OutboxView
    decreases steps.len(),
{
    if steps.len() == 0 {
        outbox
    } else {
        let before = state(outbox, steps.drop_last());
        match steps.last() {
            Step::Send(frame) => after_send(before, frame),
            Step::Next => after_next(before),
        }
    }
}

/// The frames that were handed over in some steps.
pub open spec fn sent(steps: Seq<Step>) -> Seq<FrameView>
    decreases steps.len(),
{
    if steps.len() == 0 {
        seq![]
    } else {
        match steps.last() {
            Step::Send(frame) => sent(steps.drop_last()).push(frame),
            Step::Next => sent(steps.drop_last()),
        }
    }
}

/// The frames that were written in some steps.
pub open spec fn written(outbox: OutboxView, steps: Seq<Step>) -> Seq<FrameView>
    decreases steps.len(),
{
    if steps.len() == 0 {
        seq![]
    } else {
        let waiting = state(outbox, steps.drop_last()).waiting;
        let before = written(outbox, steps.drop_last());
        match steps.last() {
            Step::Next if waiting.len() > 0 => before.push(waiting[0]),
            _ => before,
        }
    }
}

/// The frames that must get through: everything but events.
pub open spec fn essential(list: Seq<FrameView>) -> Seq<FrameView>
    decreases list.len(),
{
    if list.len() == 0 {
        seq![]
    } else {
        let before = essential(list.drop_last());
        if is_event(list.last()) {
            before
        } else {
            before.push(list.last())
        }
    }
}

proof fn lemma_state_keeps(outbox: OutboxView, steps: Seq<Step>)
    ensures
        state(outbox, steps).limit == outbox.limit,
        state(outbox, steps).open == outbox.open,
    decreases steps.len(),
{
    if steps.len() > 0 {
        lemma_state_keeps(outbox, steps.drop_last());
    }
}

/// Questions, and answers to commands, are never dropped: whatever is sent and
/// written in the meantime, every one of them is either written already or still
/// waiting, once, and in the order in which they were sent.
pub proof fn law_questions_get_through(outbox: OutboxView, steps: Seq<Step>)
    requires
        outbox.open,
    ensures
        essential(written(outbox, steps) + state(outbox, steps).waiting) == essential(
            outbox.waiting + sent(steps),
        ),
    decreases steps.len(),
{
    if steps.len() == 0 {
        assert(written(outbox, steps) + state(outbox, steps).waiting == outbox.waiting
            + sent(steps));
    } else {
        let earlier = steps.drop_last();
        let before = state(outbox, earlier);
        let out = written(outbox, earlier);
        law_questions_get_through(outbox, earlier);
        lemma_state_keeps(outbox, earlier);
        match steps.last() {
            Step::Send(frame) => {
                assert((outbox.waiting + sent(steps)).drop_last() == outbox.waiting + sent(
                    earlier,
                ));
                if takes(before, frame) {
                    let all = out + state(outbox, steps).waiting;
                    assert(all.drop_last() == out + before.waiting);
                    assert(all.last() == frame);
                }
            },
            Step::Next => {
                if before.waiting.len() > 0 {
                    assert(written(outbox, steps) + state(outbox, steps).waiting == out
                        + before.waiting);
                } else {
                    assert(written(outbox, steps) == out);
                }
            },
        }
    }
}

/// The events among frames.
pub open spec fn events(list: Seq<FrameView>) -> nat
    decreases list.len(),
{
    if list.len() == 0 {
        0
    } else {
        events(list.drop_last()) + (if is_event(list.last()) {
            1nat
        } else {
            0
        })
    }
}

proof fn lemma_events_are_few(list: Seq<FrameView>)
    ensures
        events(list) <= list.len(),
    decreases list.len(),
{
    if list.len() > 0 {
        lemma_events_are_few(list.drop_last());
    }
}

proof fn lemma_events_after_first(list: Seq<FrameView>)
    requires
        list.len() > 0,
    ensures
        events(list.drop_first()) <= events(list),
    decreases list.len(),
{
    if list.len() == 1 {
        assert(list.drop_first() == Seq::<FrameView>::empty());
    } else {
        lemma_events_after_first(list.drop_last());
        assert(list.drop_first().drop_last() == list.drop_last().drop_first());
    }
}

/// The queue of events is bounded: however much is sent, no more events wait
/// than the limit allows.
pub proof fn law_events_are_bounded(outbox: OutboxView, steps: Seq<Step>)
    requires
        events(outbox.waiting) <= outbox.limit,
    ensures
        events(state(outbox, steps).waiting) <= outbox.limit,
    decreases steps.len(),
{
    if steps.len() > 0 {
        let before = state(outbox, steps.drop_last());
        law_events_are_bounded(outbox, steps.drop_last());
        lemma_state_keeps(outbox, steps.drop_last());
        match steps.last() {
            Step::Send(frame) => {
                if takes(before, frame) {
                    lemma_events_are_few(before.waiting);
                    assert(before.waiting.push(frame).drop_last() == before.waiting);
                }
            },
            Step::Next => {
                if before.waiting.len() > 0 {
                    lemma_events_after_first(before.waiting);
                }
            },
        }
    }
}

/// How many frames were dropped in some steps.
pub open spec fn refused(outbox: OutboxView, steps: Seq<Step>) -> nat
    decreases steps.len(),
{
    if steps.len() == 0 {
        0
    } else {
        let before = refused(outbox, steps.drop_last());
        match steps.last() {
            Step::Send(frame) if !takes(state(outbox, steps.drop_last()), frame) => before + 1,
            _ => before,
        }
    }
}

/// How many dropped frames were reported in some steps.
pub open spec fn reported(outbox: OutboxView, steps: Seq<Step>) -> nat
    decreases steps.len(),
{
    if steps.len() == 0 {
        0
    } else {
        let state_before = state(outbox, steps.drop_last());
        let before = reported(outbox, steps.drop_last());
        match steps.last() {
            Step::Next if state_before.waiting.len() == 0 => before + state_before.dropped as nat,
            _ => before,
        }
    }
}

/// Every dropped frame is counted, and reported once: what has been reported and
/// what is still to be reported make up what was dropped. The count is kept in
/// 64 bits.
pub proof fn law_every_loss_is_counted(outbox: OutboxView, steps: Seq<Step>)
    requires
        outbox.dropped + refused(outbox, steps) <= u64::MAX,
    ensures
        reported(outbox, steps) + state(outbox, steps).dropped == outbox.dropped + refused(
            outbox,
            steps,
        ),
    decreases steps.len(),
{
    if steps.len() > 0 {
        law_every_loss_is_counted(outbox, steps.drop_last());
    }
}

/// What is written is the line of the frame that waits longest. Only once none
/// waits, a report names the number of frames that were dropped since the last
/// one, and there is nothing more to write then.
pub proof fn law_losses_are_reported(outbox: OutboxView)
    ensures
        outbox.waiting.len() > 0 ==> next_line_of(outbox) == Some(encoded(outbox.waiting[0])),
        outbox.waiting.len() == 0 && outbox.dropped > 0 ==> next_line_of(outbox) == Some(
            loss(outbox.dropped),
        ) && next_line_of(after_next(outbox)) is None,
{
}

} // verus!
