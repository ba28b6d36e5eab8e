//! Routes agent messages to Coderpack and verdicts back.
//!
//! The one invariant that matters: **nothing here blocks**.  The agent stops the
//! game thread while it waits for a verdict, so if this side blocked while
//! waiting for Coderpack, a mod issuing a command from inside an event handler
//! would deadlock the game.  So a message is only turned into a line; verdicts
//! are posted by the thread that reads from the JVM, and a watchdog answers on
//! Coderpack's behalf when it is late.
use serde_json::Value;

use vstd::prelude::*;

use crate::codec::{decoded, encoded, lookup, pairs, rewrites_of, Frame, FrameView};
use crate::explain::{other, other_text};
use crate::flatten::{
    flat, flat_fields, items, items_of, nested, nested_names, object_items, Item, ItemView,
};
use crate::json::contents;
use crate::number::{decimal, decimal_text};
use crate::outbox::{after_send, Outbox};
use crate::pending::{late, Pending};
use crate::text::{same, texts};

verus! {

/// How long Coderpack may take to answer a question before the host answers for
/// it, in nanoseconds.
pub const VERDICT_DEADLINE: u128 = 250_000_000;

/// How often the watchdog looks for questions that are overdue, in nanoseconds.
pub const WATCH_INTERVAL: u128 = 125_000_000;

/// What the poster thread (which owns the script) is asked to do.
pub enum ToAgent {
    Verdict { seq: u64, cancel: bool, set: Vec<(String, String)> },
    Command { seq: u64, name: String, fields: Vec<(String, String)> },
    Asking(bool),
}

/// What such a request holds.
pub enum ToAgentView {
    Verdict { seq: u64, cancel: bool, set: Seq<(Seq<char>, Seq<char>)> },
    Command { seq: u64, name: Seq<char>, fields: Seq<(Seq<char>, Seq<char>)> },
    Asking(bool),
}

impl View for ToAgent {
    type V = ToAgentView;

    open spec fn view(&self) -> ToAgentView {
        match *self {
            ToAgent::Verdict { seq, cancel, set } => ToAgentView::Verdict {
                seq,
                cancel,
                set: pairs(set@),
            },
            ToAgent::Command { seq, name, fields } => ToAgentView::Command {
                seq,
                name: name@,
                fields: pairs(fields@),
            },
            ToAgent::Asking(enabled) => ToAgentView::Asking(enabled),
        }
    }
}

/// The work that a frame from Coderpack asks for, if it is a frame that does.
pub open spec fn work_of(frame: FrameView) -> Option<ToAgentView> {
    if frame.verb == "END"@ {
        Some(
            ToAgentView::Verdict {
                seq: frame.seq,
                cancel: lookup(frame.fields, "cancel"@) == Some("1"@),
                set: rewrites_of(frame.fields),
            },
        )
    } else if frame.verb == "CMD"@ {
        Some(
            ToAgentView::Command { seq: frame.seq, name: frame.name, fields: frame.fields },
        )
    } else if frame.verb == "BYE"@ {
        Some(ToAgentView::Asking(false))
    } else {
        None
    }
}

/// The questions that are open after a frame from Coderpack.
pub open spec fn open_after(frame: FrameView, pending: Map<u64, u128>) -> Map<u64, u128> {
    if frame.verb == "END"@ {
        pending.remove(frame.seq)
    } else {
        pending
    }
}

/// What the console is told of a frame from Coderpack that asks for no work.
pub open spec fn notice_of(frame: FrameView) -> Option<Seq<char>> {
    if frame.verb == "LOG"@ {
        Some("[coderpack] "@ + frame.name + " "@ + encoded(frame))
    } else if work_of(frame) is Some {
        None
    } else {
        Some("[coderpack] Unknown frame type: "@ + frame.verb)
    }
}

fn copied(fields: &Vec<(String, String)>) -> (copy: Vec<(String, String)>)
    ensures
        pairs(copy@) == pairs(fields@),
{
    let ghost all = pairs(fields@);
    let mut copy: Vec<(String, String)> = Vec::new();
    for i in 0..fields.len()
        invariant
            all == pairs(fields@),
            pairs(copy@) == all.take(i as int),
    {
        let ghost done = pairs(copy@);
        let key = fields[i].0.clone();
        let value = fields[i].1.clone();
        copy.push((key, value));
        assert(pairs(copy@) == done.push((key@, value@)));
        assert(all.take(i + 1) == all.take(i as int).push(all[i as int]));
    }
    copy
}

/// Turns a frame from Coderpack into work for the poster thread. A verdict also
/// closes the question that it answers.
pub fn from_sal(frame: &Frame, pending: &mut Pending) -> (work: Option<ToAgent>)
    ensures
        match work {
            Some(w) => work_of(frame@) == Some(w@),
            None => work_of(frame@) is None,
        },
        final(pending)@ == open_after(frame@, old(pending)@),
{
    if same(&frame.verb, "END") {
        pending.close(frame.seq);
        let cancel = match frame.field("cancel") {
            Some(value) => same(value, "1"),
            None => false,
        };
        let work = ToAgent::Verdict { seq: frame.seq, cancel, set: frame.rewrites() };
        Some(work)
    } else if same(&frame.verb, "CMD") {
        Some(
            ToAgent::Command {
                seq: frame.seq,
                name: frame.name.clone(),
                fields: copied(&frame.fields),
            },
        )
    } else if same(&frame.verb, "BYE") {
        Some(ToAgent::Asking(false))
    } else {
        None
    }
}

/// What to tell the console of a frame from Coderpack, if it asks for no work.
pub fn notice(frame: &Frame) -> (text: Option<String>)
    ensures
        match text {
            Some(t) => notice_of(frame@) == Some(t@),
            None => notice_of(frame@) is None,
        },
{
    if same(&frame.verb, "LOG") {
        let mut text = "[coderpack] ".to_owned();
        text.append(&frame.name);
        text.append(" ");
        text.append(&frame.encode());
        Some(text)
    } else if same(&frame.verb, "END") || same(&frame.verb, "CMD") || same(&frame.verb, "BYE") {
        None
    } else {
        let mut text = "[coderpack] Unknown frame type: ".to_owned();
        text.append(&frame.verb);
        Some(text)
    }
}

/// The verdict that the host gives itself: go on, and change nothing.
pub fn proceed(seq: u64) -> (work: ToAgent)
    ensures
        work@ == (ToAgentView::Verdict { seq, cancel: false, set: seq![] }),
{
    let set: Vec<(String, String)> = Vec::new();
    assert(pairs(set@) == Seq::<(Seq<char>, Seq<char>)>::empty());
    ToAgent::Verdict { seq, cancel: false, set }
}

/// Closes the questions that are overdue and says which they were: these the host
/// answers on Coderpack's behalf. A hung mod must never hang the game, so it
/// loses its veto instead.
pub fn expire(pending: &mut Pending, now: u128, deadline: u128) -> (seqs: Vec<u64>)
    ensures
        seqs@.no_duplicates(),
        forall|seq: u64| #[trigger]
            seqs@.contains(seq) <==> old(pending)@.contains_key(seq) && late(
                old(pending)@[seq],
                now,
                deadline,
            ),
        forall|seq: u64| #[trigger]
            final(pending)@.contains_key(seq) <==> old(pending)@.contains_key(seq) && !late(
                old(pending)@[seq],
                now,
                deadline,
            ),
        forall|seq: u64| #[trigger]
            final(pending)@.contains_key(seq) ==> final(pending)@[seq] == old(pending)@[seq],
{
    let seqs = pending.overdue(now, deadline);
    let ghost start = pending@;
    for i in 0..seqs.len()
        invariant
            forall|seq: u64| #[trigger]
                pending@.contains_key(seq) <==> start.contains_key(seq) && !seqs@.take(
                    i as int,
                ).contains(seq),
            forall|seq: u64| #[trigger]
                pending@.contains_key(seq) ==> pending@[seq] == start[seq],
    {
        let ghost closed = seqs@.take(i as int);
        let ghost more = seqs@.take(i + 1);
        proof {
            assert(more == closed.push(seqs@[i as int]));
            assert forall|seq: u64| #[trigger] more.contains(seq) <==> closed.contains(seq) || seq
                == seqs@[i as int] by {
                if closed.contains(seq) {
                    let k = choose|k: int| 0 <= k < closed.len() && closed[k] == seq;
                    assert(more[k] == seq);
                }
                if seq == seqs@[i as int] {
                    assert(more[i as int] == seq);
                }
            }
        }
        pending.close(seqs[i]);
    }
    assert(seqs@.take(seqs@.len() as int) == seqs@);
    seqs
}

/// What the console is told of a question that the host answered itself.
pub open spec fn late_notice(seq: u64) -> Seq<char> {
    "[host] Coderpack did not answer request "@ + decimal(seq as nat) + " in time. Continuing"@
}

/// What to tell the console of a question that the host answered itself.
pub fn too_late(seq: u64) -> (text: String)
    ensures
        text@ == late_notice(seq),
{
    let mut text = "[host] Coderpack did not answer request ".to_owned();
    text.append(&decimal_text(seq));
    text.append(" in time. Continuing");
    text
}

/// What comes of one line from Coderpack: work for the poster thread, or
/// something to tell the console.
pub enum Heard {
    Work(ToAgent),
    Notice(String),
}

/// What the console is told of a line that is not a frame.
pub open spec fn unreadable(line: Seq<char>) -> Seq<char> {
    "[coderpack] Could not parse Coderpack output: "@ + line
}

/// Takes one line from Coderpack.
pub fn hear(line: &str, pending: &mut Pending) -> (heard: Heard)
    ensures
        match decoded(line@) {
            Some(frame) => match work_of(frame) {
                Some(work) => heard is Work && heard->Work_0@ == work,
                None => heard is Notice && Some(heard->Notice_0@) == notice_of(frame),
            },
            None => heard is Notice && heard->Notice_0@ == unreadable(line@),
        },
        final(pending)@ == (match decoded(line@) {
            Some(frame) => open_after(frame, old(pending)@),
            None => old(pending)@,
        }),
{
    match Frame::decode(line) {
        Some(frame) => match from_sal(&frame, pending) {
            Some(work) => Heard::Work(work),
            None => {
                // There is a notice for whatever asks for no work.
                let text = match notice(&frame) {
                    Some(text) => text,
                    None => String::new(),
                };
                Heard::Notice(text)
            },
        },
        None => {
            let mut text = "[coderpack] Could not parse Coderpack output: ".to_owned();
            text.append(line);
            Heard::Notice(text)
        },
    }
}

/// One message that the agent sent for Coderpack: the kind of frame, its sequence
/// number, the name of the event, and its fields as a JSON object.
pub struct Payload {
    pub kind: String,
    pub id: u64,
    pub result: String,
    pub returns: Value,
}

/// The verb that messages of a kind go on under, if they do.
pub open spec fn verb_of(kind: Seq<char>) -> Option<Seq<char>> {
    if kind == "evt"@ {
        Some("EVT"@)
    } else if kind == "ask"@ {
        Some("ASK"@)
    } else if kind == "res"@ {
        Some("RES"@)
    } else {
        None
    }
}

/// The frame that a message becomes under a verb.
pub open spec fn frame_with(
    verb: Seq<char>,
    id: u64,
    name: Seq<char>,
    list: Seq<(Seq<char>, ItemView)>,
) -> FrameView {
    FrameView { verb, seq: id, name, fields: flat_fields(list) }
}

/// The frame that a message becomes under a verb.
pub open spec fn frame_of(verb: Seq<char>, payload: Payload) -> FrameView {
    frame_with(verb, payload.id, payload.result@, object_items(contents(payload.returns)))
}

/// What the console is told of a field that is nested.
pub open spec fn nested_notice(name: Seq<char>) -> Seq<char> {
    "[agent] Field "@ + name
        + " is nested, but the protocol accepts only flat fields; Coderpack will ignore its contents"@
}

/// What the console is told of a message of some kind, name and members.
pub open spec fn told_of(
    kind: Seq<char>,
    name: Seq<char>,
    list: Seq<(Seq<char>, ItemView)>,
) -> Seq<Seq<char>> {
    if verb_of(kind) is Some {
        nested_names(list).map_values(|field: Seq<char>| nested_notice(field))
    } else if kind == "log"@ {
        seq!["[agent] "@ + name]
    } else {
        seq!["[agent] Unknown frame type: "@ + kind]
    }
}

/// What the console is told of a message for Coderpack.
pub open spec fn payload_reports(payload: Payload) -> Seq<Seq<char>> {
    told_of(payload.kind@, payload.result@, object_items(contents(payload.returns)))
}

/// One message from the script in the game.
pub enum Message {
    /// For Coderpack.
    Send(Payload),
    Log(String),
    Error { description: String, file_name: String, line_number: u64 },
    /// Everything that has no type. An exception thrown inside a hook callback
    /// comes here rather than as an error, because it carries no file name.
    Other(Value),
}

/// What the console is told of a message from the script.
pub open spec fn reports(message: Message) -> Seq<Seq<char>> {
    match message {
        Message::Send(payload) => payload_reports(payload),
        Message::Log(text) => seq!["[agent] "@ + text@],
        Message::Error { description, file_name, line_number } => seq![
            "[agent] Error: "@ + description@ + " at "@ + file_name@ + ":"@ + decimal(
                line_number as nat,
            ),
        ],
        Message::Other(value) => seq!["[agent] "@ + other_text(contents(value))],
    }
}

/// Sends agent messages on to Coderpack.
pub struct Router {
    pub to_sal: Outbox,
    pub pending: Pending,
}

impl Router {
    /// A router with no question open. It drops events while `limit` frames wait
    /// for Coderpack.
    pub fn new(limit: usize) -> (router: Router)
        ensures
            router.to_sal@.waiting.len() == 0,
            router.to_sal@.limit == limit,
            router.to_sal@.open,
            router.to_sal@.dropped == 0,
            router.pending@ == Map::<u64, u128>::empty(),
    {
        Router { to_sal: Outbox::new(limit), pending: Pending::default() }
    }

    /// Turns a message of some kind, number, name and members into a frame for
    /// Coderpack, and returns what to tell the console. A question is open from
    /// `now` on.
    pub fn forward(
        &mut self,
        kind: &str,
        id: u64,
        name: &str,
        list: &Vec<(String, Item)>,
        now: u128,
    ) -> (told: Vec<String>)
        ensures
            texts(told@) == told_of(kind@, name@, items(list@)),
            final(self).to_sal@ == (match verb_of(kind@) {
                Some(verb) => after_send(
                    old(self).to_sal@,
                    frame_with(verb, id, name@, items(list@)),
                ),
                None => old(self).to_sal@,
            }),
            final(self).pending@ == (if kind@ == "ask"@ {
                old(self).pending@.insert(id, now)
            } else {
                old(self).pending@
            }),
    {
        proof {
            reveal_strlit("evt");
            reveal_strlit("ask");
            reveal_strlit("res");
            assert("evt"@[0] != "ask"@[0]);
            assert("res"@[0] != "ask"@[0]);
        }
        let mut told: Vec<String> = Vec::new();
        let ask = same(kind, "ask");
        let verb = if same(kind, "evt") {
            "EVT"
        } else if ask {
            "ASK"
        } else if same(kind, "res") {
            "RES"
        } else {
            let mut text = String::new();
            if same(kind, "log") {
                text.append("[agent] ");
                text.append(name);
            } else {
                text.append("[agent] Unknown frame type: ");
                text.append(kind);
            }
            told.push(text);
            assert(texts(told@) == told_of(kind@, name@, items(list@)));
            return told;
        };
        let mut frame = Frame::new(verb, id, name);
        frame.fields = flat(list);
        let names = nested(list);
        for i in 0..names.len()
            invariant
                texts(told@) == texts(names@).take(i as int).map_values(
                    |field: Seq<char>| nested_notice(field),
                ),
        {
            let ghost done = texts(told@);
            let mut text = "[agent] Field ".to_owned();
            text.append(&names[i]);
            text.append(
                " is nested, but the protocol accepts only flat fields; Coderpack will ignore its contents",
            );
            told.push(text);
            assert(texts(told@) == done.push(text@));
            assert(texts(names@).take(i + 1) == texts(names@).take(i as int).push(names@[i as int]@));
        }
        assert(texts(names@).take(names@.len() as int) == texts(names@));
        if ask {
            self.pending.open(frame.seq, now);
        }
        self.to_sal.send(frame);
        told
    }

    /// Turns a message from the agent into a frame for Coderpack, and returns what
    /// to tell the console. A question is open from `now` on.
    pub fn dispatch(&mut self, payload: &Payload, now: u128) -> (told: Vec<String>)
        ensures
            texts(told@) == payload_reports(*payload),
            final(self).to_sal@ == (match verb_of(payload.kind@) {
                Some(verb) => after_send(old(self).to_sal@, frame_of(verb, *payload)),
                None => old(self).to_sal@,
            }),
            final(self).pending@ == (if payload.kind@ == "ask"@ {
                old(self).pending@.insert(payload.id, now)
            } else {
                old(self).pending@
            }),
    {
        let list = items_of(&payload.returns);
        self.forward(&payload.kind, payload.id, &payload.result, &list, now)
    }

    /// Takes a message from the script, and returns what to tell the console.
    pub fn on_message(&mut self, message: &Message, now: u128) -> (told: Vec<String>)
        ensures
            texts(told@) == reports(*message),
            final(self).to_sal@ == (match *message {
                Message::Send(payload) => match verb_of(payload.kind@) {
                    Some(verb) => after_send(old(self).to_sal@, frame_of(verb, payload)),
                    None => old(self).to_sal@,
                },
                _ => old(self).to_sal@,
            }),
            final(self).pending@ == (match *message {
                Message::Send(payload) if payload.kind@ == "ask"@ => old(self).pending@.insert(
                    payload.id,
                    now,
                ),
                _ => old(self).pending@,
            }),
    {
        let mut text = String::new();
        match message {
            Message::Send(payload) => {
                return self.dispatch(payload, now);
            },
            Message::Log(log) => {
                text.append("[agent] ");
                text.append(log);
            },
            Message::Error { description, file_name, line_number } => {
                text.append("[agent] Error: ");
                text.append(description);
                text.append(" at ");
                text.append(file_name);
                text.append(":");
                text.append(&decimal_text(*line_number));
            },
            Message::Other(value) => {
                text.append("[agent] ");
                text.append(&other(value));
            },
        }
        let mut told: Vec<String> = Vec::new();
        told.push(text);
        assert(texts(told@) == reports(*message));
        told
    }
}

} // verus!
