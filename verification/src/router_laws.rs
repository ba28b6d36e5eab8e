//! Laws of the way from the agent to Coderpack and back.
use vstd::prelude::*;

use crate::codec::{
    decoded, encoded, encoded_fields, is_field, is_rewrite, lookup, rewrites_of, unescape, FrameView,
};
use crate::codec_laws::{is_word, law_frame_round_trip, law_literal_text_is_kept};
use crate::flatten::{flat_fields, item_of, item_text, object_items, ItemView};
use crate::json::{contents, enumerates, in_order, lemma_enumeration_is_unique, Json};
use crate::number::decimal;
use crate::pending::late;
use crate::router::{
    frame_of, open_after, verb_of, work_of, Payload, ToAgentView, VERDICT_DEADLINE, WATCH_INTERVAL,
};
use crate::text::{before, find, lemma_before_total};

verus! {

/// A verdict on a question.
pub open spec fn verdict(seq: u64, fields: Seq<(Seq<char>, Seq<char>)>) -> FrameView {
    FrameView { verb: "END"@, seq, name: seq![], fields }
}

/// The rewrites of a verdict, as its fields.
pub open spec fn as_rewrites(list: Seq<(Seq<char>, Seq<char>)>) -> Seq<(Seq<char>, Seq<char>)> {
    list.map_values(|field: (Seq<char>, Seq<char>)| ("set."@ + field.0, field.1))
}

proof fn lemma_verdict_is_read(seq: u64, fields: Seq<(Seq<char>, Seq<char>)>)
    requires
        forall|i: int| 0 <= i < fields.len() ==> (#[trigger] fields[i]).0.len() > 0,
    ensures
        decoded(encoded(verdict(seq, fields))) == Some(verdict(seq, fields)),
{
    reveal_strlit("END");
    reveal_strlit("BYE");
    let frame = verdict(seq, fields);
    assert(frame.verb[0] != "BYE"@[0]);
    assert(find(frame.name, '=') == 0);
    assert(unescape(frame.name) == frame.name);
    law_frame_round_trip(frame);
}

/// What Coderpack answers with one field, on any question: `END <seq> ok=1` lets
/// it proceed unchanged, `END <seq> cancel=1` suppresses the write.
pub proof fn law_plain_verdicts(seq: u64)
    ensures
        ({
            let line = "END "@ + decimal(seq as nat) + " ok=1"@;
            &&& line == encoded(verdict(seq, seq![("ok"@, "1"@)]))
            &&& decoded(line) is Some
            &&& work_of(decoded(line)->0) == Some(
                ToAgentView::Verdict { seq, cancel: false, set: seq![] },
            )
        }),
        ({
            let line = "END "@ + decimal(seq as nat) + " cancel=1"@;
            &&& line == encoded(verdict(seq, seq![("cancel"@, "1"@)]))
            &&& decoded(line) is Some
            &&& work_of(decoded(line)->0) == Some(
                ToAgentView::Verdict { seq, cancel: true, set: seq![] },
            )
        }),
{
    reveal_strlit("ok");
    reveal_strlit("cancel");
    reveal_strlit("1");
    let ok = seq![("ok"@, "1"@)];
    let cancel = seq![("cancel"@, "1"@)];
    lemma_verdict_is_read(seq, ok);
    lemma_verdict_is_read(seq, cancel);
    reveal_with_fuel(lookup, 2);
    reveal_with_fuel(rewrites_of, 2);
    assert("ok"@.len() != "cancel"@.len());
    assert(ok.drop_first().len() == 0);
    assert("cancel"@[0] != 's');
    assert(!is_rewrite("cancel"@));
    assert(!is_rewrite("ok"@));
    reveal_strlit("END");
    reveal_strlit("END ");
    reveal_strlit(" ok=1");
    reveal_strlit(" cancel=1");
    law_literal_text_is_kept("ok"@);
    law_literal_text_is_kept("cancel"@);
    law_literal_text_is_kept("1"@);
    reveal_with_fuel(encoded_fields, 2);
    assert(ok.drop_last() == Seq::<(Seq<char>, Seq<char>)>::empty());
    assert(cancel.drop_last() == Seq::<(Seq<char>, Seq<char>)>::empty());
    assert(encoded_fields(ok) == " ok=1"@);
    assert(encoded_fields(cancel) == " cancel=1"@);
    let number = decimal(seq as nat);
    assert("END "@ + number + " ok=1"@ == encoded(verdict(seq, ok)));
    assert("END "@ + number + " cancel=1"@ == encoded(verdict(seq, cancel)));
}

/// What Coderpack answers with `set.<key>=<value>` fields, on any question and
/// for any keys and values: exactly these fields are rewritten, in this order,
/// and the write proceeds.
pub proof fn law_rewriting_verdict(seq: u64, list: Seq<(Seq<char>, Seq<char>)>)
    ensures
        ({
            let line = encoded(verdict(seq, as_rewrites(list)));
            &&& decoded(line) is Some
            &&& work_of(decoded(line)->0) == Some(
                ToAgentView::Verdict { seq, cancel: false, set: list },
            )
        }),
{
    reveal_strlit("set.");
    let fields = as_rewrites(list);
    assert forall|i: int| 0 <= i < fields.len() implies (#[trigger] fields[i]).0.len() > 0 by {
        assert(fields[i].0 == "set."@ + list[i].0);
    }
    lemma_verdict_is_read(seq, fields);
    lemma_rewrites(list);
    lemma_no_cancel(list);
}

proof fn lemma_rewrites(list: Seq<(Seq<char>, Seq<char>)>)
    ensures
        rewrites_of(as_rewrites(list)) == list,
    decreases list.len(),
{
    if list.len() > 0 {
        reveal_strlit("set.");
        let (key, value) = list.last();
        lemma_rewrites(list.drop_last());
        assert(as_rewrites(list).drop_last() == as_rewrites(list.drop_last()));
        assert(as_rewrites(list).last() == ("set."@ + key, value));
        assert(("set."@ + key).skip(4) == key);
        assert(list == list.drop_last().push(list.last()));
    }
}

proof fn lemma_no_cancel(list: Seq<(Seq<char>, Seq<char>)>)
    ensures
        lookup(as_rewrites(list), "cancel"@) is None,
    decreases list.len(),
{
    if list.len() > 0 {
        reveal_strlit("set.");
        reveal_strlit("cancel");
        lemma_no_cancel(list.drop_first());
        assert(as_rewrites(list).drop_first() == as_rewrites(list.drop_first()));
        assert(as_rewrites(list)[0].0[0] == 's');
        assert("cancel"@[0] == 'c');
    }
}

/// An answer undoes its question: the questions that are open are those that
/// were open before. It leaves all others as they are.
pub proof fn law_answer_closes_question(
    pending: Map<u64, u128>,
    seq: u64,
    now: u128,
    fields: Seq<(Seq<char>, Seq<char>)>,
)
    ensures
        !pending.contains_key(seq) ==> open_after(verdict(seq, fields), pending.insert(seq, now))
            == pending,
        open_after(verdict(seq, fields), pending) == pending.remove(seq),
{
    if !pending.contains_key(seq) {
        assert(pending.insert(seq, now).remove(seq) == pending);
    }
}

/// Where the watchdog looks every `WATCH_INTERVAL`, a question that stays open is
/// found overdue, at the first look after the deadline, and at most one interval
/// after it: between 250 and 375 milliseconds after it was asked.
pub proof fn law_overdue_is_found_in_time(since: u128, looks: Seq<u128>)
    requires
        looks.len() > 0,
        looks[0] <= since + WATCH_INTERVAL,
        forall|i: int|
            0 < i < looks.len() ==> #[trigger] looks[i] <= looks[i - 1] + WATCH_INTERVAL,
        looks.last() > since + VERDICT_DEADLINE,
    ensures
        exists|i: int|
            {
                &&& 0 <= i < looks.len()
                &&& late(since, #[trigger] looks[i], VERDICT_DEADLINE)
                &&& 250_000_000 < looks[i] - since <= 375_000_000
                &&& forall|j: int|
                    0 <= j < i ==> !late(since, #[trigger] looks[j], VERDICT_DEADLINE)
            },
    decreases looks.len(),
{
    let n = looks.len() - 1;
    if exists|j: int| 0 <= j < n && late(since, #[trigger] looks[j], VERDICT_DEADLINE) {
        let j = choose|j: int| 0 <= j < n && late(since, #[trigger] looks[j], VERDICT_DEADLINE);
        let fewer = looks.take(j + 1);
        assert forall|i: int| 0 < i < fewer.len() implies #[trigger] fewer[i] <= fewer[i - 1]
            + WATCH_INTERVAL by {
            assert(looks[i] <= looks[i - 1] + WATCH_INTERVAL);
        }
        law_overdue_is_found_in_time(since, fewer);
        let i = choose|i: int|
            {
                &&& 0 <= i < fewer.len()
                &&& late(since, #[trigger] fewer[i], VERDICT_DEADLINE)
                &&& 250_000_000 < fewer[i] - since <= 375_000_000
                &&& forall|k: int|
                    0 <= k < i ==> !late(since, #[trigger] fewer[k], VERDICT_DEADLINE)
            };
        assert(late(since, looks[i], VERDICT_DEADLINE));
        assert forall|k: int| 0 <= k < i implies !late(
            since,
            #[trigger] looks[k],
            VERDICT_DEADLINE,
        ) by {
            assert(fewer[k] == looks[k]);
        }
    } else {
        assert(late(since, looks[n], VERDICT_DEADLINE));
    }
}

proof fn lemma_lookup_push(
    fields: Seq<(Seq<char>, Seq<char>)>,
    field: (Seq<char>, Seq<char>),
    key: Seq<char>,
)
    ensures
        lookup(fields.push(field), key) == (if lookup(fields, key) is Some {
            lookup(fields, key)
        } else if field.0 == key {
            Some(field.1)
        } else {
            None
        }),
    decreases fields.len(),
{
    let more = fields.push(field);
    if fields.len() == 0 {
        assert(more.drop_first() == fields);
    } else {
        assert(more.drop_first() == fields.drop_first().push(field));
        lemma_lookup_push(fields.drop_first(), field, key);
    }
}

proof fn lemma_flat_lookup(list: Seq<(Seq<char>, ItemView)>, key: Seq<char>)
    requires
        forall|i: int, j: int|
            0 <= i < j < list.len() ==> (#[trigger] list[i]).0 != (#[trigger] list[j]).0,
    ensures
        forall|i: int|
            0 <= i < list.len() && (#[trigger] list[i]).0 == key ==> lookup(flat_fields(list), key)
                == item_text(list[i].1),
        (forall|i: int| 0 <= i < list.len() ==> (#[trigger] list[i]).0 != key) ==> lookup(
            flat_fields(list),
            key,
        ) is None,
    decreases list.len(),
{
    if list.len() > 0 {
        let fewer = list.drop_last();
        let last = list[list.len() - 1];
        lemma_flat_lookup(fewer, key);
        if item_text(last.1) is Some {
            lemma_lookup_push(flat_fields(fewer), (last.0, item_text(last.1)->0), key);
        }
        assert forall|i: int| 0 <= i < fewer.len() implies (#[trigger] fewer[i]) == list[i] by {}
        assert forall|i: int| 0 <= i < list.len() && (#[trigger] list[i]).0 == key implies lookup(
            flat_fields(list),
            key,
        ) == item_text(list[i].1) by {
            if i < fewer.len() {
                assert(fewer[i].0 == key);
                assert(list[i].0 != last.0);
            } else {
                assert forall|j: int| 0 <= j < fewer.len() implies (#[trigger] fewer[j]).0
                    != key by {
                    assert(list[j].0 != list[i].0);
                }
            }
        }
    }
}

/// Coderpack finds every member of what the agent sent under its name, unless it
/// is null, and finds nothing else. `list` names the members of the object.
pub proof fn law_members_are_found_by_name(
    list: Seq<(Seq<char>, Json)>,
    object: Map<Seq<char>, Json>,
    key: Seq<char>,
)
    requires
        enumerates(list, object),
    ensures
        lookup(flat_fields(object_items(Json::Object(object))), key) == (if object.contains_key(
            key,
        ) {
            item_text(item_of(object[key]))
        } else {
            None
        }),
{
    let all = object_items(Json::Object(object));
    assert(in_order(object) == list) by {
        lemma_enumeration_is_unique(in_order(object), list, object);
    }
    assert forall|i: int| 0 <= i < all.len() implies (#[trigger] all[i]) == (
        list[i].0,
        item_of(list[i].1),
    ) by {}
    assert forall|i: int, j: int| 0 <= i < j < all.len() implies (#[trigger] all[i]).0 != (
    #[trigger] all[j]).0 by {
        assert(before(list[i].0, list[j].0));
        lemma_before_total(list[i].0, list[j].0);
    }
    lemma_flat_lookup(all, key);
    if object.contains_key(key) {
        let i = choose|i: int| 0 <= i < list.len() && (#[trigger] list[i]).0 == key;
        assert(all[i].0 == key);
    } else {
        assert forall|i: int| 0 <= i < all.len() implies (#[trigger] all[i]).0 != key by {
            assert(object.contains_key(list[i].0));
        }
    }
}

/// Whether every member that becomes a field has a name.
pub open spec fn all_named(list: Seq<(Seq<char>, ItemView)>) -> bool {
    forall|i: int|
        0 <= i < list.len() ==> (#[trigger] list[i]).1 is Null || list[i].0.len() > 0
}

/// Whether every field has a key.
pub open spec fn all_keyed(fields: Seq<(Seq<char>, Seq<char>)>) -> bool {
    forall|i: int| 0 <= i < fields.len() ==> (#[trigger] fields[i]).0.len() > 0
}

proof fn lemma_flat_keys(list: Seq<(Seq<char>, ItemView)>)
    ensures
        all_keyed(flat_fields(list)) == all_named(list),
    decreases list.len(),
{
    if list.len() > 0 {
        let fewer = list.drop_last();
        let last = list[list.len() - 1];
        let fields = flat_fields(list);
        let done = flat_fields(fewer);
        lemma_flat_keys(fewer);
        assert(list == fewer.push(last));
        if all_named(list) {
            assert forall|i: int| 0 <= i < fewer.len() implies (#[trigger] fewer[i]).1 is Null
                || fewer[i].0.len() > 0 by {
                assert(list[i].1 is Null || list[i].0.len() > 0);
            }
            assert forall|i: int| 0 <= i < fields.len() implies (#[trigger] fields[i]).0.len()
                > 0 by {
                if i < done.len() {
                    assert(fields[i] == done[i]);
                }
            }
        }
        if all_keyed(fields) {
            assert forall|i: int| 0 <= i < done.len() implies (#[trigger] done[i]).0.len() > 0 by {
                assert(fields[i] == done[i]);
            }
            if !(last.1 is Null) {
                assert(fields[done.len() as int].0 == last.0);
            }
            assert forall|i: int| 0 <= i < list.len() implies (#[trigger] list[i]).1 is Null
                || list[i].0.len() > 0 by {
                if i < fewer.len() {
                    assert(fewer[i] == list[i]);
                }
            }
        }
    }
}

/// What the agent sends for Coderpack, Coderpack reads: the line that a message
/// becomes is read as a frame with the verb, the number, the name and the fields
/// of the message, whatever the values hold. This is so if and only if the name of
/// the event is a word without escapes that is not itself a field, and every
/// member that becomes a field has a name.
pub proof fn law_message_is_read(verb: Seq<char>, payload: Payload)
    requires
        verb_of(payload.kind@) == Some(verb),
    ensures
        decoded(encoded(frame_of(verb, payload))) == Some(frame_of(verb, payload)) <==> {
            &&& is_word(payload.result@)
            &&& !is_field(payload.result@)
            &&& unescape(payload.result@) == payload.result@
            &&& all_named(object_items(contents(payload.returns)))
        },
{
    reveal_strlit("EVT");
    reveal_strlit("ASK");
    reveal_strlit("RES");
    reveal_strlit("BYE");
    let frame = frame_of(verb, payload);
    lemma_flat_keys(object_items(contents(payload.returns)));
    assert(frame.verb[0] != "BYE"@[0]);
    law_frame_round_trip(frame);
}

} // verus!
