//! The questions that Coderpack has not answered yet.
//!
//! Times are nanoseconds since one moment that the caller fixes.
use std::collections::HashMap;

use vstd::prelude::*;

verus! {

/// The questions that are open, each with the time at which it was asked.
pub struct Pending {
    asked: HashMap<u64, u128>,
}

/// Whether a question that was asked at `since` has waited longer than
/// `deadline`. One asked later than `now` has not waited at all.
pub open spec fn late(since: u128, now: u128, deadline: u128) -> bool {
    since <= now && now - since > deadline
}

impl View for Pending {
    type V = Map<u64, u128>;

    closed spec fn view(&self) -> Map<u64, u128> {
        self.asked@
    }
}

impl Default for Pending {
    fn default() -> (pending: Self)
        ensures
            pending@ == Map::<u64, u128>::empty(),
    {
        Pending { asked: HashMap::new() }
    }
}

impl Pending {
    /// A question goes out.
    pub fn open(&mut self, seq: u64, now: u128)
        ensures
            final(self)@ == old(self)@.insert(seq, now),
    {
        broadcast use vstd::std_specs::hash::group_hash_axioms;

        self.asked.insert(seq, now);
    }

    /// A question is answered, by whomever.
    pub fn close(&mut self, seq: u64)
        ensures
            final(self)@ == old(self)@.remove(seq),
    {
        broadcast use vstd::std_specs::hash::group_hash_axioms;

        self.asked.remove(&seq);
    }

    /// Sequence numbers Coderpack has not answered within `deadline`, each once
    /// and in no particular order.
    pub fn overdue(&self, now: u128, deadline: u128) -> (seqs: Vec<u64>)
        ensures
            seqs@.no_duplicates(),
            forall|seq: u64| #[trigger]
                seqs@.contains(seq) <==> self@.contains_key(seq) && late(self@[seq], now, deadline),
    {
        broadcast use vstd::std_specs::hash::group_hash_axioms;

        let mut seqs: Vec<u64> = Vec::new();
        let entries = self.asked.iter();
        let ghost all = vstd::std_specs::iter::IteratorSpec::remaining(&entries);
        // Where each of the numbers was found.
        let ghost mut from: Seq<int> = seq![];
        for (seq, since) in it: entries
            invariant
                it.seq() == all,
                all.no_duplicates(),
                forall|j: int|
                    0 <= j < all.len() ==> self.asked@.contains_key(*(#[trigger] all[j]).0)
                        && self.asked@[*all[j].0] == *all[j].1,
                seqs@.no_duplicates(),
                forall|j: int|
                    0 <= j < it.index() && late(*(#[trigger] all[j]).1, now, deadline)
                        ==> seqs@.contains(*all[j].0),
                from.len() == seqs@.len(),
                forall|k: int|
                    0 <= k < seqs@.len() ==> 0 <= #[trigger] from[k] < it.index() && *all[from[k]].0
                        == seqs@[k] && late(*all[from[k]].1, now, deadline),
        {
            let ghost before = seqs@;
            assert(*seq == *all[it.index()].0 && *since == *all[it.index()].1);
            if *since <= now && now - *since > deadline {
                proof {
                    if before.contains(*seq) {
                        let k = choose|k: int| 0 <= k < before.len() && before[k] == *seq;
                        assert(all[from[k]] == all[it.index()]);
                    }
                    from = from.push(it.index());
                }
                seqs.push(*seq);
                assert(seqs@[before.len() as int] == *seq);
                assert forall|j: int|
                    0 <= j < it.index() + 1 && late(
                        *(#[trigger] all[j]).1,
                        now,
                        deadline,
                    ) implies seqs@.contains(*all[j].0) by {
                    if j < it.index() {
                        let k = choose|k: int| 0 <= k < before.len() && before[k] == *all[j].0;
                        assert(seqs@[k] == *all[j].0);
                    }
                }
            }
        }
        proof {
            assert forall|seq: u64| #[trigger]
                seqs@.contains(seq) <==> self@.contains_key(seq) && late(
                    self@[seq],
                    now,
                    deadline,
                ) by {
                if seqs@.contains(seq) {
                    let k = choose|k: int| 0 <= k < seqs@.len() && seqs@[k] == seq;
                    assert(self.asked@.contains_key(*all[from[k]].0));
                }
                if self@.contains_key(seq) && late(self@[seq], now, deadline) {
                    assert(all.contains((&seq, &self.asked@[seq])));
                    let j = choose|j: int|
                        0 <= j < all.len() && all[j] == (&seq, &self.asked@[seq]);
                    assert(seqs@.contains(*all[j].0));
                }
            }
        }
        seqs
    }
}

} // verus!
