//! Which of the running processes is the game.
use vstd::prelude::*;

use crate::text::chars_of;

verus! {

/// The game executable, in the order it is looked for. Most installs are the
/// community HD wrapper, but the stock game is `Sacred.exe` and some copies were
/// renamed, so the host takes the first of these that is running.
pub open spec fn game_processes() -> Seq<Seq<char>> {
    seq!["pureHD.exe"@, "Sacred.exe"@, "Game.exe"@]
}

/// A letter of the English alphabet as a small one, and any other character as
/// it is.
pub open spec fn lower_char(c: char) -> char {
    if 'A' <= c <= 'Z' {
        ((c as u8 - 'A' as u8) + 'a' as u8) as char
    } else {
        c
    }
}

/// A text without the difference between capital and small letters.
pub open spec fn lower(s: Seq<char>) -> Seq<char> {
    s.map_values(|c: char| lower_char(c))
}

/// A running process.
pub struct Process {
    pub pid: u32,
    pub name: String,
}

/// Where the first process of a name stands, or the length of the list.
pub open spec fn find_process(list: Seq<Process>, name: Seq<char>) -> int
    decreases list.len(),
{
    if list.len() == 0 || lower(list[0].name@) == lower(name) {
        0
    } else {
        1 + find_process(list.drop_first(), name)
    }
}

/// The process of the game: of the first name that is running at all, the first
/// process.
pub open spec fn game_of(list: Seq<Process>, names: Seq<Seq<char>>) -> Option<Process>
    decreases names.len(),
{
    if names.len() == 0 {
        None
    } else {
        let i = find_process(list, names[0]);
        if i < list.len() {
            Some(list[i])
        } else {
            game_of(list, names.drop_first())
        }
    }
}

fn small(c: char) -> (s: char)
    ensures
        s == lower_char(c),
{
    if 'A' <= c && c <= 'Z' {
        ((c as u8 - 'A' as u8) + 'a' as u8) as char
    } else {
        c
    }
}

/// Whether two names are the same but for the case of their letters. Windows
/// does not care about the case of a file name.
pub fn same_name(a: &str, b: &str) -> (yes: bool)
    ensures
        yes == (lower(a@) == lower(b@)),
{
    let left = chars_of(a);
    let right = chars_of(b);
    let ghost s = lower(a@);
    let ghost t = lower(b@);
    if left.len() != right.len() {
        assert(s.len() != t.len());
        return false;
    }
    for i in 0..left.len()
        invariant
            left@.len() == right@.len(),
            left@ == a@,
            right@ == b@,
            s == lower(a@),
            t == lower(b@),
            forall|j: int| 0 <= j < i ==> s[j] == t[j],
    {
        if small(left[i]) != small(right[i]) {
            assert(s[i as int] != t[i as int]);
            return false;
        }
    }
    assert(s == t);
    true
}

fn position(list: &Vec<Process>, name: &str) -> (at: usize)
    ensures
        at == find_process(list@, name@),
        at <= list@.len(),
{
    let ghost all = list@;
    assert(all.skip(0) == all);
    let mut i: usize = 0;
    while i < list.len()
        invariant
            i <= all.len(),
            all == list@,
            i + find_process(all.skip(i as int), name@) == find_process(all, name@),
        decreases all.len() - i,
    {
        let ghost rest = all.skip(i as int);
        assert(rest[0] == list@[i as int]);
        if same_name(&list[i].name, name) {
            return i;
        }
        assert(rest.drop_first() == all.skip(i + 1));
        i = i + 1;
    }
    i
}

/// The process of the game, if it is running, and its name.
pub fn find_game(list: &Vec<Process>) -> (found: Option<(u32, String)>)
    ensures
        match game_of(list@, game_processes()) {
            Some(process) => found is Some && (found->0).0 == process.pid && (found->0).1@
                == process.name@,
            None => found is None,
        },
{
    let names = ["pureHD.exe", "Sacred.exe", "Game.exe"];
    let ghost all = game_processes();
    assert(all.skip(0) == all);
    for i in 0..3
        invariant
            names@.len() == 3,
            all == game_processes(),
            forall|j: int| 0 <= j < 3 ==> (#[trigger] names@[j])@ == all[j],
            game_of(list@, all.skip(i as int)) == game_of(list@, all),
    {
        let ghost rest = all.skip(i as int);
        let at = position(list, names[i]);
        assert(rest[0] == names@[i as int]@);
        if at < list.len() {
            return Some((list[at].pid, list[at].name.clone()));
        }
        assert(rest.drop_first() == all.skip(i + 1));
    }
    None
}

/// Whether a process has a name.
pub open spec fn is_called(process: Process, name: Seq<char>) -> bool {
    lower(process.name@) == lower(name)
}

proof fn lemma_find_process(list: Seq<Process>, name: Seq<char>)
    ensures
        0 <= find_process(list, name) <= list.len(),
        forall|j: int| 0 <= j < find_process(list, name) ==> !is_called(#[trigger] list[j], name),
        find_process(list, name) < list.len() ==> is_called(list[find_process(list, name)], name),
    decreases list.len(),
{
    if list.len() > 0 && !is_called(list[0], name) {
        let rest = list.drop_first();
        lemma_find_process(rest, name);
        assert forall|j: int| 0 <= j < find_process(list, name) implies !is_called(
            #[trigger] list[j],
            name,
        ) by {
            if j > 0 {
                assert(list[j] == rest[j - 1]);
            }
        }
    }
}

/// Whether a process is the first that has the `k`-th name, and none has an
/// earlier name.
pub open spec fn is_preferred(list: Seq<Process>, names: Seq<Seq<char>>, i: int, k: int) -> bool {
    &&& 0 <= i < list.len()
    &&& 0 <= k < names.len()
    &&& is_called(list[i], names[k])
    &&& forall|j: int| 0 <= j < i ==> !is_called(#[trigger] list[j], names[k])
    &&& forall|j: int, l: int|
        0 <= j < list.len() && 0 <= l < k ==> !is_called(#[trigger] list[j], #[trigger] names[l])
}

/// The game is found if and only if a process with one of its names is running.
/// The names are in preference order, so a folder holding two of them attaches
/// to the one the loader was built against.
pub proof fn law_game_is_preferred(list: Seq<Process>, names: Seq<Seq<char>>)
    ensures
        match game_of(list, names) {
            Some(process) => exists|i: int, k: int|
                #[trigger] is_preferred(list, names, i, k) && list[i] == process,
            None => forall|j: int, l: int|
                0 <= j < list.len() && 0 <= l < names.len() ==> !is_called(
                    #[trigger] list[j],
                    #[trigger] names[l],
                ),
        },
    decreases names.len(),
{
    if names.len() > 0 {
        let first = find_process(list, names[0]);
        lemma_find_process(list, names[0]);
        if first < list.len() {
            assert(is_preferred(list, names, first, 0));
        } else {
            let rest = names.drop_first();
            law_game_is_preferred(list, rest);
            match game_of(list, rest) {
                Some(process) => {
                    let (i, k) = choose|i: int, k: int|
                        #[trigger] is_preferred(list, rest, i, k) && list[i] == process;
                    assert(rest[k] == names[k + 1]);
                    assert forall|j: int, l: int|
                        0 <= j < list.len() && 0 <= l < k + 1 implies !is_called(
                        #[trigger] list[j],
                        #[trigger] names[l],
                    ) by {
                        if l > 0 {
                            assert(rest[l - 1] == names[l]);
                        }
                    }
                    assert(is_preferred(list, names, i, k + 1));
                },
                None => {
                    assert forall|j: int, l: int|
                        0 <= j < list.len() && 0 <= l < names.len() implies !is_called(
                        #[trigger] list[j],
                        #[trigger] names[l],
                    ) by {
                        if l > 0 {
                            assert(rest[l - 1] == names[l]);
                        }
                    }
                },
            }
        }
    }
}

} // verus!
