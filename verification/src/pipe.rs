//! The dedicated channel the host and Coderpack talk over.
//!
//! Two pipes, `<base>.in` toward the JVM and `<base>.out` back, so that neither
//! is ever used by more than one thread doing one thing.  What a mod prints goes
//! to the console and cannot land in the middle of a frame.
use vstd::prelude::*;

use crate::number::{decimal, decimal_text};

verus! {

/// How long the JVM has to come to the pipes, in seconds.  Generous: this covers
/// a cold JVM start on a slow disk, and the wait ends the moment the child dies
/// rather than on the clock.
pub const ARRIVAL: u64 = 60;

/// A hexadecimal digit.
pub open spec fn hex_digit(d: int) -> char {
    if d == 0 {
        '0'
    } else if d == 1 {
        '1'
    } else if d == 2 {
        '2'
    } else if d == 3 {
        '3'
    } else if d == 4 {
        '4'
    } else if d == 5 {
        '5'
    } else if d == 6 {
        '6'
    } else if d == 7 {
        '7'
    } else if d == 8 {
        '8'
    } else if d == 9 {
        '9'
    } else if d == 10 {
        'a'
    } else if d == 11 {
        'b'
    } else if d == 12 {
        'c'
    } else if d == 13 {
        'd'
    } else if d == 14 {
        'e'
    } else {
        'f'
    }
}

/// The last `width` hexadecimal digits of a number.
pub open spec fn hex(n: nat, width: nat) -> Seq<char>
    decreases width,
{
    if width == 0 {
        seq![]
    } else {
        hex(n / 16, (width - 1) as nat).push(hex_digit((n % 16) as int))
    }
}

/// The name that the pipes of a host share.
pub open spec fn base_of(random: u128) -> Seq<char> {
    "\\\\.\\pipe\\ancaria-"@ + hex(random as nat, 32)
}

fn digit_char(d: u8) -> (c: char)
    requires
        d < 16,
    ensures
        c == hex_digit(d as int),
{
    match d {
        0 => '0',
        1 => '1',
        2 => '2',
        3 => '3',
        4 => '4',
        5 => '5',
        6 => '6',
        7 => '7',
        8 => '8',
        9 => '9',
        10 => 'a',
        11 => 'b',
        12 => 'c',
        13 => 'd',
        14 => 'e',
        _ => 'f',
    }
}

fn append_hex(text: &mut String, n: u128, width: u8)
    ensures
        final(text)@ == old(text)@ + hex(n as nat, width as nat),
    decreases width,
{
    if width > 0 {
        append_hex(text, n / 16, width - 1);
        text.push(digit_char((n % 16) as u8));
    }
    assert(text@ == old(text)@ + hex(n as nat, width as nat));
}

/// What to pass the JVM as `--pipe`, given 128 random bits.  Random, not derived
/// from the process number: a name another process can predict is a name it can
/// reach first.
pub fn base_name(random: u128) -> (name: String)
    ensures
        name@ == base_of(random),
{
    let mut name = "\\\\.\\pipe\\ancaria-".to_owned();
    append_hex(&mut name, random, 32);
    name
}

/// The name of the pipe toward the JVM.
pub fn toward(base: &str) -> (name: String)
    ensures
        name@ == base@ + ".in"@,
{
    let mut name = base.to_owned();
    name.append(".in");
    name
}

/// The name of the pipe back.
pub fn back(base: &str) -> (name: String)
    ensures
        name@ == base@ + ".out"@,
{
    let mut name = base.to_owned();
    name.append(".out");
    name
}

/// What happens while the host waits for the JVM to open a pipe.
pub enum Arrival {
    /// The wait for the pipe ended, with a client or without one.
    Answered(bool),
    /// The wait ended without an answer.
    Lost,
    /// Nothing happened for a while, in which the JVM may have died and the time
    /// may have run out.
    Nothing { running: bool, late: bool },
}

/// What the host does then.
pub enum Wait {
    Connected,
    Failed(String),
    GoOn,
}

/// Why the host gives up waiting, if it does.
pub open spec fn failure_of(base: Seq<char>, arrival: Arrival) -> Option<Seq<char>> {
    match arrival {
        Arrival::Answered(true) => None,
        Arrival::Answered(false) | Arrival::Lost => Some(
            "Coderpack could not be connected on "@ + base,
        ),
        Arrival::Nothing { running: false, late: _ } => Some(
            "Coderpack exited before it connected to the host. Its own output above says why"@,
        ),
        Arrival::Nothing { running: true, late: true } => Some(
            "Coderpack did not connect within "@ + decimal(ARRIVAL as nat)
                + " seconds. A Coderpack older than this host does not know how, so check that launcher/zygote.jar was upgraded with it"@,
        ),
        Arrival::Nothing { running: true, late: false } => None,
    }
}

/// One turn of the wait for a pipe's client.  A JVM that failed to start is the
/// likely reason nobody arrives, and saying so beats a minute of silence.
pub fn await_client(base: &str, arrival: Arrival) -> (wait: Wait)
    ensures
        match wait {
            Wait::Connected => arrival == Arrival::Answered(true),
            Wait::Failed(why) => failure_of(base@, arrival) == Some(why@),
            Wait::GoOn => arrival == (Arrival::Nothing { running: true, late: false }),
        },
{
    match arrival {
        Arrival::Answered(true) => Wait::Connected,
        Arrival::Answered(false) | Arrival::Lost => {
            let mut why = "Coderpack could not be connected on ".to_owned();
            why.append(base);
            Wait::Failed(why)
        },
        Arrival::Nothing { running, late } => if !running {
            Wait::Failed(
                "Coderpack exited before it connected to the host. Its own output above says why".to_owned(),
            )
        } else if late {
            let mut why = "Coderpack did not connect within ".to_owned();
            why.append(&decimal_text(ARRIVAL));
            why.append(
                " seconds. A Coderpack older than this host does not know how, so check that launcher/zygote.jar was upgraded with it",
            );
            Wait::Failed(why)
        } else {
            Wait::GoOn
        },
    }
}

/// How many numbers have this many hexadecimal digits.
pub open spec fn hex_count(width: nat) -> nat
    decreases width,
{
    if width == 0 {
        1
    } else {
        16 * hex_count((width - 1) as nat)
    }
}

proof fn lemma_hex_len(n: nat, width: nat)
    ensures
        hex(n, width).len() == width,
    decreases width,
{
    if width > 0 {
        lemma_hex_len(n / 16, (width - 1) as nat);
    }
}

proof fn lemma_hex_differs(a: nat, b: nat, width: nat)
    requires
        a < hex_count(width),
        b < hex_count(width),
        hex(a, width) == hex(b, width),
    ensures
        a == b,
    decreases width,
{
    if width > 0 {
        let fewer = (width - 1) as nat;
        let x = hex(a, width);
        let y = hex(b, width);
        assert(x.drop_last() == hex(a / 16, fewer));
        assert(y.drop_last() == hex(b / 16, fewer));
        assert(x.last() == hex_digit((a % 16) as int));
        assert(y.last() == hex_digit((b % 16) as int));
        lemma_hex_differs(a / 16, b / 16, fewer);
    }
}

proof fn lemma_hex_counts_all(n: u128)
    ensures
        n < hex_count(32),
{
    reveal_with_fuel(hex_count, 33);
}

/// Hosts with different random numbers have pipes with different names, and the
/// two pipes of one host have different names.
pub proof fn law_pipe_names_differ(a: u128, b: u128)
    ensures
        a != b ==> base_of(a) != base_of(b),
        base_of(a) + ".in"@ != base_of(b) + ".out"@,
{
    let start = "\\\\.\\pipe\\ancaria-"@;
    lemma_hex_len(a as nat, 32);
    lemma_hex_len(b as nat, 32);
    if base_of(a) == base_of(b) {
        assert(base_of(a).skip(start.len() as int) == hex(a as nat, 32));
        assert(base_of(b).skip(start.len() as int) == hex(b as nat, 32));
        lemma_hex_counts_all(a);
        lemma_hex_counts_all(b);
        lemma_hex_differs(a as nat, b as nat, 32);
    }
    reveal_strlit(".in");
    reveal_strlit(".out");
    assert((base_of(a) + ".in"@).len() != (base_of(b) + ".out"@).len());
}

} // verus!
