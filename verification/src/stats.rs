//! Counters of a registry, and their display.
use vstd::prelude::*;

verus! {

/// Counters of a registry at one moment.
#[derive(Clone, Debug, PartialEq, Eq, Structural)]
pub struct Stats {
    /// The number of entries that are registered now.
    pub live_entries: u64,
    /// The number of aborts so far.
    pub total_aborts: u64,
    /// The number of requests found interrupted so far.
    pub total_hits: u64,
    /// The number of entries acknowledged so far.
    pub total_acked: u64,
    /// The number of entries expired so far.
    pub total_expired: u64,
    /// The epoch handed out last.
    pub epoch: u64,
    /// The epoch of the last abort of all requests, or 0 where there was none.
    pub abort_all_epoch: u64,
}

impl Default for Stats {
    /// All counters at zero.
    fn default() -> (stats: Stats)
        ensures
            stats == (Stats {
                live_entries: 0,
                total_aborts: 0,
                total_hits: 0,
                total_acked: 0,
                total_expired: 0,
                epoch: 0,
                abort_all_epoch: 0,
            }),
    {
        Stats {
            live_entries: 0,
            total_aborts: 0,
            total_hits: 0,
            total_acked: 0,
            total_expired: 0,
            epoch: 0,
            abort_all_epoch: 0,
        }
    }
}

/// The decimal digit for `d`, which is below ten.
pub open spec fn digit(d: nat) -> char {
    ('0' as nat + d) as char
}

/// The decimal representation of `n`, without leading zeros.
pub open spec fn decimal(n: nat) -> Seq<char>
    decreases n,
{
    if n < 10 {
        seq![digit(n)]
    } else {
        decimal(n / 10).push(digit(n % 10))
    }
}

/// A string of one decimal digit.
fn digit_text(d: u64) -> (text: &'static str)
    requires
        d < 10,
    ensures
        text@ == seq![digit(d as nat)],
{
    proof {
        reveal_strlit("0");
        reveal_strlit("1");
        reveal_strlit("2");
        reveal_strlit("3");
        reveal_strlit("4");
        reveal_strlit("5");
        reveal_strlit("6");
        reveal_strlit("7");
        reveal_strlit("8");
        reveal_strlit("9");
    }
    let text = match d {
        0 => "0",
        1 => "1",
        2 => "2",
        3 => "3",
        4 => "4",
        5 => "5",
        6 => "6",
        7 => "7",
        8 => "8",
        _ => "9",
    };
    assert(text@ =~= seq![digit(d as nat)]);
    text
}

/// Appends the decimal representation of `n`.
fn push_decimal(out: &mut String, n: u64)
    ensures
        final(out)@ == old(out)@ + decimal(n as nat),
    decreases n,
{
    if n >= 10 {
        push_decimal(out, n / 10);
    }
    out.append(digit_text(n % 10));
    assert(out@ =~= old(out)@ + decimal(n as nat));
}

impl Stats {
    /// The text of [`Stats::repr`].
    pub open spec fn repr_text(self) -> Seq<char> {
        "InterruptController(live="@ + decimal(self.live_entries as nat) + ", aborts="@ + decimal(
            self.total_aborts as nat,
        ) + ", hits="@ + decimal(self.total_hits as nat) + ", epoch="@ + decimal(self.epoch as nat)
            + ")"@
    }

    /// A one-line summary of a controller with these counters.
    pub fn repr(&self) -> (text: String)
        ensures
            text@ == self.repr_text(),
    {
        let mut text = "InterruptController(live=".to_owned();
        push_decimal(&mut text, self.live_entries);
        text.append(", aborts=");
        push_decimal(&mut text, self.total_aborts);
        text.append(", hits=");
        push_decimal(&mut text, self.total_hits);
        text.append(", epoch=");
        push_decimal(&mut text, self.epoch);
        text.append(")");
        text
    }
}

/// The number that a text of decimal digits stands for.
pub open spec fn number(text: Seq<char>) -> nat
    decreases text.len(),
{
    if text.len() == 0 {
        0
    } else {
        number(text.drop_last()) * 10 + (text.last() as nat - '0' as nat) as nat
    }
}

/// The decimal representation of a number stands for that number. It is made of digits, and only
/// that of zero begins with a zero.
pub proof fn law_decimal_stands_for_its_number(n: nat)
    ensures
        number(decimal(n)) == n,
        decimal(n).len() > 0,
        forall|i: int| 0 <= i < decimal(n).len() ==> '0' <= #[trigger] decimal(n)[i] <= '9',
        decimal(n)[0] == '0' <==> n == 0,
    decreases n,
{
    reveal_with_fuel(number, 2);
    if n >= 10 {
        law_decimal_stands_for_its_number(n / 10);
        assert(decimal(n).drop_last() =~= decimal(n / 10));
    } else {
        assert(decimal(n).drop_last() =~= Seq::empty());
    }
}

/// The summary names the live entries, the aborts, the hits and the epoch, in this order, each with
/// its own counter.
pub proof fn law_summary_names_its_counters(stats: Stats)
    ensures
        stats.repr_text() == "InterruptController(live="@ + decimal(stats.live_entries as nat)
            + ", aborts="@ + decimal(stats.total_aborts as nat) + ", hits="@ + decimal(
            stats.total_hits as nat,
        ) + ", epoch="@ + decimal(stats.epoch as nat) + ")"@,
{
}

} // verus!
