//! The time of day that log lines start with.

use vstd::prelude::*;
use vstd::string::StringExecFns;
use crate::text::{push_two_digits, two_digit_chars, digits_value, all_digits, lemma_two_digits_read_back};

verus! {

/// `HH:MM:SS` of the time of day, in UTC, `secs` seconds after the epoch.
pub open spec fn clock_chars(secs: nat) -> Seq<char> {
    two_digit_chars(secs / 3600 % 24) + seq![':'] + two_digit_chars(secs / 60 % 60) + seq![':']
        + two_digit_chars(secs % 60)
}

/// The time of day, `HH:MM:SS` in UTC, of the moment `secs` seconds after
/// the Unix epoch.
pub fn clock_text(secs: u64) -> (r: String)
    ensures
        r@ == clock_chars(secs as nat),
{
    proof {
        reveal_strlit(":");
    }
    let mut s = String::new();
    push_two_digits(&mut s, secs / 3600 % 24);
    s.append(":");
    push_two_digits(&mut s, secs / 60 % 60);
    s.append(":");
    push_two_digits(&mut s, secs % 60);
    assert(s@ =~= clock_chars(secs as nat));
    s
}

/// The timestamp is eight characters, `HH:MM:SS`, whose fields read back as
/// the hour of the day, the minute of the hour and the second of the
/// minute.
pub proof fn lemma_clock_reads_back(secs: nat)
    ensures
        ({
            let t = clock_chars(secs);
            &&& t.len() == 8
            &&& t[2] == ':' && t[5] == ':'
            &&& all_digits(t.subrange(0, 2)) && all_digits(t.subrange(3, 5)) && all_digits(t.subrange(6, 8))
            &&& digits_value(t.subrange(0, 2)) == secs / 3600 % 24
            &&& digits_value(t.subrange(3, 5)) == secs / 60 % 60
            &&& digits_value(t.subrange(6, 8)) == secs % 60
        }),
{
    let h = two_digit_chars(secs / 3600 % 24);
    let m = two_digit_chars(secs / 60 % 60);
    let s = two_digit_chars(secs % 60);
    lemma_two_digits_read_back(secs / 3600 % 24);
    lemma_two_digits_read_back(secs / 60 % 60);
    lemma_two_digits_read_back(secs % 60);
    let t = clock_chars(secs);
    assert(t.subrange(0, 2) =~= h);
    assert(t.subrange(3, 5) =~= m);
    assert(t.subrange(6, 8) =~= s);
}

} // verus!
