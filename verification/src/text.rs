//! Decimal rendering of numbers, used in messages and timestamps.

use vstd::prelude::*;
use vstd::string::StringExecFns;

verus! {

/// The character of a decimal digit.
pub open spec fn digit_char(d: nat) -> char {
    (48 + d) as char
}

/// The decimal digits of `n`, most significant first, without leading zeros
/// (zero is the single digit `0`).
pub open spec fn decimal_chars(n: nat) -> Seq<char>
    decreases n,
{
    if n < 10 {
        seq![digit_char(n)]
    } else {
        decimal_chars(n / 10).push(digit_char(n % 10))
    }
}

/// `n` with at least two digits, padded on the left with `0`.
pub open spec fn two_digit_chars(n: nat) -> Seq<char> {
    if n < 10 {
        seq!['0'].add(decimal_chars(n))
    } else {
        decimal_chars(n)
    }
}

fn digit_text(d: u128) -> (r: &'static str)
    requires
        d < 10,
    ensures
        r@ == seq![digit_char(d as nat)],
{
    proof {
        reveal_strlit("0");
        reveal_strlit("1");
        reveal_strlit("2");
        reveal_strlit("3");
        reveal_strlit("4");
        reveal_strlit("5");
        reveal_strlit("6");
        reveal_strlit("7");
        reveal_strlit("8");
        reveal_strlit("9");
    }
    match d {
        0 => "0",
        1 => "1",
        2 => "2",
        3 => "3",
        4 => "4",
        5 => "5",
        6 => "6",
        7 => "7",
        8 => "8",
        _ => "9",
    }
}

/// Appends the decimal digits of `n` to `s`.
pub fn push_decimal(s: &mut String, n: u128)
    ensures
        final(s)@ == old(s)@ + decimal_chars(n as nat),
    decreases n,
{
    if n >= 10 {
        push_decimal(s, n / 10);
    }
    s.append(digit_text(n % 10));
    proof {
        if n < 10 {
            assert(n % 10 == n);
        }
    }
    assert(s@ =~= old(s)@ + decimal_chars(n as nat));
}

/// `n` in decimal.
pub fn decimal(n: u128) -> (r: String)
    ensures
        r@ == decimal_chars(n as nat),
{
    let mut s = String::new();
    push_decimal(&mut s, n);
    assert(s@ =~= decimal_chars(n as nat));
    s
}

/// Appends `n` in decimal, padded with a leading `0` to two digits.
pub fn push_two_digits(s: &mut String, n: u64)
    ensures
        final(s)@ == old(s)@ + two_digit_chars(n as nat),
{
    if n < 10 {
        proof {
            reveal_strlit("0");
        }
        s.append("0");
    }
    push_decimal(s, n as u128);
    assert(s@ =~= old(s)@ + two_digit_chars(n as nat));
}

/// The number that a run of decimal digits stands for.
pub open spec fn digits_value(s: Seq<char>) -> int
    decreases s.len(),
{
    if s.len() == 0 {
        0
    } else {
        digits_value(s.drop_last()) * 10 + (s.last() as int - 48)
    }
}

/// Whether every character of `s` is a decimal digit.
pub open spec fn all_digits(s: Seq<char>) -> bool {
    forall|i: int| 0 <= i < s.len() ==> '0' <= #[trigger] s[i] <= '9'
}

/// The decimal text of `n` is digits that read back as `n`, without a
/// leading zero unless `n` is zero.
pub proof fn lemma_decimal_reads_back(n: nat)
    ensures
        all_digits(decimal_chars(n)),
        digits_value(decimal_chars(n)) == n,
        decimal_chars(n).len() >= 1,
        decimal_chars(n)[0] == '0' ==> n == 0,
    decreases n,
{
    assert(digit_char(n % 10) as int == 48 + n % 10);
    assert(n == n / 10 * 10 + n % 10);
    if n < 10 {
        assert(decimal_chars(n).drop_last() =~= Seq::<char>::empty());
        assert(digits_value(Seq::<char>::empty()) == 0);
        assert(decimal_chars(n).last() == digit_char(n));
        assert(digit_char(n) as int == 48 + n);
    } else {
        assert(decimal_chars(n).last() == digit_char(n % 10));
        lemma_decimal_reads_back(n / 10);
        assert(decimal_chars(n).drop_last() =~= decimal_chars(n / 10));
        assert forall|i: int| 0 <= i < decimal_chars(n).len() implies '0' <= #[trigger] decimal_chars(n)[i] <= '9' by {
            if i < decimal_chars(n / 10).len() {
                assert(decimal_chars(n)[i] == decimal_chars(n / 10)[i]);
            }
        }
        assert(decimal_chars(n)[0] == decimal_chars(n / 10)[0]);
    }
}

/// Two-digit text is two digits that read back as `n`, for `n` below 100.
pub proof fn lemma_two_digits_read_back(n: nat)
    requires
        n < 100,
    ensures
        two_digit_chars(n).len() == 2,
        all_digits(two_digit_chars(n)),
        digits_value(two_digit_chars(n)) == n,
{
    lemma_decimal_reads_back(n);
    if n < 10 {
        let t = two_digit_chars(n);
        assert(t.drop_last() =~= seq!['0']);
        assert(seq!['0'].drop_last() =~= Seq::<char>::empty());
        assert('0' as int == 48);
        assert(digits_value(Seq::<char>::empty()) == 0);
        assert(digits_value(seq!['0']) == 0);
        assert(t.last() == digit_char(n));
        assert(digit_char(n) as int == 48 + n);
    } else {
        lemma_decimal_reads_back(n / 10);
        assert(decimal_chars(n / 10).len() == 1);
    }
}

} // verus!
