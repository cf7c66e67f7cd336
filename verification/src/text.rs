//! Numbers as text.

use vstd::prelude::*;

verus! {

/// A decimal digit.
pub open spec fn digit(d: nat) -> char {
    if d == 0 {
        '0'
    } else if d == 1 {
        '1'
    } else if d == 2 {
        '2'
    } else if d == 3 {
        '3'
    } else if d == 4 {
        '4'
    } else if d == 5 {
        '5'
    } else if d == 6 {
        '6'
    } else if d == 7 {
        '7'
    } else if d == 8 {
        '8'
    } else {
        '9'
    }
}

/// A number in decimal, without leading zeros.
pub open spec fn decimal(n: nat) -> Seq<char>
    decreases n,
{
    if n < 10 {
        seq![digit(n)]
    } else {
        decimal(n / 10).push(digit(n % 10))
    }
}

/// A number with two digits behind the point, from its hundredfold.
pub open spec fn hundredths(n: nat) -> Seq<char> {
    decimal(n / 100) + seq!['.', digit(n / 10 % 10), digit(n % 10)]
}

/// Appends a digit.
fn append_digit(s: &mut String, d: u64)
    requires
        d < 10,
    ensures
        final(s)@ == old(s)@.push(digit(d as nat)),
{
    let t = if d == 0 {
        "0"
    } else if d == 1 {
        "1"
    } else if d == 2 {
        "2"
    } else if d == 3 {
        "3"
    } else if d == 4 {
        "4"
    } else if d == 5 {
        "5"
    } else if d == 6 {
        "6"
    } else if d == 7 {
        "7"
    } else if d == 8 {
        "8"
    } else {
        "9"
    };
    proof {
        reveal_strlit("0");
        reveal_strlit("1");
        reveal_strlit("2");
        reveal_strlit("3");
        reveal_strlit("4");
        reveal_strlit("5");
        reveal_strlit("6");
        reveal_strlit("7");
        reveal_strlit("8");
        reveal_strlit("9");
        assert(t@ =~= seq![digit(d as nat)]);
        assert(s@ + t@ =~= s@.push(digit(d as nat)));
    }
    s.append(t);
}

/// Appends a number in decimal.
pub fn append_decimal(s: &mut String, n: u64)
    ensures
        final(s)@ == old(s)@ + decimal(n as nat),
    decreases n,
{
    if n >= 10 {
        append_decimal(s, n / 10);
    }
    append_digit(s, n % 10);
    proof {
        assert(s@ =~= old(s)@ + decimal(n as nat));
    }
}

/// Appends a number with two digits behind the point, given its hundredfold.
pub fn append_hundredths(s: &mut String, n: u64)
    ensures
        final(s)@ == old(s)@ + hundredths(n as nat),
{
    append_decimal(s, n / 100);
    proof {
        reveal_strlit(".");
    }
    s.append(".");
    append_digit(s, n / 10 % 10);
    append_digit(s, n % 10);
    proof {
        assert(s@ =~= old(s)@ + hundredths(n as nat));
    }
}

/// A number reads back from its digits, has digits only, and no leading zero.
pub proof fn lemma_decimal_reads_back(n: nat)
    ensures
        decimal(n).fold_left(0int, |v: int, c: char| 10 * v + (c as int - 48)) == n,
        decimal(n).len() > 0,
        forall|i: int| 0 <= i < decimal(n).len() ==> 48 <= #[trigger] decimal(n)[i] as int <= 57,
        n > 0 ==> decimal(n)[0] as int > 48,
        n < 10 ==> decimal(n).len() == 1,
    decreases n,
{
    let f = |v: int, c: char| 10 * v + (c as int - 48);
    lemma_digit_code(n % 10);
    if n < 10 {
        assert(decimal(n).drop_last() =~= Seq::<char>::empty());
        assert(decimal(n).drop_last().fold_left(0int, f) == 0);
        assert(decimal(n).last() == digit(n));
    } else {
        lemma_decimal_reads_back(n / 10);
        assert(decimal(n).drop_last() =~= decimal(n / 10));
        assert(decimal(n).last() == digit(n % 10));
        assert forall|i: int| 0 <= i < decimal(n).len() implies 48 <= #[trigger] decimal(n)[i] as int <= 57 by {
            if i < decimal(n).len() - 1 {
                assert(decimal(n)[i] == decimal(n / 10)[i]);
            }
        }
        assert(decimal(n)[0] == decimal(n / 10)[0]);
    }
}

/// The digits are in order.
pub proof fn lemma_digit_code(d: nat)
    requires
        d < 10,
    ensures
        digit(d) as int == 48 + d,
{
}

/// A number with two digits behind the point: the whole part in decimal, a point, the tenths and the
/// hundredths.
pub proof fn lemma_hundredths(n: nat)
    ensures
        ({
            let s = hundredths(n);
            let k = s.len() - 3;
            &&& k >= 1
            &&& s.take(k) == decimal(n / 100)
            &&& s[k] as int == 46
            &&& s[k + 1] as int == 48 + n / 10 % 10
            &&& s[k + 2] as int == 48 + n % 10
        }),
{
    lemma_decimal_reads_back(n / 100);
    lemma_digit_code(n / 10 % 10);
    lemma_digit_code(n % 10);
    assert(hundredths(n).take(hundredths(n).len() - 3) =~= decimal(n / 100));
}

} // verus!
