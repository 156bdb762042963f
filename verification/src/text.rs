//! Decimal rendering of unsigned integers, used for trace lines and for the
//! printable form of heap references.

use vstd::prelude::*;
use vstd::string::StringExecFns;

verus! {

/// The digit character for a value below ten.
pub open spec fn dec_digit(d: u64) -> char {
    if d == 0 {
        '0'
    } else if d == 1 {
        '1'
    } else if d == 2 {
        '2'
    } else if d == 3 {
        '3'
    } else if d == 4 {
        '4'
    } else if d == 5 {
        '5'
    } else if d == 6 {
        '6'
    } else if d == 7 {
        '7'
    } else if d == 8 {
        '8'
    } else {
        '9'
    }
}

/// The decimal form of `n`, most significant digit first, no leading zeroes
/// except for zero itself.
pub open spec fn decimal(n: u64) -> Seq<char>
    decreases n,
{
    if n < 10 {
        seq![dec_digit(n)]
    } else {
        decimal(n / 10).push(dec_digit(n % 10))
    }
}

fn digit_str(d: u64) -> (r: &'static str)
    requires
        d < 10,
    ensures
        r@ == seq![dec_digit(d)],
{
    proof {
        reveal_strlit("0");
        reveal_strlit("1");
        reveal_strlit("2");
        reveal_strlit("3");
        reveal_strlit("4");
        reveal_strlit("5");
        reveal_strlit("6");
        reveal_strlit("7");
        reveal_strlit("8");
        reveal_strlit("9");
    }
    let r: &'static str = if d == 0 {
        "0"
    } else if d == 1 {
        "1"
    } else if d == 2 {
        "2"
    } else if d == 3 {
        "3"
    } else if d == 4 {
        "4"
    } else if d == 5 {
        "5"
    } else if d == 6 {
        "6"
    } else if d == 7 {
        "7"
    } else if d == 8 {
        "8"
    } else {
        "9"
    };
    proof {
        assert(r@ =~= seq![dec_digit(d)]);
    }
    r
}

/// Appends the decimal form of `n` to `s`.
pub fn push_decimal(s: &mut String, n: u64)
    ensures
        final(s)@ == old(s)@ + decimal(n),
    decreases n,
{
    if n >= 10 {
        push_decimal(s, n / 10);
    }
    s.append(digit_str(n % 10));
    proof {
        if n >= 10 {
            assert(old(s)@ + decimal(n / 10) + seq![dec_digit(n % 10)] =~= old(s)@ + decimal(n));
        } else {
            assert(old(s)@ + seq![dec_digit(n % 10)] =~= old(s)@ + decimal(n));
        }
    }
}

/// The decimal form of `n` as a fresh string.
pub fn to_decimal(n: u64) -> (s: String)
    ensures
        s@ == decimal(n),
{
    let mut s = String::new();
    push_decimal(&mut s, n);
    proof {
        assert(Seq::<char>::empty() + decimal(n) =~= decimal(n));
    }
    s
}

} // verus!
