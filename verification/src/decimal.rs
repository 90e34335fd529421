//! Rendering a status-code transition such as `200 -> 500` as a string,
//! verified down to the characters.

use vstd::prelude::*;
use vstd::string::StringExecFns;

verus! {

/// The character for one decimal digit.
pub open spec fn digit_char(d: nat) -> char {
    if d == 0 {
        '0'
    } else if d == 1 {
        '1'
    } else if d == 2 {
        '2'
    } else if d == 3 {
        '3'
    } else if d == 4 {
        '4'
    } else if d == 5 {
        '5'
    } else if d == 6 {
        '6'
    } else if d == 7 {
        '7'
    } else if d == 8 {
        '8'
    } else {
        '9'
    }
}

/// The decimal rendering of `n`, most significant digit first, no leading
/// zeros (except for `n == 0` itself).
pub open spec fn dec_digits(n: nat) -> Seq<char>
    decreases n,
{
    if n < 10 {
        seq![digit_char(n)]
    } else {
        dec_digits(n / 10).push(digit_char(n % 10))
    }
}

/// The rendering of a code transition: the two codes in decimal around an
/// arrow.
pub open spec fn transition_seq(from: u16, to: u16) -> Seq<char> {
    dec_digits(from as nat) + seq![' ', '-', '>', ' '] + dec_digits(to as nat)
}

/// Appends the decimal rendering of `n` to `s`.
fn push_decimal(s: &mut String, n: u16)
    ensures
        final(s)@ == old(s)@ + dec_digits(n as nat),
    decreases n,
{
    if n >= 10 {
        push_decimal(s, n / 10);
    }
    let d: u16 = n % 10;
    let lit: &str = if d == 0 {
        "0"
    } else if d == 1 {
        "1"
    } else if d == 2 {
        "2"
    } else if d == 3 {
        "3"
    } else if d == 4 {
        "4"
    } else if d == 5 {
        "5"
    } else if d == 6 {
        "6"
    } else if d == 7 {
        "7"
    } else if d == 8 {
        "8"
    } else {
        "9"
    };
    proof {
        reveal_strlit("0");
        reveal_strlit("1");
        reveal_strlit("2");
        reveal_strlit("3");
        reveal_strlit("4");
        reveal_strlit("5");
        reveal_strlit("6");
        reveal_strlit("7");
        reveal_strlit("8");
        reveal_strlit("9");
        assert(lit@ =~= seq![digit_char((n % 10) as nat)]);
    }
    s.append(lit);
    proof {
        if n >= 10 {
            assert(dec_digits(n as nat) == dec_digits((n / 10) as nat).push(
                digit_char((n % 10) as nat),
            ));
        }
        assert(s@ =~= old(s)@ + dec_digits(n as nat));
    }
}

/// The human-readable record of a status-code change, e.g. `200 -> 500`.
pub fn code_transition(from: u16, to: u16) -> (r: String)
    ensures
        r@ == transition_seq(from, to),
{
    let mut s = String::new();
    push_decimal(&mut s, from);
    proof {
        reveal_strlit(" -> ");
        assert(" -> "@ =~= seq![' ', '-', '>', ' ']);
    }
    s.append(" -> ");
    push_decimal(&mut s, to);
    proof {
        assert(s@ =~= transition_seq(from, to));
    }
    s
}

} // verus!
