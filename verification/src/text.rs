//! Decimal rendering for messages.

use vstd::prelude::*;

verus! {

/// The decimal digit `d`, for `d < 10`.
pub open spec fn digit(d: nat) -> Seq<char> {
    if d == 0 {
        seq!['0']
    } else if d == 1 {
        seq!['1']
    } else if d == 2 {
        seq!['2']
    } else if d == 3 {
        seq!['3']
    } else if d == 4 {
        seq!['4']
    } else if d == 5 {
        seq!['5']
    } else if d == 6 {
        seq!['6']
    } else if d == 7 {
        seq!['7']
    } else if d == 8 {
        seq!['8']
    } else {
        seq!['9']
    }
}

/// `n` in base ten, without leading zeros.
pub open spec fn decimal(n: nat) -> Seq<char>
    decreases n,
{
    if n < 10 {
        digit(n)
    } else {
        decimal(n / 10) + digit(n % 10)
    }
}

fn push_digit(out: &mut String, value: u64)
    requires
        value < 10,
    ensures
        final(out)@ == old(out)@ + digit(value as nat),
{
    proof {
        reveal_strlit("0");
        reveal_strlit("1");
        reveal_strlit("2");
        reveal_strlit("3");
        reveal_strlit("4");
        reveal_strlit("5");
        reveal_strlit("6");
        reveal_strlit("7");
        reveal_strlit("8");
        reveal_strlit("9");
    }
    if value == 0 {
        assert("0"@ =~= digit(0));
        out.append("0");
    } else if value == 1 {
        assert("1"@ =~= digit(1));
        out.append("1");
    } else if value == 2 {
        assert("2"@ =~= digit(2));
        out.append("2");
    } else if value == 3 {
        assert("3"@ =~= digit(3));
        out.append("3");
    } else if value == 4 {
        assert("4"@ =~= digit(4));
        out.append("4");
    } else if value == 5 {
        assert("5"@ =~= digit(5));
        out.append("5");
    } else if value == 6 {
        assert("6"@ =~= digit(6));
        out.append("6");
    } else if value == 7 {
        assert("7"@ =~= digit(7));
        out.append("7");
    } else if value == 8 {
        assert("8"@ =~= digit(8));
        out.append("8");
    } else {
        assert("9"@ =~= digit(9));
        out.append("9");
    }
}

/// Appends `value` in base ten.
pub fn push_decimal(out: &mut String, value: u64)
    ensures
        final(out)@ == old(out)@ + decimal(value as nat),
    decreases value,
{
    let ghost before = out@;
    if value >= 10 {
        push_decimal(out, value / 10);
        push_digit(out, value % 10);
        assert(out@ =~= before + decimal(value as nat));
    } else {
        push_digit(out, value);
    }
}

} // verus!
