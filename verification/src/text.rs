//! Integers as decimal text.
use vstd::prelude::*;
use vstd::string::StringExecFns;

verus! {

/// The character of a digit below ten.
pub open spec fn digit(d: nat) -> char {
    ('0' as int + d) as char
}

/// `n` in decimal, without leading zeros.
pub open spec fn unsigned(n: nat) -> Seq<char>
    decreases n,
{
    if n < 10 {
        seq![digit(n)]
    } else {
        unsigned(n / 10).push(digit(n % 10))
    }
}

/// `n` in decimal, with a minus sign in front where it is negative.
pub open spec fn signed(n: int) -> Seq<char> {
    if n < 0 {
        "-"@ + unsigned((-n) as nat)
    } else {
        unsigned(n as nat)
    }
}

fn digit_text(d: u128) -> (s: &'static str)
    requires
        d < 10,
    ensures
        s@ == seq![digit(d as nat)],
{
    proof {
        reveal_strlit("0");
        reveal_strlit("1");
        reveal_strlit("2");
        reveal_strlit("3");
        reveal_strlit("4");
        reveal_strlit("5");
        reveal_strlit("6");
        reveal_strlit("7");
        reveal_strlit("8");
        reveal_strlit("9");
    }
    let s: &'static str = if d == 0 {
        "0"
    } else if d == 1 {
        "1"
    } else if d == 2 {
        "2"
    } else if d == 3 {
        "3"
    } else if d == 4 {
        "4"
    } else if d == 5 {
        "5"
    } else if d == 6 {
        "6"
    } else if d == 7 {
        "7"
    } else if d == 8 {
        "8"
    } else {
        "9"
    };
    assert(s@ =~= seq![digit(d as nat)]);
    s
}

/// `n` in decimal.
pub fn from_u128(n: u128) -> (s: String)
    ensures
        s@ == unsigned(n as nat),
    decreases n,
{
    if n < 10 {
        digit_text(n).to_owned()
    } else {
        let mut s: String = from_u128(n / 10);
        s.append(digit_text(n % 10));
        assert(s@ =~= unsigned(n as nat));
        s
    }
}

/// `n` in decimal, with its sign where it is negative.
pub fn from_i64(n: i64) -> (s: String)
    ensures
        s@ == signed(n as int),
{
    if n < 0 {
        let size: u128 = (-(n as i128)) as u128;
        let mut s: String = "-".to_owned();
        s.append(from_u128(size).as_str());
        s
    } else {
        from_u128(n as u128)
    }
}

/// Decimal text: a digit below ten is itself, and a digit more at the end makes ten times the
/// number and that digit. So the text of a number but zero starts with another digit than zero.
pub proof fn law_decimal(n: nat, d: nat)
    requires
        d < 10,
    ensures
        unsigned(d) == seq![('0' as int + d) as char],
        n > 0 ==> unsigned(10 * n + d) == unsigned(n).push(('0' as int + d) as char),
        unsigned(n).len() > 0,
        n > 0 ==> '1' <= unsigned(n)[0] <= '9',
    decreases n,
{
    assert((10 * n + d) / 10 == n);
    if n >= 10 {
        law_decimal(n / 10, n % 10);
    }
}

/// A negative number is written as a minus sign and its size, any other number as its size alone.
pub proof fn law_sign(n: int)
    ensures
        n < 0 ==> signed(n) == seq!['-'] + unsigned((-n) as nat),
        n >= 0 ==> signed(n) == unsigned(n as nat),
{
    reveal_strlit("-");
    assert("-"@ =~= seq!['-']);
}

} // verus!
