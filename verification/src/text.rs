//! Text built from pieces and decimal numbers.
use vstd::prelude::*;

verus! {

/// The character of one decimal digit.
pub open spec fn digit(d: nat) -> char {
    (48 + d) as char
}

/// `n` in decimal, without leading zeros.
pub open spec fn decimal(n: nat) -> Seq<char>
    decreases n,
{
    if n < 10 {
        seq![digit(n)]
    } else {
        decimal(n / 10).push(digit(n % 10))
    }
}

fn digit_text(d: u64) -> (text: &'static str)
    requires
        d < 10,
    ensures
        text@ == seq![digit(d as nat)],
{
    proof {
        reveal_strlit("0");
        reveal_strlit("1");
        reveal_strlit("2");
        reveal_strlit("3");
        reveal_strlit("4");
        reveal_strlit("5");
        reveal_strlit("6");
        reveal_strlit("7");
        reveal_strlit("8");
        reveal_strlit("9");
    }
    let text: &'static str = if d == 0 {
        "0"
    } else if d == 1 {
        "1"
    } else if d == 2 {
        "2"
    } else if d == 3 {
        "3"
    } else if d == 4 {
        "4"
    } else if d == 5 {
        "5"
    } else if d == 6 {
        "6"
    } else if d == 7 {
        "7"
    } else if d == 8 {
        "8"
    } else {
        "9"
    };
    assert(text@ =~= seq![digit(d as nat)]);
    text
}

/// Appends `n` in decimal.
pub fn push_decimal(output: &mut String, n: u64)
    ensures
        final(output)@ == old(output)@ + decimal(n as nat),
    decreases n,
{
    if n < 10 {
        output.append(digit_text(n));
    } else {
        push_decimal(output, n / 10);
        output.append(digit_text(n % 10));
        assert(output@ =~= old(output)@ + decimal(n as nat));
    }
}

/// An owned copy of a text.
pub fn text_of(text: &str) -> (owned: String)
    ensures
        owned@ == text@,
{
    let mut owned: String = String::new();
    owned.append(text);
    assert(owned@ =~= text@);
    owned
}

} // verus!
