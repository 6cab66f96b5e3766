//! Small texts: numbers in base ten, runs of spaces, the characters of a string.

use vstd::prelude::*;

verus! {

/// The decimal digit that stands for `d`, for `d` below ten.
pub open spec fn digit_char(d: nat) -> char {
    if d == 0 {
        '0'
    } else if d == 1 {
        '1'
    } else if d == 2 {
        '2'
    } else if d == 3 {
        '3'
    } else if d == 4 {
        '4'
    } else if d == 5 {
        '5'
    } else if d == 6 {
        '6'
    } else if d == 7 {
        '7'
    } else if d == 8 {
        '8'
    } else {
        '9'
    }
}

/// `n` written in base ten, without sign or leading zeros.
pub open spec fn decimal_text(n: nat) -> Seq<char>
    decreases n,
{
    if n < 10 {
        seq![digit_char(n)]
    } else {
        decimal_text(n / 10).push(digit_char(n % 10))
    }
}

/// `n` spaces.
pub open spec fn spaces_text(n: nat) -> Seq<char> {
    Seq::new(n, |i: int| ' ')
}

fn digit_str(d: usize) -> (shown: &'static str)
    requires
        d < 10,
    ensures
        shown@ == seq![digit_char(d as nat)],
{
    proof {
        reveal_strlit("0");
        reveal_strlit("1");
        reveal_strlit("2");
        reveal_strlit("3");
        reveal_strlit("4");
        reveal_strlit("5");
        reveal_strlit("6");
        reveal_strlit("7");
        reveal_strlit("8");
        reveal_strlit("9");
    }
    let shown = if d == 0 {
        "0"
    } else if d == 1 {
        "1"
    } else if d == 2 {
        "2"
    } else if d == 3 {
        "3"
    } else if d == 4 {
        "4"
    } else if d == 5 {
        "5"
    } else if d == 6 {
        "6"
    } else if d == 7 {
        "7"
    } else if d == 8 {
        "8"
    } else {
        "9"
    };
    assert(shown@ =~= seq![digit_char(d as nat)]);
    shown
}

/// Writes `n` in base ten.
pub fn decimal(n: usize) -> (shown: String)
    ensures
        shown@ == decimal_text(n as nat),
    decreases n,
{
    if n < 10 {
        String::from_str(digit_str(n))
    } else {
        let mut shown = decimal(n / 10);
        shown.append(digit_str(n % 10));
        assert(shown@ =~= decimal_text(n as nat));
        shown
    }
}

/// A string of `n` spaces.
pub fn spaces(n: usize) -> (shown: String)
    ensures
        shown@ == spaces_text(n as nat),
{
    let mut shown = String::new();
    let mut i: usize = 0;
    proof {
        reveal_strlit(" ");
    }
    while i < n
        invariant
            i <= n,
            shown@ == spaces_text(i as nat),
            " "@ == seq![' '],
        decreases n - i,
    {
        shown.append(" ");
        i += 1;
        assert(shown@ =~= spaces_text(i as nat));
    }
    shown
}

/// The characters of `s`, one by one.
pub fn chars_of(s: &str) -> (chars: Vec<char>)
    ensures
        chars@ == s@,
{
    let mut chars: Vec<char> = Vec::new();
    for c in it: s.chars()
        invariant
            chars@ == s@.take(it.index() as int),
            it.seq() == s@,
    {
        chars.push(c);
    }
    assert(chars@ =~= s@);
    chars
}

} // verus!
