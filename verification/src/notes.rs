//! The wording of what a failed lookup reports.

use vstd::prelude::*;
use vstd::string::*;
use crate::placement::{Missing, Seat};

verus! {

/// The character that stands for the digit `d`.
pub open spec fn digit(d: int) -> char {
    if d == 0 {
        '0'
    } else if d == 1 {
        '1'
    } else if d == 2 {
        '2'
    } else if d == 3 {
        '3'
    } else if d == 4 {
        '4'
    } else if d == 5 {
        '5'
    } else if d == 6 {
        '6'
    } else if d == 7 {
        '7'
    } else if d == 8 {
        '8'
    } else {
        '9'
    }
}

/// `n` written in base ten, without leading zeros.
pub open spec fn decimal(n: nat) -> Seq<char>
    decreases n,
{
    if n < 10 {
        seq![digit(n as int)]
    } else {
        decimal(n / 10).push(digit((n % 10) as int))
    }
}

/// What is said of a program that no table entry stands for.
pub open spec fn missing_note(m: Missing) -> Seq<char> {
    match m.seat {
        Seat::Single => "single: program "@ + decimal(m.program as nat),
        Seat::First => "couples: first program "@ + decimal(m.program as nat),
        Seat::Second => "couples: second program "@ + decimal(m.program as nat),
    }
}

/// What is said of a roster member that its program does not rank.
pub open spec fn unlisted_note(applicant: u32) -> Seq<char> {
    "roster: applicant "@ + decimal(applicant as nat)
}

fn digit_text(d: u32) -> (text: &'static str)
    requires
        d < 10,
    ensures
        text@ == seq![digit(d as int)],
{
    proof {
        reveal_strlit("0");
        reveal_strlit("1");
        reveal_strlit("2");
        reveal_strlit("3");
        reveal_strlit("4");
        reveal_strlit("5");
        reveal_strlit("6");
        reveal_strlit("7");
        reveal_strlit("8");
        reveal_strlit("9");
    }
    let text = if d == 0 {
        "0"
    } else if d == 1 {
        "1"
    } else if d == 2 {
        "2"
    } else if d == 3 {
        "3"
    } else if d == 4 {
        "4"
    } else if d == 5 {
        "5"
    } else if d == 6 {
        "6"
    } else if d == 7 {
        "7"
    } else if d == 8 {
        "8"
    } else {
        "9"
    };
    assert(text@ =~= seq![digit(d as int)]);
    text
}

/// Appends `n` in base ten to `out`.
pub fn push_decimal(out: &mut String, n: u32)
    ensures
        final(out)@ == old(out)@ + decimal(n as nat),
    decreases n,
{
    if n >= 10 {
        push_decimal(out, n / 10);
    }
    out.append(digit_text(n % 10));
    proof {
        if n >= 10 {
            assert(final(out)@ =~= old(out)@ + decimal((n / 10) as nat).push(digit((n % 10) as int)));
        } else {
            assert(final(out)@ =~= old(out)@ + seq![digit(n as int)]);
        }
    }
}

/// `lead` followed by `n` in base ten.
pub fn numbered(lead: &str, n: u32) -> (text: String)
    ensures
        text@ == lead@ + decimal(n as nat),
{
    let mut text = String::from_str(lead);
    push_decimal(&mut text, n);
    text
}

/// The report of a program that no table entry stands for.
pub fn note_missing(program: u32, seat: &Seat) -> (text: String)
    ensures
        text@ == missing_note(Missing { program, seat: *seat }),
{
    match seat {
        Seat::Single => numbered("single: program ", program),
        Seat::First => numbered("couples: first program ", program),
        Seat::Second => numbered("couples: second program ", program),
    }
}

/// The report of a roster member that its program does not rank.
pub fn note_unlisted(applicant: u32) -> (text: String)
    ensures
        text@ == unlisted_note(applicant),
{
    numbered("roster: applicant ", applicant)
}

} // verus!
