//! Text lines of the report.
use vstd::prelude::*;
use vstd::string::*;
use crate::entry::{Entry, EntryView};

verus! {

pub open spec fn digit_char(d: int) -> char {
    seq!['0', '1', '2', '3', '4', '5', '6', '7', '8', '9'][d]
}

/// Decimal digits of a natural number, without leading zeros.
pub open spec fn decimal(n: nat) -> Seq<char>
    decreases n,
{
    if n < 10 {
        seq![digit_char(n as int)]
    } else {
        decimal(n / 10).push(digit_char((n % 10) as int))
    }
}

pub open spec fn magnitude(units: int) -> nat {
    if units < 0 {
        (-units) as nat
    } else {
        units as nat
    }
}

/// Hundredths of a unit in an amount of millionths, rounded half away
/// from zero.
pub open spec fn rounded_cents(units: int) -> nat {
    (magnitude(units) + 5000) / 10000
}

/// An amount with two decimal places, e.g. `-12.05`.
pub open spec fn amount_text(units: int) -> Seq<char> {
    let cents = rounded_cents(units);
    let sign = if units < 0 && cents > 0 {
        seq!['-']
    } else {
        Seq::empty()
    };
    sign + decimal(cents / 100) + seq!['.', digit_char(((cents % 100) / 10) as int), digit_char(
        (cents % 10) as int,
    )]
}

/// `[<year>] <category>: $<cost>`, then ` (<note>)` where there is a note.
pub open spec fn entry_line(e: EntryView) -> Seq<char> {
    let head = seq!['['] + e.year + seq![']', ' '] + e.category + seq![':', ' ', '$'] + amount_text(
        e.cost,
    );
    match e.note {
        Some(n) => head + seq![' ', '('] + n + seq![')'],
        None => head,
    }
}

fn digit_str(d: u128) -> (r: &'static str)
    requires
        d < 10,
    ensures
        r@ == seq![digit_char(d as int)],
{
    proof {
        reveal_strlit("0");
        reveal_strlit("1");
        reveal_strlit("2");
        reveal_strlit("3");
        reveal_strlit("4");
        reveal_strlit("5");
        reveal_strlit("6");
        reveal_strlit("7");
        reveal_strlit("8");
        reveal_strlit("9");
    }
    if d == 0 {
        "0"
    } else if d == 1 {
        "1"
    } else if d == 2 {
        "2"
    } else if d == 3 {
        "3"
    } else if d == 4 {
        "4"
    } else if d == 5 {
        "5"
    } else if d == 6 {
        "6"
    } else if d == 7 {
        "7"
    } else if d == 8 {
        "8"
    } else {
        "9"
    }
}

/// Decimal digits of `n`.
pub fn decimal_text(n: u128) -> (r: String)
    ensures
        r@ == decimal(n as nat),
    decreases n,
{
    if n < 10 {
        String::from_str(digit_str(n))
    } else {
        let mut s = decimal_text(n / 10);
        s.append(digit_str(n % 10));
        s
    }
}

/// An amount of millionths as text with two decimal places.
pub fn format_amount(units: i128) -> (r: String)
    ensures
        r@ == amount_text(units as int),
{
    let mag: u128 = if units < 0 {
        (-(units + 1)) as u128 + 1
    } else {
        units as u128
    };
    assert(mag == magnitude(units as int));
    let cents: u128 = (mag / 2 + 2500) / 5000;
    assert(cents == rounded_cents(units as int)) by {
        assert((mag + 5000) / 10000 == (mag / 2 + 2500) / 5000) by (nonlinear_arith);
    }
    let mut s = String::new();
    proof {
        reveal_strlit("-");
        reveal_strlit(".");
    }
    if units < 0 && cents > 0 {
        s.append("-");
    }
    let whole = decimal_text(cents / 100);
    s.append(whole.as_str());
    s.append(".");
    s.append(digit_str((cents % 100) / 10));
    s.append(digit_str(cents % 10));
    assert(s@ =~= amount_text(units as int));
    s
}

impl Entry {
    /// The entry's report line.
    pub fn render(&self) -> (r: String)
        ensures
            r@ == entry_line(self@),
    {
        proof {
            reveal_strlit("[");
            reveal_strlit("] ");
            reveal_strlit(": $");
            reveal_strlit(" (");
            reveal_strlit(")");
        }
        let mut s = String::from_str("[");
        s.append(self.year.as_str());
        s.append("] ");
        s.append(self.category.as_str());
        s.append(": $");
        let amount = format_amount(self.cost as i128);
        s.append(amount.as_str());
        match &self.note {
            Some(n) => {
                s.append(" (");
                s.append(n.as_str());
                s.append(")");
            },
            None => {},
        }
        assert(s@ =~= entry_line(self@));
        s
    }
}

} // verus!
