//! The ways in which a query can be refused.

use vstd::prelude::*;
use vstd::string::StringExecFns;

verus! {

/// Why an estimate or a probability could not be given.
#[derive(Debug, Clone, Copy, PartialEq, Eq)]
pub enum PopProbError {
    /// The search for the most likely size ran out of candidates.
    Generic,
    /// A Stirling number was asked for with `k` above `n`; holds `(k, n)`.
    SnskKGreaterThanN((u32, u32)),
    /// More distinct elements than draws; holds `(unique, sample)`.
    UniqueGreaterThanSample((u32, u32)),
    /// More distinct elements than the population has; holds `(unique, size)`.
    UniqueGreaterThanSize((u32, u32)),
    /// No distinct element was observed.
    UniqueZero,
}

/// The character for a single decimal digit.
pub open spec fn digit(d: nat) -> char
    recommends
        d < 10,
{
    if d == 0 {
        '0'
    } else if d == 1 {
        '1'
    } else if d == 2 {
        '2'
    } else if d == 3 {
        '3'
    } else if d == 4 {
        '4'
    } else if d == 5 {
        '5'
    } else if d == 6 {
        '6'
    } else if d == 7 {
        '7'
    } else if d == 8 {
        '8'
    } else {
        '9'
    }
}

/// A number in decimal, without leading zeros.
pub open spec fn decimal(n: nat) -> Seq<char>
    decreases n,
{
    if n < 10 {
        seq![digit(n)]
    } else {
        decimal(n / 10).push(digit(n % 10))
    }
}

/// The sentence for a pair of counts that are in the wrong order.
pub open spec fn out_of_order(
    opening: Seq<char>,
    first: u32,
    between: Seq<char>,
    second: u32,
) -> Seq<char> {
    opening + decimal(first as nat) + between + decimal(second as nat) + ")"@
}

fn digit_text(d: u32) -> (r: &'static str)
    requires
        d < 10,
    ensures
        r@ == seq![digit(d as nat)],
{
    proof {
        reveal_strlit("0");
        reveal_strlit("1");
        reveal_strlit("2");
        reveal_strlit("3");
        reveal_strlit("4");
        reveal_strlit("5");
        reveal_strlit("6");
        reveal_strlit("7");
        reveal_strlit("8");
        reveal_strlit("9");
    }
    let r = if d == 0 {
        "0"
    } else if d == 1 {
        "1"
    } else if d == 2 {
        "2"
    } else if d == 3 {
        "3"
    } else if d == 4 {
        "4"
    } else if d == 5 {
        "5"
    } else if d == 6 {
        "6"
    } else if d == 7 {
        "7"
    } else if d == 8 {
        "8"
    } else {
        "9"
    };
    assert(r@ =~= seq![digit(d as nat)]);
    r
}

fn decimal_text(n: u32) -> (r: String)
    ensures
        r@ == decimal(n as nat),
    decreases n,
{
    if n < 10 {
        String::from_str(digit_text(n))
    } else {
        let mut r = decimal_text(n / 10);
        r.append(digit_text(n % 10));
        assert(r@ =~= decimal(n as nat));
        r
    }
}

fn out_of_order_text(opening: &str, first: u32, between: &str, second: u32) -> (r: String)
    ensures
        r@ == out_of_order(opening@, first, between@, second),
{
    let mut r = String::from_str(opening);
    r.append(decimal_text(first).as_str());
    r.append(between);
    r.append(decimal_text(second).as_str());
    r.append(")");
    r
}

impl PopProbError {
    /// What [`PopProbError::message`] returns.
    pub open spec fn message_text(&self) -> Seq<char> {
        match *self {
            PopProbError::Generic => "There was an error"@,
            PopProbError::SnskKGreaterThanN((k, n)) => out_of_order(
                "`k` cannot be greater than `n` (`k` = "@,
                k,
                ", `n` = "@,
                n,
            ),
            PopProbError::UniqueGreaterThanSample((unique, sample)) => out_of_order(
                "`unique` cannot be greater than `sample` (`unique` = "@,
                unique,
                ", `sample` = "@,
                sample,
            ),
            PopProbError::UniqueGreaterThanSize((unique, size)) => out_of_order(
                "`unique` cannot be greater than `size` (`unique` = "@,
                unique,
                ", `size` = "@,
                size,
            ),
            PopProbError::UniqueZero => "`unique` cannot be zero"@,
        }
    }

    /// The error in words, with the counts that it holds.
    pub fn message(&self) -> (r: String)
        ensures
            r@ == self.message_text(),
    {
        match *self {
            PopProbError::Generic => String::from_str("There was an error"),
            PopProbError::SnskKGreaterThanN((k, n)) => out_of_order_text(
                "`k` cannot be greater than `n` (`k` = ",
                k,
                ", `n` = ",
                n,
            ),
            PopProbError::UniqueGreaterThanSample((unique, sample)) => out_of_order_text(
                "`unique` cannot be greater than `sample` (`unique` = ",
                unique,
                ", `sample` = ",
                sample,
            ),
            PopProbError::UniqueGreaterThanSize((unique, size)) => out_of_order_text(
                "`unique` cannot be greater than `size` (`unique` = ",
                unique,
                ", `size` = ",
                size,
            ),
            PopProbError::UniqueZero => String::from_str("`unique` cannot be zero"),
        }
    }
}

} // verus!
