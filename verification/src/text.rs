//! Numbers and padding as text.

use crate::utils::{integral_digits, num_integral};
use vstd::prelude::*;

verus! {

/// The character for a digit below ten.
pub open spec fn digit(d: nat) -> char {
    if d == 0 {
        '0'
    } else if d == 1 {
        '1'
    } else if d == 2 {
        '2'
    } else if d == 3 {
        '3'
    } else if d == 4 {
        '4'
    } else if d == 5 {
        '5'
    } else if d == 6 {
        '6'
    } else if d == 7 {
        '7'
    } else if d == 8 {
        '8'
    } else {
        '9'
    }
}

/// `n` in decimal digits, without leading zeros.
pub open spec fn decimal(n: nat) -> Seq<char>
    decreases n,
{
    if n < 10 {
        seq![digit(n)]
    } else {
        decimal(n / 10).push(digit(n % 10))
    }
}

/// `n` blanks.
pub open spec fn spaces(n: nat) -> Seq<char> {
    Seq::new(n, |i: int| ' ')
}

/// `decimal(n)` has a digit for every integral digit of `n`, and one for zero.
pub proof fn lemma_decimal_len(n: nat)
    ensures
        decimal(n).len() == if n == 0 {
            1
        } else {
            integral_digits(n)
        },
    decreases n,
{
    if n >= 10 {
        lemma_decimal_len(n / 10);
    } else if n > 0 {
        assert(integral_digits(n / 10) == 0);
    }
}

/// `String::push`: the text with `c` at its end.
#[verifier::external_body]
fn push_char(text: &mut String, c: char)
    ensures
        final(text)@ == old(text)@.push(c),
{
    text.push(c)
}

fn digit_char(d: u64) -> (c: char)
    requires
        d < 10,
    ensures
        c == digit(d as nat),
{
    if d == 0 {
        '0'
    } else if d == 1 {
        '1'
    } else if d == 2 {
        '2'
    } else if d == 3 {
        '3'
    } else if d == 4 {
        '4'
    } else if d == 5 {
        '5'
    } else if d == 6 {
        '6'
    } else if d == 7 {
        '7'
    } else if d == 8 {
        '8'
    } else {
        '9'
    }
}

/// The leading digits that are still to be written while `rest` is what is
/// left of the number.
spec fn leading(rest: nat) -> Seq<char> {
    if rest > 0 {
        decimal(rest)
    } else {
        Seq::empty()
    }
}

/// Writes `n` in decimal digits at the end of `text`.
pub fn push_decimal(text: &mut String, n: u64)
    ensures
        final(text)@ == old(text)@ + decimal(n as nat),
{
    let mut backwards: Vec<char> = Vec::new();
    backwards.push(digit_char(n % 10));
    let mut rest: u64 = n / 10;
    assert(decimal(n as nat) == leading(rest as nat) + backwards@.reverse());
    while rest > 0
        invariant
            decimal(n as nat) == leading(rest as nat) + backwards@.reverse(),
        decreases rest,
    {
        let ghost before = backwards@;
        let ghost c = digit((rest % 10) as nat);
        backwards.push(digit_char(rest % 10));
        assert(backwards@.reverse() == seq![c] + before.reverse());
        assert(decimal(rest as nat) == leading((rest / 10) as nat).push(c));
        assert(leading((rest / 10) as nat).push(c) + before.reverse() == leading(
            (rest / 10) as nat,
        ) + (seq![c] + before.reverse()));
        rest = rest / 10;
    }
    assert(leading(0) + backwards@.reverse() == backwards@.reverse());
    let ghost digits = backwards@.reverse();
    let ghost start = text@;
    let ghost mut written: Seq<char> = Seq::empty();
    assert(start + written == start);
    assert(written + backwards@.reverse() == digits);
    while backwards.len() > 0
        invariant
            text@ == start + written,
            written + backwards@.reverse() == digits,
        decreases backwards.len(),
    {
        let ghost before = backwards@;
        let c = backwards.pop().unwrap();
        push_char(text, c);
        assert(before.reverse() == seq![c] + backwards@.reverse());
        proof {
            assert(written.push(c) + backwards@.reverse() == written + before.reverse());
            assert((start + written).push(c) == start + written.push(c));
            written = written.push(c);
        }
    }
    assert(backwards@.reverse() == Seq::<char>::empty());
    assert(written + Seq::<char>::empty() == written);
}

/// Writes `n` blanks at the end of `text`.
pub fn push_spaces(text: &mut String, n: usize)
    ensures
        final(text)@ == old(text)@ + spaces(n as nat),
{
    let ghost start = text@;
    let mut i: usize = 0;
    assert(start + spaces(0) == start);
    while i < n
        invariant
            i <= n,
            text@ == start + spaces(i as nat),
        decreases n - i,
    {
        push_char(text, ' ');
        assert((start + spaces(i as nat)).push(' ') == start + spaces((i + 1) as nat));
        i += 1;
    }
}

/// How many characters `decimal(n)` takes.
pub fn decimal_width(n: u64) -> (width: usize)
    ensures
        width == decimal(n as nat).len(),
        1 <= width <= 20,
{
    proof {
        lemma_decimal_len(n as nat);
    }
    if n == 0 {
        1
    } else {
        num_integral(n)
    }
}

} // verus!
