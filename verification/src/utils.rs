//! Small helpers that the rest of the crate shares.

use std::borrow::ToOwned;
use std::hash::Hash;
use vstd::laws_eq::obeys_concrete_eq;
use vstd::prelude::*;

verus! {

/// The items of `s` in order, each kept only where it occurs for the first time.
pub open spec fn first_occurrences<T>(s: Seq<T>) -> Seq<T>
    decreases s.len(),
{
    if s.len() == 0 {
        Seq::empty()
    } else if s.drop_last().contains(s.last()) {
        first_occurrences(s.drop_last())
    } else {
        first_occurrences(s.drop_last()).push(s.last())
    }
}

/// The number of decimal digits of `n`, with none for zero.
pub open spec fn integral_digits(n: nat) -> nat
    decreases n,
{
    if n == 0 {
        0
    } else {
        1 + integral_digits(n / 10)
    }
}

/// Every item of `s` is present in `first_occurrences(s)`, and nothing else is.
pub proof fn lemma_first_occurrences_same_items<T>(s: Seq<T>, x: T)
    ensures
        first_occurrences(s).contains(x) <==> s.contains(x),
    decreases s.len(),
{
    if s.len() > 0 {
        let init = s.drop_last();
        lemma_first_occurrences_same_items(init, x);
        lemma_first_occurrences_same_items(init, s.last());
        if s.contains(x) {
            let i = choose|i: int| 0 <= i < s.len() && s[i] == x;
            if i < s.len() - 1 {
                assert(init[i] == x);
            }
        }
        if init.contains(x) {
            let i = choose|i: int| 0 <= i < init.len() && init[i] == x;
            assert(s[i] == x);
        }
        let kept = first_occurrences(init);
        if !init.contains(s.last()) {
            assert(kept.push(s.last()).last() == s.last());
            if kept.push(s.last()).contains(x) && x != s.last() {
                let i = choose|i: int| 0 <= i < kept.len() + 1 && kept.push(s.last())[i] == x;
                assert(kept[i] == x);
            }
            if kept.contains(x) {
                let i = choose|i: int| 0 <= i < kept.len() && kept[i] == x;
                assert(kept.push(s.last())[i] == x);
            }
        }
        assert(s.last() == s[s.len() - 1]);
    }
}

/// No item occurs twice in `first_occurrences(s)`.
pub proof fn lemma_first_occurrences_no_duplicates<T>(s: Seq<T>)
    ensures
        first_occurrences(s).no_duplicates(),
    decreases s.len(),
{
    if s.len() > 0 {
        let init = s.drop_last();
        lemma_first_occurrences_no_duplicates(init);
        lemma_first_occurrences_same_items(init, s.last());
    }
}

/// Removing duplicates a second time changes nothing.
pub proof fn lemma_first_occurrences_idempotent<T>(s: Seq<T>)
    ensures
        first_occurrences(first_occurrences(s)) == first_occurrences(s),
    decreases s.len(),
{
    if s.len() > 0 {
        let init = s.drop_last();
        lemma_first_occurrences_idempotent(init);
        lemma_first_occurrences_same_items(init, s.last());
        if !init.contains(s.last()) {
            let kept = first_occurrences(init);
            assert(kept.push(s.last()).drop_last() == kept);
        }
    }
}

fn holds<T: Eq>(items: &Vec<T>, item: &T) -> (found: bool)
    ensures
        obeys_concrete_eq::<T>() ==> found == items@.contains(*item),
{
    let mut i: usize = 0;
    while i < items.len()
        invariant
            i <= items.len(),
            obeys_concrete_eq::<T>() ==> forall|j: int| 0 <= j < i ==> items@[j] != *item,
        decreases items.len() - i,
    {
        proof {
            reveal(obeys_concrete_eq);
        }
        if items[i] == *item {
            return true;
        }
        i += 1;
    }
    false
}

/// Ensure every item in a `Vec` is unique: of equal items only the first stays,
/// and the items that stay keep their order.
pub fn uniq<T>(items: Vec<T>) -> (unique: Vec<T>)
    where
        T: Eq + Hash + ToOwned,
        <T as ToOwned>::Owned: Hash + Eq,
    ensures
        obeys_concrete_eq::<T>() ==> unique@ == first_occurrences(items@),
{
    let ghost all = items@;
    let mut rest = items;
    let mut kept_backwards: Vec<T> = Vec::new();
    while rest.len() > 0
        invariant
            obeys_concrete_eq::<T>() ==> first_occurrences(all) == first_occurrences(rest@)
                + kept_backwards@.reverse(),
        decreases rest.len(),
    {
        let ghost before = rest@;
        let ghost kept = kept_backwards@;
        let item = rest.pop().unwrap();
        assert(rest@ == before.drop_last());
        if !holds(&rest, &item) {
            kept_backwards.push(item);
            assert(kept_backwards@.reverse() == seq![item] + kept.reverse());
            assert(first_occurrences(rest@).push(item) + kept.reverse() == first_occurrences(
                rest@,
            ) + kept_backwards@.reverse());
        }
    }
    let ghost backwards = kept_backwards@;
    let mut unique: Vec<T> = Vec::new();
    while kept_backwards.len() > 0
        invariant
            unique@ + kept_backwards@.reverse() == backwards.reverse(),
        decreases kept_backwards.len(),
    {
        let ghost before = kept_backwards@;
        let ghost done = unique@;
        let item = kept_backwards.pop().unwrap();
        unique.push(item);
        assert(before.reverse() == seq![item] + kept_backwards@.reverse());
        assert(unique@ + kept_backwards@.reverse() == done + before.reverse());
    }
    assert(kept_backwards@.reverse() == Seq::<T>::empty());
    assert(unique@ + Seq::<T>::empty() == unique@);
    assert(first_occurrences(rest@) == Seq::<T>::empty());
    assert(Seq::<T>::empty() + backwards.reverse() == backwards.reverse());
    unique
}

/// How many integral digits are there?
pub fn num_integral(value: u64) -> (digits: usize)
    ensures
        digits == integral_digits(value as nat),
        value == 0 <==> digits == 0,
        digits <= 20,
{
    let mut rest: u64 = value;
    let mut digits: usize = 0;
    assert(exp10(0) == 1);
    while rest > 0
        invariant
            digits + integral_digits(rest as nat) == integral_digits(value as nat),
            digits <= 20,
            rest as nat * exp10(digits as nat) <= u64::MAX,
        decreases rest,
    {
        proof {
            lemma_exp10_step(rest as nat, digits as nat);
        }
        rest = rest / 10;
        digits += 1;
    }
    digits
}

/// Ten to the power `n`.
pub open spec fn exp10(n: nat) -> nat
    decreases n,
{
    if n == 0 {
        1
    } else {
        10 * exp10((n - 1) as nat)
    }
}

proof fn lemma_exp10_step(rest: nat, digits: nat)
    requires
        rest > 0,
        rest * exp10(digits) <= u64::MAX,
        digits <= 20,
    ensures
        digits < 20,
        (rest / 10) * exp10(digits + 1) <= u64::MAX,
{
    assert((rest / 10) * exp10(digits + 1) <= rest * exp10(digits)) by {
        assert(exp10(digits + 1) == 10 * exp10(digits));
        assert((rest / 10) * (10 * exp10(digits)) == ((rest / 10) * 10) * exp10(digits))
            by (nonlinear_arith);
        assert((rest / 10) * 10 <= rest);
        assert(((rest / 10) * 10) * exp10(digits) <= rest * exp10(digits)) by (nonlinear_arith)
            requires
                (rest / 10) * 10 <= rest,
        ;
    }
    if digits == 20 {
        reveal_with_fuel(exp10, 21);
        assert(exp10(20) == 100_000_000_000_000_000_000nat);
        assert(rest * exp10(20) >= exp10(20)) by (nonlinear_arith)
            requires
                rest >= 1,
        ;
    }
}

} // verus!
