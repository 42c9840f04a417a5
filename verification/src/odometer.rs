//! Counting through digit sequences in place.
use vstd::prelude::*;

use crate::enumeration::ints;
use crate::listing::{
    lemma_tuples_last, lemma_tuples_len, lemma_tuples_start, lemma_tuples_step, product, stepped,
    tuples, tuples_after, within, zeros,
};

verus! {

/// The digit sequence after `d`, and `true`; or the zeros, and `false`, when `d` is the last one.
pub open spec fn next_digits(radix: Seq<int>, d: Seq<int>) -> (Seq<int>, bool) {
    if tuples_after(radix, d).len() > 0 {
        (tuples_after(radix, d)[0], true)
    } else {
        (zeros(radix.len()), false)
    }
}

/// The digit sequence that `n` steps from the zeros lead to.
pub open spec fn nth_digits(radix: Seq<int>, n: nat) -> Seq<int>
    decreases n,
{
    if n == 0 {
        zeros(radix.len())
    } else {
        next_digits(radix, nth_digits(radix, (n - 1) as nat)).0
    }
}

/// Goes on to the next digit sequence, the last digit changing fastest. `false`, with all digits
/// back at zero, when the last digit sequence was reached.
pub fn step(radix: &Vec<usize>, digits: &mut Vec<usize>) -> (r: bool)
    requires
        within(ints(radix@), ints(old(digits)@)),
    ensures
        within(ints(radix@), ints(final(digits)@)),
        (ints(final(digits)@), r) == next_digits(ints(radix@), ints(old(digits)@)),
        if r {
            tuples_after(ints(radix@), ints(old(digits)@)) == seq![ints(final(digits)@)]
                + tuples_after(ints(radix@), ints(final(digits)@))
        } else {
            &&& tuples_after(ints(radix@), ints(old(digits)@)) == Seq::<Seq<int>>::empty()
            &&& forall|i: int|
                0 <= i < final(digits)@.len() ==> (#[trigger] final(digits)@[i]) == 0
        },
        final(digits)@.len() == old(digits)@.len(),
        if r {
            exists|p: int|
                0 <= p < old(digits)@.len() && final(digits)@[p] == #[trigger] old(digits)@[p] + 1
                    && (forall|i: int|
                    0 <= i < p ==> #[trigger] final(digits)@[i] == old(digits)@[i]) && (forall|
                    i: int,
                |
                    p < i < old(digits)@.len() ==> #[trigger] final(digits)@[i] == 0
                        && old(digits)@[i] == radix@[i] - 1)
        } else {
            forall|i: int|
                0 <= i < old(digits)@.len() ==> (#[trigger] old(digits)@[i]) == radix@[i] - 1
        },
{
    let ghost bound = ints(radix@);
    let ghost was = ints(digits@);
    let mut pos: usize = digits.len();
    while pos > 0
        invariant
            bound == ints(radix@),
            was == ints(old(digits)@),
            within(bound, was),
            old(digits)@.len() == digits@.len(),
            digits@.len() == radix@.len(),
            pos <= digits@.len(),
            forall|i: int| 0 <= i < pos ==> #[trigger] digits@[i] == was[i],
            forall|i: int| pos <= i < digits@.len() ==> #[trigger] digits@[i] == 0,
            forall|i: int| pos <= i < digits@.len() ==> #[trigger] was[i] == bound[i] - 1,
        decreases pos,
    {
        pos -= 1;
        proof {
            assert(0 <= was[pos as int] < bound[pos as int]);
            assert(bound[pos as int] == radix@[pos as int]);
            assert(digits@[pos as int] == was[pos as int]);
        }
        let limit = radix[pos];
        let next = digits[pos] + 1;
        if next < limit {
            digits[pos] = next;
            proof {
                lemma_tuples_step(bound, was, pos as int);
                assert(ints(digits@) =~= stepped(bound, was, pos as int));
                assert(digits@[pos as int] == old(digits)@[pos as int] + 1) by {
                    assert(was[pos as int] == old(digits)@[pos as int]);
                }
                assert forall|i: int| 0 <= i < pos implies #[trigger] digits@[i] == old(
                    digits,
                )@[i] by {
                    assert(was[i] == old(digits)@[i]);
                }
                assert forall|i: int| pos < i < digits@.len() implies #[trigger] digits@[i] == 0
                    && old(digits)@[i] == radix@[i] - 1 by {
                    assert(was[i] == old(digits)@[i]);
                    assert(bound[i] == radix@[i]);
                    assert(was[i] == bound[i] - 1);
                }
            }
            return true;
        }
        digits[pos] = 0;
    }
    proof {
        lemma_tuples_last(bound, was);
        assert forall|i: int| 0 <= i < old(digits)@.len() implies (#[trigger] old(digits)@[i])
            == radix@[i] - 1 by {
            assert(was[i] == old(digits)@[i]);
            assert(bound[i] == radix@[i]);
            assert(was[i] == bound[i] - 1);
        }
        let now = ints(digits@);
        assert forall|i: int| #![trigger now[i]] 0 <= i < now.len() implies 0 <= now[i]
            < bound[i] by {
            assert(digits@[i] == 0);
            assert(0 <= was[i] < bound[i]);
        }
        assert(now =~= zeros(bound.len()));
    }
    false
}

proof fn lemma_next(radix: Seq<int>, d: Seq<int>, p: int)
    requires
        within(radix, d),
        0 <= p <= d.len(),
        forall|i: int| p <= i < d.len() ==> #[trigger] d[i] == radix[i] - 1,
    ensures
        ({
            let (next, more) = next_digits(radix, d);
            more ==> within(radix, next) && tuples_after(radix, d) == seq![next] + tuples_after(
                radix,
                next,
            )
        }),
    decreases p,
{
    if p == 0 {
        lemma_tuples_last(radix, d);
    } else {
        assert(0 <= d[p - 1] < radix[p - 1]);
        if d[p - 1] + 1 < radix[p - 1] {
            lemma_tuples_step(radix, d, p - 1);
        } else {
            lemma_next(radix, d, p - 1);
        }
    }
}

proof fn lemma_nth(radix: Seq<int>, n: nat)
    requires
        forall|i: int| 0 <= i < radix.len() ==> #[trigger] radix[i] > 0,
        n < tuples(radix).len(),
    ensures
        within(radix, nth_digits(radix, n)),
        nth_digits(radix, n) == tuples(radix)[n as int],
        tuples_after(radix, nth_digits(radix, n)) == tuples(radix).skip(n as int + 1),
    decreases n,
{
    let all = tuples(radix);
    let z = zeros(radix.len());
    lemma_tuples_start(radix);
    if n == 0 {
        assert forall|i: int| #![trigger z[i]] 0 <= i < z.len() implies 0 <= z[i] < radix[i] by {
            assert(radix[i] > 0);
        }
        assert(all.skip(1) =~= tuples_after(radix, z));
    } else {
        let d = nth_digits(radix, (n - 1) as nat);
        lemma_nth(radix, (n - 1) as nat);
        lemma_next(radix, d, d.len() as int);
        let next = nth_digits(radix, n);
        assert(all.skip(n as int)[0] == all[n as int]);
        assert(tuples_after(radix, next) =~= all.skip(n as int).drop_first());
        assert(all.skip(n as int).drop_first() =~= all.skip(n as int + 1));
    }
}

/// Counting visits every digit sequence once: the steps before the last digit sequence succeed and
/// lead to sequences that are all different, in the order of `tuples`, and the step after it fails
/// and leads back to the zeros.
pub proof fn counting_visits_everything_once(radix: Seq<int>)
    requires
        forall|i: int| 0 <= i < radix.len() ==> #[trigger] radix[i] > 0,
    ensures
        tuples(radix).len() == product(radix),
        product(radix) > 0,
        nth_digits(radix, 0) == zeros(radix.len()),
        forall|n: nat|
            n < product(radix) ==> #[trigger] nth_digits(radix, n) == tuples(radix)[n as int],
        forall|n: nat|
            n + 1 < product(radix) ==> next_digits(radix, #[trigger] nth_digits(radix, n)).1,
        !next_digits(radix, nth_digits(radix, (product(radix) - 1) as nat)).1,
        nth_digits(radix, product(radix) as nat) == zeros(radix.len()),
        forall|m: nat, n: nat|
            m < n < product(radix) ==> #[trigger] nth_digits(radix, m) != #[trigger] nth_digits(
                radix,
                n,
            ),
{
    let all = tuples(radix);
    lemma_tuples_len(radix);
    lemma_tuples_start(radix);
    assert forall|n: nat| n < product(radix) implies #[trigger] nth_digits(radix, n)
        == all[n as int] by {
        lemma_nth(radix, n);
    }
    assert forall|n: nat| n + 1 < product(radix) implies next_digits(
        radix,
        #[trigger] nth_digits(radix, n),
    ).1 by {
        lemma_nth(radix, n);
        assert(all.skip(n as int + 1).len() > 0);
    }
    lemma_nth(radix, (product(radix) - 1) as nat);
    assert(all.skip(product(radix)).len() == 0);
    assert forall|m: nat, n: nat| m < n < product(radix) implies #[trigger] nth_digits(radix, m)
        != #[trigger] nth_digits(radix, n) by {
        lemma_nth(radix, m);
        lemma_nth(radix, n);
        assert(all.skip(m as int + 1).len() != all.skip(n as int + 1).len());
    }
}

} // verus!
