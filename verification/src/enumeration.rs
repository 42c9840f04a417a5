//! The two enumerations taken from `itertools`: orderings and selections of `0..n`.
use vstd::prelude::*;

use itertools::{Combinations, Itertools, Permutations};
use std::ops::Range;

use crate::listing::{combinations, permutations};

verus! {

/// The numbers of an index vector, as mathematical integers.
pub open spec fn ints(s: Seq<usize>) -> Seq<int> {
    s.map_values(|x: usize| x as int)
}

/// `0, 1, ..., n - 1`
pub open spec fn iota(n: nat) -> Seq<int> {
    Seq::new(n, |i: int| i)
}

/// The iterator that `itertools::Itertools::permutations` returns.
#[verifier::external_type_specification]
#[verifier::external_body]
#[verifier::reject_recursive_types(I)]
pub struct ExPermutations<I: Iterator>(itertools::Permutations<I>);

/// The orderings that a `Permutations` has yet to yield, first one first.
pub uninterp spec fn permutations_left(p: Permutations<Range<usize>>) -> Seq<Seq<int>>;

/// `Itertools::permutations` over `0..n` with all `n` elements: every ordering of the range, in
/// lexicographic order.
#[verifier::external_body]
pub(crate) fn permutations_of(n: usize) -> (r: Permutations<Range<usize>>)
    ensures
        permutations_left(r) == permutations(iota(n as nat)),
{
    (0..n).permutations(n)
}

/// `Permutations::next`: takes the first ordering that is left, or yields `None` and goes on
/// yielding `None` once none is left.
#[verifier::external_body]
pub(crate) fn next_permutation(p: &mut Permutations<Range<usize>>) -> (r: Option<Vec<usize>>)
    ensures
        match r {
            Some(v) => {
                &&& permutations_left(*old(p)).len() > 0
                &&& ints(v@) == permutations_left(*old(p))[0]
                &&& permutations_left(*final(p)) == permutations_left(*old(p)).drop_first()
            },
            None => {
                &&& permutations_left(*old(p)).len() == 0
                &&& permutations_left(*final(p)) == permutations_left(*old(p))
            },
        },
{
    p.next()
}

/// The iterator that `itertools::Itertools::combinations` returns.
#[verifier::external_type_specification]
#[verifier::external_body]
#[verifier::reject_recursive_types(I)]
pub struct ExCombinations<I: Iterator>(itertools::Combinations<I>);

/// The selections that a `Combinations` has yet to yield, first one first.
pub uninterp spec fn combinations_left(c: Combinations<Range<usize>>) -> Seq<Seq<int>>;

/// `Itertools::combinations` over `0..n`: every increasing selection of `k` elements of the
/// range, in lexicographic order.
#[verifier::external_body]
pub(crate) fn combinations_of(n: usize, k: usize) -> (r: Combinations<Range<usize>>)
    requires
        k <= n,
    ensures
        combinations_left(r) == combinations(0, n as int, k as int),
{
    (0..n).combinations(k)
}

/// `Combinations::next`: takes the first selection that is left, or yields `None` and goes on
/// yielding `None` once none is left.
#[verifier::external_body]
pub(crate) fn next_combination(c: &mut Combinations<Range<usize>>) -> (r: Option<Vec<usize>>)
    ensures
        match r {
            Some(v) => {
                &&& combinations_left(*old(c)).len() > 0
                &&& ints(v@) == combinations_left(*old(c))[0]
                &&& combinations_left(*final(c)) == combinations_left(*old(c)).drop_first()
            },
            None => {
                &&& combinations_left(*old(c)).len() == 0
                &&& combinations_left(*final(c)) == combinations_left(*old(c))
            },
        },
{
    c.next()
}

/// A list of index vectors, each as mathematical integers.
pub open spec fn int_rows(rows: Seq<Vec<usize>>) -> Seq<Seq<int>> {
    rows.map_values(|r: Vec<usize>| ints(r@))
}

/// All orderings of `0..n`, in lexicographic order.
pub fn all_permutations(n: usize) -> (r: Vec<Vec<usize>>)
    ensures
        int_rows(r@) == permutations(iota(n as nat)),
{
    let mut left = permutations_of(n);
    let mut rows: Vec<Vec<usize>> = Vec::new();
    let ghost all = permutations(iota(n as nat));
    assert(int_rows(rows@) + permutations_left(left) =~= all);
    loop
        invariant
            int_rows(rows@) + permutations_left(left) == all,
        ensures
            int_rows(rows@) == all,
        decreases permutations_left(left).len(),
    {
        let ghost before = rows@;
        let ghost left_before = permutations_left(left);
        match next_permutation(&mut left) {
            Some(row) => {
                rows.push(row);
                assert(int_rows(rows@) =~= int_rows(before).push(left_before[0]));
                assert(int_rows(rows@) + permutations_left(left) =~= int_rows(before)
                    + left_before);
            },
            None => {
                assert(int_rows(rows@) + permutations_left(left) =~= int_rows(rows@));
                break;
            },
        }
    }
    rows
}

} // verus!
