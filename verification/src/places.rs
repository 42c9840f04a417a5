//! Positions: which of them are taken, by what, and how many come before.
use vstd::prelude::*;

verus! {

/// The number of `i` in `0..n` for which `p(i)` holds.
pub open spec fn count(n: int, p: spec_fn(int) -> bool) -> int
    decreases n,
{
    if n <= 0 {
        0
    } else {
        count(n - 1, p) + if p(n - 1) {
            1int
        } else {
            0
        }
    }
}

/// A count grows by at most one with each place.
pub proof fn lemma_count_bounds(m: int, n: int, p: spec_fn(int) -> bool)
    requires
        0 <= m <= n,
    ensures
        0 <= count(m, p) <= count(n, p) <= count(m, p) + (n - m),
    decreases n,
{
    if m < n {
        lemma_count_bounds(m, n - 1, p);
    } else if m > 0 {
        lemma_count_bounds(m - 1, n - 1, p);
    }
}

/// Some pair of `pairs` has this key.
pub open spec fn has_key(pairs: Seq<(usize, u16)>, key: int) -> bool {
    exists|k: int| 0 <= k < pairs.len() && #[trigger] pairs[k].0 == key
}

/// The value of the last pair with this key.
pub open spec fn last_value(pairs: Seq<(usize, u16)>, key: int) -> u16
    decreases pairs.len(),
{
    if pairs.len() == 0 {
        0
    } else if pairs.last().0 == key {
        pairs.last().1
    } else {
        last_value(pairs.drop_last(), key)
    }
}

/// `list` holds this number.
pub open spec fn has_number(list: Seq<usize>, n: int) -> bool {
    exists|k: int| 0 <= k < list.len() && #[trigger] list[k] == n
}

/// The positions that are not in `taken`.
pub open spec fn free_at(taken: Seq<usize>) -> spec_fn(int) -> bool {
    |q: int| !has_number(taken, q)
}

/// Whether some pair has this key.
pub fn is_key(pairs: &[(usize, u16)], key: usize) -> (r: bool)
    ensures
        r == has_key(pairs@, key as int),
        r <==> exists|k: int| 0 <= k < pairs@.len() && #[trigger] pairs@[k].0 == key,
{
    let mut k: usize = 0;
    while k < pairs.len()
        invariant
            k <= pairs.len(),
            forall|j: int| 0 <= j < k ==> #[trigger] pairs@[j].0 != key,
        decreases pairs.len() - k,
    {
        if pairs[k].0 == key {
            assert(pairs@[k as int].0 == key);
            return true;
        }
        k += 1;
    }
    false
}

/// Whether the list holds this number.
pub fn is_number(list: &[usize], n: usize) -> (r: bool)
    ensures
        r == has_number(list@, n as int),
        r <==> list@.contains(n),
{
    let mut k: usize = 0;
    while k < list.len()
        invariant
            k <= list.len(),
            forall|j: int| 0 <= j < k ==> #[trigger] list@[j] != n,
        decreases list.len() - k,
    {
        if list[k] == n {
            assert(list@[k as int] == n);
            return true;
        }
        k += 1;
    }
    false
}

/// A list has a number exactly if the number stands in it.
pub proof fn number_stands_in_the_list(list: Seq<usize>, n: int)
    ensures
        has_number(list, n) <==> exists|k: int| 0 <= k < list.len() && #[trigger] list[k] as int == n,
        0 <= n <= usize::MAX ==> (has_number(list, n) <==> list.contains(n as usize)),
{
    if has_number(list, n) {
        let k = choose|k: int| 0 <= k < list.len() && #[trigger] list[k] == n;
        assert(list[k] as int == n);
    }
    if exists|k: int| 0 <= k < list.len() && #[trigger] list[k] as int == n {
        let k = choose|k: int| 0 <= k < list.len() && #[trigger] list[k] as int == n;
        assert(list[k] == n);
    }
    if 0 <= n <= usize::MAX && list.contains(n as usize) {
        let k = list.index_of(n as usize);
        assert(list[k] == n);
    }
}

/// Counting goes on by one at each place that counts.
pub proof fn counting_goes_on_by_one(n: nat, p: spec_fn(int) -> bool)
    ensures
        count(0, p) == 0,
        p(n as int) ==> count(n as int + 1, p) == count(n as int, p) + 1,
        !p(n as int) ==> count(n as int + 1, p) == count(n as int, p),
{
}

} // verus!
