//! How many phrases word mode tries.
use vstd::arithmetic::power::{lemma_pow0, lemma_pow_increases, pow};
use vstd::prelude::*;

use crate::listing::{fact, lemma_concat_len, lemma_permutations_len, lemma_tuples_len, product};
use crate::phrases::lemma_fact_positive;
use crate::places::{count, free_at, has_number};
use crate::text::texts;
use crate::tokens::is_pinned;
use crate::word_mode::{
    insertion_radix, insertions, insertions_of, lemma_insertions, lemma_movable_len, movable_words,
    pinned_indices, pinned_orders, split_pinned_words, unpinned_words, word_candidates,
};
use crate::word_report::is_word_count;

verus! {

proof fn lemma_fact_grows(m: nat, n: nat)
    requires
        m <= n,
    ensures
        fact(m) <= fact(n),
    decreases n,
{
    if m < n {
        lemma_fact_grows(m, (n - 1) as nat);
        lemma_fact_positive((n - 1) as nat);
        let f = fact((n - 1) as nat) as int;
        assert(f <= n * f) by (nonlinear_arith)
            requires
                f >= 1,
                n >= 1,
        ;
    }
}

/// The number of orders of `n` things.
pub fn factorial(n: usize) -> (r: usize)
    requires
        fact(n as nat) <= usize::MAX,
    ensures
        r == fact(n as nat),
        n == 0 ==> r == 1,
        n > 0 ==> r == n * fact((n - 1) as nat),
{
    let mut r: usize = 1;
    let mut i: usize = 0;
    while i < n
        invariant
            i <= n,
            fact(n as nat) <= usize::MAX,
            r == fact(i as nat),
        decreases n - i,
    {
        i += 1;
        proof {
            lemma_fact_grows(i as nat, n as nat);
            assert(i * r == r * i) by (nonlinear_arith);
        }
        r = r * i;
    }
    r
}

/// `(n + 1) * (n + 2) * ... * (n + k)`.
pub open spec fn rising(n: nat, k: nat) -> nat
    decreases k,
{
    if k == 0 {
        1
    } else {
        rising(n, (k - 1) as nat) * (n + k)
    }
}

/// Each word that is put in finds one gap more than the one before it, and as many things more have
/// that many times as many orders.
pub proof fn gaps_and_orders_grow(n: nat, k: nat)
    ensures
        rising(n, 0) == 1,
        rising(n, k + 1) == rising(n, k) * (n + k + 1),
        fact(0) == 1,
        fact(n + 1) == (n + 1) * fact(n),
{
}

proof fn lemma_rising_grows(n: nat, j: nat, k: nat)
    requires
        j <= k,
    ensures
        1 <= rising(n, j) <= rising(n, k),
    decreases k,
{
    if k > 0 {
        lemma_rising_grows(n, if j < k { j } else { (k - 1) as nat }, (k - 1) as nat);
        let r = rising(n, (k - 1) as nat);
        assert(r <= r * (n + k)) by (nonlinear_arith)
            requires
                r >= 1,
                n + k >= 1,
        ;
    }
}

/// How many phrases there are around `n` known words of which `movable` are not pinned, with
/// `missing` words out of `wl_len` put in: the orders of the movable words, times the gaps that
/// each missing word can go into, times the words that it can be.
pub open spec fn word_total(n: nat, movable: nat, wl_len: nat, missing: nat) -> int {
    fact(movable) * rising(n, missing) * pow(wl_len as int, missing)
}

/// The number of phrases that word mode tries.
pub fn word_mode_total(n: usize, movable: usize, wl_len: usize, missing: usize) -> (r: usize)
    requires
        n + missing <= usize::MAX,
        fact(movable as nat) * rising(n as nat, missing as nat) <= usize::MAX,
        pow(wl_len as int, missing as nat) <= usize::MAX,
        word_total(n as nat, movable as nat, wl_len as nat, missing as nat) <= usize::MAX,
    ensures
        r == word_total(n as nat, movable as nat, wl_len as nat, missing as nat),
        r == fact(movable as nat) * rising(n as nat, missing as nat) * pow(
            wl_len as int,
            missing as nat,
        ),
{
    let ghost orders = fact(movable as nat) as int;
    let ghost gaps = rising(n as nat, missing as nat) as int;
    proof {
        lemma_fact_positive(movable as nat);
        lemma_rising_grows(n as nat, 0, missing as nat);
        assert(orders <= orders * gaps && gaps <= orders * gaps) by (nonlinear_arith)
            requires
                orders >= 1,
                gaps >= 1,
        ;
        lemma_pow0(wl_len as int);
    }
    let perm_count = factorial(movable);
    let mut positions: usize = 1;
    let mut choices: usize = 1;
    let mut i: usize = 0;
    while i < missing
        invariant
            i <= missing,
            n + missing <= usize::MAX,
            rising(n as nat, missing as nat) <= usize::MAX,
            pow(wl_len as int, missing as nat) <= usize::MAX,
            positions == rising(n as nat, i as nat),
            choices == pow(wl_len as int, i as nat),
        decreases missing - i,
    {
        i += 1;
        proof {
            lemma_rising_grows(n as nat, i as nat, missing as nat);
            lemma_power_step(wl_len as nat, i as nat, missing as nat);
            assert(choices * wl_len == wl_len * choices) by (nonlinear_arith);
        }
        positions = positions * (n + i);
        choices = choices * wl_len;
    }
    perm_count * positions * choices
}

proof fn lemma_power_step(b: nat, j: nat, k: nat)
    requires
        0 < j <= k,
    ensures
        pow(b as int, j) == b * pow(b as int, (j - 1) as nat),
        0 <= pow(b as int, j),
        pow(b as int, j) <= pow(b as int, k),
{
    reveal(pow);
    if b > 0 {
        lemma_pow_increases(b, j, k);
        lemma_pow_increases(b, 0, j);
        lemma_pow0(b as int);
    } else {
        vstd::arithmetic::power::lemma0_pow(j);
        vstd::arithmetic::power::lemma0_pow(k);
    }
}

proof fn lemma_insertion_product(len: nat, missing: nat, list_len: nat)
    ensures
        product(insertion_radix(len as int, missing, list_len as int)) == rising(len, missing) * pow(
            list_len as int,
            missing,
        ),
    decreases missing,
{
    let r = insertion_radix(len as int, missing, list_len as int);
    lemma_pow0(list_len as int);
    if missing > 0 {
        let less = (missing - 1) as nat;
        let rest = insertion_radix(len as int + 1, less, list_len as int);
        lemma_insertion_product((len + 1) as nat, less, list_len);
        assert(r.drop_first().drop_first() =~= rest);
        assert(r.drop_first()[0] == list_len);
        assert(product(r) == (len + 1) * product(r.drop_first()));
        assert(product(r.drop_first()) == list_len * product(rest));
        lemma_rising_first(len, missing);
        lemma_power_step(list_len, missing, missing);
        let a = rising((len + 1) as nat, less) as int;
        let p = pow(list_len as int, less);
        assert((len + 1) * (list_len * (a * p)) == ((len + 1) * a) * (list_len * p))
            by (nonlinear_arith);
    }
}

proof fn lemma_rising_first(n: nat, k: nat)
    requires
        k > 0,
    ensures
        rising(n, k) == (n + 1) * rising((n + 1) as nat, (k - 1) as nat),
    decreases k,
{
    if k > 1 {
        lemma_rising_first(n, (k - 1) as nat);
        let m = (n + 1) as nat;
        let j = (k - 1) as nat;
        let a = rising(m, (j - 1) as nat) as int;
        assert(rising(n, k) == rising(n, j) * (n + k));
        assert(rising(n, j) == (n + 1) * a);
        assert(rising(m, j) == a * (m + j));
        assert(((n + 1) * a) * (n + k) == (n + 1) * (a * (n + k))) by (nonlinear_arith);
        assert(m + j == n + k);
    } else {
        let a = rising(n, 0);
        let b = rising((n + 1) as nat, 0);
        assert(rising(n, 1) == a * (n + 1));
        assert(a * (n + 1) == (n + 1) * b) by (nonlinear_arith)
            requires
                a == b,
        ;
    }
}

/// Putting words in one after the other gives one phrase for each choice of gaps and words.
pub proof fn insertions_count(base: Seq<Seq<char>>, missing: nat, list: Seq<Seq<char>>)
    ensures
        insertions(base, missing, list).len() == rising(base.len(), missing) * pow(
            list.len() as int,
            missing,
        ),
{
    lemma_insertions(base, missing, list);
    let radix = insertion_radix(base.len() as int, missing, list.len() as int);
    crate::word_mode::lemma_radix_sign(base.len() as int, missing, list.len() as int);
    lemma_tuples_len(radix);
    lemma_insertion_product(base.len(), missing, list.len());
}

/// The number that `word_mode_total` computes is the number of phrases that word mode yields.
pub proof fn word_candidates_count(
    words: Seq<Seq<char>>,
    pinned: Seq<usize>,
    missing: nat,
    list: Seq<Seq<char>>,
)
    ensures
        word_candidates(words, pinned, missing, list).len() == word_total(
            words.len(),
            movable_words(words, pinned).len(),
            list.len(),
            missing,
        ),
{
    let orders = pinned_orders(words, pinned);
    let movable = movable_words(words, pinned);
    lemma_permutations_len(movable);
    let each = rising(words.len(), missing) * pow(list.len() as int, missing);
    let f = insertions_of(orders, missing, list);
    insertions_count(words, missing, list);
    assert forall|i: int| 0 <= i < orders.len() implies (#[trigger] f(i)).len() == each by {
        insertions_count(orders[i], missing, list);
        assert(orders[i].len() == words.len());
    }
    lemma_concat_len(0, orders.len() as int, f, each as nat);
    let o = fact(movable.len()) as int;
    let r = rising(words.len(), missing) as int;
    let p = pow(list.len() as int, missing);
    assert(o * (r * p) == o * r * p) by (nonlinear_arith);
}

/// The gaps for the missing words of a twelve-word phrase number `12! / n!`.
pub proof fn rising_to_twelve(n: nat)
    requires
        n <= 12,
    ensures
        rising(n, (12 - n) as nat) * fact(n) == fact(12),
{
    lemma_rising_fact(n, (12 - n) as nat);
}

proof fn lemma_rising_fact(n: nat, k: nat)
    ensures
        rising(n, k) * fact(n) == fact((n + k) as nat),
    decreases k,
{
    if k == 0 {
        assert(1 * fact(n) == fact(n)) by (nonlinear_arith);
    } else {
        lemma_rising_fact(n, (k - 1) as nat);
        let r = rising(n, (k - 1) as nat) as int;
        let f = fact(n) as int;
        assert((r * (n + k)) * f == (n + k) * (r * f)) by (nonlinear_arith);
        assert(fact((n + k) as nat) == (n + k) * fact((n + k - 1) as nat));
    }
}

////// Twelve-word phrases

proof fn lemma_total_fits(n: nat, movable: nat, wl_len: nat)
    requires
        10 <= n <= 12,
        movable <= n,
        wl_len <= 2048,
    ensures
        fact(movable) * rising(n, (12 - n) as nat) <= 479_001_600 * 132,
        0 <= pow(wl_len as int, (12 - n) as nat) <= 2048 * 2048,
        word_total(n, movable, wl_len, (12 - n) as nat) <= 479_001_600 * 132 * 2048 * 2048,
        fact(movable) <= 479_001_600,
{
    let k = (12 - n) as nat;
    let f = fact(movable) as int;
    let g = rising(n, k) as int;
    let p = pow(wl_len as int, k);
    lemma_fact_grows(movable, 12);
    lemma_fact_positive(movable);
    assert(fact(12) == 479_001_600) by {
        assert(fact(0) == 1);
        assert(fact(1) == 1);
        assert(fact(2) == 2);
        assert(fact(3) == 6);
        assert(fact(4) == 24);
        assert(fact(5) == 120);
        assert(fact(6) == 720);
        assert(fact(7) == 5040);
        assert(fact(8) == 40320);
        assert(fact(9) == 362880);
        assert(fact(10) == 3628800);
        assert(fact(11) == 39916800);
        assert(fact(12) == 479001600);
    }
    assert(g <= 132) by {
        reveal_with_fuel(rising, 3);
    }
    lemma_rising_grows(n, 0, k);
    assert(0 <= p <= 2048 * 2048) by {
        reveal(pow);
        reveal_with_fuel(pow, 3);
        assert(wl_len * wl_len <= 2048 * 2048) by (nonlinear_arith)
            requires
                wl_len <= 2048,
        ;
        assert(wl_len * 1 == wl_len);
        assert(0 <= wl_len * wl_len) by (nonlinear_arith);
    }
    assert(f * g <= 479_001_600 * 132) by (nonlinear_arith)
        requires
            0 <= f <= 479_001_600,
            0 <= g <= 132,
    ;
    assert(0 <= f * g) by (nonlinear_arith)
        requires
            0 <= f,
            0 <= g,
    ;
    let a = f * g;
    assert(a * p <= (479_001_600 * 132) * (2048 * 2048)) by (nonlinear_arith)
        requires
            0 <= a <= 479_001_600 * 132,
            0 <= p <= 2048 * 2048,
    ;
}

/// What word mode searches for.
pub struct WordSetup {
    /// The known words, without the quotes of the pinned ones.
    pub known: Vec<String>,
    /// The indices of the pinned words.
    pub pinned: Vec<usize>,
    /// How many words of the phrase are not known.
    pub missing: usize,
    /// How many phrases there are to try.
    pub total: usize,
}

/// Prepares the search for twelve-word phrases around the words that the user gave.
pub fn prepare_words(words: &[String], wl_len: usize) -> (r: WordSetup)
    requires
        is_word_count(words@.len() as int),
        words@.len() == 12 || (usize::BITS == 64 && wl_len <= 2048),
    ensures
        texts(r.known@) == unpinned_words(texts(words@)),
        r.known@.len() == words@.len(),
        r.pinned@ == pinned_indices(texts(words@)),
        forall|k: int| 0 <= k < r.pinned@.len() ==> #[trigger] r.pinned@[k] < r.known@.len(),
        r.missing == 12 - words@.len(),
        r.total == word_total(
            words@.len(),
            (words@.len() - r.pinned@.len()) as nat,
            wl_len as nat,
            r.missing as nat,
        ),
        r.total == fact((words@.len() - r.pinned@.len()) as nat) * rising(
            words@.len(),
            r.missing as nat,
        ) * pow(wl_len as int, r.missing as nat),
        words@.len() + r.missing == 12,
        forall|i: int|
            0 <= i < words@.len() ==> (r.pinned@.contains(i as usize) <==> (
            #[trigger] words@[i])@.len() >= 2 && words@[i]@[0] == '"' && words@[i]@[words@[i]@.len()
                - 1] == '"'),
        forall|k: int, l: int|
            0 <= k < l < r.pinned@.len() ==> #[trigger] r.pinned@[k] < #[trigger] r.pinned@[l],
        forall|i: int|
            0 <= i < words@.len() ==> if r.pinned@.contains(i as usize) {
                words@[i]@ == seq!['"'] + (#[trigger] r.known@[i])@ + seq!['"']
            } else {
                r.known@[i]@ == words@[i]@
            },
{
    let (known, pinned) = split_pinned_words(words);
    let n = known.len();
    let missing = 12 - n;
    proof {
        let movable = (n - pinned@.len()) as nat;
        if n == 12 {
            lemma_total_fits(12, movable, 0);
            lemma_pow0(wl_len as int);
            assert(rising(12, 0) == 1);
            assert(fact(movable) * 1 * 1 == fact(movable)) by (nonlinear_arith);
        } else {
            lemma_total_fits(n as nat, movable, wl_len as nat);
        }
    }
    let total = word_mode_total(n, n - pinned.len(), wl_len, missing);
    WordSetup { known, pinned, missing, total }
}

proof fn lemma_pinned_indices(ws: Seq<Seq<char>>)
    requires
        ws.len() <= usize::MAX,
    ensures
        count(ws.len() as int, free_at(pinned_indices(ws))) == ws.len() - pinned_indices(ws).len(),
        forall|k: int|
            0 <= k < pinned_indices(ws).len() ==> (#[trigger] pinned_indices(ws)[k]) < ws.len(),
    decreases ws.len(),
{
    let now = pinned_indices(ws);
    if ws.len() > 0 {
        let less = ws.drop_last();
        let was = pinned_indices(less);
        let n = less.len() as int;
        lemma_pinned_indices(less);
        assert forall|i: int| 0 <= i < n implies #[trigger] free_at(now)(i) == free_at(was)(i) by {
            if has_number(now, i) {
                let k = choose|k: int| 0 <= k < now.len() && #[trigger] now[k] == i;
                assert(was[k] == i);
            }
            if has_number(was, i) {
                let k = choose|k: int| 0 <= k < was.len() && #[trigger] was[k] == i;
                assert(now[k] == i);
            }
        }
        lemma_count_same(n, free_at(now), free_at(was));
        if is_pinned(ws.last()) {
            assert(now[now.len() - 1] == n);
            assert(has_number(now, n));
        } else if has_number(now, n) {
            let k = choose|k: int| 0 <= k < now.len() && #[trigger] now[k] == n;
            assert(was[k] < n);
        }
    }
}

proof fn lemma_count_same(n: int, p: spec_fn(int) -> bool, q: spec_fn(int) -> bool)
    requires
        forall|i: int| 0 <= i < n ==> #[trigger] p(i) == q(i),
    ensures
        count(n, p) == count(n, q),
    decreases n,
{
    if n > 0 {
        lemma_count_same(n - 1, p, q);
        assert(p(n - 1) == q(n - 1));
    }
}

/// The total that is announced is the number of phrases that are tried.
pub proof fn announced_total_is_exact(ws: Seq<Seq<char>>, missing: nat, list: Seq<Seq<char>>)
    requires
        ws.len() <= usize::MAX,
    ensures
        word_candidates(unpinned_words(ws), pinned_indices(ws), missing, list).len() == word_total(
            ws.len(),
            (ws.len() - pinned_indices(ws).len()) as nat,
            list.len(),
            missing,
        ),
{
    lemma_pinned_indices(ws);
    lemma_movable_len(unpinned_words(ws), pinned_indices(ws));
    word_candidates_count(unpinned_words(ws), pinned_indices(ws), missing, list);
}

} // verus!
