//! Ordered listings: the mathematical vocabulary for what is enumerated, and in what order.
use vstd::prelude::*;

verus! {

/// The sequences `f(lo)`, `f(lo + 1)`, ..., `f(hi - 1)` one after the other.
pub open spec fn concat_range<T>(lo: int, hi: int, f: spec_fn(int) -> Seq<T>) -> Seq<T>
    decreases hi - lo,
{
    if hi <= lo {
        Seq::empty()
    } else {
        concat_range(lo, hi - 1, f) + f(hi - 1)
    }
}

/// Every sequence of `tails` with `v` put in front of it.
pub open spec fn prefixed<T>(v: T, tails: Seq<Seq<T>>) -> Seq<Seq<T>> {
    tails.map_values(|t: Seq<T>| seq![v] + t)
}

/// All digit sequences with `0 <= d[i] < radix[i]`, in lexicographic order.
pub open spec fn tuples(radix: Seq<int>) -> Seq<Seq<int>>
    decreases radix.len(),
{
    if radix.len() == 0 {
        seq![Seq::empty()]
    } else {
        let rest = tuples(radix.drop_first());
        concat_range(0, radix[0], |v: int| prefixed(v, rest))
    }
}

/// The digit sequences of `tuples(radix)` that come strictly after `d`.
pub open spec fn tuples_after(radix: Seq<int>, d: Seq<int>) -> Seq<Seq<int>>
    decreases radix.len(),
{
    if radix.len() == 0 {
        Seq::empty()
    } else {
        let rest = tuples(radix.drop_first());
        prefixed(d[0], tuples_after(radix.drop_first(), d.drop_first())) + concat_range(
            d[0] + 1,
            radix[0],
            |v: int| prefixed(v, rest),
        )
    }
}

/// The digit sequence `d` stays within `radix`.
pub open spec fn within(radix: Seq<int>, d: Seq<int>) -> bool {
    &&& d.len() == radix.len()
    &&& forall|i: int| #![trigger d[i]] 0 <= i < d.len() ==> 0 <= d[i] < radix[i]
}

/// `n` zeros.
pub open spec fn zeros(n: nat) -> Seq<int> {
    Seq::new(n, |i: int| 0int)
}

/// The product of all entries of `s`.
pub open spec fn product(s: Seq<int>) -> int
    decreases s.len(),
{
    if s.len() == 0 {
        1
    } else {
        s[0] * product(s.drop_first())
    }
}

/// All orderings of `s`, in lexicographic order of the positions in `s`.
pub open spec fn permutations<T>(s: Seq<T>) -> Seq<Seq<T>>
    decreases s.len(), 1int,
{
    if s.len() == 0 {
        seq![Seq::empty()]
    } else {
        concat_range(0, s.len() as int, permutations_by_head(s))
    }
}

/// The orderings of `s` that start with `s[i]`, as a function of `i`.
pub open spec fn permutations_by_head<T>(s: Seq<T>) -> spec_fn(int) -> Seq<Seq<T>>
    decreases s.len(), 0int,
{
    |i: int|
        if 0 <= i < s.len() {
            prefixed(s[i], permutations(s.remove(i)))
        } else {
            Seq::empty()
        }
}

/// All strictly increasing sequences of `k` numbers from `lo..n`, in lexicographic order.
pub open spec fn combinations(lo: int, n: int, k: int) -> Seq<Seq<int>>
    decreases n - lo,
{
    if k <= 0 {
        seq![Seq::empty()]
    } else if lo >= n {
        Seq::empty()
    } else {
        prefixed(lo, combinations(lo + 1, n, k - 1)) + combinations(lo + 1, n, k)
    }
}

/// `n!`
pub open spec fn fact(n: nat) -> nat
    decreases n,
{
    if n == 0 {
        1
    } else {
        n * fact((n - 1) as nat)
    }
}

////// Concatenation

/// A concatenation starts with its first part.
pub proof fn lemma_concat_first<T>(lo: int, hi: int, f: spec_fn(int) -> Seq<T>)
    requires
        lo < hi,
    ensures
        concat_range(lo, hi, f) == f(lo) + concat_range(lo + 1, hi, f),
    decreases hi - lo,
{
    if lo + 1 < hi {
        lemma_concat_first(lo, hi - 1, f);
        assert((f(lo) + concat_range(lo + 1, hi - 1, f)) + f(hi - 1) =~= f(lo) + (concat_range(
            lo + 1,
            hi - 1,
            f,
        ) + f(hi - 1)));
    } else {
        reveal_with_fuel(concat_range, 2);
        assert(concat_range(lo, hi, f) =~= f(lo) + concat_range(lo + 1, hi, f));
    }
}

/// Equal parts give equal concatenations.
pub proof fn lemma_concat_ext<T>(lo: int, hi: int, f: spec_fn(int) -> Seq<T>, g: spec_fn(int) -> Seq<T>)
    requires
        forall|i: int| lo <= i < hi ==> #[trigger] f(i) == g(i),
    ensures
        concat_range(lo, hi, f) == concat_range(lo, hi, g),
    decreases hi - lo,
{
    if lo < hi {
        lemma_concat_ext(lo, hi - 1, f, g);
        assert(f(hi - 1) == g(hi - 1));
    }
}

/// Parts of one length give a multiple of it.
pub proof fn lemma_concat_len<T>(lo: int, hi: int, f: spec_fn(int) -> Seq<T>, c: nat)
    requires
        lo <= hi,
        forall|i: int| lo <= i < hi ==> (#[trigger] f(i)).len() == c,
    ensures
        concat_range(lo, hi, f).len() == (hi - lo) * c,
    decreases hi - lo,
{
    if lo < hi {
        lemma_concat_len(lo, hi - 1, f, c);
        assert(f(hi - 1).len() == c);
        assert((hi - 1 - lo) * c + c == (hi - lo) * c) by (nonlinear_arith);
    } else {
        assert((hi - lo) * c == 0) by (nonlinear_arith)
            requires
                hi == lo,
        ;
    }
}

/// A concatenation contains what its parts contain.
pub proof fn lemma_concat_contains<T>(lo: int, hi: int, f: spec_fn(int) -> Seq<T>, x: T)
    ensures
        concat_range(lo, hi, f).contains(x) <==> exists|i: int|
            lo <= i < hi && #[trigger] f(i).contains(x),
    decreases hi - lo,
{
    if lo < hi {
        lemma_concat_contains(lo, hi - 1, f, x);
        let a = concat_range(lo, hi - 1, f);
        let b = f(hi - 1);
        lemma_add_contains(a, b, x);
        if b.contains(x) {
            assert(lo <= hi - 1 < hi && f(hi - 1).contains(x));
        }
    }
}

/// Two sequences in a row contain what either contains.
pub proof fn lemma_add_contains<T>(a: Seq<T>, b: Seq<T>, x: T)
    ensures
        (a + b).contains(x) <==> a.contains(x) || b.contains(x),
{
    if a.contains(x) {
        let i = a.index_of(x);
        assert((a + b)[i] == x);
    }
    if b.contains(x) {
        let i = b.index_of(x);
        assert((a + b)[a.len() + i] == x);
    }
    if (a + b).contains(x) {
        let i = (a + b).index_of(x);
        if i < a.len() {
            assert(a[i] == x);
        } else {
            assert(b[i - a.len()] == x);
        }
    }
}

/// Mapping a concatenation maps its parts.
pub proof fn lemma_concat_map<T, U>(lo: int, hi: int, f: spec_fn(int) -> Seq<T>, g: spec_fn(T) -> U)
    ensures
        concat_range(lo, hi, f).map_values(g) == concat_range(
            lo,
            hi,
            |i: int| f(i).map_values(g),
        ),
    decreases hi - lo,
{
    let h = |i: int| f(i).map_values(g);
    if lo < hi {
        lemma_concat_map(lo, hi - 1, f, g);
        assert(concat_range(lo, hi, f).map_values(g) =~= concat_range(lo, hi - 1, f).map_values(g)
            + f(hi - 1).map_values(g));
        assert(h(hi - 1) == f(hi - 1).map_values(g));
    } else {
        assert(concat_range(lo, hi, f).map_values(g) =~= Seq::empty());
    }
}

/// The parts may be counted from another number on.
pub proof fn lemma_concat_shift<T>(lo: int, hi: int, f: spec_fn(int) -> Seq<T>)
    ensures
        concat_range(lo + 1, hi + 1, f) == concat_range(lo, hi, |i: int| f(i + 1)),
    decreases hi - lo,
{
    if lo < hi {
        lemma_concat_shift(lo, hi - 1, f);
    }
}

////// Prefixing

/// Prefixing keeps the tails.
pub proof fn lemma_prefixed_contains<T>(v: T, tails: Seq<Seq<T>>, t: Seq<T>)
    ensures
        prefixed(v, tails).contains(t) <==> t.len() > 0 && t[0] == v && tails.contains(
            t.drop_first(),
        ),
{
    let p = prefixed(v, tails);
    if p.contains(t) {
        let i = p.index_of(t);
        assert(p[i] == seq![v] + tails[i]);
        assert(t.drop_first() =~= tails[i]);
    }
    if t.len() > 0 && t[0] == v && tails.contains(t.drop_first()) {
        let i = tails.index_of(t.drop_first());
        assert(p[i] == seq![v] + tails[i]);
        assert(p[i] =~= t);
    }
}

////// Digit sequences

/// A digit sequence is listed by `tuples` exactly if it stays within the radix.
pub proof fn lemma_tuples_contains(radix: Seq<int>, d: Seq<int>)
    ensures
        tuples(radix).contains(d) <==> within(radix, d),
    decreases radix.len(),
{
    if radix.len() == 0 {
        assert(tuples(radix)[0] == Seq::<int>::empty());
        if within(radix, d) {
            assert(d =~= Seq::<int>::empty());
        }
    } else {
        let rest = tuples(radix.drop_first());
        let f = |v: int| prefixed(v, rest);
        lemma_concat_contains(0, radix[0], f, d);
        if tuples(radix).contains(d) {
            let v = choose|v: int| 0 <= v < radix[0] && #[trigger] f(v).contains(d);
            lemma_prefixed_contains(v, rest, d);
            lemma_tuples_contains(radix.drop_first(), d.drop_first());
            assert forall|i: int| #![trigger d[i]] 0 <= i < d.len() implies 0 <= d[i] < radix[i] by {
                if i > 0 {
                    assert(d.drop_first()[i - 1] == d[i]);
                }
            }
        }
        if within(radix, d) {
            assert(0 <= d[0] < radix[0]);
            assert forall|i: int| #![trigger d.drop_first()[i]] 0 <= i < d.drop_first().len() implies 0
                <= d.drop_first()[i] < radix.drop_first()[i] by {
                assert(d.drop_first()[i] == d[i + 1]);
            }
            lemma_tuples_contains(radix.drop_first(), d.drop_first());
            lemma_prefixed_contains(d[0], rest, d);
            assert(f(d[0]).contains(d));
        }
    }
}

/// `tuples` lists as many digit sequences as the product of the radix says.
pub proof fn lemma_tuples_len(radix: Seq<int>)
    requires
        forall|i: int| 0 <= i < radix.len() ==> radix[i] >= 0,
    ensures
        tuples(radix).len() == product(radix),
    decreases radix.len(),
{
    if radix.len() > 0 {
        let rest = tuples(radix.drop_first());
        lemma_tuples_len(radix.drop_first());
        lemma_concat_len(0, radix[0], |v: int| prefixed(v, rest), rest.len());
    }
}

/// Counting starts at the zeros: they are the first digit sequence listed.
pub proof fn lemma_tuples_start(radix: Seq<int>)
    requires
        forall|i: int| 0 <= i < radix.len() ==> radix[i] > 0,
    ensures
        tuples(radix) == seq![zeros(radix.len())] + tuples_after(radix, zeros(radix.len())),
    decreases radix.len(),
{
    let z = zeros(radix.len());
    if radix.len() == 0 {
        assert(z =~= Seq::empty());
        assert(tuples(radix) =~= seq![z] + tuples_after(radix, z));
    } else {
        let tail = radix.drop_first();
        let rest = tuples(tail);
        let f = |v: int| prefixed(v, rest);
        lemma_tuples_start(tail);
        lemma_concat_first(0, radix[0], f);
        assert(z.drop_first() =~= zeros(tail.len()));
        let after = tuples_after(tail, z.drop_first());
        assert(seq![0int] + z.drop_first() =~= z);
        assert(prefixed(0int, rest) =~= seq![z] + prefixed(0int, after));
        assert(f(0) == prefixed(0int, rest));
        assert(tuples(radix) =~= seq![z] + (prefixed(0int, after) + concat_range(1, radix[0], f)));
    }
}

/// One step of counting: the digit at `p` grows by one, everything behind it was at its largest
/// value and goes back to zero.
pub open spec fn stepped(radix: Seq<int>, d: Seq<int>, p: int) -> Seq<int> {
    Seq::new(
        d.len(),
        |i: int|
            if i < p {
                d[i]
            } else if i == p {
                d[i] + 1
            } else {
                0
            },
    )
}

/// After the largest digits nothing comes.
pub proof fn lemma_tuples_last(radix: Seq<int>, d: Seq<int>)
    requires
        within(radix, d),
        forall|i: int| 0 <= i < d.len() ==> #[trigger] d[i] == radix[i] - 1,
    ensures
        tuples_after(radix, d) == Seq::<Seq<int>>::empty(),
    decreases radix.len(),
{
    if radix.len() > 0 {
        let t = radix.drop_first();
        let e = d.drop_first();
        assert forall|i: int| #![trigger e[i]] 0 <= i < e.len() implies 0 <= e[i] < t[i] && e[i] == t[i]
            - 1 by {
            assert(e[i] == d[i + 1]);
        }
        lemma_tuples_last(t, e);
        assert(d[0] + 1 == radix[0]);
        assert(prefixed(d[0], tuples_after(t, e)) =~= Seq::<Seq<int>>::empty());
        assert(tuples_after(radix, d) =~= Seq::<Seq<int>>::empty());
    }
}

/// What comes after a digit sequence starts with the one that is a step further.
pub proof fn lemma_tuples_step(radix: Seq<int>, d: Seq<int>, p: int)
    requires
        within(radix, d),
        0 <= p < d.len(),
        d[p] + 1 < radix[p],
        forall|i: int| p < i < d.len() ==> #[trigger] d[i] == radix[i] - 1,
    ensures
        within(radix, stepped(radix, d, p)),
        tuples_after(radix, d) == seq![stepped(radix, d, p)] + tuples_after(
            radix,
            stepped(radix, d, p),
        ),
    decreases radix.len(),
{
    let next = stepped(radix, d, p);
    assert forall|i: int| #![trigger next[i]] 0 <= i < next.len() implies 0 <= next[i]
        < radix[i] by {
        assert(0 <= d[i] < radix[i]);
    }
    let t = radix.drop_first();
    let e = d.drop_first();
    assert forall|i: int| #![trigger e[i]] 0 <= i < e.len() implies 0 <= e[i] < t[i] && (i >= p
        ==> e[i] == t[i] - 1) by {
        assert(e[i] == d[i + 1]);
    }
    let rest = tuples(t);
    let f = |v: int| prefixed(v, rest);
    if p == 0 {
        lemma_tuples_last(t, e);
        assert(prefixed(d[0], tuples_after(t, e)) =~= Seq::<Seq<int>>::empty());
        lemma_concat_first(d[0] + 1, radix[0], f);
        assert forall|i: int| 0 <= i < t.len() implies t[i] > 0 by {
            assert(0 <= e[i] < t[i]);
        }
        lemma_tuples_start(t);
        let z = zeros(t.len());
        assert(next.drop_first() =~= z);
        assert(next =~= seq![d[0] + 1] + z);
        assert(f(d[0] + 1) == prefixed(d[0] + 1, rest));
        assert(prefixed(d[0] + 1, rest) =~= seq![next] + prefixed(d[0] + 1, tuples_after(t, z)));
        assert(tuples_after(radix, d) =~= seq![next] + tuples_after(radix, next));
    } else {
        assert(e[p - 1] == d[p]);
        lemma_tuples_step(t, e, p - 1);
        assert(next.drop_first() =~= stepped(t, e, p - 1));
        assert(next =~= seq![d[0]] + stepped(t, e, p - 1));
        assert(prefixed(d[0], tuples_after(t, e)) =~= seq![next] + prefixed(
            d[0],
            tuples_after(t, next.drop_first()),
        ));
        assert(tuples_after(radix, d) =~= seq![next] + tuples_after(radix, next));
    }
}

////// Orderings

/// There are `n!` orderings of `n` things.
pub proof fn lemma_permutations_len<T>(s: Seq<T>)
    ensures
        permutations(s).len() == fact(s.len()),
    decreases s.len(),
{
    if s.len() > 0 {
        let f = permutations_by_head(s);
        assert forall|i: int| 0 <= i < s.len() implies (#[trigger] f(i)).len() == fact(
            (s.len() - 1) as nat,
        ) by {
            lemma_permutations_len(s.remove(i));
        }
        lemma_concat_len(0, s.len() as int, f, fact((s.len() - 1) as nat));
    }
}

/// The first ordering leaves everything where it is.
pub proof fn lemma_permutations_first<T>(s: Seq<T>)
    ensures
        permutations(s).len() > 0,
        permutations(s)[0] == s,
    decreases s.len(),
{
    if s.len() == 0 {
        assert(permutations(s)[0] =~= s);
    } else {
        let f = permutations_by_head(s);
        lemma_permutations_first(s.remove(0));
        lemma_concat_first(0, s.len() as int, f);
        assert(f(0)[0] == seq![s[0]] + s.remove(0));
        assert(seq![s[0]] + s.remove(0) =~= s);
    }
}

/// Renaming the things renames the orderings and keeps their order.
pub proof fn lemma_permutations_map<T, U>(s: Seq<T>, g: spec_fn(T) -> U)
    ensures
        permutations(s).map_values(|p: Seq<T>| p.map_values(g)) == permutations(s.map_values(g)),
    decreases s.len(),
{
    let m = s.map_values(g);
    let gg = |p: Seq<T>| p.map_values(g);
    if s.len() == 0 {
        assert(gg(Seq::<T>::empty()) =~= Seq::<U>::empty());
        assert(permutations(s).map_values(gg) =~= permutations(m));
    } else {
        let f = permutations_by_head(s);
        let h = permutations_by_head(m);
        let fm = |i: int| f(i).map_values(gg);
        lemma_concat_map(0, s.len() as int, f, gg);
        assert forall|i: int| 0 <= i < s.len() implies #[trigger] fm(i) == h(i) by {
            lemma_permutations_map(s.remove(i), g);
            assert(m.remove(i) =~= s.remove(i).map_values(g));
            let tails = permutations(s.remove(i));
            assert(permutations(m.remove(i)) == tails.map_values(gg));
            assert forall|k: int| 0 <= k < tails.len() implies (#[trigger] fm(i)[k]) == h(i)[k] by {
                assert(gg(seq![s[i]] + tails[k]) =~= seq![m[i]] + gg(tails[k]));
            }
            assert(fm(i) =~= h(i));
        }
        lemma_concat_ext(0, s.len() as int, fm, h);
    }
}

/// What is listed is an ordering: it holds the same things as often as `s`.
pub proof fn lemma_permutations_sound<T>(s: Seq<T>, p: Seq<T>)
    requires
        permutations(s).contains(p),
    ensures
        p.len() == s.len(),
        p.to_multiset() == s.to_multiset(),
    decreases s.len(),
{
    broadcast use vstd::seq_lib::group_to_multiset_ensures;

    if s.len() == 0 {
        assert(p =~= s);
    } else {
        let f = permutations_by_head(s);
        lemma_concat_contains(0, s.len() as int, f, p);
        let i = choose|i: int| 0 <= i < s.len() && #[trigger] f(i).contains(p);
        lemma_prefixed_contains(s[i], permutations(s.remove(i)), p);
        lemma_permutations_sound(s.remove(i), p.drop_first());
        assert(p =~= seq![s[i]] + p.drop_first());
        assert(p.remove(0) =~= p.drop_first());
        assert(s.remove(i).to_multiset() =~= s.to_multiset().remove(s[i]));
        assert(p.remove(0).to_multiset() =~= p.to_multiset().remove(p[0]));
        assert(s.to_multiset() =~= s.remove(i).to_multiset().insert(s[i]));
        assert(p.to_multiset() =~= p.remove(0).to_multiset().insert(p[0]));
    }
}

/// Every ordering is listed.
pub proof fn lemma_permutations_complete<T>(s: Seq<T>, p: Seq<T>)
    requires
        p.to_multiset() == s.to_multiset(),
    ensures
        permutations(s).contains(p),
    decreases s.len(),
{
    broadcast use vstd::seq_lib::group_to_multiset_ensures;

    assert(p.len() == p.to_multiset().len());
    assert(s.len() == s.to_multiset().len());
    if s.len() == 0 {
        assert(p =~= Seq::empty());
        assert(permutations(s)[0] == p);
    } else {
        let f = permutations_by_head(s);
        assert(p.contains(p[0]));
        assert(s.to_multiset().count(p[0]) > 0);
        assert(s.contains(p[0]));
        let i = s.index_of(p[0]);
        assert(s.remove(i).to_multiset() =~= s.to_multiset().remove(s[i]));
        assert(p.remove(0).to_multiset() =~= p.to_multiset().remove(p[0]));
        assert(p.remove(0) =~= p.drop_first());
        lemma_permutations_complete(s.remove(i), p.drop_first());
        lemma_prefixed_contains(s[i], permutations(s.remove(i)), p);
        assert(f(i).contains(p));
        lemma_concat_contains(0, s.len() as int, f, p);
    }
}

////// Selections

/// A strictly increasing sequence of `k` numbers from `lo..n`.
pub open spec fn is_selection(c: Seq<int>, lo: int, n: int, k: int) -> bool {
    &&& c.len() == k
    &&& forall|i: int| 0 <= i < c.len() ==> lo <= #[trigger] c[i] < n
    &&& forall|i: int, j: int| 0 <= i < j < c.len() ==> #[trigger] c[i] < #[trigger] c[j]
}

/// `combinations` lists the selections and nothing else.
pub proof fn lemma_combinations_contains(lo: int, n: int, k: int, c: Seq<int>)
    requires
        k >= 0,
    ensures
        combinations(lo, n, k).contains(c) <==> is_selection(c, lo, n, k),
    decreases n - lo,
{
    let all = combinations(lo, n, k);
    if k == 0 {
        assert(all[0] == Seq::<int>::empty());
        if is_selection(c, lo, n, k) {
            assert(all[0] =~= c);
        }
    } else if lo >= n {
        if is_selection(c, lo, n, k) {
            assert(lo <= c[0] < n);
        }
    } else {
        let tails = combinations(lo + 1, n, k - 1);
        let rest = combinations(lo + 1, n, k);
        lemma_add_contains(prefixed(lo, tails), rest, c);
        lemma_prefixed_contains(lo, tails, c);
        lemma_combinations_contains(lo + 1, n, k, c);
        if c.len() > 0 {
            let t = c.drop_first();
            lemma_combinations_contains(lo + 1, n, k - 1, t);
            if is_selection(c, lo, n, k) && c[0] == lo {
                assert forall|i: int| 0 <= i < t.len() implies lo + 1 <= #[trigger] t[i] < n by {
                    assert(t[i] == c[i + 1]);
                    assert(c[0] < c[i + 1]);
                }
                assert forall|i: int, j: int| 0 <= i < j < t.len() implies #[trigger] t[i]
                    < #[trigger] t[j] by {
                    assert(c[i + 1] < c[j + 1]);
                }
                assert(is_selection(t, lo + 1, n, k - 1));
            }
            if is_selection(c, lo, n, k) && c[0] != lo {
                assert forall|i: int| 0 <= i < c.len() implies lo + 1 <= #[trigger] c[i] < n by {
                    if i > 0 {
                        assert(c[0] < c[i]);
                    }
                }
                assert(is_selection(c, lo + 1, n, k));
            }
            if c[0] == lo && is_selection(t, lo + 1, n, k - 1) {
                assert forall|i: int| 0 <= i < c.len() implies lo <= #[trigger] c[i] < n by {
                    if i > 0 {
                        assert(c[i] == t[i - 1]);
                    }
                }
                assert forall|i: int, j: int| 0 <= i < j < c.len() implies #[trigger] c[i]
                    < #[trigger] c[j] by {
                    assert(c[j] == t[j - 1]);
                    if i > 0 {
                        assert(c[i] == t[i - 1]);
                    }
                }
                assert(is_selection(c, lo, n, k));
            }
        }
    }
}

} // verus!
