//! Finding a batch size that the GPU can handle.
use vstd::arithmetic::power2::{lemma_pow2_unfold, pow2};
use vstd::prelude::*;

use crate::plan::smaller;

verus! {

/// GPU memory for one candidate, in bytes.
pub const BYTES_PER_CAND: usize = 28;

/// The batch size to start with when the exponent is too large.
pub const DEFAULT_START: usize = 65_536;

/// The largest batch size when the exponent is too large.
pub const DEFAULT_CAP: usize = 268_435_456;

/// `2^exp`, or a default where that is no `usize`.
pub open spec fn batch_of(exp: nat, default: int) -> int {
    if exp < usize::BITS {
        pow2(exp) as int
    } else {
        default
    }
}

fn two_to(exp: u32, default: usize) -> (r: usize)
    ensures
        r == batch_of(exp as nat, default as int),
{
    if exp >= usize::BITS {
        return default;
    }
    let mut r: usize = 1;
    let mut i: u32 = 0;
    proof {
        vstd::arithmetic::power2::lemma2_to64();
    }
    while i < exp
        invariant
            i <= exp,
            exp < usize::BITS,
            r == pow2(i as nat),
        decreases exp - i,
    {
        i += 1;
        proof {
            lemma_pow2_unfold(i as nat);
            lemma_fits(i as nat);
        }
        r = r * 2;
    }
    r
}

proof fn lemma_fits(i: nat)
    requires
        i < usize::BITS,
    ensures
        pow2(i) <= usize::MAX,
{
    vstd::arithmetic::power2::lemma2_to64();
    vstd::arithmetic::power2::lemma2_to64_rest();
    if usize::BITS == 32 {
        if i < 31 {
            vstd::arithmetic::power2::lemma_pow2_strictly_increases(i, 31);
        }
    } else {
        if i < 63 {
            vstd::arithmetic::power2::lemma_pow2_strictly_increases(i, 63);
        }
    }
}

/// The search for a batch size: try a size, double it while that works.
#[derive(Debug, Clone, Copy, PartialEq, Eq, Structural)]
pub struct BatchProbe {
    /// The size to try.
    pub batch: usize,
    /// The largest size that worked, or the first one.
    pub last_ok: usize,
    /// No larger size is ever tried.
    pub cap: usize,
}

impl BatchProbe {
    /// Starts with `2^min_exp`, or with the cap `2^max_exp` where that is less.
    pub fn new(min_exp: u32, max_exp: u32) -> (r: Self)
        ensures
            r.cap == batch_of(max_exp as nat, DEFAULT_CAP as int),
            r.batch == smaller(batch_of(min_exp as nat, DEFAULT_START as int), r.cap as int),
            r.last_ok == r.batch,
            max_exp < usize::BITS ==> r.cap == pow2(max_exp as nat),
            max_exp >= usize::BITS ==> r.cap == 268_435_456,
            min_exp < usize::BITS && pow2(min_exp as nat) <= r.cap ==> r.batch == pow2(
                min_exp as nat,
            ),
            min_exp >= usize::BITS && 65_536 <= r.cap ==> r.batch == 65_536,
            r.batch <= r.cap,
            min_exp < usize::BITS && pow2(min_exp as nat) > r.cap ==> r.batch == r.cap,
            min_exp >= usize::BITS && 65_536 > r.cap ==> r.batch == r.cap,
    {
        let start = two_to(min_exp, DEFAULT_START);
        let cap = two_to(max_exp, DEFAULT_CAP);
        let batch = if start <= cap {
            start
        } else {
            cap
        };
        BatchProbe { batch, last_ok: batch, cap }
    }

    /// The probe after the size to try has worked or not, and whether there is another one to try.
    pub open spec fn recorded(self, worked: bool) -> (BatchProbe, bool) {
        let next = doubled(self.batch);
        if !worked {
            (self, false)
        } else if next > self.cap {
            (BatchProbe { last_ok: self.batch, ..self }, false)
        } else {
            (BatchProbe { batch: next as usize, last_ok: self.batch, ..self }, true)
        }
    }

    /// The probe after these outcomes, one after the other, as long as there is a size to try.
    pub open spec fn after(self, outcomes: Seq<bool>) -> BatchProbe
        decreases outcomes.len(),
    {
        if outcomes.len() == 0 {
            self
        } else {
            let (next, more) = self.recorded(outcomes[0]);
            if more {
                next.after(outcomes.drop_first())
            } else {
                next
            }
        }
    }

    /// The sizes that are tried with these outcomes, each with its outcome.
    pub open spec fn tried(self, outcomes: Seq<bool>) -> Seq<(usize, bool)>
        decreases outcomes.len(),
    {
        if outcomes.len() == 0 {
            Seq::empty()
        } else {
            let (next, more) = self.recorded(outcomes[0]);
            seq![(self.batch, outcomes[0])] + if more {
                next.tried(outcomes.drop_first())
            } else {
                Seq::empty()
            }
        }
    }

    /// Takes note of whether the size worked, and says whether there is another one to try.
    pub fn record(&mut self, worked: bool) -> (r: bool)
        ensures
            (*final(self), r) == old(self).recorded(worked),
            final(self).cap == old(self).cap,
            !worked ==> !r && *final(self) == *old(self),
            worked ==> final(self).last_ok == old(self).batch,
            r <==> worked && (2 * old(self).batch <= old(self).cap || old(self).cap == usize::MAX),
            r && 2 * old(self).batch <= usize::MAX ==> final(self).batch == 2 * old(self).batch,
            r && 2 * old(self).batch > usize::MAX ==> final(self).batch == usize::MAX,
            !r ==> final(self).batch == old(self).batch,
    {
        if !worked {
            return false;
        }
        self.last_ok = self.batch;
        let next = if self.batch <= usize::MAX / 2 {
            self.batch * 2
        } else {
            usize::MAX
        };
        if next > self.cap {
            false
        } else {
            self.batch = next;
            true
        }
    }
}

/// Twice the size, or the largest number there is.
pub open spec fn doubled(batch: usize) -> int {
    if 2 * batch <= usize::MAX {
        2 * batch
    } else {
        usize::MAX as int
    }
}

proof fn lemma_below_cap(p: BatchProbe, outcomes: Seq<bool>)
    requires
        p.last_ok <= p.batch <= p.cap,
    ensures
        p.after(outcomes).cap == p.cap,
        p.after(outcomes).last_ok <= p.after(outcomes).batch <= p.cap,
        forall|k: int|
            0 <= k < p.tried(outcomes).len() ==> (#[trigger] p.tried(outcomes)[k]).0 <= p.cap,
    decreases outcomes.len(),
{
    if outcomes.len() > 0 {
        let (next, more) = p.recorded(outcomes[0]);
        if more {
            let rest = outcomes.drop_first();
            lemma_below_cap(next, rest);
            assert forall|k: int| 0 <= k < p.tried(outcomes).len() implies (#[trigger] p.tried(
                outcomes,
            )[k]).0 <= p.cap by {
                if k > 0 {
                    assert(p.tried(outcomes)[k] == next.tried(rest)[k - 1]);
                }
            }
        }
    }
}

/// Whatever the exponents of a new probe and whatever works: no size that is tried, and none that
/// is settled on, is above the cap.
pub proof fn probe_stays_below_the_cap(
    min_exp: u32,
    max_exp: u32,
    p: BatchProbe,
    outcomes: Seq<bool>,
)
    requires
        p.cap == batch_of(max_exp as nat, DEFAULT_CAP as int),
        p.batch == smaller(batch_of(min_exp as nat, DEFAULT_START as int), p.cap as int),
        p.last_ok == p.batch,
    ensures
        p.after(outcomes).last_ok <= batch_of(max_exp as nat, DEFAULT_CAP as int),
        p.after(outcomes).batch <= batch_of(max_exp as nat, DEFAULT_CAP as int),
        forall|k: int|
            0 <= k < p.tried(outcomes).len() ==> (#[trigger] p.tried(outcomes)[k]).0 <= batch_of(
                max_exp as nat,
                DEFAULT_CAP as int,
            ),
{
    lemma_below_cap(p, outcomes);
}

/// The last size that worked, or a default where none did.
pub open spec fn last_success(tried: Seq<(usize, bool)>, default: usize) -> usize
    decreases tried.len(),
{
    if tried.len() == 0 {
        default
    } else if tried.last().1 {
        tried.last().0
    } else {
        last_success(tried.drop_last(), default)
    }
}

proof fn lemma_last_success(first: (usize, bool), rest: Seq<(usize, bool)>, default: usize)
    ensures
        last_success(seq![first] + rest, default) == last_success(
            rest,
            if first.1 {
                first.0
            } else {
                default
            },
        ),
    decreases rest.len(),
{
    reveal_with_fuel(last_success, 2);
    let all = seq![first] + rest;
    if rest.len() > 0 {
        lemma_last_success(first, rest.drop_last(), default);
        assert(all.drop_last() =~= seq![first] + rest.drop_last());
        assert(all.last() == rest.last());
    } else {
        assert(all.last() == first);
        assert(all.drop_last() =~= Seq::empty());
    }
}

/// The size that is settled on is the last one that worked, and the first one where none did.
pub proof fn probe_settles_on_what_worked(p: BatchProbe, outcomes: Seq<bool>)
    ensures
        p.after(outcomes).last_ok == last_success(p.tried(outcomes), p.last_ok),
    decreases outcomes.len(),
{
    if outcomes.len() > 0 {
        let (next, more) = p.recorded(outcomes[0]);
        let rest = if more {
            next.tried(outcomes.drop_first())
        } else {
            Seq::empty()
        };
        lemma_last_success((p.batch, outcomes[0]), rest, p.last_ok);
        if more {
            probe_settles_on_what_worked(next, outcomes.drop_first());
        }
    }
}

} // verus!
