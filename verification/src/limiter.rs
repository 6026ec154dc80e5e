use vstd::prelude::*;

verus! {

/// How many entries of `g` lie in the closed interval `[lo, hi]`.
pub open spec fn count_in(g: Seq<int>, lo: int, hi: int) -> int
    decreases g.len(),
{
    if g.len() == 0 {
        0
    } else {
        count_in(g.drop_last(), lo, hi) + (if lo <= g.last() && g.last() <= hi {
            1int
        } else {
            0int
        })
    }
}

/// The sequence is nondecreasing.
pub open spec fn sorted(g: Seq<int>) -> bool {
    forall|i: int, j: int| 0 <= i <= j < g.len() ==> g[i] <= g[j]
}

/// At the moment of each grant, the grants made over any interval ending
/// there respected the bucket's budget: the burst capacity plus what the
/// refill rate supplies over the interval (times are milliseconds, token
/// amounts thousandths of a token).
pub open spec fn grant_bound(g: Seq<int>, cap: int, rate: int) -> bool {
    forall|i: int, a: int|
        0 <= i < g.len() && 0 <= a <= g[i] ==> 1000 * (#[trigger] count_in(g, a, g[i])) <= 1000
            * cap + rate * (g[i] - a)
}

/// The bucket's standing budget: tokens on hand at its state time, plus
/// the grants over any interval ending at the state time, never exceed the
/// capacity plus the refill over that interval.
pub open spec fn refill_bound(g: Seq<int>, cap: int, rate: int, tok: int, last: int) -> bool {
    forall|a: int|
        0 <= a <= last ==> tok + 1000 * (#[trigger] count_in(g, a, last)) <= 1000 * cap + rate * (
        last - a)
}

proof fn lemma_count_nonneg(g: Seq<int>, lo: int, hi: int)
    ensures
        0 <= count_in(g, lo, hi),
    decreases g.len(),
{
    if g.len() > 0 {
        lemma_count_nonneg(g.drop_last(), lo, hi);
    }
}

proof fn lemma_count_push(g: Seq<int>, t: int, lo: int, hi: int)
    ensures
        count_in(g.push(t), lo, hi) == count_in(g, lo, hi) + (if lo <= t && t <= hi {
            1int
        } else {
            0int
        }),
{
    assert(g.push(t).drop_last() =~= g);
    assert(g.push(t).last() == t);
}

proof fn lemma_count_none_above(g: Seq<int>, lo: int, hi: int)
    requires
        forall|k: int| 0 <= k < g.len() ==> #[trigger] g[k] < lo,
    ensures
        count_in(g, lo, hi) == 0,
    decreases g.len(),
{
    if g.len() > 0 {
        assert(forall|k: int|
            0 <= k < g.drop_last().len() ==> #[trigger] g.drop_last()[k] == g[k]);
        lemma_count_none_above(g.drop_last(), lo, hi);
    }
}

proof fn lemma_count_clip(g: Seq<int>, lo: int, mid: int, hi: int)
    requires
        mid <= hi,
        forall|k: int| 0 <= k < g.len() ==> !(mid < #[trigger] g[k] && g[k] <= hi),
    ensures
        count_in(g, lo, hi) == count_in(g, lo, mid),
    decreases g.len(),
{
    if g.len() > 0 {
        assert(forall|k: int|
            0 <= k < g.drop_last().len() ==> #[trigger] g.drop_last()[k] == g[k]);
        lemma_count_clip(g.drop_last(), lo, mid, hi);
    }
}

proof fn lemma_count_drop_last(g: Seq<int>, lo: int, hi: int)
    requires
        g.len() > 0,
    ensures
        count_in(g.drop_last(), lo, hi) <= count_in(g, lo, hi),
{
}

/// Over any interval of at most one second, grants that satisfy
/// `grant_bound` number at most the capacity plus the per-second rate.
proof fn lemma_window_bound(g: Seq<int>, cap: int, rate: int, lo: int, hi: int)
    requires
        sorted(g),
        grant_bound(g, cap, rate),
        0 <= lo,
        hi - lo <= 1000,
        cap >= 0,
        rate >= 0,
    ensures
        1000 * count_in(g, lo, hi) <= 1000 * cap + 1000 * rate,
    decreases g.len(),
{
    if g.len() == 0 {
        assert(1000 * count_in(g, lo, hi) == 0);
    } else {
        let e = g.last();
        assert(e == g[g.len() - 1]);
        if e > hi {
            assert(count_in(g, lo, hi) == count_in(g.drop_last(), lo, hi));
            assert(forall|k: int|
                0 <= k < g.drop_last().len() ==> #[trigger] g.drop_last()[k] == g[k]);
            assert forall|i: int, a: int|
                0 <= i < g.drop_last().len() && 0 <= a <= g.drop_last()[i] implies 1000 * (
            #[trigger] count_in(g.drop_last(), a, g.drop_last()[i])) <= 1000 * cap + rate * (
            g.drop_last()[i] - a) by {
                lemma_count_drop_last(g, a, g[i]);
                assert(1000 * count_in(g, a, g[i]) <= 1000 * cap + rate * (g[i] - a));
            }
            lemma_window_bound(g.drop_last(), cap, rate, lo, hi);
        } else if e < lo {
            assert(forall|k: int| 0 <= k < g.len() ==> #[trigger] g[k] <= e);
            lemma_count_none_above(g, lo, hi);
        } else {
            assert(forall|k: int| 0 <= k < g.len() ==> #[trigger] g[k] <= e);
            lemma_count_clip(g, lo, e, hi);
            assert(1000 * count_in(g, lo, e) <= 1000 * cap + rate * (e - lo));
            assert(rate * (e - lo) <= rate * 1000) by (nonlinear_arith)
                requires
                    rate >= 0,
                    e - lo <= 1000,
            ;
        }
    }
}

/// Token-bucket rate limiter, driven by caller-supplied millisecond
/// timestamps.  The bucket holds up to `capacity` tokens (its burst
/// allowance), refills continuously at `rate` tokens per second, and a
/// grant costs one token.  The ghost grant log records the effective time
/// of every grant, so rate adherence can be stated over the whole history.
pub struct TokenBucket {
    rate: u32,
    capacity: u32,
    tokens_milli: u64,
    last_ms: u64,
    gh_grants: Ghost<Seq<int>>,
}

impl TokenBucket {
    /// Tokens refilled per second.
    pub closed spec fn spec_rate(self) -> int {
        self.rate as int
    }

    /// Burst allowance in tokens.
    pub closed spec fn spec_capacity(self) -> int {
        self.capacity as int
    }

    /// Tokens on hand, in thousandths.
    pub closed spec fn tokens(self) -> int {
        self.tokens_milli as int
    }

    /// The bucket's state time: the latest effective time it has seen.
    pub closed spec fn last_time(self) -> int {
        self.last_ms as int
    }

    /// Effective times of all grants so far, in order.
    pub closed spec fn grants(self) -> Seq<int> {
        self.gh_grants@
    }

    /// The time an acquisition at `now` is processed at: the bucket never
    /// steps backwards, so a stale clock reading is clamped to the state
    /// time.
    pub open spec fn effective_time(self, now: int) -> int {
        if now >= self.last_time() {
            now
        } else {
            self.last_time()
        }
    }

    /// Tokens (in thousandths) on hand after refilling up to time `te`.
    pub open spec fn filled_at(self, te: int) -> int {
        if self.tokens() + self.spec_rate() * (te - self.last_time()) >= 1000
            * self.spec_capacity() {
            1000 * self.spec_capacity()
        } else {
            self.tokens() + self.spec_rate() * (te - self.last_time())
        }
    }

    pub closed spec fn wf(self) -> bool {
        &&& self.rate >= 1
        &&& self.capacity >= 1
        &&& self.tokens_milli as int <= 1000 * self.spec_capacity()
        &&& sorted(self.grants())
        &&& forall|k: int|
            0 <= k < self.grants().len() ==> 0 <= #[trigger] self.grants()[k] <= self.last_time()
        &&& refill_bound(
            self.grants(),
            self.spec_capacity(),
            self.spec_rate(),
            self.tokens() as int,
            self.last_time(),
        )
        &&& grant_bound(self.grants(), self.spec_capacity(), self.spec_rate())
    }

    /// A fresh bucket, full, with the given refill rate and burst
    /// capacity; a rate or capacity of zero is raised to one.
    pub fn new(rate_per_second: u32, capacity: u32) -> (r: TokenBucket)
        ensures
            r.wf(),
            r.spec_rate() == (if rate_per_second >= 1 {
                rate_per_second as int
            } else {
                1int
            }),
            r.spec_capacity() == (if capacity >= 1 {
                capacity as int
            } else {
                1int
            }),
            r.grants() =~= Seq::<int>::empty(),
            r.tokens() == 1000 * r.spec_capacity(),
            r.last_time() == 0,
    {
        let rate: u32 = if rate_per_second >= 1 {
            rate_per_second
        } else {
            1
        };
        let cap: u32 = if capacity >= 1 {
            capacity
        } else {
            1
        };
        let r = TokenBucket {
            rate,
            capacity: cap,
            tokens_milli: (cap as u64) * 1000,
            last_ms: 0,
            gh_grants: Ghost(Seq::empty()),
        };
        r
    }

    /// Ask for one token at (millisecond) time `now_ms`.  The bucket
    /// refills for the time elapsed since its state time, then grants and
    /// spends one token exactly when a whole token is on hand.
    pub fn try_acquire(&mut self, now_ms: u64) -> (granted: bool)
        requires
            old(self).wf(),
        ensures
            final(self).wf(),
            final(self).spec_rate() == old(self).spec_rate(),
            final(self).spec_capacity() == old(self).spec_capacity(),
            final(self).last_time() == old(self).effective_time(now_ms as int),
            granted == (old(self).filled_at(old(self).effective_time(now_ms as int)) >= 1000),
            granted ==> final(self).grants() == old(self).grants().push(
                old(self).effective_time(now_ms as int),
            ) && final(self).tokens() == old(self).filled_at(
                old(self).effective_time(now_ms as int),
            ) - 1000,
            !granted ==> final(self).grants() == old(self).grants() && final(self).tokens() == old(
                self,
            ).filled_at(old(self).effective_time(now_ms as int)),
    {
        let ghost pre = *self;
        let te: u64 = if now_ms >= self.last_ms {
            now_ms
        } else {
            self.last_ms
        };
        let ghost tei = te as int;
        let ghost lasti = pre.last_time();
        let ghost g = pre.grants();
        let ghost cap = pre.spec_capacity();
        let ghost rate = pre.spec_rate();
        let elapsed: u64 = te - self.last_ms;
        let cap_milli: u64 = (self.capacity as u64) * 1000;
        proof {
            assert((self.rate as int) * (elapsed as int) <= 4294967295int * 18446744073709551615int)
                by (nonlinear_arith)
                requires
                    0 <= self.rate as int <= 4294967295int,
                    0 <= elapsed as int <= 18446744073709551615int,
            ;
            assert((self.rate as int) * (elapsed as int) >= 0) by (nonlinear_arith)
                requires
                    self.rate as int >= 0,
                    elapsed as int >= 0,
            ;
        }
        let add: u128 = (self.rate as u128) * (elapsed as u128);
        let filled_wide: u128 = (self.tokens_milli as u128) + add;
        let filled: u64 = if filled_wide >= (cap_milli as u128) {
            cap_milli
        } else {
            filled_wide as u64
        };
        proof {
            assert(filled as int == pre.filled_at(tei));
            // Refill keeps the standing budget: grants over [a, te] match
            // grants over [a, last] (none happened in between), and the
            // refill adds exactly rate * (te - last).
            assert forall|a: int| 0 <= a <= tei implies (filled as int) + 1000 * (
            #[trigger] count_in(g, a, tei)) <= 1000 * cap + rate * (tei - a) by {
                assert(rate * (tei - a) == rate * (tei - lasti) + rate * (lasti - a))
                    by (nonlinear_arith);
                if a <= lasti {
                    lemma_count_clip(g, a, lasti, tei);
                    assert(pre.tokens() + 1000 * count_in(g, a, lasti) <= 1000 * cap + rate * (
                    lasti - a));
                    if filled as int == 1000 * cap {
                        assert(rate * (tei - lasti) >= 1000 * cap - pre.tokens());
                    }
                } else {
                    assert(forall|k: int| 0 <= k < g.len() ==> #[trigger] g[k] < a);
                    lemma_count_none_above(g, a, tei);
                    assert(rate * (tei - a) >= 0) by (nonlinear_arith)
                        requires
                            rate >= 0,
                            tei - a >= 0,
                    ;
                }
            }
        }
        self.last_ms = te;
        if filled >= 1000 {
            self.tokens_milli = filled - 1000;
            proof {
                self.gh_grants@ = g.push(tei);
                let g2 = self.grants();
                assert forall|a: int| 0 <= a <= tei implies (self.tokens_milli as int) + 1000 * (
                #[trigger] count_in(g2, a, tei)) <= 1000 * cap + rate * (tei - a) by {
                    lemma_count_push(g, tei, a, tei);
                    assert((filled as int) + 1000 * count_in(g, a, tei) <= 1000 * cap + rate * (
                    tei - a));
                }
                assert forall|i: int, a: int|
                    0 <= i < g2.len() && 0 <= a <= g2[i] implies 1000 * (#[trigger] count_in(
                    g2,
                    a,
                    g2[i],
                )) <= 1000 * cap + rate * (g2[i] - a) by {
                    if i < g.len() && g2[i] < tei {
                        lemma_count_push(g, tei, a, g2[i]);
                        assert(g2[i] == g[i]);
                        assert(1000 * count_in(g, a, g[i]) <= 1000 * cap + rate * (g[i] - a));
                    } else {
                        // the new grant, or an old one at the same instant
                        assert(g2[i] == tei);
                        lemma_count_push(g, tei, a, tei);
                        lemma_count_nonneg(g, a, tei);
                        assert((filled as int) + 1000 * count_in(g, a, tei) <= 1000 * cap + rate * (
                        tei - a));
                        assert(1000 * count_in(g2, a, tei) == 1000 * count_in(g, a, tei) + 1000);
                    }
                }
            }
            true
        } else {
            self.tokens_milli = filled;
            false
        }
    }
}

/// Rate adherence: over any sliding window of at most one second, a
/// well-formed bucket has granted at most `capacity + rate` fetch starts —
/// the steady per-second rate plus the burst allowance.
pub proof fn lemma_rate_window(b: &TokenBucket, lo: int, hi: int)
    requires
        b.wf(),
        0 <= lo,
        hi - lo <= 1000,
    ensures
        count_in(b.grants(), lo, hi) <= b.spec_capacity() + b.spec_rate(),
{
    lemma_window_bound(b.grants(), b.spec_capacity(), b.spec_rate(), lo, hi);
}

} // verus!
