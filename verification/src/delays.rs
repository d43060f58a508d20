//! Delay bookkeeping for the LEDBAT congestion controller: truncated integer
//! division (as Rust's `/` computes it), an exponentially weighted moving
//! average over delay samples, and the per-minute base-delay history.

use vstd::prelude::*;

verus! {

/// One microsecond per-minute bucket boundary.
pub const MINUTE_IN_MICROSECONDS: i64 = 60_000_000;

/// One one-way-delay measurement: the time it was received and the measured
/// difference between the peer's send timestamp and local receive time.
#[derive(Clone, Copy, Debug, PartialEq, Eq, Structural)]
pub struct DelayDifferenceSample {
    pub received_at: i64,
    pub difference: i64,
}

/// Truncated (round-toward-zero) division, matching Rust's `/` on signed
/// integers for a positive divisor.
pub open spec fn tdiv(a: int, b: int) -> int
    recommends
        b > 0,
{
    if a >= 0 {
        a / b
    } else {
        -((-a) / b)
    }
}

/// Truncated division of `a` by a positive divisor `b`.
pub fn tdiv_i64(a: i64, b: i64) -> (r: i64)
    requires
        b > 0,
        a > i64::MIN,
    ensures
        r == tdiv(a as int, b as int),
        0 <= r <= a || a <= r <= 0,
{
    if a >= 0 {
        let q = (a as u64) / (b as u64);
        proof {
            assert(q <= a as u64);
        }
        q as i64
    } else {
        let q = ((-a) as u64) / (b as u64);
        proof {
            assert(q <= (-a) as u64);
        }
        -(q as i64)
    }
}

/// The exponentially weighted moving average, with smoothing factor 0.333,
/// of the first `k` samples, starting from 0.
pub open spec fn ewma_prefix(s: Seq<i64>, k: int) -> int
    decreases k,
{
    if k <= 0 {
        0
    } else {
        tdiv(333 * s[k - 1] + 667 * ewma_prefix(s, k - 1), 1000)
    }
}

/// The EWMA (smoothing factor 0.333) of a whole sample sequence; 0 when empty.
pub open spec fn spec_ewma(s: Seq<i64>) -> int {
    ewma_prefix(s, s.len() as int)
}

/// An EWMA of samples bounded by `m` in magnitude is itself bounded by `m`.
pub proof fn lemma_ewma_prefix_bound(s: Seq<i64>, k: int, m: int)
    requires
        0 <= m,
        k <= s.len(),
        forall|i: int| 0 <= i < s.len() ==> -m <= #[trigger] s[i] <= m,
    ensures
        -m <= ewma_prefix(s, k) <= m,
    decreases k,
{
    if k <= 0 {
    } else {
        lemma_ewma_prefix_bound(s, k - 1, m);
        let n = 333 * s[k - 1] + 667 * ewma_prefix(s, k - 1);
        assert(-1000 * m <= n <= 1000 * m);
        if n >= 0 {
            assert(n / 1000 <= m) by (nonlinear_arith)
                requires
                    0 <= n <= 1000 * m,
            ;
        } else {
            assert((-n) / 1000 <= m) by (nonlinear_arith)
                requires
                    0 < -n <= 1000 * m,
            ;
        }
    }
}

/// The smallest of the first `k` entries (`k >= 1`).
pub open spec fn min_prefix(s: Seq<i64>, k: int) -> i64
    decreases k,
{
    if k <= 1 {
        s[0]
    } else {
        let m = min_prefix(s, k - 1);
        if s[k - 1] < m {
            s[k - 1]
        } else {
            m
        }
    }
}

/// The smallest entry of the sequence, or 0 when it is empty.
pub open spec fn spec_min_base(s: Seq<i64>) -> i64 {
    if s.len() == 0 {
        0
    } else {
        min_prefix(s, s.len() as int)
    }
}

/// `min_prefix` is a lower bound of the entries it covers, and is one of them.
pub proof fn lemma_min_prefix(s: Seq<i64>, k: int)
    requires
        1 <= k <= s.len(),
    ensures
        forall|i: int| 0 <= i < k ==> min_prefix(s, k) <= #[trigger] s[i],
        exists|i: int| 0 <= i < k && min_prefix(s, k) == #[trigger] s[i],
    decreases k,
{
    if k == 1 {
        assert(min_prefix(s, k) == s[0]);
    } else {
        lemma_min_prefix(s, k - 1);
    }
}

/// The base-delay history after one sample: if the history is empty or the
/// minute has rolled over, the oldest of ten entries is dropped and the sample
/// starts a new bucket; otherwise the current bucket keeps the smaller of its
/// value and the sample. Returns the new history and the new rollover time.
pub open spec fn spec_update_base(bd: Seq<i64>, last_rollover: i64, v: i64, now: i64) -> (
    Seq<i64>,
    i64,
) {
    if bd.len() == 0 || now - last_rollover > MINUTE_IN_MICROSECONDS {
        let kept = if bd.len() == 10 {
            bd.skip(1)
        } else {
            bd
        };
        (kept.push(v), now)
    } else {
        let tail = bd[bd.len() - 1];
        (bd.update(bd.len() - 1, if v < tail { v } else { tail }), last_rollover)
    }
}

/// The current-delay samples that remain after evicting, from the front,
/// every sample older than `window` relative to `now`.
pub open spec fn spec_evict(cd: Seq<DelayDifferenceSample>, now: i64, window: i64) -> Seq<
    DelayDifferenceSample,
>
    decreases cd.len(),
{
    if cd.len() > 0 && now - cd[0].received_at > window {
        spec_evict(cd.skip(1), now, window)
    } else {
        cd
    }
}

} // verus!

verus! {

/// Truncated division never exceeds the magnitude bound of its dividend.
pub proof fn lemma_tdiv_bound(a: int, b: int, m: int)
    requires
        b > 0,
        -m <= a <= m,
        0 <= m,
    ensures
        -m <= tdiv(a, b) <= m,
{
    if a >= 0 {
        vstd::arithmetic::div_mod::lemma_div_is_ordered_by_denominator(a, 1, b);
        vstd::arithmetic::div_mod::lemma_div_pos_is_pos(a, b);
        assert(a / 1 == a);
    } else {
        vstd::arithmetic::div_mod::lemma_div_is_ordered_by_denominator(-a, 1, b);
        vstd::arithmetic::div_mod::lemma_div_pos_is_pos(-a, b);
        assert((-a) / 1 == -a);
    }
}

} // verus!

verus! {

/// Two sequences equal on a prefix have equal prefix minima.
proof fn lemma_min_prefix_congruence(s: Seq<i64>, t: Seq<i64>, k: int)
    requires
        1 <= k <= s.len(),
        k <= t.len(),
        forall|i: int| 0 <= i < k ==> #[trigger] s[i] == t[i],
    ensures
        min_prefix(s, k) == min_prefix(t, k),
    decreases k,
{
    if k > 1 {
        lemma_min_prefix_congruence(s, t, k - 1);
    }
}

/// The minimum after appending a sample is the smaller of the old minimum and
/// the sample.
pub proof fn lemma_min_base_push(s: Seq<i64>, v: i64)
    ensures
        spec_min_base(s.push(v)) == if s.len() == 0 || v < spec_min_base(s) {
            v
        } else {
            spec_min_base(s)
        },
{
    let t = s.push(v);
    if s.len() == 0 {
        assert(min_prefix(t, 1) == t[0]);
    } else {
        lemma_min_prefix_congruence(t, s, s.len() as int);
        assert(min_prefix(t, t.len() as int) == if t[t.len() - 1] < min_prefix(
            t,
            t.len() as int - 1,
        ) {
            t[t.len() - 1]
        } else {
            min_prefix(t, t.len() as int - 1)
        });
    }
}

/// How one sample moves the minimum of the base-delay history (the law behind
/// the LEDBAT base-delay window): on a rollover the new bucket's sample joins
/// the (at most nine) kept buckets and the minimum is taken over them; within
/// a bucket the minimum only ever drops to the sample.
pub proof fn lemma_base_delay_min(bd: Seq<i64>, last_rollover: i64, v: i64, now: i64)
    ensures
        ({
            let bd2 = spec_update_base(bd, last_rollover, v, now).0;
            if bd.len() == 0 || now - last_rollover > MINUTE_IN_MICROSECONDS {
                let kept = if bd.len() == 10 {
                    bd.skip(1)
                } else {
                    bd
                };
                spec_min_base(bd2) == if kept.len() == 0 || v < spec_min_base(kept) {
                    v
                } else {
                    spec_min_base(kept)
                }
            } else {
                spec_min_base(bd2) == if v < spec_min_base(bd) {
                    v
                } else {
                    spec_min_base(bd)
                }
            }
        }),
{
    if bd.len() == 0 || now - last_rollover > MINUTE_IN_MICROSECONDS {
        let kept = if bd.len() == 10 {
            bd.skip(1)
        } else {
            bd
        };
        lemma_min_base_push(kept, v);
    } else {
        let tail = bd[bd.len() - 1];
        let bd2 = bd.update(bd.len() - 1, if v < tail {
            v
        } else {
            tail
        });
        if v < tail {
            assert(bd2.len() == bd.len());
            if bd.len() == 1 {
                assert(min_prefix(bd2, 1) == v);
                assert(min_prefix(bd, 1) == tail);
            } else {
                lemma_min_prefix_congruence(bd2, bd, bd.len() as int - 1);
                lemma_min_prefix(bd, bd.len() as int);
                lemma_min_prefix(bd2, bd2.len() as int);
                assert(min_prefix(bd2, bd2.len() as int) == if bd2[bd2.len() - 1] < min_prefix(
                    bd2,
                    bd2.len() as int - 1,
                ) {
                    bd2[bd2.len() - 1]
                } else {
                    min_prefix(bd2, bd2.len() as int - 1)
                });
                assert(min_prefix(bd, bd.len() as int) == if bd[bd.len() - 1] < min_prefix(
                    bd,
                    bd.len() as int - 1,
                ) {
                    bd[bd.len() - 1]
                } else {
                    min_prefix(bd, bd.len() as int - 1)
                });
            }
        } else {
            assert(bd2 =~= bd);
            lemma_min_prefix(bd, bd.len() as int);
        }
    }
}

} // verus!
