use crate::decorrelate::stereo::in_i64;
use vstd::prelude::*;

verus! {

/// The right neighbour of even sample `2i` (the sample itself at the end).
pub open spec fn wl_x2(s: Seq<i64>, i: int) -> i64 {
    if 2 * i + 2 < s.len() {
        s[2 * i + 2]
    } else {
        s[2 * i]
    }
}

/// Detail coefficient `i`: the odd sample minus the mean of its even neighbours.
pub open spec fn wl_high(s: Seq<i64>, i: int) -> int {
    s[2 * i + 1] - (s[2 * i] + wl_x2(s, i)) / 2
}

/// The detail coefficients of a signal.
pub open spec fn wl_highs(s: Seq<i64>) -> Seq<i64> {
    Seq::new(s.len() / 2, |i: int| wl_high(s, i) as i64)
}

/// The update added to even sample `2i`: a quarter of the neighbouring details, rounded.
pub open spec fn wl_update(h: Seq<i64>, i: int) -> int {
    ((if i > 0 {
        h[i - 1] as int
    } else {
        0
    }) + (if i < h.len() {
        h[i] as int
    } else {
        0
    }) + 2) / 4
}

/// The approximation coefficients of a signal.
pub open spec fn wl_lows(s: Seq<i64>) -> Seq<i64> {
    Seq::new((s.len() + 1) / 2, |i: int| (s[2 * i] + wl_update(wl_highs(s), i)) as i64)
}

/// Every step of the update of even sample `2i` stays within `i64`.
pub open spec fn wl_update_ok(h: Seq<i64>, i: int) -> bool {
    let dp = if i > 0 {
        h[i - 1] as int
    } else {
        0
    };
    let dc = if i < h.len() {
        h[i] as int
    } else {
        0
    };
    in_i64(dp + dc) && in_i64(dp + dc + 2)
}

/// The forward transform stays within `i64`.
pub open spec fn wavelet_fwd_ok(s: Seq<i64>) -> bool {
    &&& forall|i: int|
        0 <= i < s.len() / 2 ==> in_i64(s[2 * i] + #[trigger] wl_x2(s, i)) && in_i64(wl_high(s, i))
    &&& forall|i: int|
        0 <= i < (s.len() + 1) / 2 ==> #[trigger] wl_update_ok(wl_highs(s), i) && in_i64(
            s[2 * i] + wl_update(wl_highs(s), i),
        )
}

proof fn lemma_shr(x: i64)
    ensures
        (x >> 1u64) as int == x as int / 2,
        (x >> 2u64) as int == x as int / 4,
{
    assert(x >> 1u64 == x / 2) by (bit_vector);
    assert(x >> 2u64 == x / 4) by (bit_vector);
}

/// The 5/3 integer lifting wavelet: approximation and detail coefficients.
pub fn forward_cdwt_53(signal: &[i64]) -> (r: (Vec<i64>, Vec<i64>))
    requires
        wavelet_fwd_ok(signal@),
    ensures
        r.0@ == wl_lows(signal@),
        r.1@ == wl_highs(signal@),
{
    let n = signal.len();
    if n == 0 {
        proof {
            assert(wl_lows(signal@) =~= Seq::<i64>::empty());
            assert(wl_highs(signal@) =~= Seq::<i64>::empty());
        }
        return (Vec::new(), Vec::new());
    }
    let half = n / 2 + n % 2;
    let mut high: Vec<i64> = Vec::with_capacity(n / 2);
    let mut i: usize = 0;
    while i < n / 2
        invariant
            n == signal@.len(),
            i <= n / 2,
            wavelet_fwd_ok(signal@),
            high@ =~= wl_highs(signal@).take(i as int),
        decreases n / 2 - i,
    {
        let x0 = signal[2 * i];
        let x1 = signal[2 * i + 1];
        let x2 = if 2 * i + 2 < n {
            signal[2 * i + 2]
        } else {
            x0
        };
        proof {
            assert(in_i64(signal@[2 * i] + wl_x2(signal@, i as int)) && in_i64(wl_high(signal@, i as int)));
            lemma_shr((x0 + x2) as i64);
        }
        let d = x1 - ((x0 + x2) >> 1);
        high.push(d);
        i = i + 1;
    }
    proof {
        assert(high@ =~= wl_highs(signal@));
    }
    let mut low: Vec<i64> = Vec::with_capacity(half);
    let mut j: usize = 0;
    while j < half
        invariant
            n == signal@.len(),
            half == (n + 1) / 2,
            j <= half,
            wavelet_fwd_ok(signal@),
            high@ == wl_highs(signal@),
            low@ =~= wl_lows(signal@).take(j as int),
        decreases half - j,
    {
        let x0 = signal[2 * j];
        let d_prev = if j > 0 {
            high[j - 1]
        } else {
            0
        };
        let d_curr = if j < high.len() {
            high[j]
        } else {
            0
        };
        proof {
            assert(wl_update_ok(wl_highs(signal@), j as int) && in_i64(
                signal@[2 * j] + wl_update(wl_highs(signal@), j as int),
            ));
            lemma_shr((d_prev + d_curr + 2) as i64);
        }
        let s = x0 + ((d_prev + d_curr + 2) >> 2);
        low.push(s);
        j = j + 1;
    }
    proof {
        assert(low@ =~= wl_lows(signal@));
    }
    (low, high)
}

/// The even samples recovered from the coefficients.
pub open spec fn wl_evens(low: Seq<i64>, high: Seq<i64>) -> Seq<i64> {
    Seq::new(low.len(), |i: int| (low[i] - wl_update(high, i)) as i64)
}

/// The signal the inverse transform rebuilds.
pub open spec fn wl_inverse(low: Seq<i64>, high: Seq<i64>) -> Seq<i64> {
    let total = low.len() + high.len();
    let e = wl_evens(low, high);
    Seq::new(
        total,
        |k: int| if k % 2 == 0 {
            e[k / 2]
        } else {
            let i = k / 2;
            let x2 = if 2 * i + 2 < total {
                e[i + 1]
            } else {
                e[i]
            };
            (high[i] + (e[i] + x2) / 2) as i64
        },
    )
}

/// The inverse transform stays within `i64`.
pub open spec fn wavelet_inv_ok(low: Seq<i64>, high: Seq<i64>) -> bool {
    let total = low.len() + high.len();
    let e = wl_evens(low, high);
    &&& high.len() <= low.len() <= high.len() + 1
    &&& forall|i: int|
        0 <= i < low.len() ==> #[trigger] wl_update_ok(high, i) && in_i64(low[i] - wl_update(high, i))
    &&& forall|i: int|
        0 <= i < high.len() ==> in_i64(e[i] + (if 2 * i + 2 < total {
            e[i + 1]
        } else {
            e[i]
        })) && in_i64(#[trigger] high[i] + (e[i] + (if 2 * i + 2 < total {
            e[i + 1]
        } else {
            e[i]
        })) / 2)
}

/// Rebuilds the signal from approximation and detail coefficients.
pub fn inverse_cdwt_53(low: &[i64], high: &[i64]) -> (r: Vec<i64>)
    requires
        wavelet_inv_ok(low@, high@),
        low@.len() + high@.len() <= usize::MAX,
    ensures
        r@ == wl_inverse(low@, high@),
{
    let total_len = low.len() + high.len();
    if total_len == 0 {
        proof {
            assert(wl_inverse(low@, high@) =~= Seq::<i64>::empty());
        }
        return Vec::new();
    }
    let ghost e = wl_evens(low@, high@);
    let mut evens: Vec<i64> = Vec::with_capacity(low.len());
    let mut i: usize = 0;
    while i < low.len()
        invariant
            i <= low@.len(),
            wavelet_inv_ok(low@, high@),
            e == wl_evens(low@, high@),
            evens@ =~= e.take(i as int),
        decreases low@.len() - i,
    {
        let s = low[i];
        let d_prev = if i > 0 {
            high[i - 1]
        } else {
            0
        };
        let d_curr = if i < high.len() {
            high[i]
        } else {
            0
        };
        proof {
            assert(wl_update_ok(high@, i as int) && in_i64(low@[i as int] - wl_update(high@, i as int)));
            lemma_shr((d_prev + d_curr + 2) as i64);
        }
        evens.push(s - ((d_prev + d_curr + 2) >> 2));
        i = i + 1;
    }
    proof {
        assert(evens@ =~= e);
    }
    let mut reconstructed: Vec<i64> = Vec::with_capacity(total_len);
    let mut k: usize = 0;
    while k < total_len
        invariant
            total_len == low@.len() + high@.len(),
            k <= total_len,
            wavelet_inv_ok(low@, high@),
            e == wl_evens(low@, high@),
            evens@ == e,
            reconstructed@.len() == k,
            forall|j: int| 0 <= j < k ==> #[trigger] reconstructed@[j] == wl_inverse(low@, high@)[j],
        decreases total_len - k,
    {
        let i = k / 2;
        if k % 2 == 0 {
            reconstructed.push(evens[i]);
        } else {
            let d = high[i];
            let x0 = evens[i];
            let x2 = if 2 * i + 2 < total_len {
                evens[i + 1]
            } else {
                x0
            };
            proof {
                assert(in_i64(#[trigger] high@[i as int] + (e[i as int] + (if 2 * i + 2 < total_len {
                    e[i + 1]
                } else {
                    e[i as int]
                })) / 2));
                lemma_shr((x0 + x2) as i64);
            }
            reconstructed.push(d + ((x0 + x2) >> 1));
        }
        proof {
            assert(reconstructed@[k as int] == wl_inverse(low@, high@)[k as int]);
        }
        k = k + 1;
    }
    proof {
        assert(reconstructed@ =~= wl_inverse(low@, high@));
    }
    reconstructed
}

proof fn lemma_wl_evens(s: Seq<i64>)
    requires
        wavelet_fwd_ok(s),
    ensures
        wl_evens(wl_lows(s), wl_highs(s)).len() == (s.len() + 1) / 2,
        forall|i: int|
            0 <= i < (s.len() + 1) / 2 ==> #[trigger] wl_evens(wl_lows(s), wl_highs(s))[i] == s[2 * i],
        forall|i: int|
            0 <= i < (s.len() + 1) / 2 ==> #[trigger] wl_update_ok(wl_highs(s), i) && in_i64(
                wl_lows(s)[i] - wl_update(wl_highs(s), i),
            ),
{
    let low = wl_lows(s);
    let high = wl_highs(s);
    let e = wl_evens(low, high);
    assert forall|i: int| 0 <= i < (s.len() + 1) / 2 implies #[trigger] e[i] == s[2 * i] by {
        lemma_wl_even_at(s, i);
    }
    assert forall|i: int| 0 <= i < (s.len() + 1) / 2 implies #[trigger] wl_update_ok(high, i) && in_i64(
        low[i] - wl_update(high, i),
    ) by {
        lemma_wl_even_at(s, i);
    }
}

proof fn lemma_wl_even_at(s: Seq<i64>, i: int)
    requires
        wavelet_fwd_ok(s),
        0 <= i < (s.len() + 1) / 2,
    ensures
        wl_evens(wl_lows(s), wl_highs(s))[i] == s[2 * i],
        wl_update_ok(wl_highs(s), i),
        in_i64(wl_lows(s)[i] - wl_update(wl_highs(s), i)),
{
    assert(wl_update_ok(wl_highs(s), i));
    assert(in_i64(s[2 * i] + wl_update(wl_highs(s), i)));
    let low = wl_lows(s);
    let high = wl_highs(s);
    assert(low[i] as int == s[2 * i] + wl_update(high, i));
}

proof fn lemma_wl_odd_at(s: Seq<i64>, i: int)
    requires
        wavelet_fwd_ok(s),
        0 <= i < s.len() / 2,
    ensures
        ({
            let e = wl_evens(wl_lows(s), wl_highs(s));
            let x2 = if 2 * i + 2 < s.len() {
                e[i + 1]
            } else {
                e[i]
            };
            &&& in_i64(e[i] + x2)
            &&& in_i64(wl_highs(s)[i] + (e[i] + x2) / 2)
            &&& wl_highs(s)[i] + (e[i] + x2) / 2 == s[2 * i + 1]
        }),
{
    lemma_wl_evens(s);
    assert(in_i64(s[2 * i] + wl_x2(s, i)) && in_i64(wl_high(s, i)));
}

proof fn lemma_wl_inv_ok_odd(s: Seq<i64>)
    requires
        wavelet_fwd_ok(s),
    ensures
        ({
            let low = wl_lows(s);
            let high = wl_highs(s);
            let total = low.len() + high.len();
            let e = wl_evens(low, high);
            forall|i: int|
                0 <= i < high.len() ==> in_i64(e[i] + (if 2 * i + 2 < total {
                    e[i + 1]
                } else {
                    e[i]
                })) && in_i64(#[trigger] high[i] + (e[i] + (if 2 * i + 2 < total {
                    e[i + 1]
                } else {
                    e[i]
                })) / 2)
        }),
{
    let low = wl_lows(s);
    let high = wl_highs(s);
    assert(low.len() + high.len() == s.len());
    let e = wl_evens(low, high);
    assert forall|i: int| 0 <= i < high.len() implies in_i64(e[i] + (if 2 * i + 2 < s.len() {
        e[i + 1]
    } else {
        e[i]
    })) && in_i64(#[trigger] high[i] + (e[i] + (if 2 * i + 2 < s.len() {
        e[i + 1]
    } else {
        e[i]
    })) / 2) by {
        lemma_wl_odd_at(s, i);
    }
}

proof fn lemma_wl_inv_eq(s: Seq<i64>)
    requires
        wavelet_fwd_ok(s),
    ensures
        wl_inverse(wl_lows(s), wl_highs(s)) == s,
{
    let low = wl_lows(s);
    let high = wl_highs(s);
    let e = wl_evens(low, high);
    lemma_wl_evens(s);
    assert forall|k: int| 0 <= k < s.len() implies #[trigger] wl_inverse(low, high)[k] == s[k] by {
        if k % 2 == 1 {
            lemma_wl_odd_at(s, k / 2);
        } else {
            assert(e[k / 2] == s[2 * (k / 2)]);
        }
    }
    assert(wl_inverse(low, high) =~= s);
}

/// The inverse transform undoes the forward one, with no overflow on the way.
pub proof fn lemma_wavelet_roundtrip(s: Seq<i64>)
    requires
        wavelet_fwd_ok(s),
    ensures
        wavelet_inv_ok(wl_lows(s), wl_highs(s)),
        wl_inverse(wl_lows(s), wl_highs(s)) == s,
{
    lemma_wl_evens(s);
    lemma_wl_inv_ok_odd(s);
    lemma_wl_inv_eq(s);
}

} // verus!
