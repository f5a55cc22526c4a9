use vstd::prelude::*;

verus! {

/// The channels interleaved sample by sample: sample `s` of channel `c` at `s * n + c`,
/// over the first channel's length.
pub open spec fn interleaved(chs: Seq<Seq<i64>>) -> Seq<i64> {
    let n = chs.len();
    if n == 0 {
        Seq::empty()
    } else {
        Seq::new(chs[0].len() * n, |i: int| chs[i % (n as int)][i / (n as int)])
    }
}

/// Interleaves the channels, as `interleaved` says; every channel must be as long as the
/// first.
pub fn interleave_channels(chs: &Vec<Vec<i64>>) -> (r: Vec<i64>)
    requires
        chs@.len() > 0 ==> forall|c: int| 0 <= c < chs@.len() ==> #[trigger] chs@[c]@.len() >= chs@[0]@.len(),
        chs@.len() > 0 ==> chs@[0]@.len() * chs@.len() <= usize::MAX,
    ensures
        r@ == interleaved(chs@.map_values(|v: Vec<i64>| v@)),
{
    let ghost cv = chs@.map_values(|v: Vec<i64>| v@);
    let mut out: Vec<i64> = Vec::new();
    let n = chs.len();
    if n == 0 {
        proof {
            assert(out@ =~= interleaved(cv));
        }
        return out;
    }
    let total = chs[0].len();
    let mut s: usize = 0;
    while s < total
        invariant
            s <= total,
            n == chs@.len(),
            n > 0,
            total == chs@[0]@.len(),
            total * n <= usize::MAX,
            cv == chs@.map_values(|v: Vec<i64>| v@),
            forall|c: int| 0 <= c < n ==> #[trigger] chs@[c]@.len() >= total,
            out@.len() == s * n,
            forall|i: int| 0 <= i < s * n ==> #[trigger] out@[i] == cv[i % (n as int)][i / (n as int)],
        decreases total - s,
    {
        let mut c: usize = 0;
        while c < n
            invariant
                c <= n,
                s < total,
                n == chs@.len(),
                n > 0,
                total == chs@[0]@.len(),
                total * n <= usize::MAX,
                cv == chs@.map_values(|v: Vec<i64>| v@),
                forall|k: int| 0 <= k < n ==> #[trigger] chs@[k]@.len() >= total,
                out@.len() == s * n + c,
                forall|i: int| 0 <= i < s * n + c ==> #[trigger] out@[i] == cv[i % (n as int)][i / (n as int)],
            decreases n - c,
        {
            proof {
                assert(chs@[c as int]@.len() >= total);
                assert((s * n + c) % (n as int) == c as int && (s * n + c) / (n as int) == s as int) by (nonlinear_arith)
                    requires
                        c < n,
                        n > 0,
                ;
                assert(s * n + c < total * n) by (nonlinear_arith)
                    requires
                        c < n,
                        s < total,
                ;
            }
            out.push(chs[c][s]);
            c = c + 1;
        }
        proof {
            assert(s * n + n == (s + 1) * n) by (nonlinear_arith);
        }
        s = s + 1;
    }
    proof {
        assert(out@ =~= interleaved(cv));
    }
    out
}

/// Splits `total` interleaved frames of `n` channels into the channels: channel `c` takes
/// sample `s` from `raw[s * n + c]`.
pub fn deinterleave_channels(raw: &[i32], n: usize, total: usize) -> (r: Vec<Vec<i64>>)
    requires
        raw@.len() == total * n,
    ensures
        r@.len() == n,
        forall|c: int| 0 <= c < n ==> #[trigger] r@[c]@.len() == total,
        forall|c: int, s: int|
            0 <= c < n && 0 <= s < total ==> #[trigger] r@[c]@[s] == raw@[s * n + c] as i64,
{
    let len = raw.len();
    let mut out: Vec<Vec<i64>> = Vec::with_capacity(n);
    let mut c: usize = 0;
    while c < n
        invariant
            c <= n,
            raw@.len() == total * n,
            len == raw@.len(),
            out@.len() == c,
            forall|k: int| 0 <= k < c ==> #[trigger] out@[k]@.len() == total,
            forall|k: int, s: int|
                0 <= k < c && 0 <= s < total ==> #[trigger] out@[k]@[s] == raw@[s * n + k] as i64,
        decreases n - c,
    {
        let mut ch: Vec<i64> = Vec::with_capacity(total);
        let mut s: usize = 0;
        while s < total
            invariant
                c < n,
                s <= total,
                raw@.len() == total * n,
                len == raw@.len(),
                ch@.len() == s,
                forall|j: int| 0 <= j < s ==> #[trigger] ch@[j] == raw@[j * n + c] as i64,
            decreases total - s,
        {
            proof {
                assert(s * n + c < total * n && s * n <= total * n) by (nonlinear_arith)
                    requires
                        c < n,
                        s < total,
                ;
            }
            ch.push(raw[s * n + c] as i64);
            s = s + 1;
        }
        out.push(ch);
        c = c + 1;
    }
    out
}

/// The largest magnitude a mix at `bit_depth` bits may reach below zero: `2^15` at 16 bits,
/// `2^23` at 24, `2^31` otherwise.
pub open spec fn mix_limit(bit_depth: u8) -> int {
    if bit_depth == 16 {
        0x8000
    } else if bit_depth == 24 {
        0x80_0000
    } else {
        0x8000_0000
    }
}

/// The sample a track adds to channel `ch` of the mix: its own channel `ch` for a stereo
/// track, else its first channel.
pub open spec fn mix_source(tr: Seq<Seq<i64>>, ch: int, s: int) -> int {
    if tr.len() == 2 {
        tr[ch][s] as int
    } else {
        tr[0][s] as int
    }
}

/// The sum over the first `k` tracks.
pub open spec fn mix_sum(ts: Seq<Seq<Seq<i64>>>, ch: int, s: int, k: nat) -> int
    decreases k,
{
    if k == 0 {
        0
    } else {
        mix_sum(ts, ch, s, (k - 1) as nat) + mix_source(ts[k - 1], ch, s)
    }
}

/// `x` held to `lo ..= hi`.
pub open spec fn clamp_int(x: int, lo: int, hi: int) -> int {
    if x < lo {
        lo
    } else if x > hi {
        hi
    } else {
        x
    }
}

/// Mixes the tracks down: two channels if any track is stereo, else one; each mixed sample
/// the sum over the tracks, held to the range of `bit_depth` bits.
pub open spec fn mixdown(ts: Seq<Seq<Seq<i64>>>, bit_depth: u8) -> Seq<Seq<i64>> {
    let nch: nat = if exists|t: int| 0 <= t < ts.len() && #[trigger] ts[t].len() == 2 {
        2
    } else {
        1
    };
    let lim = mix_limit(bit_depth);
    Seq::new(
        nch,
        |ch: int|
            Seq::new(
                ts[0][0].len(),
                |s: int| clamp_int(mix_sum(ts, ch, s, ts.len()), -lim, lim - 1) as i64,
            ),
    )
}

/// Each mixed sample is the sum of the tracks' samples where that sum lies in the range of
/// `bit_depth` bits (`-32768 ..= 32767` at 16 bits, `-8388608 ..= 8388607` at 24, the
/// 32-bit range at any other depth), and the nearest end of that range where it does not.
/// The mix has two channels exactly when some track is stereo, each as long as the first
/// track's first channel.
pub proof fn lemma_mix_clamps_to_depth(ts: Seq<Seq<Seq<i64>>>, bit_depth: u8, ch: int, s: int)
    requires
        0 <= ch < mixdown(ts, bit_depth).len(),
        0 <= s < ts[0][0].len(),
    ensures
        ({
            let lo: int = if bit_depth == 16 {
                -32768
            } else if bit_depth == 24 {
                -8388608
            } else {
                -2147483648
            };
            let hi: int = if bit_depth == 16 {
                32767
            } else if bit_depth == 24 {
                8388607
            } else {
                2147483647
            };
            let sum = mix_sum(ts, ch, s, ts.len());
            &&& lo <= sum <= hi ==> mixdown(ts, bit_depth)[ch][s] == sum
            &&& sum < lo ==> mixdown(ts, bit_depth)[ch][s] == lo
            &&& sum > hi ==> mixdown(ts, bit_depth)[ch][s] == hi
        }),
        mixdown(ts, bit_depth)[ch].len() == ts[0][0].len(),
        (mixdown(ts, bit_depth).len() == 2) <==> exists|t: int| 0 <= t < ts.len() && #[trigger] ts[t].len() == 2,
{
}

/// The sum a mixed sample starts from adds, for every track, its own channel `ch` where it
/// is stereo and its first channel otherwise.
pub proof fn lemma_mix_sum_adds_tracks(ts: Seq<Seq<Seq<i64>>>, ch: int, s: int, k: nat)
    requires
        0 < k,
    ensures
        mix_sum(ts, ch, s, k) == mix_sum(ts, ch, s, (k - 1) as nat) + (if ts[k - 1].len() == 2 {
            ts[k - 1][ch][s] as int
        } else {
            ts[k - 1][0][s] as int
        }),
        mix_sum(ts, ch, s, 1) == (if ts[0].len() == 2 {
            ts[0][ch][s] as int
        } else {
            ts[0][0][s] as int
        }),
{
    assert(mix_sum(ts, ch, s, 0) == 0);
}

/// Every track has a first channel at least as long as the first track's, and a stereo
/// track's second channel is as long too.
pub open spec fn mix_input_ok(ts: Seq<Seq<Seq<i64>>>) -> bool {
    &&& ts.len() > 0
    &&& ts.len() <= 0xFFFF
    &&& ts[0].len() > 0
    &&& forall|t: int|
        0 <= t < ts.len() ==> #[trigger] ts[t].len() > 0 && ts[t][0].len() >= ts[0][0].len() && (
        ts[t].len() == 2 ==> ts[t][1].len() >= ts[0][0].len())
}

proof fn lemma_mix_sum_bound(ts: Seq<Seq<Seq<i64>>>, ch: int, s: int, k: nat)
    requires
        k <= ts.len(),
    ensures
        -0x8000_0000_0000_0000 * k <= mix_sum(ts, ch, s, k) <= 0x7FFF_FFFF_FFFF_FFFF * k,
    decreases k,
{
    if k > 0 {
        lemma_mix_sum_bound(ts, ch, s, (k - 1) as nat);
        let x = mix_source(ts[k - 1], ch, s);
        assert(-0x8000_0000_0000_0000 <= x <= 0x7FFF_FFFF_FFFF_FFFF);
    }
}

/// Mixes the tracks down, as `mixdown` says.
pub fn mix_tracks(tracks: &Vec<Vec<Vec<i64>>>, bit_depth: u8) -> (r: Vec<Vec<i64>>)
    requires
        mix_input_ok(tracks@.map_values(|tr: Vec<Vec<i64>>| tr@.map_values(|c: Vec<i64>| c@))),
    ensures
        r@.map_values(|c: Vec<i64>| c@) == mixdown(
            tracks@.map_values(|tr: Vec<Vec<i64>>| tr@.map_values(|c: Vec<i64>| c@)),
            bit_depth,
        ),
{
    let ghost ts = tracks@.map_values(|tr: Vec<Vec<i64>>| tr@.map_values(|c: Vec<i64>| c@));
    let nt = tracks.len();
    let mut mix_channels: usize = 1;
    let mut t: usize = 0;
    while t < nt
        invariant
            t <= nt,
            nt == tracks@.len(),
            ts == tracks@.map_values(|tr: Vec<Vec<i64>>| tr@.map_values(|c: Vec<i64>| c@)),
            mix_channels == (if exists|k: int| 0 <= k < t && #[trigger] ts[k].len() == 2 {
                2usize
            } else {
                1usize
            }),
        decreases nt - t,
    {
        proof {
            assert(ts[t as int].len() == tracks@[t as int]@.len());
        }
        if tracks[t].len() == 2 {
            mix_channels = 2;
        }
        t = t + 1;
    }
    let total = tracks[0][0].len();
    proof {
        assert(ts[0][0].len() == total);
    }
    let lim: i128 = if bit_depth == 16 {
        0x8000
    } else if bit_depth == 24 {
        0x80_0000
    } else {
        0x8000_0000
    };
    let mut out: Vec<Vec<i64>> = Vec::new();
    let mut ch: usize = 0;
    while ch < mix_channels
        invariant
            ch <= mix_channels <= 2,
            nt == tracks@.len(),
            ts == tracks@.map_values(|tr: Vec<Vec<i64>>| tr@.map_values(|c: Vec<i64>| c@)),
            mix_input_ok(ts),
            total == ts[0][0].len(),
            lim == mix_limit(bit_depth),
            mix_channels as nat == mixdown(ts, bit_depth).len(),
            out@.len() == ch,
            forall|k: int| 0 <= k < ch ==> #[trigger] out@[k]@ == mixdown(ts, bit_depth)[k],
        decreases mix_channels - ch,
    {
        let mut col: Vec<i64> = Vec::with_capacity(total);
        let mut s: usize = 0;
        while s < total
            invariant
                s <= total,
                ch < mix_channels <= 2,
                nt == tracks@.len(),
                ts == tracks@.map_values(|tr: Vec<Vec<i64>>| tr@.map_values(|c: Vec<i64>| c@)),
                mix_input_ok(ts),
                total == ts[0][0].len(),
                lim == mix_limit(bit_depth),
                mix_channels as nat == mixdown(ts, bit_depth).len(),
                col@.len() == s,
                forall|j: int| 0 <= j < s ==> #[trigger] col@[j] == mixdown(ts, bit_depth)[ch as int][j],
            decreases total - s,
        {
            let mut sum: i128 = 0;
            let mut k: usize = 0;
            while k < nt
                invariant
                    k <= nt,
                    s < total,
                    ch < 2,
                    nt == tracks@.len(),
                    nt <= 0xFFFF,
                    ts == tracks@.map_values(|tr: Vec<Vec<i64>>| tr@.map_values(|c: Vec<i64>| c@)),
                    mix_input_ok(ts),
                    total == ts[0][0].len(),
                    (ch == 1 ==> exists|q: int| 0 <= q < ts.len() && #[trigger] ts[q].len() == 2),
                    sum == mix_sum(ts, ch as int, s as int, k as nat),
                decreases nt - k,
            {
                proof {
                    lemma_mix_sum_bound(ts, ch as int, s as int, k as nat);
                    assert(ts[k as int] == tracks@[k as int]@.map_values(|c: Vec<i64>| c@));
                    assert(ts[k as int].len() > 0 && ts[k as int][0].len() >= total);
                }
                let tr = &tracks[k];
                let v = if tr.len() == 2 {
                    proof {
                        assert(ts[k as int][ch as int] == tr@[ch as int]@);
                    }
                    tr[ch][s]
                } else {
                    proof {
                        assert(ts[k as int][0] == tr@[0]@);
                    }
                    tr[0][s]
                };
                proof {
                    assert(k * 0x8000_0000_0000_0000 <= 0xFFFF * 0x8000_0000_0000_0000) by (nonlinear_arith)
                        requires
                            k <= 0xFFFF,
                    ;
                }
                sum = sum + v as i128;
                k = k + 1;
            }
            let clamped: i128 = if sum < -lim {
                -lim
            } else if sum > lim - 1 {
                lim - 1
            } else {
                sum
            };
            col.push(clamped as i64);
            proof {
                assert(col@[s as int] == mixdown(ts, bit_depth)[ch as int][s as int]);
            }
            s = s + 1;
        }
        proof {
            assert(col@ =~= mixdown(ts, bit_depth)[ch as int]);
        }
        out.push(col);
        ch = ch + 1;
    }
    proof {
        assert(out@.map_values(|c: Vec<i64>| c@) =~= mixdown(ts, bit_depth));
    }
    out
}

} // verus!
