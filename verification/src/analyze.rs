use vstd::prelude::*;

verus! {

/// The energy of the 128 samples from `start`: the sum of their squares.
pub open spec fn window_energy(s: Seq<i64>, start: int, n: nat) -> nat
    decreases n,
{
    if n == 0 {
        0
    } else {
        window_energy(s, start, (n - 1) as nat) + (s[start + n - 1] * s[start + n - 1]) as nat
    }
}

/// The fixed-point scale of the running energy: 40 fraction bits.
pub open spec fn energy_scale() -> nat {
    0x100_0000_0000
}

/// The transient search from window `start` on, with `q` the running mean energy (times
/// 128, in 40-bit fixed point): the first window whose energy exceeds ten times the running
/// mean, the running mean then moving a fifth of the way to each window's energy.
pub open spec fn transient_from(s: Seq<i64>, start: int, q: nat) -> Option<usize>
    decreases s.len() - start,
{
    if start < 128 || start + 128 >= s.len() {
        None
    } else {
        let e = window_energy(s, start, 128) * energy_scale();
        if e > 10 * q {
            Some(start as usize)
        } else {
            transient_from(s, start + 64, (4 * q + e) / 5)
        }
    }
}

/// Where `detect_transient` finds a transient: none in fewer than 512 samples; else the
/// search from the window at 128, the running mean starting at the mean energy of the
/// first 128 samples plus 1.
pub open spec fn transient_spec(s: Seq<i64>) -> Option<usize> {
    if s.len() < 512 {
        None
    } else {
        transient_from(s, 128, (window_energy(s, 0, 128) + 128) * energy_scale())
    }
}

/// The running mean carried by the search stays at least the energy of some window it has
/// passed: one starting before `start`.
proof fn lemma_transient_from_jump(s: Seq<i64>, start: int, q: nat, j0: int)
    requires
        s.len() <= usize::MAX,
        0 <= j0 < start,
        q >= window_energy(s, j0, 128) * energy_scale(),
    ensures
        transient_from(s, start, q) matches Some(i) ==> {
            &&& start <= i
            &&& 128 <= i
            &&& i + 128 < s.len()
            &&& exists|j: int| 0 <= j < i && 10 * #[trigger] window_energy(s, j, 128) < window_energy(s, i as int, 128)
        },
    decreases s.len() - start,
{
    if start < 128 || start + 128 >= s.len() {
    } else {
        let we = window_energy(s, start, 128);
        let e = we * energy_scale();
        if e > 10 * q {
            assert(10 * window_energy(s, j0, 128) < we) by (nonlinear_arith)
                requires
                    we * 0x100_0000_0000 > 10 * q,
                    q >= window_energy(s, j0, 128) * 0x100_0000_0000,
            ;
            assert(start as usize as int == start);
        } else {
            let q2 = (4 * q + e) / 5;
            if we <= window_energy(s, j0, 128) {
                assert(q2 >= we * energy_scale()) by (nonlinear_arith)
                    requires
                        q2 == (4 * q + e) / 5,
                        e == we * 0x100_0000_0000,
                        q >= window_energy(s, j0, 128) * 0x100_0000_0000,
                        we <= window_energy(s, j0, 128),
                ;
                lemma_transient_from_jump(s, start + 64, q2, start);
            } else {
                assert(q2 >= window_energy(s, j0, 128) * energy_scale()) by (nonlinear_arith)
                    requires
                        q2 == (4 * q + e) / 5,
                        e == we * 0x100_0000_0000,
                        q >= window_energy(s, j0, 128) * 0x100_0000_0000,
                        we > window_energy(s, j0, 128),
                ;
                lemma_transient_from_jump(s, start + 64, q2, j0);
            }
        }
    }
}

/// A transient is reported only where a window of 128 samples holds more than ten times the
/// energy of some window before it, and lies wholly inside the signal after the first 128
/// samples; so a signal in which no window holds more than ten times the energy of any
/// earlier one has no transient.
pub proof fn lemma_transient_is_tenfold_jump(s: Seq<i64>)
    requires
        s.len() <= usize::MAX,
    ensures
        transient_spec(s) matches Some(i) ==> {
            &&& 128 <= i
            &&& i + 128 < s.len()
            &&& exists|j: int| 0 <= j < i && 10 * #[trigger] window_energy(s, j, 128) < window_energy(s, i as int, 128)
        },
        (forall|i: int, j: int|
            #![trigger window_energy(s, i, 128), window_energy(s, j, 128)]
            0 <= j < i ==> window_energy(s, i, 128) <= 10 * window_energy(s, j, 128)) ==> transient_spec(s) is None,
{
    if s.len() >= 512 {
        let q = (window_energy(s, 0, 128) + 128) * energy_scale();
        assert(q >= window_energy(s, 0, 128) * energy_scale()) by (nonlinear_arith)
            requires
                q == (window_energy(s, 0, 128) + 128) * 0x100_0000_0000,
        ;
        lemma_transient_from_jump(s, 128, q, 0);
    }
}

/// From `start` on, with the running mean at most `m` (scaled), a window at `i` holding more
/// than ten times `m`, and every window before it holding at most `m`, the search stops at
/// `i` or before.
proof fn lemma_transient_from_finds(s: Seq<i64>, start: int, q: nat, m: nat, i: int)
    requires
        s.len() <= usize::MAX,
        128 <= start <= i,
        (i - start) % 64 == 0,
        i + 128 < s.len(),
        q <= m * energy_scale(),
        window_energy(s, i, 128) > 10 * m,
        forall|j: int| start <= j < i && (j - start) % 64 == 0 ==> #[trigger] window_energy(s, j, 128) <= m,
    ensures
        transient_from(s, start, q) matches Some(k) && k <= i,
    decreases i - start,
{
    let we = window_energy(s, start, 128);
    let e = we * energy_scale();
    if start == i {
        assert(e > 10 * q) by (nonlinear_arith)
            requires
                e == we * 0x100_0000_0000,
                we > 10 * m,
                q <= m * 0x100_0000_0000,
        ;
    } else if e > 10 * q {
    } else {
        assert(we <= m);
        let q2 = (4 * q + e) / 5;
        assert(q2 <= m * energy_scale()) by (nonlinear_arith)
            requires
                q2 == (4 * q + e) / 5,
                e == we * 0x100_0000_0000,
                we <= m,
                q <= m * 0x100_0000_0000,
        ;
        assert forall|j: int| start + 64 <= j < i && (j - (start + 64)) % 64 == 0 implies #[trigger] window_energy(
            s,
            j,
            128,
        ) <= m by {
            assert((j - start) % 64 == 0);
        }
        lemma_transient_from_finds(s, start + 64, q2, m, i);
    }
}

/// A window (on the 64-sample grid from 128) holding more than ten times the energy of
/// every window before it, and of the first 128 samples plus 128, is a transient: the
/// search reports it or an earlier one.
pub proof fn lemma_transient_found_by_tenfold_jump(s: Seq<i64>, m: nat, i: int)
    requires
        s.len() <= usize::MAX,
        s.len() >= 512,
        128 <= i,
        i % 64 == 0,
        i + 128 < s.len(),
        window_energy(s, 0, 128) + 128 <= m,
        forall|j: int| 128 <= j < i && j % 64 == 0 ==> #[trigger] window_energy(s, j, 128) <= m,
        window_energy(s, i, 128) > 10 * m,
    ensures
        transient_spec(s) matches Some(k) && k <= i,
{
    let q = (window_energy(s, 0, 128) + 128) * energy_scale();
    assert(q <= m * energy_scale()) by (nonlinear_arith)
        requires
            q == (window_energy(s, 0, 128) + 128) * 0x100_0000_0000,
            window_energy(s, 0, 128) + 128 <= m,
    ;
    assert forall|j: int| 128 <= j < i && (j - 128) % 64 == 0 implies #[trigger] window_energy(s, j, 128) <= m by {
        assert(j % 64 == 0);
    }
    assert((i - 128) % 64 == 0);
    lemma_transient_from_finds(s, 128, q, m, i);
}

/// Samples within `2^32` of zero.
pub open spec fn samples_in_range(s: Seq<i64>) -> bool {
    forall|i: int| 0 <= i < s.len() ==> -0x1_0000_0000 <= #[trigger] s[i] <= 0x1_0000_0000
}

proof fn lemma_energy_bound(s: Seq<i64>, start: int, n: nat)
    requires
        samples_in_range(s),
        0 <= start,
        start + n <= s.len(),
    ensures
        window_energy(s, start, n) <= n * 0x1_0000_0000_0000_0000,
    decreases n,
{
    if n > 0 {
        lemma_energy_bound(s, start, (n - 1) as nat);
        let x = s[start + n - 1];
        assert(-0x1_0000_0000 <= x <= 0x1_0000_0000);
        assert(x * x <= 0x1_0000_0000_0000_0000) by (nonlinear_arith)
            requires
                -0x1_0000_0000 <= x <= 0x1_0000_0000,
        ;
        assert(x * x >= 0) by (nonlinear_arith);
    }
}

/// The energy of the 128 samples from `start`.
fn energy(s: &[i64], start: usize) -> (r: u128)
    requires
        samples_in_range(s@),
        start + 128 <= s@.len(),
    ensures
        r == window_energy(s@, start as int, 128),
        r <= 0x80_0000_0000_0000_0000,
{
    let mut sum: u128 = 0;
    let mut i: usize = 0;
    while i < 128
        invariant
            i <= 128,
            start + 128 <= s@.len(),
            s@.len() == s.len(),
            samples_in_range(s@),
            sum == window_energy(s@, start as int, i as nat),
        decreases 128 - i,
    {
        proof {
            lemma_energy_bound(s@, start as int, (i + 1) as nat);
            assert((i + 1) * 0x1_0000_0000_0000_0000 <= 128 * 0x1_0000_0000_0000_0000);
        }
        let x = s[start + i];
        proof {
            assert(-0x1_0000_0000 <= x <= 0x1_0000_0000);
            assert(x * x <= 0x1_0000_0000_0000_0000) by (nonlinear_arith)
                requires
                    -0x1_0000_0000 <= x <= 0x1_0000_0000,
            ;
            assert(x * x >= 0) by (nonlinear_arith);
        }
        let sq = (x as i128 * x as i128) as u128;
        sum = sum + sq;
        i = i + 1;
    }
    proof {
        lemma_energy_bound(s@, start as int, 128);
    }
    sum
}

/// The start of the first window of 128 samples whose energy jumps above ten times the
/// running mean before it, as `transient_spec` says, or none. The running mean is kept in
/// 40-bit fixed point, so a window whose energy lies within that rounding of ten times the
/// mean is judged by the fixed-point value, which a floating-point mean may judge the other
/// way.
pub fn detect_transient(channel_data: &[i64]) -> (r: Option<usize>)
    requires
        samples_in_range(channel_data@),
    ensures
        r == transient_spec(channel_data@),
{
    if channel_data.len() < 512 {
        return None;
    }
    let scale: u128 = 0x100_0000_0000;
    let e0 = energy(channel_data, 0);
    let mut q: u128 = (e0 + 128) * scale;
    let mut start: usize = 128;
    let n = channel_data.len();
    while start < n && n - start > 128
        invariant
            start <= n + 64,
            n == channel_data@.len(),
            n >= 512,
            start >= 128,
            samples_in_range(channel_data@),
            scale == energy_scale(),
            q <= (0x80_0000_0000_0000_0000 + 128) * 0x100_0000_0000,
            transient_spec(channel_data@) == transient_from(channel_data@, start as int, q as nat),
        decreases n - start,
    {
        let e = energy(channel_data, start) * scale;
        if e > 10 * q {
            return Some(start);
        }
        q = (4 * q + e) / 5;
        start = start + 64;
    }
    None
}

} // verus!
