use vstd::prelude::*;

verus! {

/// Whether a value fits an `i64`.
pub open spec fn in_i64(x: int) -> bool {
    i64::MIN <= x <= i64::MAX
}

/// How a stereo pair is coded: as is, as left and side, as side and right, or as mid and
/// side.
#[derive(Copy, Clone, Debug, PartialEq, Eq, Structural)]
pub enum StereoMode {
    Independent,
    LeftSide,
    RightSide,
    MidSide,
}

pub open spec fn stereo_code(m: StereoMode) -> u8 {
    match m {
        StereoMode::Independent => 0,
        StereoMode::LeftSide => 1,
        StereoMode::RightSide => 2,
        StereoMode::MidSide => 3,
    }
}

impl StereoMode {
    pub fn to_code(&self) -> (r: u8)
        ensures
            r == stereo_code(*self),
    {
        match self {
            StereoMode::Independent => 0,
            StereoMode::LeftSide => 1,
            StereoMode::RightSide => 2,
            StereoMode::MidSide => 3,
        }
    }

    /// The mode coded `code`, if any: codes 0 to 3 name the modes and give them back.
    pub fn from_code(code: u8) -> (r: Option<Self>)
        ensures
            code <= 3 ==> r is Some && stereo_code(r->Some_0) == code,
            code > 3 ==> r is None,
    {
        match code {
            0 => Some(StereoMode::Independent),
            1 => Some(StereoMode::LeftSide),
            2 => Some(StereoMode::RightSide),
            3 => Some(StereoMode::MidSide),
            _ => None,
        }
    }
}

/// Decoding a mode's code gives the mode back.
pub proof fn lemma_stereo_code_roundtrip(m: StereoMode)
    ensures
        stereo_code(m) <= 3,
        forall|n: StereoMode| stereo_code(n) == stereo_code(m) ==> n == m,
{
}

/// The two coded channels for one left/right sample pair.
pub open spec fn stereo_fwd(l: i64, r: i64, mode: StereoMode) -> (i64, i64) {
    match mode {
        StereoMode::Independent => (l, r),
        StereoMode::LeftSide => (l, (l - r) as i64),
        StereoMode::RightSide => ((l - r) as i64, r),
        StereoMode::MidSide => ((((l + r) as int) / 2) as i64, (l - r) as i64),
    }
}

/// The coding of a sample pair stays within `i64`.
pub open spec fn stereo_fwd_ok(l: i64, r: i64, mode: StereoMode) -> bool {
    match mode {
        StereoMode::Independent => true,
        StereoMode::LeftSide => in_i64(l - r),
        StereoMode::RightSide => in_i64(l - r),
        StereoMode::MidSide => in_i64(l + r) && in_i64(l - r),
    }
}

/// The left/right pair for one pair of coded samples.
pub open spec fn stereo_inv(c0: i64, c1: i64, mode: StereoMode) -> (i64, i64) {
    match mode {
        StereoMode::Independent => (c0, c1),
        StereoMode::LeftSide => (c0, (c0 - c1) as i64),
        StereoMode::RightSide => ((c0 + c1) as i64, c1),
        StereoMode::MidSide => (
            (c0 + (c1 as int + 1) / 2) as i64,
            (c0 - (c1 as int) / 2) as i64,
        ),
    }
}

/// The decoding of a pair of coded samples stays within `i64`.
pub open spec fn stereo_inv_ok(c0: i64, c1: i64, mode: StereoMode) -> bool {
    match mode {
        StereoMode::Independent => true,
        StereoMode::LeftSide => in_i64(c0 - c1),
        StereoMode::RightSide => in_i64(c0 + c1),
        StereoMode::MidSide => in_i64(c1 + 1) && in_i64(c0 + (c1 as int + 1) / 2) && in_i64(
            c0 - (c1 as int) / 2,
        ),
    }
}

pub(crate) proof fn lemma_shr1(x: i64)
    ensures
        (x >> 1u64) as int == x as int / 2,
{
    assert(x >> 1u64 == x / 2) by (bit_vector);
}

/// Decoding a coded sample pair gives the left/right pair back, with no overflow on the way.
pub proof fn lemma_stereo_roundtrip(l: i64, r: i64, mode: StereoMode)
    requires
        stereo_fwd_ok(l, r, mode),
        mode == StereoMode::MidSide ==> l - r < i64::MAX,
    ensures
        stereo_inv_ok(stereo_fwd(l, r, mode).0, stereo_fwd(l, r, mode).1, mode),
        stereo_inv(stereo_fwd(l, r, mode).0, stereo_fwd(l, r, mode).1, mode) == (l, r),
{
    if mode == StereoMode::MidSide {
        let t = l + r;
        let m = t / 2;
        let s = l - r;
        vstd::arithmetic::div_mod::lemma_fundamental_div_mod(t, 2);
        let e = t % 2;
        assert(s == 2 * (m - r) + e);
        if e == 0 {
            assert((s + 1) / 2 == m - r);
            assert(s / 2 == m - r);
        } else {
            assert((s + 1) / 2 == m - r + 1);
            assert(s / 2 == m - r);
        }
    }
}

/// Codes a stereo block in `mode`.
pub fn decorrelate_stereo(left: &[i64], right: &[i64], mode: StereoMode) -> (r: (Vec<i64>, Vec<i64>))
    requires
        right@.len() == left@.len(),
        forall|i: int| 0 <= i < left@.len() ==> stereo_fwd_ok(#[trigger] left@[i], right@[i], mode),
    ensures
        r.0@.len() == left@.len(),
        r.1@.len() == left@.len(),
        forall|i: int| 0 <= i < left@.len() ==> #[trigger] r.0@[i] == stereo_fwd(left@[i], right@[i], mode).0,
        forall|i: int| 0 <= i < left@.len() ==> #[trigger] r.1@[i] == stereo_fwd(left@[i], right@[i], mode).1,
{
    let n = left.len();
    let mut ch0: Vec<i64> = Vec::with_capacity(n);
    let mut ch1: Vec<i64> = Vec::with_capacity(n);
    let mut i: usize = 0;
    while i < n
        invariant
            n == left@.len(),
            right@.len() == n,
            i <= n,
            ch0@.len() == i,
            ch1@.len() == i,
            forall|i: int| 0 <= i < left@.len() ==> stereo_fwd_ok(#[trigger] left@[i], right@[i], mode),
            forall|j: int| 0 <= j < i ==> #[trigger] ch0@[j] == stereo_fwd(left@[j], right@[j], mode).0,
            forall|j: int| 0 <= j < i ==> #[trigger] ch1@[j] == stereo_fwd(left@[j], right@[j], mode).1,
        decreases n - i,
    {
        let l = left[i];
        let r = right[i];
        assert(stereo_fwd_ok(left@[i as int], right@[i as int], mode));
        match mode {
            StereoMode::Independent => {
                ch0.push(l);
                ch1.push(r);
            },
            StereoMode::LeftSide => {
                ch0.push(l);
                ch1.push(l - r);
            },
            StereoMode::RightSide => {
                ch0.push(l - r);
                ch1.push(r);
            },
            StereoMode::MidSide => {
                proof {
                    lemma_shr1((l + r) as i64);
                }
                ch0.push((l + r) >> 1);
                ch1.push(l - r);
            },
        }
        i = i + 1;
    }
    (ch0, ch1)
}

/// Decodes a stereo block coded in `mode` back to left and right.
pub fn reconstruct_stereo(ch0: &[i64], ch1: &[i64], mode: StereoMode) -> (r: (Vec<i64>, Vec<i64>))
    requires
        ch1@.len() == ch0@.len(),
        forall|i: int| 0 <= i < ch0@.len() ==> stereo_inv_ok(#[trigger] ch0@[i], ch1@[i], mode),
    ensures
        r.0@.len() == ch0@.len(),
        r.1@.len() == ch0@.len(),
        forall|i: int| 0 <= i < ch0@.len() ==> #[trigger] r.0@[i] == stereo_inv(ch0@[i], ch1@[i], mode).0,
        forall|i: int| 0 <= i < ch0@.len() ==> #[trigger] r.1@[i] == stereo_inv(ch0@[i], ch1@[i], mode).1,
{
    let n = ch0.len();
    let mut left: Vec<i64> = Vec::with_capacity(n);
    let mut right: Vec<i64> = Vec::with_capacity(n);
    let mut i: usize = 0;
    while i < n
        invariant
            n == ch0@.len(),
            ch1@.len() == n,
            i <= n,
            left@.len() == i,
            right@.len() == i,
            forall|i: int| 0 <= i < ch0@.len() ==> stereo_inv_ok(#[trigger] ch0@[i], ch1@[i], mode),
            forall|j: int| 0 <= j < i ==> #[trigger] left@[j] == stereo_inv(ch0@[j], ch1@[j], mode).0,
            forall|j: int| 0 <= j < i ==> #[trigger] right@[j] == stereo_inv(ch0@[j], ch1@[j], mode).1,
        decreases n - i,
    {
        let a = ch0[i];
        let b = ch1[i];
        assert(stereo_inv_ok(ch0@[i as int], ch1@[i as int], mode));
        match mode {
            StereoMode::Independent => {
                left.push(a);
                right.push(b);
            },
            StereoMode::LeftSide => {
                left.push(a);
                right.push(a - b);
            },
            StereoMode::RightSide => {
                left.push(a + b);
                right.push(b);
            },
            StereoMode::MidSide => {
                proof {
                    lemma_shr1((b + 1) as i64);
                    lemma_shr1(b);
                }
                left.push(a + ((b + 1) >> 1));
                right.push(a - (b >> 1));
            },
        }
        i = i + 1;
    }
    (left, right)
}

/// `|x|` as the encoder sums it.
pub open spec fn abs_spec(x: i64) -> nat {
    if x < 0 {
        (-x) as nat
    } else {
        x as nat
    }
}

pub fn unsigned_abs(x: i64) -> (r: u64)
    ensures
        r == abs_spec(x),
{
    if x < 0 {
        ((-(x + 1)) as u64) + 1
    } else {
        x as u64
    }
}

/// The sum of `|x|` over a run.
pub open spec fn abs_sum(s: Seq<i64>) -> nat
    decreases s.len(),
{
    if s.len() == 0 {
        0
    } else {
        abs_sum(s.drop_last()) + abs_spec(s.last())
    }
}

/// The coded channels of a block in `mode`.
pub open spec fn stereo_fwd_seq(l: Seq<i64>, r: Seq<i64>, mode: StereoMode) -> (Seq<i64>, Seq<i64>) {
    (
        Seq::new(l.len(), |i: int| stereo_fwd(l[i], r[i], mode).0),
        Seq::new(l.len(), |i: int| stereo_fwd(l[i], r[i], mode).1),
    )
}

/// The cost the mode search compares: the sum of magnitudes over both coded channels.
pub open spec fn stereo_cost(l: Seq<i64>, r: Seq<i64>, mode: StereoMode) -> nat {
    abs_sum(stereo_fwd_seq(l, r, mode).0) + abs_sum(stereo_fwd_seq(l, r, mode).1)
}

/// The mode the search settles on: the cheapest, the earlier of
/// Independent, LeftSide, RightSide, MidSide on ties.
pub open spec fn best_stereo_mode(l: Seq<i64>, r: Seq<i64>) -> StereoMode {
    let c0 = stereo_cost(l, r, StereoMode::Independent);
    let c1 = stereo_cost(l, r, StereoMode::LeftSide);
    let c2 = stereo_cost(l, r, StereoMode::RightSide);
    let c3 = stereo_cost(l, r, StereoMode::MidSide);
    let (m1, b1) = if c1 < c0 {
        (StereoMode::LeftSide, c1)
    } else {
        (StereoMode::Independent, c0)
    };
    let (m2, b2) = if c2 < b1 {
        (StereoMode::RightSide, c2)
    } else {
        (m1, b1)
    };
    if c3 < b2 {
        StereoMode::MidSide
    } else {
        m2
    }
}

/// Every mode codes the block within `i64`, and every cost fits a `u64`.
pub open spec fn stereo_search_ok(l: Seq<i64>, r: Seq<i64>) -> bool {
    &&& r.len() == l.len()
    &&& forall|i: int| 0 <= i < l.len() ==> stereo_fwd_ok(#[trigger] l[i], r[i], StereoMode::LeftSide)
        && stereo_fwd_ok(l[i], r[i], StereoMode::MidSide)
    &&& forall|m: StereoMode| #[trigger] stereo_cost(l, r, m) < u64::MAX
}

proof fn lemma_abs_sum_prefix(s: Seq<i64>, i: int)
    requires
        0 <= i <= s.len(),
    ensures
        abs_sum(s.take(i)) <= abs_sum(s),
    decreases s.len(),
{
    if i < s.len() {
        assert(s.drop_last().take(i) =~= s.take(i));
        lemma_abs_sum_prefix(s.drop_last(), i);
    } else {
        assert(s.take(i) =~= s);
    }
}

fn abs_total(a: &Vec<i64>, b: &Vec<i64>) -> (r: u64)
    requires
        abs_sum(a@) + abs_sum(b@) < u64::MAX,
    ensures
        r == abs_sum(a@) + abs_sum(b@),
{
    let mut sum = 0u64;
    let mut i: usize = 0;
    while i < a.len()
        invariant
            i <= a@.len(),
            abs_sum(a@) + abs_sum(b@) < u64::MAX,
            sum == abs_sum(a@.take(i as int)),
        decreases a@.len() - i,
    {
        proof {
            assert(a@.take(i + 1).drop_last() =~= a@.take(i as int));
            lemma_abs_sum_prefix(a@, i + 1);
        }
        sum = sum + unsigned_abs(a[i]);
        i = i + 1;
    }
    proof {
        assert(a@.take(a@.len() as int) =~= a@);
    }
    let ghost sa = sum;
    let mut j: usize = 0;
    while j < b.len()
        invariant
            j <= b@.len(),
            abs_sum(a@) + abs_sum(b@) < u64::MAX,
            sa == abs_sum(a@),
            sum == sa + abs_sum(b@.take(j as int)),
        decreases b@.len() - j,
    {
        proof {
            assert(b@.take(j + 1).drop_last() =~= b@.take(j as int));
            lemma_abs_sum_prefix(b@, j + 1);
        }
        sum = sum + unsigned_abs(b[j]);
        j = j + 1;
    }
    proof {
        assert(b@.take(b@.len() as int) =~= b@);
    }
    sum
}

/// Tries the four modes and keeps the cheapest, with its coded channels.
pub fn search_stereo_mode(left: &[i64], right: &[i64]) -> (r: (StereoMode, Vec<i64>, Vec<i64>))
    requires
        stereo_search_ok(left@, right@),
    ensures
        r.0 == best_stereo_mode(left@, right@),
        (r.1@, r.2@) == stereo_fwd_seq(left@, right@, r.0),
{
    let ghost l = left@;
    let ghost rr = right@;
    let mut best_mode = StereoMode::Independent;
    let mut min_sum = u64::MAX;
    let mut best0: Vec<i64> = Vec::new();
    let mut best1: Vec<i64> = Vec::new();
    let mut idx: usize = 0;
    while idx < 4
        invariant
            idx <= 4,
            stereo_search_ok(l, rr),
            l == left@,
            rr == right@,
            idx == 0 ==> min_sum == u64::MAX,
            idx >= 1 ==> (best0@, best1@) == stereo_fwd_seq(l, rr, best_mode),
            idx >= 1 ==> min_sum == stereo_cost(l, rr, best_mode),
            idx == 1 ==> best_mode == StereoMode::Independent,
            idx == 2 ==> best_mode == (if stereo_cost(l, rr, StereoMode::LeftSide) < stereo_cost(l, rr, StereoMode::Independent) {
                StereoMode::LeftSide
            } else {
                StereoMode::Independent
            }),
            idx == 3 ==> {
                let c0 = stereo_cost(l, rr, StereoMode::Independent);
                let c1 = stereo_cost(l, rr, StereoMode::LeftSide);
                let c2 = stereo_cost(l, rr, StereoMode::RightSide);
                let (m1, b1) = if c1 < c0 {
                    (StereoMode::LeftSide, c1)
                } else {
                    (StereoMode::Independent, c0)
                };
                best_mode == (if c2 < b1 {
                    StereoMode::RightSide
                } else {
                    m1
                })
            },
            idx == 4 ==> best_mode == best_stereo_mode(l, rr),
        decreases 4 - idx,
    {
        let mode = if idx == 0 {
            StereoMode::Independent
        } else if idx == 1 {
            StereoMode::LeftSide
        } else if idx == 2 {
            StereoMode::RightSide
        } else {
            StereoMode::MidSide
        };
        proof {
            assert forall|i: int| 0 <= i < l.len() implies stereo_fwd_ok(#[trigger] l[i], rr[i], mode) by {
                assert(stereo_fwd_ok(l[i], rr[i], StereoMode::LeftSide));
                assert(stereo_fwd_ok(l[i], rr[i], StereoMode::MidSide));
            }
        }
        let (ch0, ch1) = decorrelate_stereo(left, right, mode);
        proof {
            assert(ch0@ =~= stereo_fwd_seq(l, rr, mode).0);
            assert(ch1@ =~= stereo_fwd_seq(l, rr, mode).1);
            assert(stereo_search_ok(l, rr));
            assert(forall|m: StereoMode| #[trigger] stereo_cost(l, rr, m) < u64::MAX);
            assert(stereo_cost(l, rr, mode) < u64::MAX);
        }
        let sum = abs_total(&ch0, &ch1);
        if sum < min_sum {
            min_sum = sum;
            best_mode = mode;
            best0 = ch0;
            best1 = ch1;
        }
        idx = idx + 1;
    }
    (best_mode, best0, best1)
}


/// Samples of a 32-bit-or-narrower channel: within `2^31` of zero.
pub open spec fn pcm32(s: Seq<i64>) -> bool {
    forall|i: int| 0 <= i < s.len() ==> -0x8000_0000 <= #[trigger] s[i] < 0x8000_0000
}

proof fn lemma_abs_sum_le(s: Seq<i64>, b: nat)
    requires
        forall|i: int| 0 <= i < s.len() ==> abs_spec(#[trigger] s[i]) <= b,
    ensures
        abs_sum(s) <= s.len() * b,
    decreases s.len(),
{
    if s.len() > 0 {
        let g = s.drop_last();
        assert forall|i: int| 0 <= i < g.len() implies abs_spec(#[trigger] g[i]) <= b by {
            assert(g[i] == s[i]);
        }
        lemma_abs_sum_le(g, b);
        assert(abs_spec(s[s.len() - 1]) <= b);
        assert(g.len() * b + b == s.len() * b) by (nonlinear_arith)
            requires
                g.len() + 1 == s.len(),
        ;
    }
}

/// Two channels of a block of at most 65535 samples within 32 bits: every stereo mode
/// codes them within `2^32` of zero, and the mode search's sums fit.
pub proof fn lemma_stereo_bounded(l: Seq<i64>, r: Seq<i64>)
    requires
        l.len() == r.len(),
        l.len() <= 0xFFFF,
        pcm32(l),
        pcm32(r),
    ensures
        stereo_search_ok(l, r),
        forall|m: StereoMode, i: int|
            0 <= i < l.len() ==> -0x1_0000_0000 <= #[trigger] stereo_fwd_seq(l, r, m).0[i]
                <= 0x1_0000_0000 && -0x1_0000_0000 <= stereo_fwd_seq(l, r, m).1[i] <= 0x1_0000_0000,
{
    assert forall|m: StereoMode, i: int| 0 <= i < l.len() implies -0x1_0000_0000
        <= #[trigger] stereo_fwd_seq(l, r, m).0[i] <= 0x1_0000_0000 && -0x1_0000_0000
        <= stereo_fwd_seq(l, r, m).1[i] <= 0x1_0000_0000 by {
        assert(-0x8000_0000 <= l[i] < 0x8000_0000);
        assert(-0x8000_0000 <= r[i] < 0x8000_0000);
    }
    assert forall|m: StereoMode| #[trigger] stereo_cost(l, r, m) < u64::MAX by {
        let (a, b) = stereo_fwd_seq(l, r, m);
        assert forall|i: int| 0 <= i < a.len() implies abs_spec(#[trigger] a[i]) <= 0x1_0000_0000 by {
            assert(-0x8000_0000 <= l[i] < 0x8000_0000);
            assert(-0x8000_0000 <= r[i] < 0x8000_0000);
        }
        assert forall|i: int| 0 <= i < b.len() implies abs_spec(#[trigger] b[i]) <= 0x1_0000_0000 by {
            assert(-0x8000_0000 <= l[i] < 0x8000_0000);
            assert(-0x8000_0000 <= r[i] < 0x8000_0000);
        }
        lemma_abs_sum_le(a, 0x1_0000_0000);
        lemma_abs_sum_le(b, 0x1_0000_0000);
        assert(a.len() * 0x1_0000_0000 <= 0xFFFF * 0x1_0000_0000) by (nonlinear_arith)
            requires
                a.len() <= 0xFFFF,
        ;
    }
    assert forall|i: int| 0 <= i < l.len() implies stereo_fwd_ok(#[trigger] l[i], r[i], StereoMode::LeftSide)
        && stereo_fwd_ok(l[i], r[i], StereoMode::MidSide) by {
        assert(-0x8000_0000 <= l[i] < 0x8000_0000);
        assert(-0x8000_0000 <= r[i] < 0x8000_0000);
    }
}

} // verus!
