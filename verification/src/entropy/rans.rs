use vstd::prelude::*;

verus! {

/// The lower bound of the coder's state, and the state it starts from.
pub const RANS_L: u32 = 65536;

/// How often `b` occurs in `s`.
pub open spec fn count_in(s: Seq<u8>, b: u8) -> nat
    decreases s.len(),
{
    if s.len() == 0 {
        0
    } else {
        count_in(s.drop_last(), b) + if s.last() == b {
            1nat
        } else {
            0nat
        }
    }
}

/// How often the byte values below `k` occur in `s`: where the symbol `k` starts in the
/// cumulative frequencies.
pub open spec fn cum_freq(s: Seq<u8>, k: nat) -> nat
    decreases k,
{
    if k == 0 {
        0
    } else {
        cum_freq(s, (k - 1) as nat) + count_in(s, (k - 1) as u8)
    }
}

/// The bytes the state sheds, low byte first, until it is below `max`.
pub open spec fn renorm_bytes(state: nat, max: nat) -> Seq<u8>
    decreases state,
{
    if max > 0 && state >= max {
        seq![(state % 256) as u8] + renorm_bytes(state / 256, max)
    } else {
        Seq::empty()
    }
}

/// The state after it sheds bytes until it is below `max`.
pub open spec fn renorm_state(state: nat, max: nat) -> nat
    decreases state,
{
    if max > 0 && state >= max {
        renorm_state(state / 256, max)
    } else {
        state
    }
}

/// The state after coding symbol `sym` of frequency `f` from state `s`.
pub open spec fn coded_state(data: Seq<u8>, s: nat, sym: u8, f: nat) -> nat {
    let s2 = renorm_state(s, 1048576 * f);
    (s2 / f) * 4096 + s2 % f + cum_freq(data, sym as nat)
}

/// Coding `data[0 .. k]` from the last byte back to the first, from state `state`: the
/// bytes shed, in the order they are shed, and the final state. A byte value's frequency
/// is how often it occurs in the whole data; the state sheds bytes below `2^20` times that
/// frequency, then takes the symbol in with the frequencies on a scale of 4096.
pub open spec fn rans_back(data: Seq<u8>, k: nat, state: nat) -> (Seq<u8>, nat)
    decreases k,
{
    if k == 0 || k > data.len() {
        (Seq::empty(), state)
    } else {
        let sym = data[k - 1];
        let f = count_in(data, sym);
        if f == 0 {
            rans_back(data, (k - 1) as nat, state)
        } else {
            let e = renorm_bytes(state, 1048576 * f);
            let (rest, sf) = rans_back(data, (k - 1) as nat, coded_state(data, state, sym, f));
            (e + rest, sf)
        }
    }
}

/// The coding of `data[0 .. k]` from `state` stays within a 32-bit state.
pub open spec fn rans_fits(data: Seq<u8>, k: nat, state: nat) -> bool
    decreases k,
{
    if k == 0 || k > data.len() {
        true
    } else {
        let sym = data[k - 1];
        let f = count_in(data, sym);
        if f == 0 {
            rans_fits(data, (k - 1) as nat, state)
        } else {
            &&& 1048576 * f <= u32::MAX
            &&& coded_state(data, state, sym, f) <= u32::MAX
            &&& rans_fits(data, (k - 1) as nat, coded_state(data, state, sym, f))
        }
    }
}

/// The rANS coding of `data`: nothing for no data; else the bytes shed followed by the
/// final state's four bytes, high byte first, the whole stream reversed.
pub open spec fn rans_encoding(data: Seq<u8>) -> Seq<u8> {
    if data.len() == 0 {
        Seq::empty()
    } else {
        let (out, s) = rans_back(data, data.len(), 65536);
        (out + seq![
            ((s / 0x100_0000) % 256) as u8,
            ((s / 0x1_0000) % 256) as u8,
            ((s / 0x100) % 256) as u8,
            (s % 256) as u8,
        ]).reverse()
    }
}

proof fn lemma_count_step(s: Seq<u8>, i: int, b: u8)
    requires
        0 <= i < s.len(),
    ensures
        count_in(s.take(i + 1), b) == count_in(s.take(i), b) + if s[i] == b {
            1nat
        } else {
            0nat
        },
{
    assert(s.take(i + 1).drop_last() =~= s.take(i));
}

proof fn lemma_count_le(s: Seq<u8>, b: u8)
    ensures
        count_in(s, b) <= s.len(),
    decreases s.len(),
{
    if s.len() > 0 {
        lemma_count_le(s.drop_last(), b);
    }
}

proof fn lemma_renorm(state: nat, max: nat)
    requires
        max > 0,
    ensures
        renorm_state(state, max) < max,
        renorm_state(state, max) <= state,
    decreases state,
{
    if state >= max {
        lemma_renorm(state / 256, max);
    }
}

/// Counts each byte value.
fn byte_counts(data: &[u8]) -> (r: Vec<u32>)
    requires
        data@.len() <= u32::MAX,
    ensures
        r@.len() == 256,
        forall|b: int| 0 <= b < 256 ==> #[trigger] r@[b] == count_in(data@, b as u8),
{
    let mut freqs: Vec<u32> = Vec::new();
    let mut k: usize = 0;
    while k < 256
        invariant
            k <= 256,
            freqs@.len() == k,
            forall|b: int| 0 <= b < k ==> #[trigger] freqs@[b] == 0,
        decreases 256 - k,
    {
        freqs.push(0);
        k = k + 1;
    }
    proof {
        assert forall|b: int| 0 <= b < 256 implies #[trigger] freqs@[b] == count_in(data@.take(0), b as u8) by {
            assert(data@.take(0).len() == 0);
        }
    }
    let mut i: usize = 0;
    while i < data.len()
        invariant
            i <= data@.len(),
            data@.len() <= u32::MAX,
            freqs@.len() == 256,
            forall|b: int| 0 <= b < 256 ==> #[trigger] freqs@[b] == count_in(data@.take(i as int), b as u8),
        decreases data@.len() - i,
    {
        let b = data[i] as usize;
        proof {
            lemma_count_le(data@.take(i as int), data@[i as int]);
            assert(freqs@[b as int] == count_in(data@.take(i as int), b as u8));
            assert forall|c: int| 0 <= c < 256 implies #[trigger] count_in(data@.take(i + 1), c as u8) == count_in(
                data@.take(i as int),
                c as u8,
            ) + if data@[i as int] == c as u8 {
                1nat
            } else {
                0nat
            } by {
                lemma_count_step(data@, i as int, c as u8);
            }
        }
        let v = freqs[b] + 1;
        freqs.set(b, v);
        i = i + 1;
    }
    proof {
        assert(data@.take(data@.len() as int) =~= data@);
    }
    freqs
}

/// The cumulative frequencies: entry `k` is how often the byte values below `k` occur.
fn cumulative(freqs: &Vec<u32>, Ghost(data): Ghost<Seq<u8>>) -> (r: Vec<u32>)
    requires
        freqs@.len() == 256,
        forall|b: int| 0 <= b < 256 ==> #[trigger] freqs@[b] == count_in(data, b as u8),
        data.len() <= u32::MAX,
    ensures
        r@.len() == 257,
        forall|k: int| 0 <= k <= 256 ==> #[trigger] r@[k] == cum_freq(data, k as nat),
{
    let mut cum: Vec<u32> = Vec::new();
    cum.push(0);
    let mut i: usize = 0;
    while i < 256
        invariant
            i <= 256,
            freqs@.len() == 256,
            forall|b: int| 0 <= b < 256 ==> #[trigger] freqs@[b] == count_in(data, b as u8),
            data.len() <= u32::MAX,
            cum@.len() == i + 1,
            forall|k: int| 0 <= k <= i ==> #[trigger] cum@[k] == cum_freq(data, k as nat),
        decreases 256 - i,
    {
        proof {
            lemma_cum_le(data, (i + 1) as nat);
        }
        let v = cum[i] + freqs[i];
        cum.push(v);
        i = i + 1;
    }
    cum
}

proof fn lemma_cum_le(s: Seq<u8>, k: nat)
    requires
        k <= 256,
    ensures
        cum_freq(s, k) <= s.len(),
    decreases k,
{
    lemma_cum_split(s, k);
}

/// The cumulative frequency up to `k` is the count of the bytes below `k`.
proof fn lemma_cum_split(s: Seq<u8>, k: nat)
    requires
        k <= 256,
    ensures
        cum_freq(s, k) + cum_above(s, k) == s.len(),
    decreases s.len(),
{
    if s.len() == 0 {
        lemma_cum_empty(s, k);
        lemma_cum_above_empty(s, k);
    } else {
        lemma_cum_split(s.drop_last(), k);
        lemma_cum_push(s, k);
        lemma_cum_above_push(s, k);
    }
}

/// How often the byte values from `k` on occur.
pub open spec fn cum_above(s: Seq<u8>, k: nat) -> nat
    decreases 256 - k,
{
    if k >= 256 {
        0
    } else {
        count_in(s, k as u8) + cum_above(s, k + 1)
    }
}

proof fn lemma_cum_empty(s: Seq<u8>, k: nat)
    requires
        s.len() == 0,
    ensures
        cum_freq(s, k) == 0,
    decreases k,
{
    if k > 0 {
        lemma_cum_empty(s, (k - 1) as nat);
    }
}

proof fn lemma_cum_above_empty(s: Seq<u8>, k: nat)
    requires
        s.len() == 0,
    ensures
        cum_above(s, k) == 0,
    decreases 256 - k,
{
    if k < 256 {
        lemma_cum_above_empty(s, k + 1);
    }
}

proof fn lemma_cum_push(s: Seq<u8>, k: nat)
    requires
        s.len() > 0,
        k <= 256,
    ensures
        cum_freq(s, k) == cum_freq(s.drop_last(), k) + if (s.last() as nat) < k {
            1nat
        } else {
            0nat
        },
    decreases k,
{
    if k > 0 {
        lemma_cum_push(s, (k - 1) as nat);
    }
}

proof fn lemma_cum_above_push(s: Seq<u8>, k: nat)
    requires
        s.len() > 0,
        k <= 256,
    ensures
        cum_above(s, k) == cum_above(s.drop_last(), k) + if (s.last() as nat) >= k {
            1nat
        } else {
            0nat
        },
    decreases 256 - k,
{
    if k < 256 {
        lemma_cum_above_push(s, k + 1);
    }
}

/// Codes `data` with rANS, as `rans_encoding` says.
pub fn rans_encode_bytes(data: &[u8]) -> (r: Vec<u8>)
    requires
        data@.len() <= u32::MAX,
        rans_fits(data@, data@.len(), 65536),
    ensures
        r@ == rans_encoding(data@),
{
    match rans_encode_checked(data) {
        Some(v) => v,
        None => Vec::new(),
    }
}

/// Codes `data` with rANS as `rans_encoding` says where the coding stays within a 32-bit
/// state; none where it does not.
pub fn rans_encode_checked(data: &[u8]) -> (r: Option<Vec<u8>>)
    requires
        data@.len() <= u32::MAX,
    ensures
        r is Some <==> rans_fits(data@, data@.len(), 65536),
        r matches Some(v) ==> v@ == rans_encoding(data@),
{
    if data.len() == 0 {
        return Some(Vec::new());
    }
    let freqs = byte_counts(data);
    let cum = cumulative(&freqs, Ghost(data@));
    let mut state: u64 = RANS_L as u64;
    let mut byte_stream: Vec<u8> = Vec::new();
    let n = data.len();
    let mut k: usize = n;
    let ghost total = rans_back(data@, n as nat, 65536);
    while k > 0
        invariant
            k <= n,
            n == data@.len(),
            freqs@.len() == 256,
            forall|b: int| 0 <= b < 256 ==> #[trigger] freqs@[b] == count_in(data@, b as u8),
            cum@.len() == 257,
            forall|j: int| 0 <= j <= 256 ==> #[trigger] cum@[j] == cum_freq(data@, j as nat),
            state <= u32::MAX,
            rans_fits(data@, n as nat, 65536) == rans_fits(data@, k as nat, state as nat),
            total == rans_back(data@, n as nat, 65536),
            total == (byte_stream@ + rans_back(data@, k as nat, state as nat).0, rans_back(
                data@,
                k as nat,
                state as nat,
            ).1),
        decreases k,
    {
        let sym = data[k - 1] as usize;
        let freq = freqs[sym];
        proof {
            assert(freq == count_in(data@, data@[k - 1]));
        }
        if freq == 0 {
            k = k - 1;
            continue;
        }
        let ghost s0 = state as nat;
        let ghost out0 = byte_stream@;
        let max_state: u64 = 1048576 * freq as u64;
        if max_state > 0xFFFF_FFFF {
            return None;
        }
        let mut st = state;
        while st >= max_state
            invariant
                max_state > 0,
                st <= u32::MAX,
                renorm_bytes(s0, max_state as nat) == byte_stream@.subrange(
                    out0.len() as int,
                    byte_stream@.len() as int,
                ) + renorm_bytes(st as nat, max_state as nat),
                renorm_state(s0, max_state as nat) == renorm_state(st as nat, max_state as nat),
                out0 == byte_stream@.subrange(0, out0.len() as int),
                out0.len() <= byte_stream@.len(),
            decreases st,
        {
            let ghost before = byte_stream@;
            byte_stream.push((st % 256) as u8);
            proof {
                assert(byte_stream@.subrange(out0.len() as int, byte_stream@.len() as int) =~= before.subrange(
                    out0.len() as int,
                    before.len() as int,
                ).push((st % 256) as u8));
                assert(byte_stream@.subrange(0, out0.len() as int) =~= before.subrange(0, out0.len() as int));
            }
            st = st / 256;
        }
        proof {
            lemma_renorm(s0, max_state as nat);
            assert(byte_stream@ =~= out0 + renorm_bytes(s0, max_state as nat));
        }
        let start = cum[sym];
        proof {
            assert(start == cum_freq(data@, sym as nat));
        }
        let f64v = freq as u64;
        let next = (st / f64v) * 4096 + st % f64v + start as u64;
        if next > 0xFFFF_FFFF {
            return None;
        }
        state = next;
        proof {
            assert(state as nat == coded_state(data@, s0, data@[k - 1], freq as nat));
        }
        k = k - 1;
    }
    let ghost body = byte_stream@;
    byte_stream.push(((state / 0x100_0000) % 256) as u8);
    byte_stream.push(((state / 0x1_0000) % 256) as u8);
    byte_stream.push(((state / 0x100) % 256) as u8);
    byte_stream.push((state % 256) as u8);
    let mut out: Vec<u8> = Vec::with_capacity(byte_stream.len());
    let mut i: usize = byte_stream.len();
    while i > 0
        invariant
            i <= byte_stream@.len(),
            out@ =~= byte_stream@.subrange(i as int, byte_stream@.len() as int).reverse(),
        decreases i,
    {
        out.push(byte_stream[i - 1]);
        proof {
            assert(out@ =~= byte_stream@.subrange(i - 1, byte_stream@.len() as int).reverse());
        }
        i = i - 1;
    }
    proof {
        assert(byte_stream@.subrange(0, byte_stream@.len() as int) =~= byte_stream@);
        assert(rans_back(data@, 0, state as nat) == (Seq::<u8>::empty(), state as nat));
        assert(body =~= total.0);
    }
    Some(out)
}

/// The decoder of an rANS stream: its state, read from the first four bytes.
#[derive(Clone, Debug)]
pub struct RansDecoder {
    state: u32,
    _offset: usize,
}

impl RansDecoder {
    /// The state the decoder holds.
    pub closed spec fn spec_state(&self) -> u32 {
        self.state
    }

    /// A decoder whose state is the stream's first four bytes, high byte first, and the
    /// stream's length; none for fewer than four bytes.
    pub fn new(stream: &[u8]) -> (r: Option<(Self, usize)>)
        ensures
            r is Some <==> stream@.len() >= 4,
            r matches Some((d, n)) ==> n == stream@.len() && d.spec_state() as nat == stream@[0] as nat
                * 0x100_0000 + stream@[1] as nat * 0x1_0000 + stream@[2] as nat * 0x100 + stream@[3] as nat,
    {
        if stream.len() < 4 {
            return None;
        }
        let state = (stream[0] as u32) * 0x100_0000 + (stream[1] as u32) * 0x1_0000 + (stream[2] as u32)
            * 0x100 + (stream[3] as u32);
        Some((RansDecoder { state, _offset: 4 }, stream.len()))
    }

    /// The decoder's state.
    pub fn get_state(&self) -> (r: u32)
        ensures
            r == self.spec_state(),
    {
        self.state
    }
}

} // verus!
