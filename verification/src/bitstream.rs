use crate::error::LoomError;
use vstd::arithmetic::div_mod::{lemma_div_denominator, lemma_fundamental_div_mod_converse};
use vstd::arithmetic::power2::{lemma2_to64, lemma_pow2_pos, lemma_pow2_unfold, pow2};
use vstd::bits::lemma_u64_shr_is_div;
use vstd::prelude::*;

verus! {

/// The `n` low bits of `v`, most significant first.
pub open spec fn bits_of(v: nat, n: nat) -> Seq<bool>
    decreases n,
{
    if n == 0 {
        Seq::empty()
    } else {
        bits_of(v / 2, (n - 1) as nat).push(v % 2 == 1)
    }
}

/// The number a bit string spells, most significant bit first.
pub open spec fn bits_val(s: Seq<bool>) -> nat
    decreases s.len(),
{
    if s.len() == 0 {
        0
    } else {
        2 * bits_val(s.drop_last()) + (if s.last() {
            1nat
        } else {
            0nat
        })
    }
}

/// The bits of a byte string, each byte most significant bit first.
pub open spec fn bytes_to_bits(s: Seq<u8>) -> Seq<bool>
    decreases s.len(),
{
    if s.len() == 0 {
        Seq::empty()
    } else {
        bytes_to_bits(s.drop_last()) + bits_of(s.last() as nat, 8)
    }
}

/// `q` zero bits followed by a one bit.
pub open spec fn unary_bits(q: nat) -> Seq<bool> {
    Seq::new(q, |i: int| false).push(true)
}

pub proof fn lemma_unary_len(q: nat)
    ensures
        unary_bits(q).len() == q + 1,
{
    assert(Seq::new(q, |i: int| false).len() == q);
}

/// `m` zero bits.
pub open spec fn zeros(m: nat) -> Seq<bool> {
    Seq::new(m, |i: int| false)
}

/// The padding that completes a partial byte of `pending` bits.
pub open spec fn pad_len(pending: nat) -> nat {
    if pending == 0 {
        0
    } else {
        (8 - pending) as nat
    }
}

/// The bits of `v * 2^m` are those of `v` followed by `m` zeros.
pub proof fn lemma_bits_of_shifted(v: nat, n: nat, m: nat)
    ensures
        bits_of(v * pow2(m), n + m) =~= bits_of(v, n) + zeros(m),
    decreases m,
{
    if m == 0 {
        assert(pow2(0) == 1) by {
            lemma2_to64();
        }
        assert(v * 1 == v);
    } else {
        lemma_bits_of_shifted(v, n, (m - 1) as nat);
        lemma_pow2_unfold(m);
        let w = v * pow2((m - 1) as nat);
        assert(v * pow2(m) == 2 * w) by (nonlinear_arith)
            requires
                pow2(m) == 2 * pow2((m - 1) as nat),
                w == v * pow2((m - 1) as nat),
        ;
        lemma_fundamental_div_mod_converse((2 * w) as int, 2, w as int, 0);
        assert(bits_of(2 * w, n + m) =~= bits_of(w, (n + m - 1) as nat).push(false));
    }
}

/// The bits of zero are all zero.
pub proof fn lemma_bits_of_zero(n: nat)
    ensures
        bits_of(0, n) =~= zeros(n),
    decreases n,
{
    if n > 0 {
        lemma_bits_of_zero((n - 1) as nat);
    }
}

pub proof fn lemma_bits_of_len(v: nat, n: nat)
    ensures
        bits_of(v, n).len() == n,
    decreases n,
{
    if n > 0 {
        lemma_bits_of_len(v / 2, (n - 1) as nat);
    }
}

/// Bit `j` of `bits_of(v, n)` is bit `n - 1 - j` of `v`.
pub proof fn lemma_bits_of_index(v: nat, n: nat, j: int)
    requires
        0 <= j < n,
    ensures
        bits_of(v, n).len() == n,
        bits_of(v, n)[j] == ((v / pow2((n - 1 - j) as nat)) % 2 == 1),
    decreases n,
{
    lemma_bits_of_len(v, n);
    lemma_bits_of_len(v / 2, (n - 1) as nat);
    let s = bits_of(v, n);
    assert(s == bits_of(v / 2, (n - 1) as nat).push(v % 2 == 1));
    if j == n - 1 {
        assert(pow2(0) == 1) by {
            lemma2_to64();
        }
        assert(v / 1 == v);
        assert(s[j] == (v % 2 == 1));
    } else {
        lemma_bits_of_index(v / 2, (n - 1) as nat, j);
        assert(s[j] == bits_of(v / 2, (n - 1) as nat)[j]);
        let e = (n - 2 - j) as nat;
        lemma_pow2_pos(e);
        lemma_div_denominator(v as int, 2, pow2(e) as int);
        lemma_pow2_unfold((e + 1) as nat);
        assert(2 * pow2(e) == pow2((n - 1 - j) as nat));
        assert((v / 2) / pow2(e) == v / pow2((n - 1 - j) as nat));
    }
}

/// Reading back the bits of `v` gives `v` modulo `2^n`.
pub proof fn lemma_bits_val_of(v: nat, n: nat)
    ensures
        bits_val(bits_of(v, n)) == v % pow2(n),
    decreases n,
{
    lemma_pow2_pos(n);
    if n == 0 {
        assert(pow2(0) == 1) by {
            lemma2_to64();
        }
    } else {
        let s = bits_of(v, n);
        assert(s.drop_last() =~= bits_of(v / 2, (n - 1) as nat));
        lemma_bits_val_of(v / 2, (n - 1) as nat);
        let p = pow2((n - 1) as nat);
        lemma_pow2_pos((n - 1) as nat);
        lemma_pow2_unfold(n);
        // v % (2 * p) == 2 * ((v / 2) % p) + v % 2
        vstd::arithmetic::div_mod::lemma_mod_breakdown(v as int, 2, p as int);
    }
}

/// A window of `bits` that holds `x + y` holds `x`, then `y`.
pub proof fn lemma_window_split(bits: Seq<bool>, a: int, x: Seq<bool>, y: Seq<bool>)
    requires
        0 <= a,
        a + x.len() + y.len() <= bits.len(),
        bits.subrange(a, a + x.len() + y.len()) == x + y,
    ensures
        bits.subrange(a, a + x.len()) == x,
        bits.subrange(a + x.len(), a + x.len() + y.len()) == y,
{
    assert(bits.subrange(a, a + x.len()) =~= (x + y).subrange(0, x.len() as int));
    assert(bits.subrange(a + x.len(), a + x.len() + y.len()) =~= (x + y).subrange(
        x.len() as int,
        (x.len() + y.len()) as int,
    ));
    assert((x + y).subrange(0, x.len() as int) =~= x);
    assert((x + y).subrange(x.len() as int, (x.len() + y.len()) as int) =~= y);
}

/// Only the `n` low bits of `v` matter to `bits_of(v, n)`.
pub proof fn lemma_bits_of_mod(v: nat, n: nat)
    ensures
        bits_of(v % pow2(n), n) =~= bits_of(v, n),
    decreases n,
{
    lemma_pow2_pos(n);
    if n > 0 {
        let p = pow2((n - 1) as nat);
        lemma_pow2_pos((n - 1) as nat);
        lemma_pow2_unfold(n);
        vstd::arithmetic::div_mod::lemma_mod_breakdown(v as int, 2, p as int);
        let x = v % pow2(n);
        let y = (v / 2) % p;
        vstd::arithmetic::div_mod::lemma_mod_pos_bound((v / 2) as int, p as int);
        lemma_fundamental_div_mod_converse(x as int, 2, y as int, (v % 2) as int);
        lemma_bits_of_mod(v / 2, (n - 1) as nat);
    }
}

/// Masking with `2^n - 1` leaves the `n` low bits.
pub proof fn lemma_mask_bits(x: u64, n: u64)
    requires
        n < 64,
    ensures
        (1u64 << n) == pow2(n as nat),
        (1u64 << n) >= 1,
        bits_of((x & ((1u64 << n) - 1) as u64) as nat, n as nat) =~= bits_of(x as nat, n as nat),
        (x & ((1u64 << n) - 1) as u64) as nat == x as nat % pow2(n as nat),
{
    vstd::bits::lemma_u64_pow2_no_overflow(n as nat);
    lemma_pow2_pos(n as nat);
    vstd::bits::lemma_u64_shl_is_mul(1, n);
    vstd::bits::lemma_u64_low_bits_mask_is_mod(x, n as nat);
    assert(vstd::bits::low_bits_mask(n as nat) == pow2(n as nat) - 1) by {
        reveal(vstd::bits::low_bits_mask);
    }
    lemma_bits_of_mod(x as nat, n as nat);
}

/// A bit string spells a number below `2^len`, whose bits give the string back.
pub proof fn lemma_bits_of_val(s: Seq<bool>)
    ensures
        bits_val(s) < pow2(s.len()),
        bits_of(bits_val(s), s.len()) =~= s,
    decreases s.len(),
{
    if s.len() == 0 {
        assert(pow2(0) == 1) by {
            lemma2_to64();
        }
    } else {
        lemma_bits_of_val(s.drop_last());
        lemma_pow2_unfold(s.len());
        let v = bits_val(s);
        let b: nat = if s.last() {
            1
        } else {
            0
        };
        lemma_fundamental_div_mod_converse(v as int, 2, bits_val(s.drop_last()) as int, b as int);
        assert(s =~= s.drop_last().push(s.last()));
    }
}

/// Two numbers below `2^n` with the same `n` bits are equal.
pub proof fn lemma_bits_of_injective(a: nat, b: nat, n: nat)
    requires
        a < pow2(n),
        b < pow2(n),
        bits_of(a, n) == bits_of(b, n),
    ensures
        a == b,
{
    lemma_bits_val_of(a, n);
    lemma_bits_val_of(b, n);
    vstd::arithmetic::div_mod::lemma_small_mod(a, pow2(n));
    vstd::arithmetic::div_mod::lemma_small_mod(b, pow2(n));
}

pub proof fn lemma_bytes_to_bits_len(s: Seq<u8>)
    ensures
        bytes_to_bits(s).len() == 8 * s.len(),
    decreases s.len(),
{
    if s.len() > 0 {
        lemma_bytes_to_bits_len(s.drop_last());
        lemma_bits_of_len(s.last() as nat, 8);
    }
}

/// Bit `8 * k + j` of a byte string is bit `j` of its byte `k`.
pub proof fn lemma_bytes_to_bits_index(s: Seq<u8>, k: int, j: int)
    requires
        0 <= k < s.len(),
        0 <= j < 8,
    ensures
        bytes_to_bits(s).len() == 8 * s.len(),
        bytes_to_bits(s)[8 * k + j] == bits_of(s[k] as nat, 8)[j],
    decreases s.len(),
{
    lemma_bytes_to_bits_len(s);
    lemma_bytes_to_bits_len(s.drop_last());
    lemma_bits_of_len(s.last() as nat, 8);
    if k < s.len() - 1 {
        lemma_bytes_to_bits_index(s.drop_last(), k, j);
    }
}

/// The bits of two byte strings laid end to end.
pub proof fn lemma_bytes_to_bits_append(a: Seq<u8>, b: Seq<u8>)
    ensures
        bytes_to_bits(a + b) =~= bytes_to_bits(a) + bytes_to_bits(b),
    decreases b.len(),
{
    if b.len() == 0 {
        assert(a + b =~= a);
    } else {
        assert((a + b).drop_last() =~= a + b.drop_last());
        lemma_bytes_to_bits_append(a, b.drop_last());
    }
}

/// Bit `j` of a byte, taken as the exec code does with a shift and a mask.
proof fn lemma_byte_bit(b: u8, j: u8)
    requires
        j < 8,
    ensures
        bits_of(b as nat, 8)[j as int] == (((b >> (7 - j) as u8) & 1u8) != 0),
{
    lemma_bits_of_index(b as nat, 8, j as int);
    let sh = (7 - j) as u8;
    vstd::bits::lemma_u8_shr_is_div(b, sh);
    assert(((b >> sh) & 1u8) == (b >> sh) % 2) by (bit_vector);
}

/// The bytes a bit string packs into, eight bits apiece (a final partial byte dropped).
pub open spec fn bits_to_bytes(bits: Seq<bool>) -> Seq<u8>
    decreases bits.len(),
{
    if bits.len() < 8 {
        Seq::empty()
    } else {
        bits_to_bytes(bits.take(bits.len() - 8)).push(bits_val(bits.skip(bits.len() - 8)) as u8)
    }
}

/// Packing the bits of a byte string gives the bytes back.
pub proof fn lemma_bits_to_bytes_inv(b: Seq<u8>)
    ensures
        bits_to_bytes(bytes_to_bits(b)) == b,
    decreases b.len(),
{
    if b.len() > 0 {
        let bits = bytes_to_bits(b);
        lemma_bytes_to_bits_len(b);
        lemma_bytes_to_bits_len(b.drop_last());
        lemma_bits_of_len(b.last() as nat, 8);
        assert(bits.take(bits.len() - 8) =~= bytes_to_bits(b.drop_last()));
        assert(bits.skip(bits.len() - 8) =~= bits_of(b.last() as nat, 8));
        lemma_bits_val_of(b.last() as nat, 8);
        lemma2_to64();
        lemma_bits_to_bytes_inv(b.drop_last());
        assert(bits_to_bytes(bits) =~= b);
    } else {
        assert(bytes_to_bits(b) =~= Seq::<bool>::empty());
    }
}

/// The bit sequence that a writer holding `bytes` and a partial byte stands for.
pub open spec fn writer_bits(bytes: Seq<u8>, current: u8, num: u8) -> Seq<bool> {
    bytes_to_bits(bytes) + bits_of(current as nat, num as nat)
}

/// Accumulates bits, most significant first, into bytes.
pub struct BitWriter {
    pub bytes: Vec<u8>,
    current_byte: u8,
    num_bits: u8,
}

impl BitWriter {
    /// The pending partial byte is well formed.
    pub closed spec fn wf(&self) -> bool {
        &&& self.num_bits < 8
        &&& self.current_byte < pow2(self.num_bits as nat)
    }

    /// Every bit written so far, the pending ones included.
    pub closed spec fn bits(&self) -> Seq<bool> {
        writer_bits(self.bytes@, self.current_byte, self.num_bits)
    }

    /// The whole bytes written so far.
    pub closed spec fn flushed(&self) -> Seq<u8> {
        self.bytes@
    }

    /// How many bits wait in the partial byte.
    pub closed spec fn pending(&self) -> nat {
        self.num_bits as nat
    }

    pub proof fn lemma_wf_bits(&self)
        requires
            self.wf(),
        ensures
            self.bits().len() == 8 * self.flushed().len() + self.pending(),
            self.pending() < 8,
            self.bits().take(8 * self.flushed().len() as int) =~= bytes_to_bits(self.flushed()),
    {
        lemma_bytes_to_bits_len(self.bytes@);
        lemma_bits_of_len(self.current_byte as nat, self.num_bits as nat);
    }

    pub fn new() -> (w: Self)
        ensures
            w.wf(),
            w.bits() == Seq::<bool>::empty(),
            w.flushed() == Seq::<u8>::empty(),
            w.pending() == 0,
    {
        let w = Self { bytes: Vec::new(), current_byte: 0, num_bits: 0 };
        proof {
            lemma2_to64();
            assert(w.bits() =~= Seq::<bool>::empty());
        }
        w
    }

    pub fn write_bit(&mut self, bit: bool)
        requires
            old(self).wf(),
        ensures
            final(self).wf(),
            final(self).bits() == old(self).bits().push(bit),
            final(self).pending() == (old(self).pending() + 1) % 8,
    {
        let ghost cb = self.current_byte;
        let ghost nb = self.num_bits;
        proof {
            lemma2_to64();
            if nb < 7 {
                vstd::arithmetic::power2::lemma_pow2_strictly_increases(nb as nat, 7);
            }
            assert(cb < 128);
        }
        self.current_byte = self.current_byte << 1;
        if bit {
            self.current_byte = self.current_byte | 1;
        }
        let ghost nc = self.current_byte;
        proof {
            assert(cb < 128 ==> (cb << 1u8) | 1u8 == 2 * cb + 1) by (bit_vector);
            assert(cb < 128 ==> (cb << 1u8) == 2 * cb) by (bit_vector);
            let b: nat = if bit {
                1
            } else {
                0
            };
            assert(nc == 2 * cb + b);
            lemma_fundamental_div_mod_converse(nc as int, 2, cb as int, b as int);
            assert(bits_of(nc as nat, (nb + 1) as nat) =~= bits_of(cb as nat, nb as nat).push(bit));
            lemma_pow2_unfold((nb + 1) as nat);
        }
        self.num_bits = self.num_bits + 1;
        if self.num_bits == 8 {
            let ghost old_bytes = self.bytes@;
            self.bytes.push(self.current_byte);
            self.current_byte = 0;
            self.num_bits = 0;
            proof {
                assert(self.bytes@.drop_last() =~= old_bytes);
                assert(bits_of(0, 0) =~= Seq::<bool>::empty());
                assert(self.bits() =~= old(self).bits().push(bit));
            }
        } else {
            proof {
                assert(self.bits() =~= old(self).bits().push(bit));
            }
        }
    }

    /// Writes the `n` low bits of `value`, most significant first.
    pub fn write_bits(&mut self, value: u64, n: usize)
        requires
            old(self).wf(),
            n <= 64,
        ensures
            final(self).wf(),
            final(self).bits() == old(self).bits() + bits_of(value as nat, n as nat),
            final(self).pending() == (old(self).pending() + n) % 8,
    {
        if n == 0 {
            proof {
                assert(old(self).bits() + bits_of(value as nat, 0) =~= old(self).bits());
            }
            return ;
        }
        let mut i = n;
        proof {
            let z = value as nat / pow2(n as nat);
            lemma_bits_of_len(z, 0);
            assert(old(self).bits() + bits_of(z, 0) =~= old(self).bits());
        }
        while i > 0
            invariant
                0 <= i <= n <= 64,
                self.wf(),
                self.bits() == old(self).bits() + bits_of(value as nat / pow2(i as nat), (n - i) as nat),
                self.pending() == (old(self).pending() + (n - i)) % 8,
            decreases i,
        {
            i = i - 1;
            let bit = ((value >> i) & 1) != 0;
            proof {
                lemma_u64_shr_is_div(value, i as u64);
                let x = value >> (i as u64);
                assert((x & 1u64 != 0) == (x % 2 == 1)) by (bit_vector);
                let q = value as nat / pow2(i as nat);
                lemma_pow2_pos(i as nat);
                lemma_pow2_unfold((i + 1) as nat);
                lemma_div_denominator(value as int, pow2(i as nat) as int, 2);
                assert(q / 2 == value as nat / pow2((i + 1) as nat));
                assert(bits_of(q, (n - i) as nat) =~= bits_of(q / 2, (n - i - 1) as nat).push(bit));
            }
            self.write_bit(bit);
            proof {
                assert(self.bits() =~= old(self).bits() + bits_of(
                    value as nat / pow2(i as nat),
                    (n - i) as nat,
                ));
            }
        }
        proof {
            assert(pow2(0) == 1) by {
                lemma2_to64();
            }
            assert(value as nat / 1 == value as nat);
        }
    }

    /// Writes `value` in unary: `value` zero bits, then a one bit.
    pub fn write_unary(&mut self, value: u64)
        requires
            old(self).wf(),
        ensures
            final(self).wf(),
            final(self).bits() == old(self).bits() + unary_bits(value as nat),
    {
        let mut c: u64 = 0;
        while c < value
            invariant
                c <= value,
                self.wf(),
                self.bits() == old(self).bits() + zeros(c as nat),
            decreases value - c,
        {
            self.write_bit(false);
            c = c + 1;
            proof {
                assert(self.bits() =~= old(self).bits() + zeros(c as nat));
            }
        }
        self.write_bit(true);
        proof {
            assert(self.bits() =~= old(self).bits() + unary_bits(value as nat));
        }
    }

    /// Writes each byte, eight bits apiece.
    pub fn write_bytes(&mut self, bytes: &[u8])
        requires
            old(self).wf(),
        ensures
            final(self).wf(),
            final(self).bits() == old(self).bits() + bytes_to_bits(bytes@),
            final(self).pending() == old(self).pending(),
    {
        let mut i: usize = 0;
        proof {
            assert(bytes@.take(0) =~= Seq::<u8>::empty());
            assert(old(self).bits() + bytes_to_bits(Seq::<u8>::empty()) =~= old(self).bits());
        }
        while i < bytes.len()
            invariant
                i <= bytes.len(),
                self.wf(),
                self.bits() == old(self).bits() + bytes_to_bits(bytes@.take(i as int)),
                self.pending() == old(self).pending(),
            decreases bytes.len() - i,
        {
            let b = bytes[i];
            self.write_bits(b as u64, 8);
            proof {
                let t = bytes@.take(i + 1);
                assert(t.drop_last() =~= bytes@.take(i as int));
                assert(self.bits() =~= old(self).bits() + bytes_to_bits(t));
            }
            i = i + 1;
        }
        proof {
            assert(bytes@.take(bytes.len() as int) =~= bytes@);
        }
    }

    /// Writes `val` in the UTF-8 style code that FLAC frame headers use.
    pub fn write_utf8_uint(&mut self, val: u64)
        requires
            old(self).wf(),
        ensures
            final(self).wf(),
            final(self).bits() == old(self).bits() + bytes_to_bits(utf8_encode(val)),
            final(self).pending() == old(self).pending(),
    {
        let len = utf8_len_exec(val);
        let mut i: usize = 0;
        proof {
            assert(utf8_encode(val).take(0) =~= Seq::<u8>::empty());
            assert(old(self).bits() + bytes_to_bits(Seq::<u8>::empty()) =~= old(self).bits());
        }
        while i < len
            invariant
                len == utf8_len(val),
                utf8_encode(val).len() == len,
                i <= len,
                self.wf(),
                self.bits() == old(self).bits() + bytes_to_bits(utf8_encode(val).take(i as int)),
                self.pending() == old(self).pending(),
            decreases len - i,
        {
            let b = utf8_byte(val, len, i);
            self.write_bits(b as u64, 8);
            proof {
                let t = utf8_encode(val).take(i + 1);
                assert(t.drop_last() =~= utf8_encode(val).take(i as int));
                assert(self.bits() =~= old(self).bits() + bytes_to_bits(t));
            }
            i = i + 1;
        }
        proof {
            assert(utf8_encode(val).take(len as int) =~= utf8_encode(val));
        }
    }

    /// Pads the pending partial byte with zero bits.
    pub fn align_to_byte(&mut self)
        requires
            old(self).wf(),
        ensures
            final(self).wf(),
            final(self).bits() == old(self).bits() + zeros(pad_len(old(self).pending())),
            final(self).pending() == 0,
    {
        if self.num_bits > 0 {
            let n = 8 - (self.num_bits as usize);
            self.write_bits(0, n);
            proof {
                lemma_bits_of_zero(n as nat);
            }
        } else {
            proof {
                assert(old(self).bits() + zeros(0) =~= old(self).bits());
            }
        }
    }

    /// Moves a pending partial byte, padded with zero bits, into `bytes`.
    pub fn flush(&mut self)
        requires
            old(self).wf(),
        ensures
            final(self).wf(),
            final(self).bits() == old(self).bits() + zeros(pad_len(old(self).pending())),
            final(self).pending() == 0,
            bytes_to_bits(final(self).flushed()) == final(self).bits(),
    {
        if self.num_bits > 0 {
            let ghost cb = self.current_byte;
            let ghost nb = self.num_bits;
            let sh = 8 - self.num_bits;
            proof {
                lemma2_to64();
                lemma_pow2_pos(sh as nat);
                vstd::arithmetic::power2::lemma_pow2_adds(nb as nat, sh as nat);
                assert(cb * pow2(sh as nat) < 256) by (nonlinear_arith)
                    requires
                        cb < pow2(nb as nat),
                        pow2(nb as nat) * pow2(sh as nat) == 256,
                        pow2(sh as nat) > 0,
                ;
                vstd::bits::lemma_u8_shl_is_mul(cb, sh);
            }
            self.current_byte = self.current_byte << sh;
            let ghost old_bytes = self.bytes@;
            self.bytes.push(self.current_byte);
            self.current_byte = 0;
            self.num_bits = 0;
            proof {
                lemma_bits_of_shifted(cb as nat, nb as nat, sh as nat);
                assert(self.bytes@.drop_last() =~= old_bytes);
                lemma_bits_of_len(0, 0);
                assert(self.bits() =~= old(self).bits() + zeros(pad_len(old(self).pending())));
            }
        } else {
            proof {
                assert(old(self).bits() + zeros(0) =~= old(self).bits());
            }
        }
        proof {
            lemma_bits_of_len(0, 0);
            assert(bytes_to_bits(self.bytes@) =~= self.bits());
        }
    }

    /// The whole bytes written so far.
    pub fn flushed_bytes(&self) -> (r: &[u8])
        ensures
            r@ == self.flushed(),
    {
        self.bytes.as_slice()
    }

    /// Flushes and hands back the bytes.
    pub fn into_bytes(self) -> (r: Vec<u8>)
        requires
            self.wf(),
        ensures
            bytes_to_bits(r@) == self.bits() + zeros(pad_len(self.pending())),
    {
        let mut w = self;
        w.flush();
        w.bytes
    }
}

/// How many bytes the UTF-8 style code of `v` takes.
pub open spec fn utf8_len(v: u64) -> nat {
    if v < 0x80 {
        1
    } else if v < 0x800 {
        2
    } else if v < 0x10000 {
        3
    } else if v < 0x200000 {
        4
    } else if v < 0x4000000 {
        5
    } else if v < 0x80000000 {
        6
    } else {
        7
    }
}

/// Byte `i` of the UTF-8 style code of `v` when it takes `len` bytes.
pub open spec fn utf8_byte_spec(v: u64, len: nat, i: int) -> u8 {
    if len == 1 {
        v as u8
    } else if i == 0 {
        (((0xFFu64 << ((8 - len) as u64)) & 0xFFu64) as u8) | ((v >> ((6 * (len - 1)) as u64)) as u8)
    } else {
        0x80u8 | (((v >> ((6 * (len - 1 - i)) as u64)) & 0x3Fu64) as u8)
    }
}

/// The UTF-8 style code of `v`: a lead byte whose high bits count the bytes, then
/// continuation bytes of six payload bits each.
pub open spec fn utf8_encode(v: u64) -> Seq<u8> {
    Seq::new(utf8_len(v), |i: int| utf8_byte_spec(v, utf8_len(v), i))
}

fn utf8_len_exec(v: u64) -> (len: usize)
    ensures
        len == utf8_len(v),
{
    let mut bytes: usize = 1;
    if v >= 0x80 {
        bytes = 2;
    }
    if v >= 0x800 {
        bytes = 3;
    }
    if v >= 0x10000 {
        bytes = 4;
    }
    if v >= 0x200000 {
        bytes = 5;
    }
    if v >= 0x4000000 {
        bytes = 6;
    }
    if v >= 0x80000000 {
        bytes = 7;
    }
    bytes
}

fn utf8_byte(v: u64, len: usize, i: usize) -> (b: u8)
    requires
        1 <= len <= 7,
        i < len,
    ensures
        b == utf8_byte_spec(v, len as nat, i as int),
{
    if len == 1 {
        v as u8
    } else if i == 0 {
        let mask = (0xFFu64 << ((8 - len) as u64)) & 0xFF;
        (mask as u8) | ((v >> ((6 * (len - 1)) as u64)) as u8)
    } else {
        0x80u8 | (((v >> ((6 * (len - 1 - i)) as u64)) & 0x3F) as u8)
    }
}


/// Where the first one bit at or after `p` lies, counted from `p`.
pub open spec fn zero_run(bits: Seq<bool>, p: int) -> Option<nat>
    decreases bits.len() - p,
{
    if p < 0 || p >= bits.len() {
        None
    } else if bits[p] {
        Some(0)
    } else {
        match zero_run(bits, p + 1) {
            Some(c) => Some(c + 1),
            None => None,
        }
    }
}

/// A unary code at `p` is read back as its count.
pub proof fn lemma_zero_run_unary(bits: Seq<bool>, p: int, q: nat)
    requires
        0 <= p,
        p + unary_bits(q).len() <= bits.len(),
        bits.subrange(p, p + unary_bits(q).len()) == unary_bits(q),
    ensures
        zero_run(bits, p) == Some(q),
    decreases q,
{
    lemma_unary_len(q);
    assert(bits[p] == unary_bits(q)[0]);
    if q > 0 {
        assert(bits.subrange(p + 1, p + 1 + (q - 1) + 1) =~= unary_bits((q - 1) as nat)) by {
            assert forall|i: int| 0 <= i < q implies #[trigger] bits.subrange(p + 1, p + q + 1)[i]
                == unary_bits((q - 1) as nat)[i] by {
                assert(bits.subrange(p + 1, p + q + 1)[i] == bits.subrange(p, p + q + 1)[i + 1]);
            }
        }
        lemma_unary_len((q - 1) as nat);
        lemma_zero_run_unary(bits, p + 1, (q - 1) as nat);
    }
}

/// Reads bits, most significant first, from a byte slice.
pub struct BitReader<'a> {
    bytes: &'a [u8],
    byte_index: usize,
    bit_index: u8,
}

impl<'a> BitReader<'a> {
    pub closed spec fn wf(&self) -> bool {
        &&& self.byte_index <= self.bytes@.len()
        &&& self.bit_index < 8
        &&& (self.byte_index == self.bytes@.len() ==> self.bit_index == 0)
        &&& self.bytes@.len() <= usize::MAX / 8
    }

    /// The bytes being read.
    pub closed spec fn data(&self) -> Seq<u8> {
        self.bytes@
    }

    /// The bits being read.
    pub open spec fn bits(&self) -> Seq<bool> {
        bytes_to_bits(self.data())
    }

    /// How many bits have been consumed.
    pub closed spec fn pos(&self) -> nat {
        (8 * self.byte_index + self.bit_index) as nat
    }

    /// How many bits the data holds.
    pub open spec fn total(&self) -> nat {
        8 * self.data().len()
    }

    pub proof fn lemma_wf(&self)
        requires
            self.wf(),
        ensures
            self.pos() <= self.total(),
            self.bits().len() == self.total(),
            self.total() <= usize::MAX,
    {
        lemma_bytes_to_bits_len(self.data());
    }

    pub fn new(bytes: &'a [u8]) -> (r: Self)
        requires
            bytes@.len() <= usize::MAX / 8,
        ensures
            r.wf(),
            r.data() == bytes@,
            r.pos() == 0,
    {
        Self { bytes, byte_index: 0, bit_index: 0 }
    }

    pub fn read_bit(&mut self) -> (r: Result<bool, LoomError>)
        requires
            old(self).wf(),
        ensures
            final(self).wf(),
            final(self).data() == old(self).data(),
            old(self).pos() < old(self).total() ==> r == Ok::<bool, LoomError>(
                old(self).bits()[old(self).pos() as int],
            ) && final(self).pos() == old(self).pos() + 1,
            old(self).pos() >= old(self).total() ==> r == Err::<bool, LoomError>(
                LoomError::UnexpectedEof,
            ) && final(self).pos() == old(self).pos(),
    {
        if self.byte_index >= self.bytes.len() {
            return Err(LoomError::UnexpectedEof);
        }
        let b = self.bytes[self.byte_index];
        let bit = ((b >> (7 - self.bit_index)) & 1) != 0;
        proof {
            lemma_byte_bit(b, self.bit_index);
            lemma_bytes_to_bits_index(self.bytes@, self.byte_index as int, self.bit_index as int);
        }
        self.bit_index = self.bit_index + 1;
        if self.bit_index == 8 {
            self.byte_index = self.byte_index + 1;
            self.bit_index = 0;
        }
        Ok(bit)
    }

    /// Reads `n` bits as an unsigned number, most significant first.
    pub fn read_bits(&mut self, n: usize) -> (r: Result<u64, LoomError>)
        requires
            old(self).wf(),
            n <= 64,
        ensures
            final(self).wf(),
            final(self).data() == old(self).data(),
            old(self).pos() + n <= old(self).total() ==> r == Ok::<u64, LoomError>(
                bits_val(old(self).bits().subrange(old(self).pos() as int, old(self).pos() + n))
                    as u64,
            ) && final(self).pos() == old(self).pos() + n,
            old(self).pos() + n > old(self).total() ==> r == Err::<u64, LoomError>(
                LoomError::UnexpectedEof,
            ) && final(self).pos() == old(self).total(),
            r is Ok ==> r->Ok_0 < pow2(n as nat),
    {
        proof {
            self.lemma_wf();
            lemma_pow2_pos(n as nat);
        }
        if n == 0 {
            proof {
                assert(old(self).bits().subrange(old(self).pos() as int, old(self).pos() as int)
                    =~= Seq::<bool>::empty());
            }
            return Ok(0);
        }
        let ghost p0 = self.pos();
        let mut value = 0u64;
        let mut k: usize = 0;
        proof {
            assert(self.bits().subrange(p0 as int, p0 as int) =~= Seq::<bool>::empty());
            lemma2_to64();
        }
        while k < n
            invariant
                self.wf(),
                self.data() == old(self).data(),
                k <= n <= 64,
                p0 == old(self).pos(),
                self.pos() == p0 + k,
                p0 + k <= self.total(),
                value == bits_val(self.bits().subrange(p0 as int, p0 + k)),
                value < pow2(k as nat),
            ensures
                k < n ==> self.pos() == self.total() && p0 + n > self.total(),
                k == n ==> value == bits_val(self.bits().subrange(p0 as int, p0 + n))
                    && self.pos() == p0 + n,
                value < pow2(k as nat),
            decreases n - k,
        {
            proof {
                self.lemma_wf();
            }
            let b = self.read_bit();
            match b {
                Err(e) => {
                    break ;
                },
                Ok(bit) => {
                    proof {
                        let sub = self.bits().subrange(p0 as int, p0 + k + 1);
                        assert(sub.drop_last() =~= self.bits().subrange(p0 as int, p0 + k));
                        lemma_pow2_unfold((k + 1) as nat);
                        if k < 63 {
                            vstd::arithmetic::power2::lemma_pow2_strictly_increases(k as nat, 63);
                        }
                        vstd::arithmetic::power2::lemma2_to64_rest();
                        assert(value <= 0x7FFF_FFFF_FFFF_FFFF);
                        assert(value <= 0x7FFF_FFFF_FFFF_FFFF ==> (value << 1u64) | 1u64 == 2
                            * value + 1) by (bit_vector);
                        assert(value <= 0x7FFF_FFFF_FFFF_FFFF ==> (value << 1u64) == 2 * value)
                            by (bit_vector);
                    }
                    value = value << 1;
                    if bit {
                        value = value | 1;
                    }
                    k = k + 1;
                },
            }
        }
        if k < n {
            return Err(LoomError::UnexpectedEof);
        }
        Ok(value)
    }

    /// Reads a unary code: counts zero bits up to the next one bit.
    pub fn read_unary(&mut self) -> (r: Result<u64, LoomError>)
        requires
            old(self).wf(),
        ensures
            final(self).wf(),
            final(self).data() == old(self).data(),
            match zero_run(old(self).bits(), old(self).pos() as int) {
                Some(c) => r == Ok::<u64, LoomError>(c as u64) && final(self).pos() == old(self).pos() + c + 1,
                None => r == Err::<u64, LoomError>(LoomError::UnexpectedEof) && final(self).pos()
                    == old(self).total(),
            },
    {
        let ghost p0 = self.pos() as int;
        let mut count = 0u64;
        proof {
            self.lemma_wf();
        }
        loop
            invariant
                self.wf(),
                self.data() == old(self).data(),
                self.pos() == p0 + count,
                p0 == old(self).pos(),
                zero_run(self.bits(), p0) == match zero_run(self.bits(), self.pos() as int) {
                    Some(c) => Some((c + count) as nat),
                    None => None::<nat>,
                },
            decreases self.total() - self.pos(),
        {
            proof {
                self.lemma_wf();
            }
            let ghost p = self.pos() as int;
            let b = self.read_bit();
            match b {
                Err(e) => {
                    return Err(LoomError::UnexpectedEof);
                },
                Ok(bit) => {
                    if bit {
                        return Ok(count);
                    }
                    proof {
                        self.lemma_wf();
                    }
                    count = count + 1;
                },
            }
        }
    }

    /// Fills `buf` with the next bytes, eight bits apiece.
    pub fn read_bytes(&mut self, buf: &mut [u8]) -> (r: Result<(), LoomError>)
        requires
            old(self).wf(),
        ensures
            final(self).wf(),
            final(self).data() == old(self).data(),
            final(buf)@.len() == old(buf)@.len(),
            old(self).pos() + 8 * old(buf)@.len() <= old(self).total() ==> r is Ok && final(self).pos() == old(self).pos() + 8 * old(buf)@.len() && bytes_to_bits(final(buf)@)
                == old(self).bits().subrange(
                old(self).pos() as int,
                (old(self).pos() + 8 * old(buf)@.len()) as int,
            ),
            old(self).pos() + 8 * old(buf)@.len() > old(self).total() ==> r == Err::<
                (),
                LoomError,
            >(LoomError::UnexpectedEof),
    {
        let ghost p0 = self.pos() as int;
        let mut i: usize = 0;
        proof {
            self.lemma_wf();
            assert(bytes_to_bits(buf@.take(0)) =~= self.bits().subrange(p0, p0));
        }
        while i < buf.len()
            invariant
                self.wf(),
                self.data() == old(self).data(),
                i <= buf@.len(),
                buf@.len() == old(buf)@.len(),
                p0 == old(self).pos(),
                self.pos() == p0 + 8 * i,
                p0 + 8 * i <= self.total(),
                bytes_to_bits(buf@.take(i as int)) == self.bits().subrange(p0, p0 + 8 * i),
            decreases buf@.len() - i,
        {
            proof {
                self.lemma_wf();
            }
            let v = self.read_bits(8);
            match v {
                Err(e) => {
                    return Err(e);
                },
                Ok(x) => {
                    proof {
                        lemma2_to64();
                        let seg = old(self).bits().subrange(p0 + 8 * i, p0 + 8 * i + 8);
                        lemma_bits_of_val(seg);
                    }
                    let ghost before = buf@;
                    buf[i] = x as u8;
                    proof {
                        let seg = self.bits().subrange(p0 + 8 * i, p0 + 8 * i + 8);
                        let t = buf@.take(i + 1);
                        assert(t.drop_last() =~= before.take(i as int));
                        assert(x as u8 as nat == x as nat);
                        assert(bits_of(x as nat, 8) =~= seg);
                        assert(self.bits().subrange(p0, p0 + 8 * i + 8) =~= self.bits().subrange(
                            p0,
                            p0 + 8 * i,
                        ) + seg);
                        assert(bytes_to_bits(t) =~= bytes_to_bits(t.drop_last()) + bits_of(
                            x as nat,
                            8,
                        ));
                    }
                    i = i + 1;
                },
            }
        }
        proof {
            assert(buf@.take(buf@.len() as int) =~= buf@);
        }
        Ok(())
    }

    /// Skips to the start of the next byte unless already there.
    pub fn align_to_byte(&mut self)
        requires
            old(self).wf(),
        ensures
            final(self).wf(),
            final(self).data() == old(self).data(),
            final(self).pos() == (if old(self).pos() % 8 == 0 {
                old(self).pos()
            } else {
                (old(self).pos() + 8 - old(self).pos() % 8) as nat
            }),
    {
        if self.bit_index > 0 {
            assert(self.byte_index < self.bytes@.len());
            self.byte_index = self.byte_index + 1;
            self.bit_index = 0;
        }
    }

    /// The index of the byte being read.
    pub fn byte_offset(&self) -> (r: usize)
        requires
            self.wf(),
        ensures
            r == self.pos() / 8,
    {
        self.byte_index
    }

    /// Moves to the start of byte `offset`, which may be one past the end.
    pub fn seek_to_byte(&mut self, offset: usize) -> (r: Result<(), LoomError>)
        requires
            old(self).wf(),
        ensures
            final(self).wf(),
            final(self).data() == old(self).data(),
            offset <= old(self).data().len() ==> r is Ok && final(self).pos() == 8 * offset,
            offset > old(self).data().len() ==> r == Err::<(), LoomError>(
                LoomError::UnexpectedEof,
            ) && final(self).pos() == old(self).pos(),
    {
        if offset > self.bytes.len() {
            return Err(LoomError::UnexpectedEof);
        }
        self.byte_index = offset;
        self.bit_index = 0;
        Ok(())
    }

    /// How many bits are left to read.
    pub fn bits_left(&self) -> (r: usize)
        requires
            self.wf(),
        ensures
            r == self.total() - self.pos(),
    {
        if self.byte_index >= self.bytes.len() {
            0
        } else {
            (self.bytes.len() - self.byte_index) * 8 - self.bit_index as usize
        }
    }

    /// The bytes from the current one to the end.
    pub fn peek_remaining_bytes(&self) -> (r: &[u8])
        requires
            self.wf(),
        ensures
            r@ == self.data().subrange((self.pos() / 8) as int, self.data().len() as int),
    {
        if self.byte_index >= self.bytes.len() {
            let e: &[u8] = &[];
            proof {
                assert(e@ =~= self.data().subrange((self.pos() / 8) as int, self.data().len() as int));
            }
            e
        } else {
            let (_, rest) = self.bytes.split_at(self.byte_index);
            rest
        }
    }

    /// Reads a number in the UTF-8 style code that FLAC frame headers use.
    pub fn read_utf8_uint(&mut self) -> (r: Result<u64, LoomError>)
        requires
            old(self).wf(),
        ensures
            final(self).wf(),
            final(self).data() == old(self).data(),
            r == utf8_read(old(self).bits(), old(self).pos() as int),
            r is Ok ==> final(self).pos() == old(self).pos() + utf8_read_len(
                old(self).bits(),
                old(self).pos() as int,
            ),
    {
        proof {
            self.lemma_wf();
            lemma2_to64();
            if old(self).pos() + 8 <= old(self).total() {
                lemma_bits_of_val(old(self).bits().subrange(old(self).pos() as int, old(self).pos() + 8int));
            }
        }
        let f = self.read_bits(8);
        let first = match f {
            Err(e) => {
                return Err(e);
            },
            Ok(x) => x as u8,
        };
        proof {
            lemma2_to64();
        }
        if first < 0x80 {
            return Ok(first as u64);
        }
        let extra = utf8_extra(first);
        let mut val = utf8_payload(first);
        if extra == 0 {
            return Err(LoomError::InvalidData);
        }
        let ghost p1 = self.pos() as int;
        let mut k: usize = extra;
        while k > 0
            invariant
                self.wf(),
                self.data() == old(self).data(),
                k <= extra,
                self.pos() as int == p1 + 8 * (extra - k),
                self.pos() <= self.total(),
                val < utf8_bound((extra - k) as nat),
                extra <= 6,
                p1 == old(self).pos() + 8,
                extra == utf8_extra_spec(byte_at(old(self).bits(), old(self).pos() as int)),
                byte_at(old(self).bits(), old(self).pos() as int) >= 0x80,
                utf8_read(old(self).bits(), old(self).pos() as int) == utf8_cont(
                    self.bits(),
                    self.pos() as int,
                    k as nat,
                    val,
                ),
            decreases k,
        {
            proof {
                self.lemma_wf();
                lemma2_to64();
                if self.pos() + 8 <= self.total() {
                    lemma_bits_of_val(self.bits().subrange(self.pos() as int, self.pos() + 8int));
                }
            }
            let nb = self.read_bits(8);
            let next = match nb {
                Err(e) => {
                    return Err(e);
                },
                Ok(x) => x as u8,
            };
            if (next & 0xC0) != 0x80 {
                return Err(LoomError::InvalidData);
            }
            proof {
                lemma_utf8_bound((extra - k) as nat);
                assert(val < 0x400_0000_0000 ==> (val << 6u64) | ((next & 0x3Fu8) as u64) == val
                    * 64 + (next & 0x3Fu8)) by (bit_vector);
                assert((next & 0x3Fu8) < 64) by (bit_vector);
            }
            val = (val << 6) | (next & 0x3F) as u64;
            k = k - 1;
        }
        Ok(val)
    }
}

/// How many continuation bytes a UTF-8 style lead byte announces (0 for an invalid one).
pub open spec fn utf8_extra_spec(first: u8) -> nat {
    if (first & 0xE0u8) == 0xC0u8 {
        1
    } else if (first & 0xF0u8) == 0xE0u8 {
        2
    } else if (first & 0xF8u8) == 0xF0u8 {
        3
    } else if (first & 0xFCu8) == 0xF8u8 {
        4
    } else if (first & 0xFEu8) == 0xFCu8 {
        5
    } else if first == 0xFEu8 {
        6
    } else {
        0
    }
}

/// The payload bits of a UTF-8 style lead byte.
pub open spec fn utf8_payload_spec(first: u8) -> u64 {
    if (first & 0xE0u8) == 0xC0u8 {
        (first & 0x1Fu8) as u64
    } else if (first & 0xF0u8) == 0xE0u8 {
        (first & 0x0Fu8) as u64
    } else if (first & 0xF8u8) == 0xF0u8 {
        (first & 0x07u8) as u64
    } else if (first & 0xFCu8) == 0xF8u8 {
        (first & 0x03u8) as u64
    } else if (first & 0xFEu8) == 0xFCu8 {
        (first & 0x01u8) as u64
    } else {
        0
    }
}

spec fn utf8_bound(j: nat) -> nat
    decreases j,
{
    if j == 0 {
        32
    } else {
        64 * utf8_bound((j - 1) as nat)
    }
}

proof fn lemma_utf8_bound(j: nat)
    requires
        j < 6,
    ensures
        utf8_bound(j) <= 0x20_0000_0000,
        utf8_bound(j + 1) == 64 * utf8_bound(j),
{
    reveal_with_fuel(utf8_bound, 7);
}

/// The byte spelled by the eight bits at `p`.
pub open spec fn byte_at(bits: Seq<bool>, p: int) -> u8 {
    bits_val(bits.subrange(p, p + 8)) as u8
}

/// Reads `k` continuation bytes at `p` onto `val`.
pub open spec fn utf8_cont(bits: Seq<bool>, p: int, k: nat, val: u64) -> Result<u64, LoomError>
    decreases k,
{
    if k == 0 {
        Ok(val)
    } else if p + 8 > bits.len() {
        Err(LoomError::UnexpectedEof)
    } else if (byte_at(bits, p) & 0xC0u8) != 0x80u8 {
        Err(LoomError::InvalidData)
    } else {
        utf8_cont(bits, p + 8, (k - 1) as nat, (val * 64 + (byte_at(bits, p) & 0x3Fu8)) as u64)
    }
}

/// How many bits a UTF-8 style number at `p` takes, as its lead byte announces.
pub open spec fn utf8_read_len(bits: Seq<bool>, p: int) -> nat {
    if byte_at(bits, p) < 0x80 {
        8
    } else {
        8 * (1 + utf8_extra_spec(byte_at(bits, p)))
    }
}

/// What reading a UTF-8 style number at `p` gives.
pub open spec fn utf8_read(bits: Seq<bool>, p: int) -> Result<u64, LoomError> {
    if p + 8 > bits.len() {
        Err(LoomError::UnexpectedEof)
    } else {
        let first = byte_at(bits, p);
        if first < 0x80 {
            Ok(first as u64)
        } else if utf8_extra_spec(first) == 0 {
            Err(LoomError::InvalidData)
        } else {
            utf8_cont(bits, p + 8, utf8_extra_spec(first), utf8_payload_spec(first))
        }
    }
}

fn utf8_extra(first: u8) -> (r: usize)
    ensures
        r == utf8_extra_spec(first),
{
    if (first & 0xE0) == 0xC0 {
        1
    } else if (first & 0xF0) == 0xE0 {
        2
    } else if (first & 0xF8) == 0xF0 {
        3
    } else if (first & 0xFC) == 0xF8 {
        4
    } else if (first & 0xFE) == 0xFC {
        5
    } else if first == 0xFE {
        6
    } else {
        0
    }
}

fn utf8_payload(first: u8) -> (r: u64)
    ensures
        r == utf8_payload_spec(first),
        r < 32,
{
    proof {
        assert((first & 0x1Fu8) < 32) by (bit_vector);
        assert((first & 0x0Fu8) < 16) by (bit_vector);
        assert((first & 0x07u8) < 8) by (bit_vector);
        assert((first & 0x03u8) < 4) by (bit_vector);
        assert((first & 0x01u8) < 2) by (bit_vector);
    }
    if (first & 0xE0) == 0xC0 {
        (first & 0x1F) as u64
    } else if (first & 0xF0) == 0xE0 {
        (first & 0x0F) as u64
    } else if (first & 0xF8) == 0xF0 {
        (first & 0x07) as u64
    } else if (first & 0xFC) == 0xF8 {
        (first & 0x03) as u64
    } else if (first & 0xFE) == 0xFC {
        (first & 0x01) as u64
    } else {
        0
    }
}

} // verus!
