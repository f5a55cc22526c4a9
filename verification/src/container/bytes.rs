use crate::error::LoomError;
use vstd::arithmetic::power2::{lemma2_to64, lemma_pow2_pos, lemma_pow2_unfold, pow2};
use vstd::prelude::*;
use vstd::utf8::{encode_utf8, valid_utf8};

verus! {

/// The low `8n` bits of `v` as `n` big-endian bytes.
pub open spec fn be_bytes(v: nat, n: nat) -> Seq<u8>
    decreases n,
{
    if n == 0 {
        Seq::empty()
    } else {
        be_bytes(v / 256, (n - 1) as nat).push((v % 256) as u8)
    }
}

/// The number a byte string spells big-endian.
pub open spec fn be_val(s: Seq<u8>) -> nat
    decreases s.len(),
{
    if s.len() == 0 {
        0
    } else {
        be_val(s.drop_last()) * 256 + s.last() as nat
    }
}

/// The low `8n` bits of `v` as `n` little-endian bytes.
pub open spec fn le_bytes(v: nat, n: nat) -> Seq<u8>
    decreases n,
{
    if n == 0 {
        Seq::empty()
    } else {
        seq![(v % 256) as u8] + le_bytes(v / 256, (n - 1) as nat)
    }
}

/// The number a byte string spells little-endian.
pub open spec fn le_val(s: Seq<u8>) -> nat
    decreases s.len(),
{
    if s.len() == 0 {
        0
    } else {
        s[0] as nat + 256 * le_val(s.drop_first())
    }
}

pub proof fn lemma_be_bytes_len(v: nat, n: nat)
    ensures
        be_bytes(v, n).len() == n,
    decreases n,
{
    if n > 0 {
        lemma_be_bytes_len(v / 256, (n - 1) as nat);
    }
}

pub proof fn lemma_le_bytes_len(v: nat, n: nat)
    ensures
        le_bytes(v, n).len() == n,
    decreases n,
{
    if n > 0 {
        lemma_le_bytes_len(v / 256, (n - 1) as nat);
    }
}

/// A number below `2^(8n)` written in `n` big-endian bytes reads back as itself.
pub proof fn lemma_be_exact(v: nat, n: nat)
    requires
        v < pow2(8 * n),
    ensures
        be_bytes(v, n).len() == n,
        be_val(be_bytes(v, n)) == v,
{
    lemma_be_bytes_len(v, n);
    lemma_be_roundtrip(v, n);
    vstd::arithmetic::div_mod::lemma_small_mod(v, pow2(8 * n));
}

/// A number below `2^(8n)` written in `n` little-endian bytes reads back as itself.
pub proof fn lemma_le_exact(v: nat, n: nat)
    requires
        v < pow2(8 * n),
    ensures
        le_bytes(v, n).len() == n,
        le_val(le_bytes(v, n)) == v,
{
    lemma_le_bytes_len(v, n);
    lemma_le_roundtrip(v, n);
    vstd::arithmetic::div_mod::lemma_small_mod(v, pow2(8 * n));
}

/// A big-endian number of `n` bytes is below `2^(8n)`.
pub proof fn lemma_be_val_bound(s: Seq<u8>)
    ensures
        be_val(s) < pow2(8 * s.len()),
    decreases s.len(),
{
    if s.len() == 0 {
        lemma2_to64();
    } else {
        lemma_be_val_bound(s.drop_last());
        let k = s.drop_last().len();
        vstd::arithmetic::power2::lemma_pow2_adds(8 * k, 8);
        lemma2_to64();
        assert(be_val(s.drop_last()) * 256 + s.last() < pow2(8 * k) * 256) by (nonlinear_arith)
            requires
                be_val(s.drop_last()) < pow2(8 * k),
                s.last() < 256,
        ;
        assert(8 * s.len() == 8 * k + 8);
    }
}

/// Reading back `n` big-endian bytes of `v` gives its low `8n` bits.
pub proof fn lemma_be_roundtrip(v: nat, n: nat)
    ensures
        be_val(be_bytes(v, n)) == v % pow2(8 * n),
    decreases n,
{
    lemma_pow2_pos(8 * n);
    if n == 0 {
        lemma2_to64();
    } else {
        lemma_be_roundtrip(v / 256, (n - 1) as nat);
        lemma_be_bytes_len(v / 256, (n - 1) as nat);
        let b = be_bytes(v, n);
        assert(b.drop_last() =~= be_bytes(v / 256, (n - 1) as nat));
        let p = pow2(8 * (n - 1) as nat);
        lemma_pow2_pos(8 * (n - 1) as nat);
        vstd::arithmetic::power2::lemma_pow2_adds(8 * (n - 1) as nat, 8);
        lemma2_to64();
        assert(8 * n == 8 * (n - 1) as nat + 8);
        vstd::arithmetic::div_mod::lemma_mod_breakdown(v as int, 256, p as int);
        assert(v % (256 * p) == 256 * ((v / 256) % p) + v % 256);
        assert(pow2(8 * n) == p * 256);
        assert(256 * p == p * 256) by (nonlinear_arith);
    }
}

/// Reading back `n` little-endian bytes of `v` gives its low `8n` bits.
pub proof fn lemma_le_roundtrip(v: nat, n: nat)
    ensures
        le_val(le_bytes(v, n)) == v % pow2(8 * n),
    decreases n,
{
    lemma_pow2_pos(8 * n);
    if n == 0 {
        lemma2_to64();
    } else {
        lemma_le_roundtrip(v / 256, (n - 1) as nat);
        let b = le_bytes(v, n);
        assert(b.drop_first() =~= le_bytes(v / 256, (n - 1) as nat));
        let p = pow2(8 * (n - 1) as nat);
        lemma_pow2_pos(8 * (n - 1) as nat);
        vstd::arithmetic::power2::lemma_pow2_adds(8 * (n - 1) as nat, 8);
        lemma2_to64();
        assert(8 * n == 8 * (n - 1) as nat + 8);
        vstd::arithmetic::div_mod::lemma_mod_breakdown(v as int, 256, p as int);
        assert(pow2(8 * n) == p * 256);
        assert(256 * p == p * 256) by (nonlinear_arith);
    }
}

/// `n` big-endian bytes of `v` are those of its low `8n` bits.
pub proof fn lemma_be_low_bytes(v: nat, n: nat)
    ensures
        be_bytes(v % vstd::arithmetic::power2::pow2(8 * n), n) == be_bytes(v, n),
    decreases n,
{
    let p = vstd::arithmetic::power2::pow2(8 * n);
    vstd::arithmetic::power2::lemma_pow2_pos(8 * n);
    if n > 0 {
        let q = vstd::arithmetic::power2::pow2(8 * (n - 1) as nat);
        vstd::arithmetic::power2::lemma_pow2_pos(8 * (n - 1) as nat);
        vstd::arithmetic::power2::lemma_pow2_adds(8 * (n - 1) as nat, 8);
        vstd::arithmetic::power2::lemma2_to64();
        assert(8 * n == 8 * (n - 1) as nat + 8);
        assert(p == q * 256);
        vstd::arithmetic::div_mod::lemma_mod_breakdown(v as int, 256, q as int);
        assert(256 * q == q * 256) by (nonlinear_arith);
        let w = v % p;
        assert(w % 256 == v % 256) by {
            vstd::arithmetic::div_mod::lemma_mod_mod(v as int, 256, q as int);
        }
        assert(w / 256 == (v / 256) % q) by {
            vstd::arithmetic::div_mod::lemma_mod_breakdown(v as int, 256, q as int);
            vstd::arithmetic::div_mod::lemma_fundamental_div_mod(w as int, 256);
            vstd::arithmetic::div_mod::lemma_fundamental_div_mod(v as int, 256);
            assert(w == 256 * ((v / 256) % q) + v % 256);
            vstd::arithmetic::div_mod::lemma_fundamental_div_mod_converse(
                w as int,
                256,
                ((v / 256) % q) as int,
                (v % 256) as int,
            );
        }
        lemma_be_low_bytes(v / 256, (n - 1) as nat);
    }
}

/// Appends the low `8n` bits of `v` as `n` big-endian bytes.
pub fn push_be(out: &mut Vec<u8>, v: u64, n: usize)
    requires
        n <= 8,
    ensures
        final(out)@ == old(out)@ + be_bytes(v as nat, n as nat),
    decreases n,
{
    if n == 0 {
        proof {
            assert(old(out)@ + Seq::<u8>::empty() =~= old(out)@);
        }
        return;
    }
    push_be(out, v / 256, n - 1);
    out.push((v % 256) as u8);
    proof {
        assert(final(out)@ =~= old(out)@ + be_bytes(v as nat, n as nat));
    }
}

/// Appends the low `8n` bits of `v` as `n` little-endian bytes.
pub fn push_le(out: &mut Vec<u8>, v: u64, n: usize)
    requires
        n <= 8,
    ensures
        final(out)@ == old(out)@ + le_bytes(v as nat, n as nat),
{
    let mut i: usize = 0;
    let mut x = v;
    let ghost o0 = out@;
    proof {
        assert(o0 + Seq::<u8>::empty() =~= o0);
    }
    while i < n
        invariant
            i <= n,
            n <= 8,
            o0 + le_bytes(v as nat, n as nat) == out@ + le_bytes(x as nat, (n - i) as nat),
        decreases n - i,
    {
        let ghost before = out@;
        out.push((x % 256) as u8);
        proof {
            assert(le_bytes(x as nat, (n - i) as nat) =~= seq![(x % 256) as u8] + le_bytes(
                (x / 256) as nat,
                (n - i - 1) as nat,
            ));
            assert(out@ + le_bytes((x / 256) as nat, (n - i - 1) as nat) =~= before + le_bytes(
                x as nat,
                (n - i) as nat,
            ));
        }
        x = x / 256;
        i = i + 1;
    }
    proof {
        assert(out@ + le_bytes(x as nat, 0) =~= out@);
    }
}

/// Appends every byte of `src`.
pub fn push_all(out: &mut Vec<u8>, src: &[u8])
    ensures
        final(out)@ == old(out)@ + src@,
{
    let mut i: usize = 0;
    while i < src.len()
        invariant
            i <= src@.len(),
            out@ == old(out)@ + src@.take(i as int),
        decreases src@.len() - i,
    {
        out.push(src[i]);
        proof {
            assert(out@ =~= old(out)@ + src@.take(i + 1));
        }
        i = i + 1;
    }
    proof {
        assert(src@.take(src@.len() as int) =~= src@);
    }
}

/// Reads `n` big-endian bytes at `pos`; too few bytes left is an unexpected end.
pub fn read_be(data: &[u8], pos: usize, n: usize) -> (r: Result<u64, LoomError>)
    requires
        n <= 8,
    ensures
        pos + n <= data@.len() ==> r == Ok::<u64, LoomError>(
            be_val(data@.subrange(pos as int, pos + n)) as u64,
        ) && be_val(data@.subrange(pos as int, pos + n)) < pow2(8 * n as nat),
        pos + n > data@.len() ==> r == Err::<u64, LoomError>(LoomError::UnexpectedEof),
{
    if pos > data.len() || data.len() - pos < n {
        return Err(LoomError::UnexpectedEof);
    }
    let mut acc: u64 = 0;
    let mut i: usize = 0;
    proof {
        assert(data@.subrange(pos as int, pos as int) =~= Seq::<u8>::empty());
    }
    while i < n
        invariant
            i <= n,
            n <= 8,
            pos + n <= data@.len(),
            data@.len() == data.len(),
            acc as nat == be_val(data@.subrange(pos as int, pos + i)),
        decreases n - i,
    {
        let ghost s = data@.subrange(pos as int, pos + i);
        proof {
            lemma_be_val_bound(s);
            lemma2_to64();
            vstd::arithmetic::power2::lemma2_to64_rest();
            if i < 7 {
                vstd::arithmetic::power2::lemma_pow2_strictly_increases(8 * i as nat, 56);
            }
            assert(data@.subrange(pos as int, pos + i + 1).drop_last() =~= s);
            assert(acc * 256 + 255 <= u64::MAX) by (nonlinear_arith)
                requires
                    acc < pow2(8 * i as nat),
                    i <= 7,
                    pow2(8 * i as nat) <= pow2(56),
                    pow2(56) == 0x100_0000_0000_0000,
            ;
        }
        let idx: usize = pos + i;
        let byte: u8 = data[idx];
        let b: u64 = byte as u64;
        assert(acc * 256 + b <= u64::MAX);
        acc = acc * 256 + b;
        i = i + 1;
    }
    proof {
        lemma_be_val_bound(data@.subrange(pos as int, pos + n));
    }
    Ok(acc)
}

/// Reads `n` little-endian bytes at `pos`; too few bytes left is an unexpected end.
pub fn read_le(data: &[u8], pos: usize, n: usize) -> (r: Result<u64, LoomError>)
    requires
        n <= 8,
    ensures
        pos + n <= data@.len() ==> r == Ok::<u64, LoomError>(
            le_val(data@.subrange(pos as int, pos + n)) as u64,
        ) && le_val(data@.subrange(pos as int, pos + n)) < pow2(8 * n as nat),
        pos + n > data@.len() ==> r == Err::<u64, LoomError>(LoomError::UnexpectedEof),
{
    if pos > data.len() || data.len() - pos < n {
        return Err(LoomError::UnexpectedEof);
    }
    let mut acc: u64 = 0;
    let mut i: usize = n;
    proof {
        assert(data@.subrange(pos + n, pos + n) =~= Seq::<u8>::empty());
        lemma2_to64();
    }
    while i > 0
        invariant
            i <= n,
            n <= 8,
            pos + n <= data@.len(),
            data@.len() == data.len(),
            acc as nat == le_val(data@.subrange(pos + i, pos + n)),
            acc < pow2(8 * (n - i) as nat),
        decreases i,
    {
        let ghost s = data@.subrange(pos + i - 1, pos + n);
        proof {
            assert(s.drop_first() =~= data@.subrange(pos + i, pos + n));
            lemma2_to64();
            vstd::arithmetic::power2::lemma2_to64_rest();
            vstd::arithmetic::power2::lemma_pow2_adds(8 * (n - i) as nat, 8);
            if n - i < 7 {
                vstd::arithmetic::power2::lemma_pow2_strictly_increases(8 * (n - i) as nat, 56);
            }
            assert(data@[pos + i - 1] + 256 * acc <= u64::MAX) by (nonlinear_arith)
                requires
                    acc < pow2(8 * (n - i) as nat),
                    n - i <= 7,
                    pow2(8 * (n - i) as nat) <= pow2(56),
                    pow2(56) == 0x100_0000_0000_0000,
                    data@[pos + i - 1] < 256,
            ;
            assert(data@[pos + i - 1] + 256 * acc < pow2(8 * (n - i) as nat) * 256) by (nonlinear_arith)
                requires
                    acc < pow2(8 * (n - i) as nat),
                    data@[pos + i - 1] < 256,
            ;
            assert(8 * (n - (i - 1)) as nat == 8 * (n - i) as nat + 8);
        }
        let idx: usize = pos + i - 1;
        let byte: u8 = data[idx];
        let b: u64 = byte as u64;
        assert(b + 256 * acc <= u64::MAX);
        acc = b + 256 * acc;
        i = i - 1;
    }
    Ok(acc)
}


/// A copy of `src[start..end]`.
pub fn copy_range(src: &[u8], start: usize, end: usize) -> (r: Vec<u8>)
    requires
        start <= end <= src@.len(),
    ensures
        r@ == src@.subrange(start as int, end as int),
{
    let mut v: Vec<u8> = Vec::with_capacity(end - start);
    let mut i = start;
    while i < end
        invariant
            start <= i <= end,
            end <= src@.len(),
            v@ == src@.subrange(start as int, i as int),
        decreases end - i,
    {
        v.push(src[i]);
        proof {
            assert(v@ =~= src@.subrange(start as int, i + 1));
        }
        i = i + 1;
    }
    v
}

/// Calls std's `String::from_utf8`, which its documentation says fails exactly when the
/// bytes are not valid UTF-8, and otherwise gives the string those bytes encode.
#[verifier::external_body]
pub(crate) fn string_from_utf8(bytes: Vec<u8>) -> (r: Option<String>)
    ensures
        r is Some <==> valid_utf8(bytes@),
        r matches Some(s) ==> encode_utf8(s@) == bytes@,
{
    match String::from_utf8(bytes) {
        Ok(s) => Some(s),
        Err(_) => None,
    }
}

/// The UTF-8 bytes of `s`.
pub fn string_bytes(s: &String) -> (r: &[u8])
    ensures
        r@ == encode_utf8(s@),
{
    s.as_str().as_bytes()
}

} // verus!
