use crate::container::bytes::{
    be_bytes, copy_range, le_bytes, le_val, lemma_be_low_bytes, lemma_le_exact, push_all, push_be,
    push_le, read_le, string_bytes, string_from_utf8,
};
use vstd::arithmetic::power2::{lemma2_to64, pow2};
use crate::error::LoomError;
use vstd::prelude::*;
use vstd::utf8::{decode_utf8, encode_utf8, valid_utf8};

verus! {

/// Text tags as (field, value) pairs, each field at most once.
#[derive(Clone, Debug, PartialEq)]
pub struct MetadataTags {
    pub tags: Vec<(String, String)>,
}

/// The tags as plain values.
pub open spec fn tags_view(t: Seq<(String, String)>) -> Seq<(Seq<char>, Seq<char>)> {
    t.map_values(|p: (String, String)| (p.0@, p.1@))
}

/// No field occurs twice.
pub open spec fn keys_distinct(ts: Seq<(Seq<char>, Seq<char>)>) -> bool {
    forall|i: int, j: int| 0 <= i < j < ts.len() ==> #[trigger] ts[i].0 != #[trigger] ts[j].0
}

/// The last index holding field `k`, or -1.
pub open spec fn key_pos(ts: Seq<(Seq<char>, Seq<char>)>, k: Seq<char>) -> int
    decreases ts.len(),
{
    if ts.len() == 0 {
        -1
    } else if ts.last().0 == k {
        ts.len() - 1
    } else {
        key_pos(ts.drop_last(), k)
    }
}

/// Setting field `k` to `v`: its value replaced where it is, else a new pair at the end.
pub open spec fn tags_insert(ts: Seq<(Seq<char>, Seq<char>)>, k: Seq<char>, v: Seq<char>) -> Seq<
    (Seq<char>, Seq<char>),
> {
    if key_pos(ts, k) >= 0 {
        ts.update(key_pos(ts, k), (k, v))
    } else {
        ts.push((k, v))
    }
}

/// The vendor string "Loom Audio Codec".
pub open spec fn vendor_bytes() -> Seq<u8> {
    seq![
        0x4Cu8, 0x6Fu8, 0x6Fu8, 0x6Du8, 0x20u8, 0x41u8, 0x75u8, 0x64u8, 0x69u8, 0x6Fu8, 0x20u8,
        0x43u8, 0x6Fu8, 0x64u8, 0x65u8, 0x63u8,
    ]
}

/// A comment: the field, '=', the value.
pub open spec fn comment_bytes(p: (Seq<char>, Seq<char>)) -> Seq<u8> {
    encode_utf8(p.0) + seq![0x3Du8] + encode_utf8(p.1)
}

/// The comments, each its length in 4 little-endian bytes and its bytes.
pub open spec fn comments_bytes(ts: Seq<(Seq<char>, Seq<char>)>) -> Seq<u8>
    decreases ts.len(),
{
    if ts.len() == 0 {
        Seq::empty()
    } else {
        comments_bytes(ts.drop_last()) + le_bytes(comment_bytes(ts.last()).len(), 4) + comment_bytes(
            ts.last(),
        )
    }
}

/// A serialized tag set: its length (4 big-endian bytes, the low 32 bits), the vendor
/// string with its length, the comment count and the comments (little-endian, as Vorbis
/// comments are).
pub open spec fn tags_bytes(ts: Seq<(Seq<char>, Seq<char>)>) -> Seq<u8> {
    be_bytes(24 + comments_bytes(ts).len(), 4) + le_bytes(16, 4) + vendor_bytes() + le_bytes(
        ts.len(),
        4,
    ) + comments_bytes(ts)
}

/// The first '=' byte of `b` at or after `i`, or -1.
pub open spec fn first_eq(b: Seq<u8>, i: int) -> int
    decreases b.len() - i,
{
    if i >= b.len() {
        -1
    } else if b[i] == 0x3D {
        i
    } else {
        first_eq(b, i + 1)
    }
}

/// Reading `n` more comments after `acc`: a comment without '=' is passed over, one that
/// is not UTF-8 is invalid data.
pub open spec fn parse_comments(d: Seq<u8>, pos: int, n: nat, acc: Seq<(Seq<char>, Seq<char>)>) -> Result<
    (Seq<(Seq<char>, Seq<char>)>, int),
    LoomError,
>
    decreases n,
{
    if n == 0 {
        Ok((acc, pos))
    } else if pos + 4 > d.len() {
        Err(LoomError::UnexpectedEof)
    } else {
        let cl = le_val(d.subrange(pos, pos + 4)) as int;
        let p = pos + 4;
        if p + cl > d.len() {
            Err(LoomError::UnexpectedEof)
        } else {
            let c = d.subrange(p, p + cl);
            if !valid_utf8(c) {
                Err(LoomError::InvalidData)
            } else {
                let e = first_eq(c, 0);
                if e < 0 {
                    parse_comments(d, p + cl, (n - 1) as nat, acc)
                } else if !valid_utf8(c.subrange(0, e)) || !valid_utf8(c.subrange(e + 1, cl)) {
                    Err(LoomError::InvalidData)
                } else {
                    parse_comments(
                        d,
                        p + cl,
                        (n - 1) as nat,
                        tags_insert(acc, decode_utf8(c.subrange(0, e)), decode_utf8(c.subrange(e + 1, cl))),
                    )
                }
            }
        }
    }
}

/// Reading a tag set at `pos` (its recorded length and the vendor string are not checked):
/// the tags and the position after them.
pub open spec fn parse_tags(d: Seq<u8>, pos: int) -> Result<(Seq<(Seq<char>, Seq<char>)>, int), LoomError> {
    if pos + 8 > d.len() {
        Err(LoomError::UnexpectedEof)
    } else {
        let vl = le_val(d.subrange(pos + 4, pos + 8)) as int;
        if pos + 8 + vl + 4 > d.len() {
            Err(LoomError::UnexpectedEof)
        } else {
            parse_comments(
                d,
                pos + 12 + vl,
                le_val(d.subrange(pos + 8 + vl, pos + 12 + vl)),
                seq![],
            )
        }
    }
}

fn push_vendor(out: &mut Vec<u8>)
    ensures
        final(out)@ == old(out)@ + vendor_bytes(),
{
    out.push(0x4C);
    out.push(0x6F);
    out.push(0x6F);
    out.push(0x6D);
    out.push(0x20);
    out.push(0x41);
    out.push(0x75);
    out.push(0x64);
    out.push(0x69);
    out.push(0x6F);
    out.push(0x20);
    out.push(0x43);
    out.push(0x6F);
    out.push(0x64);
    out.push(0x65);
    out.push(0x63);
    proof {
        assert(final(out)@ =~= old(out)@ + vendor_bytes());
    }
}

/// The comment bytes of a pair.
fn make_comment(k: &String, v: &String) -> (r: Vec<u8>)
    ensures
        r@ == comment_bytes((k@, v@)),
{
    let mut c: Vec<u8> = Vec::new();
    push_all(&mut c, string_bytes(k));
    c.push(0x3D);
    push_all(&mut c, string_bytes(v));
    proof {
        assert(c@ =~= comment_bytes((k@, v@)));
    }
    c
}

/// The first '=' byte of `b`, if any.
fn find_eq(b: &[u8]) -> (r: Option<usize>)
    ensures
        match r {
            Some(i) => first_eq(b@, 0) == i && i < b@.len(),
            None => first_eq(b@, 0) < 0,
        },
{
    let mut i: usize = 0;
    while i < b.len()
        invariant
            i <= b@.len(),
            first_eq(b@, 0) == first_eq(b@, i as int),
        decreases b@.len() - i,
    {
        if b[i] == 0x3D {
            return Some(i);
        }
        i = i + 1;
    }
    None
}

impl MetadataTags {
    pub fn new() -> (r: Self)
        ensures
            r.tags@.len() == 0,
    {
        MetadataTags { tags: Vec::new() }
    }

    /// The tags as plain values.
    pub open spec fn spec_tags(&self) -> Seq<(Seq<char>, Seq<char>)> {
        tags_view(self.tags@)
    }

    /// Sets `key` to `value`: replaces its value where the key is, else adds the pair.
    pub fn insert(&mut self, key: String, value: String)
        ensures
            final(self).spec_tags() == tags_insert(old(self).spec_tags(), key@, value@),
            keys_distinct(old(self).spec_tags()) ==> keys_distinct(final(self).spec_tags()),
    {
        let ghost ts = self.spec_tags();
        let mut found: Option<usize> = None;
        let mut i: usize = 0;
        proof {
            assert(ts.take(0) =~= Seq::<(Seq<char>, Seq<char>)>::empty());
        }
        while i < self.tags.len()
            invariant
                i <= self.tags@.len(),
                ts == self.spec_tags(),
                match found {
                    Some(j) => key_pos(ts.take(i as int), key@) == j && j < i,
                    None => key_pos(ts.take(i as int), key@) == -1,
                },
            decreases self.tags@.len() - i,
        {
            proof {
                assert(ts.take(i + 1).drop_last() =~= ts.take(i as int));
                assert(ts[i as int] == (self.tags@[i as int].0@, self.tags@[i as int].1@));
            }
            if self.tags[i].0 == key {
                found = Some(i);
            }
            i = i + 1;
        }
        proof {
            assert(ts.take(ts.len() as int) =~= ts);
        }
        match found {
            Some(j) => {
                self.tags.set(j, (key, value));
                proof {
                    assert(self.spec_tags() =~= tags_insert(ts, key@, value@));
                    lemma_key_pos_facts(ts, key@);
                }
            },
            None => {
                self.tags.push((key, value));
                proof {
                    assert(self.spec_tags() =~= tags_insert(ts, key@, value@));
                    lemma_key_pos_facts(ts, key@);
                }
            },
        }
    }

    /// The value of field `key`, if it is set.
    pub fn get(&self, key: &String) -> (r: Option<&String>)
        ensures
            key_pos(self.spec_tags(), key@) < 0 ==> r is None,
            key_pos(self.spec_tags(), key@) >= 0 ==> (r matches Some(v) && v@ == self.spec_tags()[key_pos(
                self.spec_tags(),
                key@,
            )].1),
    {
        let ghost ts = self.spec_tags();
        let mut i: usize = self.tags.len();
        proof {
            assert(ts.take(i as int) =~= ts);
        }
        while i > 0
            invariant
                i <= self.tags@.len(),
                ts == self.spec_tags(),
                key_pos(ts, key@) == key_pos(ts.take(i as int), key@),
            decreases i,
        {
            proof {
                assert(ts.take(i as int).drop_last() =~= ts.take(i - 1));
                assert(ts.take(i as int).last() == (self.tags@[i - 1].0@, self.tags@[i - 1].1@));
            }
            if self.tags[i - 1].0 == *key {
                return Some(&self.tags[i - 1].1);
            }
            i = i - 1;
        }
        None
    }

    /// Appends the tags to `out` as `tags_bytes` says.
    pub fn serialize(&self, out: &mut Vec<u8>)
        ensures
            final(out)@ == old(out)@ + tags_bytes(self.spec_tags()),
    {
        let ghost ts = self.spec_tags();
        let mut body: Vec<u8> = Vec::new();
        let mut i: usize = 0;
        proof {
            assert(ts.take(0) =~= Seq::<(Seq<char>, Seq<char>)>::empty());
        }
        while i < self.tags.len()
            invariant
                i <= self.tags@.len(),
                ts == self.spec_tags(),
                body@ == comments_bytes(ts.take(i as int)),
            decreases self.tags@.len() - i,
        {
            proof {
                assert(ts.take(i + 1).drop_last() =~= ts.take(i as int));
                assert(ts[i as int] == (self.tags@[i as int].0@, self.tags@[i as int].1@));
            }
            let c = make_comment(&self.tags[i].0, &self.tags[i].1);
            push_le(&mut body, c.len() as u64, 4);
            push_all(&mut body, c.as_slice());
            proof {
                assert(body@ =~= comments_bytes(ts.take(i + 1)));
            }
            i = i + 1;
        }
        proof {
            assert(ts.take(ts.len() as int) =~= ts);
        }
        let len: u128 = 24 + body.len() as u128;
        let len32 = (len % 0x1_0000_0000) as u64;
        proof {
            lemma_be_low_bytes(len as nat, 4);
            vstd::arithmetic::power2::lemma2_to64();
            vstd::arithmetic::power2::lemma2_to64_rest();
        }
        push_be(out, len32, 4);
        push_le(out, 16, 4);
        push_vendor(out);
        push_le(out, self.tags.len() as u64, 4);
        push_all(out, body.as_slice());
        proof {
            assert(final(out)@ =~= old(out)@ + tags_bytes(ts));
        }
    }

    /// Reads a tag set at `pos` of `data` as `parse_tags` says; gives it and the position
    /// after it.
    pub fn deserialize(data: &[u8], pos: usize) -> (r: Result<(MetadataTags, usize), LoomError>)
        ensures
            match parse_tags(data@, pos as int) {
                Ok((ts, p)) => r is Ok && r->Ok_0.0.spec_tags() == ts && r->Ok_0.1 == p,
                Err(e) => r == Err::<(MetadataTags, usize), LoomError>(e),
            },
    {
        proof {
            vstd::arithmetic::power2::lemma2_to64();
            vstd::arithmetic::power2::lemma2_to64_rest();
        }
        if pos > data.len() || data.len() - pos < 8 {
            return Err(LoomError::UnexpectedEof);
        }
        let vendor_len = match read_le(data, pos + 4, 4) {
            Ok(v) => v as usize,
            Err(e) => {
                return Err(e);
            },
        };
        if data.len() - (pos + 8) < vendor_len || data.len() - (pos + 8) - vendor_len < 4 {
            return Err(LoomError::UnexpectedEof);
        }
        let p0 = pos + 8 + vendor_len;
        let num_comments = match read_le(data, p0, 4) {
            Ok(v) => v as usize,
            Err(e) => {
                return Err(e);
            },
        };
        let ghost n = num_comments as nat;
        let mut tags = MetadataTags::new();
        let mut p = p0 + 4;
        let mut i: usize = 0;
        proof {
            assert(tags.spec_tags() =~= seq![]);
        }
        while i < num_comments
            invariant
                i <= num_comments,
                n == num_comments,
                parse_tags(data@, pos as int) == parse_comments(
                    data@,
                    p as int,
                    (n - i) as nat,
                    tags.spec_tags(),
                ),
            decreases num_comments - i,
        {
            proof {
                vstd::arithmetic::power2::lemma2_to64();
                vstd::arithmetic::power2::lemma2_to64_rest();
            }
            if p > data.len() || data.len() - p < 4 {
                return Err(LoomError::UnexpectedEof);
            }
            let c_len = match read_le(data, p, 4) {
                Ok(v) => v as usize,
                Err(e) => {
                    return Err(e);
                },
            };
            let q = p + 4;
            if data.len() - q < c_len {
                return Err(LoomError::UnexpectedEof);
            }
            let c = copy_range(data, q, q + c_len);
            let whole = match string_from_utf8(copy_range(data, q, q + c_len)) {
                Some(s) => s,
                None => {
                    return Err(LoomError::InvalidData);
                },
            };
            match find_eq(c.as_slice()) {
                None => {},
                Some(e) => {
                    let k = match string_from_utf8(copy_range(c.as_slice(), 0, e)) {
                        Some(s) => s,
                        None => {
                            return Err(LoomError::InvalidData);
                        },
                    };
                    let v = match string_from_utf8(copy_range(c.as_slice(), e + 1, c_len)) {
                        Some(s) => s,
                        None => {
                            return Err(LoomError::InvalidData);
                        },
                    };
                    proof {
                        vstd::utf8::encode_utf8_decode_utf8(k@);
                        vstd::utf8::encode_utf8_decode_utf8(v@);
                    }
                    tags.insert(k, v);
                },
            }
            p = q + c_len;
            i = i + 1;
        }
        Ok((tags, p))
    }
}

proof fn lemma_key_pos_facts(ts: Seq<(Seq<char>, Seq<char>)>, k: Seq<char>)
    ensures
        key_pos(ts, k) < ts.len(),
        key_pos(ts, k) >= -1,
        key_pos(ts, k) >= 0 ==> ts[key_pos(ts, k)].0 == k,
        key_pos(ts, k) < 0 ==> forall|i: int| 0 <= i < ts.len() ==> #[trigger] ts[i].0 != k,
    decreases ts.len(),
{
    if ts.len() > 0 {
        lemma_key_pos_facts(ts.drop_last(), k);
        assert forall|i: int| 0 <= i < ts.len() - 1 implies #[trigger] ts[i] == ts.drop_last()[i] by {}
    }
}


/// Tags that read back: fewer than `2^32` of them, each comment shorter than `2^32` bytes,
/// no field that holds '=', and no field twice.
pub open spec fn tags_readable(ts: Seq<(Seq<char>, Seq<char>)>) -> bool {
    &&& ts.len() < 0x1_0000_0000
    &&& forall|i: int| 0 <= i < ts.len() ==> #[trigger] comment_bytes(ts[i]).len() < 0x1_0000_0000
    &&& forall|i: int, j: int|
        0 <= i < ts.len() && 0 <= j < encode_utf8(ts[i].0).len() ==> #[trigger] encode_utf8(
            ts[i].0,
        )[j] != 0x3D
    &&& forall|i: int, j: int|
        0 <= i < j < ts.len() ==> #[trigger] ts[i].0 != #[trigger] ts[j].0
}

/// The first '=' at or after `i` is at `j`, where `b[i..j]` holds none and `b[j]` is one.
proof fn lemma_first_eq_at(b: Seq<u8>, i: int, j: int)
    requires
        0 <= i <= j < b.len(),
        b[j] == 0x3D,
        forall|k: int| i <= k < j ==> b[k] != 0x3D,
    ensures
        first_eq(b, i) == j,
    decreases j - i,
{
    if i < j {
        lemma_first_eq_at(b, i + 1, j);
    }
}

/// Reading one more comment after `n` of them.
proof fn lemma_parse_comments_last(d: Seq<u8>, pos: int, n: nat, acc: Seq<(Seq<char>, Seq<char>)>)
    ensures
        parse_comments(d, pos, n + 1, acc) == match parse_comments(d, pos, n, acc) {
            Err(e) => Err(e),
            Ok((a, p)) => parse_comments(d, p, 1, a),
        },
    decreases n,
{
    reveal_with_fuel(parse_comments, 2);
    if n > 0 && pos + 4 <= d.len() {
        let cl = le_val(d.subrange(pos, pos + 4)) as int;
        let p = pos + 4;
        if p + cl <= d.len() {
            let c = d.subrange(p, p + cl);
            if valid_utf8(c) {
                let e = first_eq(c, 0);
                if e < 0 {
                    lemma_parse_comments_last(d, p + cl, (n - 1) as nat, acc);
                } else if valid_utf8(c.subrange(0, e)) && valid_utf8(c.subrange(e + 1, cl)) {
                    lemma_parse_comments_last(
                        d,
                        p + cl,
                        (n - 1) as nat,
                        tags_insert(acc, decode_utf8(c.subrange(0, e)), decode_utf8(c.subrange(e + 1, cl))),
                    );
                }
            }
        }
    }
}

/// One comment reads back as its field and its value.
proof fn lemma_comment_roundtrip(
    d: Seq<u8>,
    pos: int,
    t: (Seq<char>, Seq<char>),
    acc: Seq<(Seq<char>, Seq<char>)>,
)
    requires
        0 <= pos,
        comment_bytes(t).len() < 0x1_0000_0000,
        forall|j: int| 0 <= j < encode_utf8(t.0).len() ==> #[trigger] encode_utf8(
            t.0,
        )[j] != 0x3D,
        forall|i: int| 0 <= i < acc.len() ==> #[trigger] acc[i].0 != t.0,
        pos + 4 + comment_bytes(t).len() <= d.len(),
        d.subrange(pos, pos + 4 + comment_bytes(t).len()) == le_bytes(comment_bytes(t).len(), 4)
            + comment_bytes(t),
    ensures
        parse_comments(d, pos, 1, acc) == Ok::<(Seq<(Seq<char>, Seq<char>)>, int), LoomError>(
            (acc.push((t.0, t.1)), pos + 4 + comment_bytes(t).len()),
        ),
{
    reveal_with_fuel(parse_comments, 2);
    let c = comment_bytes(t);
    let kb = encode_utf8(t.0);
    let vb = encode_utf8(t.1);
    let cl = c.len();
    lemma2_to64();
    lemma_le_exact(cl, 4);
    let whole = le_bytes(cl, 4) + c;
    assert(d.subrange(pos, pos + 4) =~= le_bytes(cl, 4)) by {
        assert(whole.subrange(0, 4) =~= le_bytes(cl, 4));
    }
    assert(d.subrange(pos + 4, pos + 4 + cl) =~= c) by {
        assert(whole.subrange(4, 4 + cl as int) =~= c);
    }
    vstd::utf8::encode_utf8_valid_utf8(t.0);
    vstd::utf8::encode_utf8_valid_utf8(t.1);
    vstd::utf8::encode_utf8_decode_utf8(t.0);
    vstd::utf8::encode_utf8_decode_utf8(t.1);
    assert(valid_utf8(seq![0x3Du8])) by {
        let eq = seq!['='];
        lemma2_to64();
        vstd::bits::lemma_u32_low_bits_mask_is_mod(0x3Du32, 7);
        assert(vstd::bits::low_bits_mask(7) == 0x7F);
        assert((0x3Du32 & 0x7F) as u8 == 0x3Du8);
        assert(eq[0] as u32 == 0x3Du32);
        assert(eq.drop_first() =~= Seq::<char>::empty());
        assert(vstd::utf8::encode_scalar(0x3Du32) =~= seq![0x3Du8]);
        reveal_with_fuel(encode_utf8, 2);
        assert(encode_utf8(eq) =~= seq![0x3Du8]);
        vstd::utf8::encode_utf8_valid_utf8(eq);
    }
    vstd::utf8::valid_utf8_concat(kb, seq![0x3Du8]);
    vstd::utf8::valid_utf8_concat(kb + seq![0x3Du8], vb);
    assert(c == kb + seq![0x3Du8] + vb);
    assert(valid_utf8(c));
    assert forall|k: int| 0 <= k < kb.len() implies c[k] != 0x3D by {
        assert(c[k] == kb[k]);
    }
    lemma_first_eq_at(c, 0, kb.len() as int);
    assert(c.subrange(0, kb.len() as int) =~= kb);
    assert(c.subrange(kb.len() as int + 1, cl as int) =~= vb);
    lemma_key_pos_none(acc, t.0);
    assert(tags_insert(acc, t.0, t.1) == acc.push((t.0, t.1)));
}

/// A field found nowhere has no position.
proof fn lemma_key_pos_none(ts: Seq<(Seq<char>, Seq<char>)>, k: Seq<char>)
    requires
        forall|i: int| 0 <= i < ts.len() ==> #[trigger] ts[i].0 != k,
    ensures
        key_pos(ts, k) == -1,
    decreases ts.len(),
{
    if ts.len() > 0 {
        assert(ts.last().0 != k);
        assert forall|i: int| 0 <= i < ts.drop_last().len() implies #[trigger] ts.drop_last()[i].0
            != k by {
            assert(ts.drop_last()[i] == ts[i]);
        }
        lemma_key_pos_none(ts.drop_last(), k);
    }
}

/// The comments read back as the tags.
proof fn lemma_comments_roundtrip(d: Seq<u8>, pos: int, ts: Seq<(Seq<char>, Seq<char>)>)
    requires
        0 <= pos,
        tags_readable(ts),
        pos + comments_bytes(ts).len() <= d.len(),
        d.subrange(pos, pos + comments_bytes(ts).len()) == comments_bytes(ts),
    ensures
        parse_comments(d, pos, ts.len(), seq![]) == Ok::<(Seq<(Seq<char>, Seq<char>)>, int), LoomError>(
            (ts, pos + comments_bytes(ts).len()),
        ),
    decreases ts.len(),
{
    if ts.len() == 0 {
        assert(ts =~= seq![]);
    } else {
        let dl = ts.drop_last();
        let t = ts.last();
        let head = comments_bytes(dl);
        let tail = le_bytes(comment_bytes(t).len(), 4) + comment_bytes(t);
        let whole = comments_bytes(ts);
        lemma2_to64();
        crate::container::bytes::lemma_le_bytes_len(comment_bytes(t).len(), 4);
        assert(whole =~= head + tail);
        assert(d.subrange(pos, pos + head.len()) =~= head) by {
            assert(whole.subrange(0, head.len() as int) =~= head);
        }
        assert(tags_readable(dl)) by {
            assert forall|i: int| 0 <= i < dl.len() implies #[trigger] dl[i] == ts[i] by {}
            assert forall|i: int, j: int|
                0 <= i < dl.len() && 0 <= j < encode_utf8(dl[i].0).len() implies #[trigger] encode_utf8(
                dl[i].0,
            )[j] != 0x3D by {
                assert(dl[i] == ts[i]);
            }
            assert forall|i: int, j: int| 0 <= i < j < dl.len() implies #[trigger] dl[i].0
                != #[trigger] dl[j].0 by {
                assert(dl[i] == ts[i]);
                assert(dl[j] == ts[j]);
            }
            assert forall|i: int| 0 <= i < dl.len() implies #[trigger] comment_bytes(dl[i]).len()
                < 0x1_0000_0000 by {
                assert(dl[i] == ts[i]);
            }
        }
        lemma_comments_roundtrip(d, pos, dl);
        lemma_parse_comments_last(d, pos, dl.len(), seq![]);
        let q = pos + head.len();
        assert(d.subrange(q, q + tail.len()) =~= tail) by {
            assert(whole.subrange(head.len() as int, whole.len() as int) =~= tail);
        }
        let acc = dl;
        assert forall|i: int| 0 <= i < acc.len() implies #[trigger] acc[i].0 != t.0 by {
            assert(acc[i].0 == ts[i].0);
            assert(ts[i].0 != ts[ts.len() - 1].0);
        }
        assert(comment_bytes(t).len() < 0x1_0000_0000);
        assert forall|j: int| 0 <= j < encode_utf8(t.0).len() implies #[trigger] encode_utf8(
            t.0,
        )[j] != 0x3D by {
            assert(t == ts[ts.len() - 1]);
        }
        lemma_comment_roundtrip(d, q, t, acc);
        assert(acc.push((t.0, t.1)) =~= ts);
    }
}

/// Reading back written tags gives them back unchanged, and the position
/// right after them, whatever bytes stand before and after them.
pub proof fn lemma_tags_roundtrip(d: Seq<u8>, pos: int, ts: Seq<(Seq<char>, Seq<char>)>)
    requires
        tags_readable(ts),
        0 <= pos,
        pos + tags_bytes(ts).len() <= d.len(),
        d.subrange(pos, pos + tags_bytes(ts).len()) == tags_bytes(ts),
    ensures
        parse_tags(d, pos) == Ok::<(Seq<(Seq<char>, Seq<char>)>, int), LoomError>(
            (ts, pos + tags_bytes(ts).len()),
        ),
{
    let b = tags_bytes(ts);
    let cb = comments_bytes(ts);
    lemma2_to64();
    crate::container::bytes::lemma_be_bytes_len(24 + cb.len(), 4);
    lemma_le_exact(16, 4);
    lemma_le_exact(ts.len(), 4);
    assert(b.len() == 28 + cb.len());
    assert(d.subrange(pos + 4, pos + 8) =~= le_bytes(16, 4)) by {
        assert(b.subrange(4, 8) =~= le_bytes(16, 4));
    }
    assert(d.subrange(pos + 24, pos + 28) =~= le_bytes(ts.len(), 4)) by {
        assert(b.subrange(24, 28) =~= le_bytes(ts.len(), 4));
    }
    assert(d.subrange(pos + 28, pos + 28 + cb.len()) =~= cb) by {
        assert(b.subrange(28, 28 + cb.len() as int) =~= cb);
    }
    lemma_comments_roundtrip(d, pos + 28, ts);
}

} // verus!
