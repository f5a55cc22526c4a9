use crate::container::bytes::{
    be_bytes, be_val, copy_range, push_all, push_be, read_be, string_bytes, string_from_utf8,
};
use crate::error::LoomError;
use vstd::prelude::*;
use vstd::utf8::{decode_utf8, encode_utf8, valid_utf8};
use vstd::arithmetic::power2::pow2;

verus! {

/// One track of a session: its name, length in samples, and the MD5 of its PCM.
#[derive(Clone, Debug, PartialEq)]
pub struct TrackInfo {
    pub name: String,
    pub total_samples: u64,
    pub md5: [u8; 16],
}

/// The session-wide header: sample rate, bit depth and the tracks.
#[derive(Clone, Debug, PartialEq)]
pub struct SessionHeader {
    pub sample_rate: u32,
    pub bit_depth: u8,
    pub tracks: Vec<TrackInfo>,
}

/// A track's information as plain values.
pub struct TrackInfoSpec {
    pub name: Seq<char>,
    pub total_samples: u64,
    pub md5: Seq<u8>,
}

/// A session header as plain values.
pub struct HeaderSpec {
    pub sample_rate: u32,
    pub bit_depth: u8,
    pub tracks: Seq<TrackInfoSpec>,
}

impl View for TrackInfo {
    type V = TrackInfoSpec;

    open spec fn view(&self) -> TrackInfoSpec {
        TrackInfoSpec { name: self.name@, total_samples: self.total_samples, md5: self.md5@ }
    }
}

impl View for SessionHeader {
    type V = HeaderSpec;

    open spec fn view(&self) -> HeaderSpec {
        HeaderSpec {
            sample_rate: self.sample_rate,
            bit_depth: self.bit_depth,
            tracks: self.tracks@.map_values(|t: TrackInfo| t@),
        }
    }
}

/// The four bytes "LOOM".
pub open spec fn loom_magic() -> Seq<u8> {
    seq![0x4Cu8, 0x4Fu8, 0x4Fu8, 0x4Du8]
}

/// A track's entry: the name's length in one byte, its UTF-8 bytes, the sample count in 8
/// big-endian bytes and the MD5.
pub open spec fn track_info_bytes(t: TrackInfoSpec) -> Seq<u8> {
    seq![encode_utf8(t.name).len() as u8] + encode_utf8(t.name) + be_bytes(t.total_samples as nat, 8)
        + t.md5
}

/// The entries of a run of tracks.
pub open spec fn tracks_info_bytes(ts: Seq<TrackInfoSpec>) -> Seq<u8>
    decreases ts.len(),
{
    if ts.len() == 0 {
        Seq::empty()
    } else {
        tracks_info_bytes(ts.drop_last()) + track_info_bytes(ts.last())
    }
}

/// A serialized header: "LOOM", the sample rate in 4 big-endian bytes, the bit depth, the
/// track count in 2 and the track entries.
pub open spec fn header_bytes(h: HeaderSpec) -> Seq<u8> {
    loom_magic() + be_bytes(h.sample_rate as nat, 4) + seq![h.bit_depth] + be_bytes(
        h.tracks.len(),
        2,
    ) + tracks_info_bytes(h.tracks)
}

/// What the header writer puts down before the entry of track `j`: the fixed fields and
/// the entries of the tracks before it.
pub open spec fn header_prefix_bytes(h: HeaderSpec, j: int) -> Seq<u8> {
    loom_magic() + be_bytes(h.sample_rate as nat, 4) + seq![h.bit_depth] + be_bytes(
        h.tracks.len(),
        2,
    ) + tracks_info_bytes(h.tracks.take(j))
}

/// Every track name fits in 255 bytes.
pub open spec fn names_fit(ts: Seq<TrackInfoSpec>) -> bool {
    forall|i: int| 0 <= i < ts.len() ==> #[trigger] encode_utf8(ts[i].name).len() <= 255
}

/// Reading one track entry at `pos`.
pub open spec fn parse_track_info(data: Seq<u8>, pos: int) -> Result<(TrackInfoSpec, int), LoomError> {
    if pos + 1 > data.len() {
        Err(LoomError::UnexpectedEof)
    } else {
        let nl = data[pos] as int;
        let p = pos + 1;
        if p + nl > data.len() {
            Err(LoomError::UnexpectedEof)
        } else if !valid_utf8(data.subrange(p, p + nl)) {
            Err(LoomError::InvalidData)
        } else if p + nl + 8 > data.len() {
            Err(LoomError::UnexpectedEof)
        } else if p + nl + 24 > data.len() {
            Err(LoomError::UnexpectedEof)
        } else {
            Ok(
                (
                    TrackInfoSpec {
                        name: decode_utf8(data.subrange(p, p + nl)),
                        total_samples: be_val(data.subrange(p + nl, p + nl + 8)) as u64,
                        md5: data.subrange(p + nl + 8, p + nl + 24),
                    },
                    p + nl + 24,
                ),
            )
        }
    }
}

/// Reading `n` more track entries after `acc`.
pub open spec fn parse_tracks(data: Seq<u8>, pos: int, n: nat, acc: Seq<TrackInfoSpec>) -> Result<
    (Seq<TrackInfoSpec>, int),
    LoomError,
>
    decreases n,
{
    if n == 0 {
        Ok((acc, pos))
    } else {
        match parse_track_info(data, pos) {
            Err(e) => Err(e),
            Ok((t, p)) => parse_tracks(data, p, (n - 1) as nat, acc.push(t)),
        }
    }
}

/// Reading a session header at `pos`: the header and the position after it.
pub open spec fn parse_header(data: Seq<u8>, pos: int) -> Result<(HeaderSpec, int), LoomError> {
    if pos + 4 > data.len() {
        Err(LoomError::UnexpectedEof)
    } else if data.subrange(pos, pos + 4) != loom_magic() {
        Err(LoomError::InvalidData)
    } else if pos + 11 > data.len() {
        Err(LoomError::UnexpectedEof)
    } else {
        match parse_tracks(data, pos + 11, be_val(data.subrange(pos + 9, pos + 11)), seq![]) {
            Err(e) => Err(e),
            Ok((ts, p)) => Ok(
                (
                    HeaderSpec {
                        sample_rate: be_val(data.subrange(pos + 4, pos + 8)) as u32,
                        bit_depth: data[pos + 8],
                        tracks: ts,
                    },
                    p,
                ),
            ),
        }
    }
}

fn push_magic(out: &mut Vec<u8>)
    ensures
        final(out)@ == old(out)@ + loom_magic(),
{
    out.push(0x4C);
    out.push(0x4F);
    out.push(0x4F);
    out.push(0x4D);
    proof {
        assert(final(out)@ =~= old(out)@ + loom_magic());
    }
}

fn track_info_deserialize(data: &[u8], pos: usize) -> (r: Result<(TrackInfo, usize), LoomError>)
    ensures
        match parse_track_info(data@, pos as int) {
            Ok((t, p)) => r is Ok && r->Ok_0.0@ == t && r->Ok_0.1 == p,
            Err(e) => r == Err::<(TrackInfo, usize), LoomError>(e),
        },
{
    if pos >= data.len() {
        return Err(LoomError::UnexpectedEof);
    }
    let name_len = data[pos] as usize;
    let p = pos + 1;
    if data.len() - p < name_len {
        return Err(LoomError::UnexpectedEof);
    }
    let name_buf = copy_range(data, p, p + name_len);
    let name = match string_from_utf8(name_buf) {
        Some(s) => s,
        None => {
            return Err(LoomError::InvalidData);
        },
    };
    proof {
        vstd::utf8::encode_utf8_decode_utf8(name@);
    }
    let p2 = p + name_len;
    let total_samples = match read_be(data, p2, 8) {
        Ok(v) => v,
        Err(e) => {
            return Err(e);
        },
    };
    let p3 = p2 + 8;
    if data.len() - p3 < 16 {
        return Err(LoomError::UnexpectedEof);
    }
    let mut md5 = [0u8; 16];
    let mut i: usize = 0;
    while i < 16
        invariant
            i <= 16,
            p3 + 16 <= data@.len(),
            data@.len() == data.len(),
            forall|j: int| 0 <= j < i ==> #[trigger] md5@[j] == data@[p3 + j],
        decreases 16 - i,
    {
        md5[i] = data[p3 + i];
        i = i + 1;
    }
    proof {
        assert(md5@ =~= data@.subrange(p3 as int, p3 + 16));
    }
    Ok((TrackInfo { name, total_samples, md5 }, p3 + 16))
}

impl SessionHeader {
    /// Appends the header to `out` as `header_bytes` says. A track name longer than 255
    /// bytes is refused, after the fixed fields and the entries of the tracks before it have
    /// been written.
    pub fn serialize(&self, out: &mut Vec<u8>) -> (r: Result<(), LoomError>)
        ensures
            names_fit(self@.tracks) ==> r is Ok && final(out)@ == old(out)@ + header_bytes(self@),
            !names_fit(self@.tracks) ==> r == Err::<(), LoomError>(LoomError::InvalidInput) && exists|
                j: int,
            |
                0 <= j < self@.tracks.len() && encode_utf8(#[trigger] self@.tracks[j].name).len() > 255
                    && names_fit(self@.tracks.take(j)) && final(out)@ == old(out)@ + header_prefix_bytes(
                    self@,
                    j,
                ),
    {
        let ghost ts = self@.tracks;
        push_magic(out);
        push_be(out, self.sample_rate as u64, 4);
        out.push(self.bit_depth);
        push_be(out, self.tracks.len() as u64, 2);
        let ghost head = out@;
        proof {
            assert(ts.take(0) =~= Seq::<TrackInfoSpec>::empty());
            assert(head =~= old(out)@ + header_prefix_bytes(self@, 0));
        }
        let mut t: usize = 0;
        while t < self.tracks.len()
            invariant
                t <= self.tracks@.len(),
                ts == self@.tracks,
                head == old(out)@ + header_prefix_bytes(self@, 0),
                names_fit(ts.take(t as int)),
                out@ == head + tracks_info_bytes(ts.take(t as int)),
            decreases self.tracks@.len() - t,
        {
            let track = &self.tracks[t];
            proof {
                assert(ts[t as int] == track@);
                assert(ts.take(t + 1).drop_last() =~= ts.take(t as int));
            }
            let name_bytes = string_bytes(&track.name);
            if name_bytes.len() > 255 {
                proof {
                    assert(encode_utf8(ts[t as int].name).len() > 255);
                    assert(!names_fit(ts));
                    assert(out@ =~= old(out)@ + header_prefix_bytes(self@, t as int));
                }
                return Err(LoomError::InvalidInput);
            }
            out.push(name_bytes.len() as u8);
            push_all(out, name_bytes);
            push_be(out, track.total_samples, 8);
            push_all(out, track.md5.as_slice());
            proof {
                assert(out@ =~= head + tracks_info_bytes(ts.take(t + 1)));
                assert forall|i: int| 0 <= i < ts.take(t + 1).len() implies #[trigger] encode_utf8(
                    ts.take(t + 1)[i].name,
                ).len() <= 255 by {
                    if i < t {
                        assert(ts.take(t + 1)[i] == ts.take(t as int)[i]);
                    }
                }
            }
            t = t + 1;
        }
        proof {
            assert(ts.take(ts.len() as int) =~= ts);
            assert(final(out)@ =~= old(out)@ + header_bytes(self@));
        }
        Ok(())
    }

    /// Reads a header at `pos` of `data` as `parse_header` says; gives it and the position
    /// after it.
    pub fn deserialize(data: &[u8], pos: usize) -> (r: Result<(SessionHeader, usize), LoomError>)
        ensures
            match parse_header(data@, pos as int) {
                Ok((h, p)) => r is Ok && r->Ok_0.0@ == h && r->Ok_0.1 == p,
                Err(e) => r == Err::<(SessionHeader, usize), LoomError>(e),
            },
    {
        if pos > data.len() || data.len() - pos < 4 {
            return Err(LoomError::UnexpectedEof);
        }
        if !(data[pos] == 0x4C && data[pos + 1] == 0x4F && data[pos + 2] == 0x4F && data[pos + 3]
            == 0x4D) {
            proof {
                assert(data@.subrange(pos as int, pos + 4) != loom_magic()) by {
                    if data@.subrange(pos as int, pos + 4) == loom_magic() {
                        assert(data@.subrange(pos as int, pos + 4)[0] == data@[pos as int]);
                        assert(data@.subrange(pos as int, pos + 4)[1] == data@[pos + 1]);
                        assert(data@.subrange(pos as int, pos + 4)[2] == data@[pos + 2]);
                        assert(data@.subrange(pos as int, pos + 4)[3] == data@[pos + 3]);
                    }
                }
            }
            return Err(LoomError::InvalidData);
        }
        proof {
            assert(data@.subrange(pos as int, pos + 4) =~= loom_magic());
        }
        if data.len() - pos < 11 {
            return Err(LoomError::UnexpectedEof);
        }
        proof {
            vstd::arithmetic::power2::lemma2_to64();
        }
        let sample_rate = match read_be(data, pos + 4, 4) {
            Ok(v) => v as u32,
            Err(e) => {
                return Err(e);
            },
        };
        let bit_depth = data[pos + 8];
        let num_tracks = match read_be(data, pos + 9, 2) {
            Ok(v) => v as usize,
            Err(e) => {
                return Err(e);
            },
        };
        proof {
            vstd::arithmetic::power2::lemma2_to64();
        }
        let mut tracks: Vec<TrackInfo> = Vec::new();
        let mut p = pos + 11;
        let mut i: usize = 0;
        let ghost n = num_tracks as nat;
        proof {
            assert(tracks@.map_values(|t: TrackInfo| t@) =~= seq![]);
        }
        while i < num_tracks
            invariant
                i <= num_tracks,
                n == num_tracks,
                pos + 11 <= data@.len(),
                data@.subrange(pos as int, pos + 4) == loom_magic(),
                n == be_val(data@.subrange(pos + 9, pos + 11)),
                sample_rate == be_val(data@.subrange(pos + 4, pos + 8)) as u32,
                bit_depth == data@[pos + 8],
                parse_tracks(data@, pos + 11, n, seq![]) == parse_tracks(
                    data@,
                    p as int,
                    (n - i) as nat,
                    tracks@.map_values(|t: TrackInfo| t@),
                ),
            decreases num_tracks - i,
        {
            let (t, np) = match track_info_deserialize(data, p) {
                Ok(x) => x,
                Err(e) => {
                    return Err(e);
                },
            };
            let ghost before = tracks@.map_values(|t: TrackInfo| t@);
            tracks.push(t);
            proof {
                assert(tracks@.map_values(|t: TrackInfo| t@) =~= before.push(t@));
            }
            p = np;
            i = i + 1;
        }
        Ok((SessionHeader { sample_rate, bit_depth, tracks }, p))
    }
}


/// A header the writer can write so that it reads back: every name fits in 255 bytes,
/// there are at most 65535 tracks, and every MD5 has 16 bytes.
pub open spec fn header_writable(h: HeaderSpec) -> bool {
    &&& names_fit(h.tracks)
    &&& h.tracks.len() <= 0xFFFF
    &&& forall|i: int| 0 <= i < h.tracks.len() ==> #[trigger] h.tracks[i].md5.len() == 16
}

/// Reading one more track entry after `n` of them.
proof fn lemma_parse_tracks_last(data: Seq<u8>, pos: int, n: nat, acc: Seq<TrackInfoSpec>)
    ensures
        parse_tracks(data, pos, n + 1, acc) == match parse_tracks(data, pos, n, acc) {
            Err(e) => Err(e),
            Ok((a, p)) => match parse_track_info(data, p) {
                Err(e) => Err(e),
                Ok((t, q)) => Ok((a.push(t), q)),
            },
        },
    decreases n,
{
    reveal_with_fuel(parse_tracks, 2);
    if n > 0 {
        match parse_track_info(data, pos) {
            Err(e) => {},
            Ok((t, p)) => {
                lemma_parse_tracks_last(data, p, (n - 1) as nat, acc.push(t));
            },
        }
    }
}

/// A track entry reads back as it was written.
proof fn lemma_track_info_roundtrip(data: Seq<u8>, pos: int, t: TrackInfoSpec)
    requires
        0 <= pos,
        encode_utf8(t.name).len() <= 255,
        t.md5.len() == 16,
        pos + track_info_bytes(t).len() <= data.len(),
        data.subrange(pos, pos + track_info_bytes(t).len()) == track_info_bytes(t),
    ensures
        parse_track_info(data, pos) == Ok::<(TrackInfoSpec, int), LoomError>(
            (t, pos + track_info_bytes(t).len()),
        ),
{
    let nb = encode_utf8(t.name);
    let n = nb.len();
    let b = track_info_bytes(t);
    crate::container::bytes::lemma_be_bytes_len(t.total_samples as nat, 8);
    crate::container::bytes::lemma_be_roundtrip(t.total_samples as nat, 8);
    vstd::arithmetic::power2::lemma2_to64();
    vstd::arithmetic::power2::lemma2_to64_rest();
    vstd::utf8::encode_utf8_valid_utf8(t.name);
    vstd::utf8::encode_utf8_decode_utf8(t.name);
    assert(b.len() == 1 + n + 24);
    assert(data[pos] == b[0]);
    assert(b[0] as int == n);
    let p = pos + 1;
    assert(data.subrange(p, p + n) =~= nb) by {
        assert(b.subrange(1, 1 + n as int) =~= nb);
    }
    assert(data.subrange(p + n, p + n + 8) =~= be_bytes(t.total_samples as nat, 8)) by {
        assert(b.subrange(1 + n as int, 9 + n as int) =~= be_bytes(t.total_samples as nat, 8));
    }
    assert(data.subrange(p + n + 8, p + n + 24) =~= t.md5) by {
        assert(b.subrange(9 + n as int, 25 + n as int) =~= t.md5);
    }
    assert(t.total_samples as nat % pow2(64) == t.total_samples as nat) by {
        vstd::arithmetic::div_mod::lemma_small_mod(t.total_samples as nat, pow2(64));
    }
    assert(be_val(data.subrange(p + n, p + n + 8)) as u64 == t.total_samples);
    assert(decode_utf8(data.subrange(p, p + n)) == t.name);
    assert(valid_utf8(data.subrange(p, p + n)));
    assert(p + n + 24 <= data.len());
}

/// A prefix of a run of track entries is the entries of a prefix of the run.
proof fn lemma_tracks_bytes_split(ts: Seq<TrackInfoSpec>)
    requires
        ts.len() > 0,
    ensures
        tracks_info_bytes(ts) == tracks_info_bytes(ts.drop_last()) + track_info_bytes(ts.last()),
{
}

/// A run of track entries reads back as it was written.
proof fn lemma_tracks_roundtrip(data: Seq<u8>, pos: int, ts: Seq<TrackInfoSpec>)
    requires
        0 <= pos,
        names_fit(ts),
        forall|i: int| 0 <= i < ts.len() ==> #[trigger] ts[i].md5.len() == 16,
        pos + tracks_info_bytes(ts).len() <= data.len(),
        data.subrange(pos, pos + tracks_info_bytes(ts).len()) == tracks_info_bytes(ts),
    ensures
        parse_tracks(data, pos, ts.len(), seq![]) == Ok::<(Seq<TrackInfoSpec>, int), LoomError>(
            (ts, pos + tracks_info_bytes(ts).len()),
        ),
    decreases ts.len(),
{
    if ts.len() == 0 {
        assert(ts =~= seq![]);
    } else {
        let dl = ts.drop_last();
        let head = tracks_info_bytes(dl);
        let last = track_info_bytes(ts.last());
        lemma_tracks_bytes_split(ts);
        assert(data.subrange(pos, pos + head.len()) =~= head) by {
            assert(tracks_info_bytes(ts).subrange(0, head.len() as int) =~= head);
        }
        assert forall|i: int| 0 <= i < dl.len() implies #[trigger] encode_utf8(dl[i].name).len()
            <= 255 by {
            assert(dl[i] == ts[i]);
        }
        assert forall|i: int| 0 <= i < dl.len() implies #[trigger] dl[i].md5.len() == 16 by {
            assert(dl[i] == ts[i]);
        }
        lemma_tracks_roundtrip(data, pos, dl);
        lemma_parse_tracks_last(data, pos, dl.len(), seq![]);
        assert(data.subrange(pos + head.len(), pos + head.len() + last.len()) =~= last) by {
            assert(tracks_info_bytes(ts).subrange(head.len() as int, (head.len() + last.len()) as int)
                =~= last);
        }
        assert(encode_utf8(ts.last().name).len() <= 255);
        assert(ts.last().md5.len() == 16);
        lemma_track_info_roundtrip(data, pos + head.len(), ts.last());
        assert(dl.push(ts.last()) =~= ts);
    }
}

/// Reading back a written header gives the header and the position right after it, what
/// ever bytes stand before and after it.
pub proof fn lemma_header_roundtrip(data: Seq<u8>, pos: int, h: HeaderSpec)
    requires
        header_writable(h),
        0 <= pos,
        pos + header_bytes(h).len() <= data.len(),
        data.subrange(pos, pos + header_bytes(h).len()) == header_bytes(h),
    ensures
        parse_header(data, pos) == Ok::<(HeaderSpec, int), LoomError>(
            (h, pos + header_bytes(h).len()),
        ),
{
    let hb = header_bytes(h);
    let tb = tracks_info_bytes(h.tracks);
    crate::container::bytes::lemma_be_bytes_len(h.sample_rate as nat, 4);
    crate::container::bytes::lemma_be_bytes_len(h.tracks.len(), 2);
    crate::container::bytes::lemma_be_roundtrip(h.sample_rate as nat, 4);
    crate::container::bytes::lemma_be_roundtrip(h.tracks.len(), 2);
    vstd::arithmetic::power2::lemma2_to64();
    assert(hb.len() == 11 + tb.len());
    assert(data.subrange(pos, pos + 4) =~= loom_magic()) by {
        assert(hb.subrange(0, 4) =~= loom_magic());
    }
    assert(data.subrange(pos + 4, pos + 8) =~= be_bytes(h.sample_rate as nat, 4)) by {
        assert(hb.subrange(4, 8) =~= be_bytes(h.sample_rate as nat, 4));
    }
    assert(data[pos + 8] == hb[8]);
    assert(data.subrange(pos + 9, pos + 11) =~= be_bytes(h.tracks.len(), 2)) by {
        assert(hb.subrange(9, 11) =~= be_bytes(h.tracks.len(), 2));
    }
    assert(data.subrange(pos + 11, pos + 11 + tb.len()) =~= tb) by {
        assert(hb.subrange(11, 11 + tb.len() as int) =~= tb);
    }
    lemma_tracks_roundtrip(data, pos + 11, h.tracks);
    assert(h.sample_rate as nat % pow2(32) == h.sample_rate as nat) by {
        vstd::arithmetic::div_mod::lemma_small_mod(h.sample_rate as nat, pow2(32));
    }
    assert(h.tracks.len() % pow2(16) == h.tracks.len()) by {
        vstd::arithmetic::div_mod::lemma_small_mod(h.tracks.len(), pow2(16));
    }
    assert(hb[8] == h.bit_depth);
    assert(be_val(data.subrange(pos + 4, pos + 8)) as u32 == h.sample_rate);
    assert(be_val(data.subrange(pos + 9, pos + 11)) == h.tracks.len());
}

} // verus!
