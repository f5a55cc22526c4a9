use crate::container::bytes::{be_bytes, be_val, lemma_be_exact, push_be, read_be};
use vstd::arithmetic::power2::{lemma2_to64, lemma2_to64_rest, pow2};
use crate::error::LoomError;
use vstd::prelude::*;

verus! {

/// Where a frame of a track starts: its first sample, its byte offset and its length.
#[derive(Clone, Copy, Debug, PartialEq, Eq, Structural)]
pub struct SeekPoint {
    pub sample_number: u64,
    pub byte_offset: u64,
    pub frame_samples: u32,
}

/// The seek points of every track.
#[derive(Clone, Debug, PartialEq)]
pub struct SeekTable {
    pub tracks_points: Vec<Vec<SeekPoint>>,
}

impl View for SeekTable {
    type V = Seq<Seq<SeekPoint>>;

    open spec fn view(&self) -> Seq<Seq<SeekPoint>> {
        self.tracks_points@.map_values(|v: Vec<SeekPoint>| v@)
    }
}

/// A seek point: sample number and byte offset in 8 big-endian bytes each, the frame's
/// length in 4.
pub open spec fn point_bytes(p: SeekPoint) -> Seq<u8> {
    be_bytes(p.sample_number as nat, 8) + be_bytes(p.byte_offset as nat, 8) + be_bytes(
        p.frame_samples as nat,
        4,
    )
}

/// A run of seek points.
pub open spec fn points_bytes(ps: Seq<SeekPoint>) -> Seq<u8>
    decreases ps.len(),
{
    if ps.len() == 0 {
        Seq::empty()
    } else {
        points_bytes(ps.drop_last()) + point_bytes(ps.last())
    }
}

/// The tracks' point lists, each a 4-byte count and its points.
pub open spec fn tracks_points_bytes(ts: Seq<Seq<SeekPoint>>) -> Seq<u8>
    decreases ts.len(),
{
    if ts.len() == 0 {
        Seq::empty()
    } else {
        tracks_points_bytes(ts.drop_last()) + be_bytes(ts.last().len(), 4) + points_bytes(ts.last())
    }
}

/// The length a table records for itself: 2, and 4 plus 20 per point for each track.
pub open spec fn seek_len(ts: Seq<Seq<SeekPoint>>) -> nat
    decreases ts.len(),
{
    if ts.len() == 0 {
        2
    } else {
        seek_len(ts.drop_last()) + 4 + 20 * ts.last().len()
    }
}

/// A serialized seek table: a 0 byte, the length (4 bytes, its low 32 bits), the track
/// count (2 bytes) and the tracks' point lists.
pub open spec fn seek_table_bytes(ts: Seq<Seq<SeekPoint>>) -> Seq<u8> {
    seq![0u8] + be_bytes(seek_len(ts), 4) + be_bytes(ts.len(), 2) + tracks_points_bytes(ts)
}

/// Reading `n` more seek points after `acc`.
pub open spec fn parse_points(data: Seq<u8>, pos: int, n: nat, acc: Seq<SeekPoint>) -> Result<
    (Seq<SeekPoint>, int),
    LoomError,
>
    decreases n,
{
    if n == 0 {
        Ok((acc, pos))
    } else if pos + 20 > data.len() {
        Err(LoomError::UnexpectedEof)
    } else {
        parse_points(
            data,
            pos + 20,
            (n - 1) as nat,
            acc.push(
                SeekPoint {
                    sample_number: be_val(data.subrange(pos, pos + 8)) as u64,
                    byte_offset: be_val(data.subrange(pos + 8, pos + 16)) as u64,
                    frame_samples: be_val(data.subrange(pos + 16, pos + 20)) as u32,
                },
            ),
        )
    }
}

/// Reading `n` more tracks' point lists after `acc`.
pub open spec fn parse_tracks_points(
    data: Seq<u8>,
    pos: int,
    n: nat,
    acc: Seq<Seq<SeekPoint>>,
) -> Result<(Seq<Seq<SeekPoint>>, int), LoomError>
    decreases n,
{
    if n == 0 {
        Ok((acc, pos))
    } else if pos + 4 > data.len() {
        Err(LoomError::UnexpectedEof)
    } else {
        match parse_points(data, pos + 4, be_val(data.subrange(pos, pos + 4)), seq![]) {
            Err(e) => Err(e),
            Ok((ps, p)) => parse_tracks_points(data, p, (n - 1) as nat, acc.push(ps)),
        }
    }
}

/// Reading a seek table at `pos` (its recorded length is not checked): the points and the
/// position after them.
pub open spec fn parse_seek_table(data: Seq<u8>, pos: int) -> Result<(Seq<Seq<SeekPoint>>, int), LoomError> {
    if pos + 1 > data.len() {
        Err(LoomError::UnexpectedEof)
    } else if data[pos] != 0 {
        Err(LoomError::InvalidData)
    } else if pos + 7 > data.len() {
        Err(LoomError::UnexpectedEof)
    } else {
        parse_tracks_points(data, pos + 7, be_val(data.subrange(pos + 5, pos + 7)), seq![])
    }
}

fn read_points(data: &[u8], pos: usize, n: usize) -> (r: Result<(Vec<SeekPoint>, usize), LoomError>)
    ensures
        match parse_points(data@, pos as int, n as nat, seq![]) {
            Ok((ps, p)) => r is Ok && r->Ok_0.0@ == ps && r->Ok_0.1 == p,
            Err(e) => r == Err::<(Vec<SeekPoint>, usize), LoomError>(e),
        },
{
    let mut points: Vec<SeekPoint> = Vec::new();
    let mut p = pos;
    let mut i: usize = 0;
    proof {
        vstd::arithmetic::power2::lemma2_to64();
        vstd::arithmetic::power2::lemma2_to64_rest();
    }
    while i < n
        invariant
            i <= n,
            parse_points(data@, pos as int, n as nat, seq![]) == parse_points(
                data@,
                p as int,
                (n - i) as nat,
                points@,
            ),
        decreases n - i,
    {
        if p > data.len() || data.len() - p < 20 {
            return Err(LoomError::UnexpectedEof);
        }
        proof {
            vstd::arithmetic::power2::lemma2_to64();
        }
        let sample_number = match read_be(data, p, 8) {
            Ok(v) => v,
            Err(e) => {
                return Err(e);
            },
        };
        let byte_offset = match read_be(data, p + 8, 8) {
            Ok(v) => v,
            Err(e) => {
                return Err(e);
            },
        };
        let frame_samples = match read_be(data, p + 16, 4) {
            Ok(v) => v as u32,
            Err(e) => {
                return Err(e);
            },
        };
        points.push(SeekPoint { sample_number, byte_offset, frame_samples });
        p = p + 20;
        i = i + 1;
    }
    Ok((points, p))
}

impl SeekTable {
    /// A table with no points for each of `num_tracks` tracks.
    pub fn new(num_tracks: usize) -> (r: Self)
        ensures
            r@.len() == num_tracks,
            forall|t: int| 0 <= t < num_tracks ==> #[trigger] r@[t].len() == 0,
    {
        let mut tracks_points: Vec<Vec<SeekPoint>> = Vec::new();
        let mut i: usize = 0;
        while i < num_tracks
            invariant
                i <= num_tracks,
                tracks_points@.len() == i,
                forall|t: int| 0 <= t < i ==> #[trigger] tracks_points@[t]@.len() == 0,
            decreases num_tracks - i,
        {
            tracks_points.push(Vec::new());
            i = i + 1;
        }
        SeekTable { tracks_points }
    }

    /// Appends the table to `out` as `seek_table_bytes` says.
    pub fn serialize(&self, out: &mut Vec<u8>)
        ensures
            final(out)@ == old(out)@ + seek_table_bytes(self@),
    {
        let ghost ts = self@;
        let mut len: u64 = 2;
        let mut k: usize = 0;
        proof {
            assert(ts.take(0) =~= Seq::<Seq<SeekPoint>>::empty());
            vstd::arithmetic::power2::lemma2_to64();
            vstd::arithmetic::power2::lemma2_to64_rest();
        }
        while k < self.tracks_points.len()
            invariant
                k <= self.tracks_points@.len(),
                ts == self@,
                len < 0x1_0000_0000,
                len == seek_len(ts.take(k as int)) % 0x1_0000_0000,
            decreases self.tracks_points@.len() - k,
        {
            let np = self.tracks_points[k].len() as u64;
            proof {
                assert(ts.take(k + 1).drop_last() =~= ts.take(k as int));
                assert(ts[k as int] == self.tracks_points@[k as int]@);
                lemma_len_step(seek_len(ts.take(k as int)), np as nat, len as nat);
            }
            len = (len + 4 + ((np % 0x1_0000_0000) * 20) % 0x1_0000_0000) % 0x1_0000_0000;
            k = k + 1;
        }
        proof {
            assert(ts.take(ts.len() as int) =~= ts);
            crate::container::bytes::lemma_be_bytes_len(0, 4);
        }
        out.push(0);
        push_be(out, len, 4);
        proof {
            crate::container::bytes::lemma_be_low_bytes(seek_len(ts), 4);
        }
        push_be(out, self.tracks_points.len() as u64, 2);
        let ghost head = out@;
        let mut t: usize = 0;
        proof {
            assert(ts.take(0) =~= Seq::<Seq<SeekPoint>>::empty());
        }
        while t < self.tracks_points.len()
            invariant
                t <= self.tracks_points@.len(),
                ts == self@,
                out@ == head + tracks_points_bytes(ts.take(t as int)),
            decreases self.tracks_points@.len() - t,
        {
            let points = &self.tracks_points[t];
            proof {
                assert(ts[t as int] == points@);
                assert(ts.take(t + 1).drop_last() =~= ts.take(t as int));
            }
            push_be(out, points.len() as u64, 4);
            let ghost mid = out@;
            let mut i: usize = 0;
            proof {
                assert(points@.take(0) =~= Seq::<SeekPoint>::empty());
            }
            while i < points.len()
                invariant
                    i <= points@.len(),
                    out@ == mid + points_bytes(points@.take(i as int)),
                decreases points@.len() - i,
            {
                let pt = points[i];
                proof {
                    assert(points@.take(i + 1).drop_last() =~= points@.take(i as int));
                }
                push_be(out, pt.sample_number, 8);
                push_be(out, pt.byte_offset, 8);
                push_be(out, pt.frame_samples as u64, 4);
                proof {
                    assert(out@ =~= mid + points_bytes(points@.take(i + 1)));
                }
                i = i + 1;
            }
            proof {
                assert(points@.take(points@.len() as int) =~= points@);
                assert(out@ =~= head + tracks_points_bytes(ts.take(t + 1)));
            }
            t = t + 1;
        }
        proof {
            assert(ts.take(ts.len() as int) =~= ts);
            assert(final(out)@ =~= old(out)@ + seek_table_bytes(ts));
        }
    }

    /// Reads a seek table at `pos` of `data` as `parse_seek_table` says; gives it and the
    /// position after it.
    pub fn deserialize(data: &[u8], pos: usize) -> (r: Result<(SeekTable, usize), LoomError>)
        ensures
            match parse_seek_table(data@, pos as int) {
                Ok((ts, p)) => r is Ok && r->Ok_0.0@ == ts && r->Ok_0.1 == p,
                Err(e) => r == Err::<(SeekTable, usize), LoomError>(e),
            },
    {
        if pos >= data.len() {
            return Err(LoomError::UnexpectedEof);
        }
        if data[pos] != 0 {
            return Err(LoomError::InvalidData);
        }
        if data.len() - pos < 7 {
            return Err(LoomError::UnexpectedEof);
        }
        proof {
            vstd::arithmetic::power2::lemma2_to64();
        }
        let num_tracks = match read_be(data, pos + 5, 2) {
            Ok(v) => v as usize,
            Err(e) => {
                return Err(e);
            },
        };
        let ghost n = num_tracks as nat;
        let mut tracks_points: Vec<Vec<SeekPoint>> = Vec::new();
        let mut p = pos + 7;
        let mut i: usize = 0;
        proof {
            assert(tracks_points@.map_values(|v: Vec<SeekPoint>| v@) =~= seq![]);
        }
        while i < num_tracks
            invariant
                i <= num_tracks,
                n == num_tracks,
                parse_seek_table(data@, pos as int) == parse_tracks_points(
                    data@,
                    p as int,
                    (n - i) as nat,
                    tracks_points@.map_values(|v: Vec<SeekPoint>| v@),
                ),
            decreases num_tracks - i,
        {
            if p > data.len() || data.len() - p < 4 {
                return Err(LoomError::UnexpectedEof);
            }
            let np = match read_be(data, p, 4) {
                Ok(v) => v as usize,
                Err(e) => {
                    return Err(e);
                },
            };
            proof {
                vstd::arithmetic::power2::lemma2_to64();
            }
            let (points, np2) = match read_points(data, p + 4, np) {
                Ok(x) => x,
                Err(e) => {
                    return Err(e);
                },
            };
            let ghost before = tracks_points@.map_values(|v: Vec<SeekPoint>| v@);
            tracks_points.push(points);
            proof {
                assert(tracks_points@.map_values(|v: Vec<SeekPoint>| v@) =~= before.push(
                    points@,
                ));
            }
            p = np2;
            i = i + 1;
        }
        Ok((SeekTable { tracks_points }, p))
    }
}

proof fn lemma_len_step(prev: nat, np: nat, len: nat)
    requires
        len == prev % 0x1_0000_0000,
    ensures
        (len + 4 + ((np % 0x1_0000_0000) * 20) % 0x1_0000_0000) % 0x1_0000_0000 == (prev + 4 + 20
            * np) % 0x1_0000_0000,
{
    let m = 0x1_0000_0000int;
    vstd::arithmetic::div_mod::lemma_mul_mod_noop_left(np as int, 20, m);
    vstd::arithmetic::div_mod::lemma_add_mod_noop((prev + 4) as int, (20 * np) as int, m);
    vstd::arithmetic::div_mod::lemma_add_mod_noop(prev as int, 4, m);
    vstd::arithmetic::div_mod::lemma_add_mod_noop((len + 4) as int, ((np % 0x1_0000_0000) * 20) as int, m);
    vstd::arithmetic::div_mod::lemma_mod_twice(prev as int, m);
    assert(20 * np == np * 20);
}


/// Reading one more seek point after `n` of them.
proof fn lemma_parse_points_last(data: Seq<u8>, pos: int, n: nat, acc: Seq<SeekPoint>)
    ensures
        parse_points(data, pos, n + 1, acc) == match parse_points(data, pos, n, acc) {
            Err(e) => Err(e),
            Ok((a, p)) => parse_points(data, p, 1, a),
        },
    decreases n,
{
    reveal_with_fuel(parse_points, 2);
    if n > 0 && pos + 20 <= data.len() {
        let pt = SeekPoint {
            sample_number: be_val(data.subrange(pos, pos + 8)) as u64,
            byte_offset: be_val(data.subrange(pos + 8, pos + 16)) as u64,
            frame_samples: be_val(data.subrange(pos + 16, pos + 20)) as u32,
        };
        lemma_parse_points_last(data, pos + 20, (n - 1) as nat, acc.push(pt));
    }
}

/// A run of seek points reads back as it was written.
proof fn lemma_points_roundtrip(data: Seq<u8>, pos: int, ps: Seq<SeekPoint>)
    requires
        0 <= pos,
        pos + points_bytes(ps).len() <= data.len(),
        data.subrange(pos, pos + points_bytes(ps).len()) == points_bytes(ps),
    ensures
        points_bytes(ps).len() == 20 * ps.len(),
        parse_points(data, pos, ps.len(), seq![]) == Ok::<(Seq<SeekPoint>, int), LoomError>(
            (ps, pos + points_bytes(ps).len()),
        ),
    decreases ps.len(),
{
    if ps.len() == 0 {
        assert(ps =~= seq![]);
    } else {
        let dl = ps.drop_last();
        let pt = ps.last();
        let head = points_bytes(dl);
        let b = point_bytes(pt);
        lemma2_to64();
        lemma2_to64_rest();
        lemma_be_exact(pt.sample_number as nat, 8);
        lemma_be_exact(pt.byte_offset as nat, 8);
        lemma_be_exact(pt.frame_samples as nat, 4);
        assert(points_bytes(ps) == head + b);
        assert(data.subrange(pos, pos + head.len()) =~= head) by {
            assert(points_bytes(ps).subrange(0, head.len() as int) =~= head);
        }
        lemma_points_roundtrip(data, pos, dl);
        lemma_parse_points_last(data, pos, dl.len(), seq![]);
        let q = pos + head.len();
        assert(data.subrange(q, q + 8) =~= be_bytes(pt.sample_number as nat, 8)) by {
            assert(points_bytes(ps).subrange(head.len() as int, head.len() as int + 8) =~= be_bytes(
                pt.sample_number as nat,
                8,
            ));
        }
        assert(data.subrange(q + 8, q + 16) =~= be_bytes(pt.byte_offset as nat, 8)) by {
            assert(points_bytes(ps).subrange(head.len() as int + 8, head.len() as int + 16) =~= be_bytes(
                pt.byte_offset as nat,
                8,
            ));
        }
        assert(data.subrange(q + 16, q + 20) =~= be_bytes(pt.frame_samples as nat, 4)) by {
            assert(points_bytes(ps).subrange(head.len() as int + 16, head.len() as int + 20) =~= be_bytes(
                pt.frame_samples as nat,
                4,
            ));
        }
        reveal_with_fuel(parse_points, 2);
        assert(dl.push(pt) =~= ps);
    }
}

/// Reading one more track's points after `n` of them.
proof fn lemma_parse_tracks_points_last(data: Seq<u8>, pos: int, n: nat, acc: Seq<Seq<SeekPoint>>)
    ensures
        parse_tracks_points(data, pos, n + 1, acc) == match parse_tracks_points(data, pos, n, acc) {
            Err(e) => Err(e),
            Ok((a, p)) => parse_tracks_points(data, p, 1, a),
        },
    decreases n,
{
    reveal_with_fuel(parse_tracks_points, 2);
    if n > 0 && pos + 4 <= data.len() {
        match parse_points(data, pos + 4, be_val(data.subrange(pos, pos + 4)), seq![]) {
            Err(e) => {},
            Ok((ps, p)) => {
                lemma_parse_tracks_points_last(data, p, (n - 1) as nat, acc.push(ps));
            },
        }
    }
}

/// The tracks' point lists read back as they were written.
proof fn lemma_tracks_points_roundtrip(data: Seq<u8>, pos: int, ts: Seq<Seq<SeekPoint>>)
    requires
        0 <= pos,
        forall|t: int| 0 <= t < ts.len() ==> #[trigger] ts[t].len() <= 0xFFFF_FFFF,
        pos + tracks_points_bytes(ts).len() <= data.len(),
        data.subrange(pos, pos + tracks_points_bytes(ts).len()) == tracks_points_bytes(ts),
    ensures
        parse_tracks_points(data, pos, ts.len(), seq![]) == Ok::<
            (Seq<Seq<SeekPoint>>, int),
            LoomError,
        >((ts, pos + tracks_points_bytes(ts).len())),
    decreases ts.len(),
{
    if ts.len() == 0 {
        assert(ts =~= seq![]);
    } else {
        let dl = ts.drop_last();
        let ps = ts.last();
        let head = tracks_points_bytes(dl);
        let cnt = be_bytes(ps.len(), 4);
        let pb = points_bytes(ps);
        lemma2_to64();
        assert(ps.len() <= 0xFFFF_FFFF);
        lemma_be_exact(ps.len(), 4);
        assert(tracks_points_bytes(ts) == head + cnt + pb);
        let whole = tracks_points_bytes(ts);
        assert(data.subrange(pos, pos + head.len()) =~= head) by {
            assert(whole.subrange(0, head.len() as int) =~= head);
        }
        assert forall|t: int| 0 <= t < dl.len() implies #[trigger] dl[t].len() <= 0xFFFF_FFFF by {
            assert(dl[t] == ts[t]);
        }
        lemma_tracks_points_roundtrip(data, pos, dl);
        lemma_parse_tracks_points_last(data, pos, dl.len(), seq![]);
        let q = pos + head.len();
        assert(data.subrange(q, q + 4) =~= cnt) by {
            assert(whole.subrange(head.len() as int, head.len() as int + 4) =~= cnt);
        }
        assert(data.subrange(q + 4, q + 4 + pb.len()) =~= pb) by {
            assert(whole.subrange(head.len() as int + 4, head.len() as int + 4 + pb.len() as int) =~= pb);
        }
        lemma_points_roundtrip(data, q + 4, ps);
        reveal_with_fuel(parse_tracks_points, 2);
        assert(dl.push(ps) =~= ts);
    }
}

/// Reading back a written seek table gives its points and the position right after it,
/// whatever bytes stand before and after it, where there are at most 65535 tracks and at
/// most `2^32 - 1` points per track.
pub proof fn lemma_seek_table_roundtrip(data: Seq<u8>, pos: int, ts: Seq<Seq<SeekPoint>>)
    requires
        ts.len() <= 0xFFFF,
        forall|t: int| 0 <= t < ts.len() ==> #[trigger] ts[t].len() <= 0xFFFF_FFFF,
        0 <= pos,
        pos + seek_table_bytes(ts).len() <= data.len(),
        data.subrange(pos, pos + seek_table_bytes(ts).len()) == seek_table_bytes(ts),
    ensures
        parse_seek_table(data, pos) == Ok::<(Seq<Seq<SeekPoint>>, int), LoomError>(
            (ts, pos + seek_table_bytes(ts).len()),
        ),
{
    let b = seek_table_bytes(ts);
    let tb = tracks_points_bytes(ts);
    lemma2_to64();
    crate::container::bytes::lemma_be_bytes_len(seek_len(ts), 4);
    lemma_be_exact(ts.len(), 2);
    assert(b.len() == 7 + tb.len());
    assert(data[pos] == b[0]);
    assert(data.subrange(pos + 5, pos + 7) =~= be_bytes(ts.len(), 2)) by {
        assert(b.subrange(5, 7) =~= be_bytes(ts.len(), 2));
    }
    assert(data.subrange(pos + 7, pos + 7 + tb.len()) =~= tb) by {
        assert(b.subrange(7, 7 + tb.len() as int) =~= tb);
    }
    lemma_tracks_points_roundtrip(data, pos + 7, ts);
}

} // verus!
