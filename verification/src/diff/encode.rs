use crate::container::bytes::{be_val, copy_range, read_be};
use crate::container::edit_block::{parse_edit, EditBlock};
use crate::container::header::{parse_header, SessionHeader};
use crate::container::seek_index::{parse_seek_table, SeekPoint, SeekTable};
use crate::container::session_read::{parse_container, read_container};
use crate::diff::container::{FrameInstruction, InstSpec, SessionDiff, SessionDiffSpec, TrackDiff, TrackDiffSpec};
use crate::error::LoomError;
use crate::verify::{md5_digest, md5_of};
use vstd::prelude::*;

verus! {

/// Reading the framed edit block at `pos`: its tag byte 1, the body's length in 4 bytes and
/// a body that reads. Gives the position after it.
pub open spec fn edit_at(p: Seq<u8>, pos: int) -> Result<int, LoomError> {
    if pos < 0 || pos + 1 > p.len() {
        Err(LoomError::UnexpectedEof)
    } else if p[pos] != 1 {
        Err(LoomError::InvalidData)
    } else if pos + 5 > p.len() {
        Err(LoomError::UnexpectedEof)
    } else {
        let l = be_val(p.subrange(pos + 1, pos + 5));
        if pos + 5 + l > p.len() {
            Err(LoomError::UnexpectedEof)
        } else {
            match parse_edit(p.subrange(pos + 5, pos + 5 + l), 0) {
                Err(e) => Err(e),
                Ok(_) => Ok(pos + 5 + l),
            }
        }
    }
}

/// The parts of a session that hold its frames: whether it is Loom-only, the first
/// track's FLAC frames (none in the Loom-only format), the Loom frames after the payload's
/// head, and the seek points of each track, with the number of tracks.
pub struct FrameParts {
    pub track0: Seq<u8>,
    pub loom: Seq<u8>,
    pub points: Seq<Seq<SeekPoint>>,
    pub ntracks: nat,
    pub metadata_len: int,
}

/// Reading the parts of a session that hold its frames: the container (tags and pictures
/// skipped), the first track's frames, which must start inside the data, then the header,
/// seek table and edit block at the head of the payload.
pub open spec fn frame_parts(d: Seq<u8>) -> Result<FrameParts, LoomError> {
    match parse_container(d, false) {
        Err(e) => Err(e),
        Ok((old, acc, at)) => if !old && at > d.len() {
            Err(LoomError::UnexpectedEof)
        } else {
            match parse_header(acc.payload, 0) {
                Err(e) => Err(e),
                Ok((h, p1)) => match parse_seek_table(acc.payload, p1) {
                    Err(e) => Err(e),
                    Ok((st, p2)) => match edit_at(acc.payload, p2) {
                        Err(e) => Err(e),
                        Ok(p3) => Ok(
                            FrameParts {
                                track0: if old {
                                    Seq::empty()
                                } else {
                                    d.subrange(at, d.len() as int)
                                },
                                loom: acc.payload.subrange(p3, acc.payload.len() as int),
                                points: st,
                                ntracks: h.tracks.len(),
                                metadata_len: at,
                            },
                        ),
                    },
                },
            }
        },
    }
}

/// The frames the seek points `i ..` mark in `payload`, after `acc`: each from its point's
/// offset to the next point's (or the end); a point or an end outside the payload marks
/// none, and a frame that would end before it starts is invalid data.
pub open spec fn slice_frames(pts: Seq<SeekPoint>, payload: Seq<u8>, i: nat, acc: Seq<Seq<u8>>) -> Result<
    Seq<Seq<u8>>,
    LoomError,
>
    decreases pts.len() - i,
{
    if i >= pts.len() {
        Ok(acc)
    } else {
        let start = pts[i as int].byte_offset as int;
        let end = if i + 1 < pts.len() {
            pts[(i + 1) as int].byte_offset as int
        } else {
            payload.len() as int
        };
        if start < payload.len() && end <= payload.len() {
            if start > end {
                Err(LoomError::InvalidData)
            } else {
                slice_frames(pts, payload, i + 1, acc.push(payload.subrange(start, end)))
            }
        } else {
            slice_frames(pts, payload, i + 1, acc)
        }
    }
}

/// The raw frames of tracks `t ..` of a session, after `acc`: the first track's from its
/// FLAC frames, the others' from the Loom frames; a track without seek points is invalid
/// data.
pub open spec fn tracks_frames(fp: FrameParts, t: nat, acc: Seq<Seq<Seq<u8>>>) -> Result<
    Seq<Seq<Seq<u8>>>,
    LoomError,
>
    decreases fp.ntracks - t,
{
    if t >= fp.ntracks {
        Ok(acc)
    } else if t >= fp.points.len() {
        Err(LoomError::InvalidData)
    } else {
        match slice_frames(
            fp.points[t as int],
            if t == 0 {
                fp.track0
            } else {
                fp.loom
            },
            0,
            seq![],
        ) {
            Err(e) => Err(e),
            Ok(fs) => tracks_frames(fp, t + 1, acc.push(fs)),
        }
    }
}

/// The raw frames of every track of a session, as its seek points mark them.
pub open spec fn raw_frames(d: Seq<u8>) -> Result<Seq<Seq<Seq<u8>>>, LoomError> {
    match frame_parts(d) {
        Err(e) => Err(e),
        Ok(fp) => tracks_frames(fp, 0, seq![]),
    }
}

/// The frames of a track, as plain values.
pub open spec fn frames_view(f: Seq<Vec<Vec<u8>>>) -> Seq<Seq<Seq<u8>>> {
    f.map_values(|t: Vec<Vec<u8>>| t@.map_values(|b: Vec<u8>| b@))
}

struct Parts {
    track0: Vec<u8>,
    loom: Vec<u8>,
    table: SeekTable,
    ntracks: usize,
    metadata_len: usize,
}

spec fn parts_view(p: Parts) -> FrameParts {
    FrameParts {
        track0: p.track0@,
        loom: p.loom@,
        points: p.table@,
        ntracks: p.ntracks as nat,
        metadata_len: p.metadata_len as int,
    }
}

/// Reads the framed edit block at `pos`, as `edit_at` says.
fn read_edit_at(p: &[u8], pos: usize) -> (r: Result<usize, LoomError>)
    ensures
        match edit_at(p@, pos as int) {
            Ok(q) => r is Ok && r->Ok_0 as int == q,
            Err(e) => r == Err::<usize, LoomError>(e),
        },
{
    if pos >= p.len() {
        return Err(LoomError::UnexpectedEof);
    }
    if p[pos] != 1 {
        return Err(LoomError::InvalidData);
    }
    let l = match read_be(p, pos + 1, 4) {
        Ok(v) => v as usize,
        Err(e) => {
            return Err(e);
        },
    };
    proof {
        vstd::arithmetic::power2::lemma2_to64();
    }
    if l > p.len() - pos - 5 {
        return Err(LoomError::UnexpectedEof);
    }
    let body = copy_range(p, pos + 5, pos + 5 + l);
    match EditBlock::deserialize(body.as_slice(), 0) {
        Ok(_) => Ok(pos + 5 + l),
        Err(e) => Err(e),
    }
}

fn read_parts(d: &[u8]) -> (r: Result<Parts, LoomError>)
    requires
        d@.len() <= usize::MAX / 8,
    ensures
        match frame_parts(d@) {
            Ok(fp) => r is Ok && parts_view(r->Ok_0) == fp,
            Err(e) => r is Err && r->Err_0 == e,
        },
        r is Ok ==> r->Ok_0.metadata_len <= d@.len(),
{
    let c = match read_container(d, false) {
        Ok(c) => c,
        Err(e) => {
            return Err(e);
        },
    };
    if !c.old_format && c.frames_at > d.len() {
        return Err(LoomError::UnexpectedEof);
    }
    let (header, p1) = match SessionHeader::deserialize(c.payload.as_slice(), 0) {
        Ok(v) => v,
        Err(e) => {
            return Err(e);
        },
    };
    let (table, p2) = match SeekTable::deserialize(c.payload.as_slice(), p1) {
        Ok(v) => v,
        Err(e) => {
            return Err(e);
        },
    };
    let p3 = match read_edit_at(c.payload.as_slice(), p2) {
        Ok(v) => v,
        Err(e) => {
            return Err(e);
        },
    };
    let track0 = if c.old_format {
        Vec::new()
    } else {
        copy_range(d, c.frames_at, d.len())
    };
    let loom = copy_range(c.payload.as_slice(), p3, c.payload.len());
    let ntracks = header.tracks.len();
    proof {
        assert(header@.tracks.len() == ntracks);
        if c.old_format {
            assert(track0@ =~= Seq::<u8>::empty());
        }
    }
    Ok(Parts { track0, loom, table, ntracks, metadata_len: c.frames_at })
}

fn read_frames(pts: &Vec<SeekPoint>, payload: &Vec<u8>) -> (r: Result<Vec<Vec<u8>>, LoomError>)
    ensures
        match slice_frames(pts@, payload@, 0, seq![]) {
            Ok(fs) => r is Ok && r->Ok_0@.map_values(|b: Vec<u8>| b@) == fs,
            Err(e) => r == Err::<Vec<Vec<u8>>, LoomError>(e),
        },
{
    let mut out: Vec<Vec<u8>> = Vec::new();
    let mut i: usize = 0;
    proof {
        assert(out@.map_values(|b: Vec<u8>| b@) =~= Seq::<Seq<u8>>::empty());
    }
    while i < pts.len()
        invariant
            i <= pts@.len(),
            slice_frames(pts@, payload@, 0, seq![]) == slice_frames(
                pts@,
                payload@,
                i as nat,
                out@.map_values(|b: Vec<u8>| b@),
            ),
        decreases pts@.len() - i,
    {
        let start = pts[i].byte_offset;
        let end: u64 = if i + 1 < pts.len() {
            pts[i + 1].byte_offset
        } else {
            payload.len() as u64
        };
        if start < payload.len() as u64 && end <= payload.len() as u64 {
            if start > end {
                return Err(LoomError::InvalidData);
            }
            let ghost before = out@.map_values(|b: Vec<u8>| b@);
            let f = copy_range(payload.as_slice(), start as usize, end as usize);
            out.push(f);
            proof {
                assert(out@.map_values(|b: Vec<u8>| b@) =~= before.push(
                    payload@.subrange(start as int, end as int),
                ));
            }
        }
        i = i + 1;
    }
    Ok(out)
}

/// The raw frames of every track of a session, as `raw_frames` says: each track's frames
/// as its seek points mark them.
pub fn extract_raw_frames(session_bytes: &[u8]) -> (r: Result<Vec<Vec<Vec<u8>>>, LoomError>)
    requires
        session_bytes@.len() <= usize::MAX / 8,
    ensures
        match raw_frames(session_bytes@) {
            Ok(fs) => r is Ok && frames_view(r->Ok_0@) == fs,
            Err(e) => r == Err::<Vec<Vec<Vec<u8>>>, LoomError>(e),
        },
{
    let parts = match read_parts(session_bytes) {
        Ok(p) => p,
        Err(e) => {
            return Err(e);
        },
    };
    let ghost fp = parts_view(parts);
    let mut out: Vec<Vec<Vec<u8>>> = Vec::new();
    let mut t: usize = 0;
    proof {
        assert(frames_view(out@) =~= Seq::<Seq<Seq<u8>>>::empty());
    }
    while t < parts.ntracks
        invariant
            t <= parts.ntracks,
            fp == parts_view(parts),
            frame_parts(session_bytes@) == Ok::<FrameParts, LoomError>(fp),
            tracks_frames(fp, 0, seq![]) == tracks_frames(fp, t as nat, frames_view(out@)),
        decreases parts.ntracks - t,
    {
        if t >= parts.table.tracks_points.len() {
            proof {
                assert(fp.points.len() == parts.table.tracks_points@.len());
            }
            return Err(LoomError::InvalidData);
        }
        proof {
            assert(fp.points[t as int] == parts.table.tracks_points@[t as int]@);
        }
        let payload = if t == 0 {
            &parts.track0
        } else {
            &parts.loom
        };
        let fs = match read_frames(&parts.table.tracks_points[t], payload) {
            Ok(v) => v,
            Err(e) => {
                return Err(e);
            },
        };
        let ghost before = frames_view(out@);
        out.push(fs);
        proof {
            assert(frames_view(out@) =~= before.push(fs@.map_values(|b: Vec<u8>| b@)));
        }
        t = t + 1;
    }
    Ok(out)
}

/// The instruction for frame `i` of track `t`: a copy where the base has the same frame at
/// the same place, else an insert of the frame.
pub open spec fn inst_for(f1: Seq<Seq<Seq<u8>>>, f2: Seq<Seq<Seq<u8>>>, t: int, i: int) -> InstSpec {
    if t < f1.len() && i < f1[t].len() && f1[t][i] == f2[t][i] {
        InstSpec::Copy(i as u32)
    } else {
        InstSpec::Insert(f2[t][i])
    }
}

/// The diff of the new version's frames `f2` against the base's `f1`, track by track.
pub open spec fn diffs_of(f1: Seq<Seq<Seq<u8>>>, f2: Seq<Seq<Seq<u8>>>) -> Seq<TrackDiffSpec> {
    Seq::new(
        f2.len(),
        |t: int| TrackDiffSpec { track_idx: t as u16, instructions: Seq::new(f2[t].len(), |i: int| inst_for(f1, f2, t, i)) },
    )
}

/// Diffing two versions of a session: the base's MD5, the new version's bytes up to its
/// first track's frames, and for each frame of the new version a copy of the base's frame
/// at the same place where they are equal, else the frame itself. The new version's head
/// must read, then both versions' frames.
pub open spec fn session_diff(v1: Seq<u8>, v2: Seq<u8>) -> Result<SessionDiffSpec, LoomError> {
    match frame_parts(v2) {
        Err(e) => Err(e),
        Ok(fp2) => match raw_frames(v1) {
            Err(e) => Err(e),
            Ok(f1) => match raw_frames(v2) {
                Err(e) => Err(e),
                Ok(f2) => Ok(
                    SessionDiffSpec {
                        base_md5: md5_of(v1),
                        metadata_payload: v2.take(fp2.metadata_len),
                        tracks_diffs: diffs_of(f1, f2),
                    },
                ),
            },
        },
    }
}

fn same_bytes(a: &Vec<u8>, b: &Vec<u8>) -> (r: bool)
    ensures
        r == (a@ == b@),
{
    if a.len() != b.len() {
        return false;
    }
    let mut i: usize = 0;
    while i < a.len()
        invariant
            i <= a@.len(),
            a@.len() == b@.len(),
            forall|j: int| 0 <= j < i ==> a@[j] == b@[j],
        decreases a@.len() - i,
    {
        if a[i] != b[i] {
            return false;
        }
        i = i + 1;
    }
    proof {
        assert(a@ =~= b@);
    }
    true
}

fn copy_bytes(a: &Vec<u8>) -> (r: Vec<u8>)
    ensures
        r@ == a@,
{
    copy_range(a.as_slice(), 0, a.len())
}

/// Diffs two versions of a session, as `session_diff` says.
pub fn encode_diff(v1_bytes: &[u8], v2_bytes: &[u8]) -> (r: Result<SessionDiff, LoomError>)
    requires
        v1_bytes@.len() <= usize::MAX / 8,
        v2_bytes@.len() <= usize::MAX / 8,
    ensures
        match session_diff(v1_bytes@, v2_bytes@) {
            Ok(d) => r is Ok && r->Ok_0@ == d,
            Err(e) => r == Err::<SessionDiff, LoomError>(e),
        },
{
    let base_md5 = md5_digest(v1_bytes);
    let parts2 = match read_parts(v2_bytes) {
        Ok(p) => p,
        Err(e) => {
            return Err(e);
        },
    };
    proof {
        assert(v2_bytes@.subrange(0, parts2.metadata_len as int) =~= v2_bytes@.take(
            parts2.metadata_len as int,
        ));
    }
    let metadata_payload = copy_range(v2_bytes, 0, parts2.metadata_len);
    let f1 = match extract_raw_frames(v1_bytes) {
        Ok(f) => f,
        Err(e) => {
            return Err(e);
        },
    };
    let f2 = match extract_raw_frames(v2_bytes) {
        Ok(f) => f,
        Err(e) => {
            return Err(e);
        },
    };
    let ghost g1 = frames_view(f1@);
    let ghost g2 = frames_view(f2@);
    let mut tracks_diffs: Vec<TrackDiff> = Vec::new();
    let mut t: usize = 0;
    while t < f2.len()
        invariant
            t <= f2@.len(),
            g1 == frames_view(f1@),
            g2 == frames_view(f2@),
            tracks_diffs@.len() == t,
            forall|k: int| 0 <= k < t ==> #[trigger] tracks_diffs@[k]@ == diffs_of(g1, g2)[k],
        decreases f2@.len() - t,
    {
        let mut instructions: Vec<FrameInstruction> = Vec::new();
        let v2t = &f2[t];
        let mut i: usize = 0;
        while i < v2t.len()
            invariant
                t < f2@.len(),
                v2t == f2@[t as int],
                i <= v2t@.len(),
                g1 == frames_view(f1@),
                g2 == frames_view(f2@),
                instructions@.len() == i,
                forall|j: int| 0 <= j < i ==> #[trigger] instructions@[j]@ == inst_for(g1, g2, t as int, j),
            decreases v2t@.len() - i,
        {
            let frame_bytes = &v2t[i];
            proof {
                assert(g2[t as int][i as int] == frame_bytes@);
            }
            let mut matched = false;
            if t < f1.len() {
                let v1t = &f1[t];
                if i < v1t.len() {
                    proof {
                        assert(g1[t as int][i as int] == v1t@[i as int]@);
                    }
                    if same_bytes(&v1t[i], frame_bytes) {
                        matched = true;
                    }
                }
            }
            if matched {
                instructions.push(FrameInstruction::Copy { base_frame_idx: i as u32 });
            } else {
                instructions.push(FrameInstruction::Insert { frame_bytes: copy_bytes(frame_bytes) });
            }
            i = i + 1;
        }
        let td = TrackDiff { track_idx: t as u16, instructions };
        proof {
            assert(td@.instructions =~= diffs_of(g1, g2)[t as int].instructions);
        }
        tracks_diffs.push(td);
        t = t + 1;
    }
    let d = SessionDiff { base_md5, metadata_payload, tracks_diffs };
    proof {
        assert(d@.tracks_diffs =~= diffs_of(g1, g2));
    }
    Ok(d)
}

} // verus!
