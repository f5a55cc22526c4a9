use crate::container::bytes::push_all;
use crate::diff::container::{FrameInstruction, InstSpec, SessionDiff, SessionDiffSpec, TrackDiffSpec};
use crate::diff::encode::{
    diffs_of, extract_raw_frames, frame_parts, frames_view, inst_for, raw_frames, session_diff,
    slice_frames, tracks_frames,
};
use crate::container::seek_index::SeekPoint;
use crate::error::LoomError;
use crate::verify::{md5_digest, md5_of};
use vstd::prelude::*;

verus! {

/// Rebuilding from step `k` on, where step `k` is block `k / n` of track `k % n` of the
/// `n` track diffs: a track with fewer instructions adds nothing there; a copy adds the
/// base's frame (one the base lacks is invalid data); an insert adds the frame.
pub open spec fn apply_steps(
    f1: Seq<Seq<Seq<u8>>>,
    ds: Seq<TrackDiffSpec>,
    k: nat,
    total: nat,
    out: Seq<u8>,
) -> Result<Seq<u8>, LoomError>
    decreases total - k,
{
    if k >= total || ds.len() == 0 {
        Ok(out)
    } else {
        let n = ds.len();
        let b = (k / n) as int;
        let t = (k % n) as int;
        let is = ds[t].instructions;
        if b >= is.len() {
            apply_steps(f1, ds, k + 1, total, out)
        } else {
            match is[b] {
                InstSpec::Copy(idx) => if t >= f1.len() || idx >= f1[t].len() {
                    Err(LoomError::InvalidData)
                } else {
                    apply_steps(f1, ds, k + 1, total, out + f1[t][idx as int])
                },
                InstSpec::Insert(fb) => apply_steps(f1, ds, k + 1, total, out + fb),
            }
        }
    }
}

/// Applying a diff to a base version: the base's MD5 must match (else invalid data) and
/// its frames must read; then the stored head, and the frames block by block, track by
/// track.
pub open spec fn diff_applied(v1: Seq<u8>, d: SessionDiffSpec) -> Result<Seq<u8>, LoomError> {
    if md5_of(v1) != d.base_md5 {
        Err(LoomError::InvalidData)
    } else {
        match raw_frames(v1) {
            Err(e) => Err(e),
            Ok(f1) => if d.tracks_diffs.len() == 0 {
                Ok(d.metadata_payload)
            } else {
                apply_steps(
                    f1,
                    d.tracks_diffs,
                    0,
                    d.tracks_diffs[0].instructions.len() * d.tracks_diffs.len(),
                    d.metadata_payload,
                )
            },
        }
    }
}

/// Applies a diff to a base version, as `diff_applied` says.
pub fn apply_diff(v1_bytes: &[u8], diff: &SessionDiff) -> (r: Result<Vec<u8>, LoomError>)
    requires
        v1_bytes@.len() <= usize::MAX / 8,
    ensures
        match diff_applied(v1_bytes@, diff@) {
            Ok(b) => r is Ok && r->Ok_0@ == b,
            Err(e) => r == Err::<Vec<u8>, LoomError>(e),
        },
{
    let computed = md5_digest(v1_bytes);
    let mut k: usize = 0;
    while k < 16
        invariant
            k <= 16,
            computed@ == md5_of(v1_bytes@),
            computed@.len() == 16,
            diff.base_md5@.len() == 16,
            forall|j: int| 0 <= j < k ==> computed@[j] == diff.base_md5@[j],
        decreases 16 - k,
    {
        if computed[k] != diff.base_md5[k] {
            proof {
                assert(computed@[k as int] != diff.base_md5@[k as int]);
                assert(computed@ != diff@.base_md5);
            }
            return Err(LoomError::InvalidData);
        }
        k = k + 1;
    }
    proof {
        assert(computed@ =~= diff.base_md5@);
    }
    let f1 = match extract_raw_frames(v1_bytes) {
        Ok(f) => f,
        Err(e) => {
            return Err(e);
        },
    };
    let ghost g1 = frames_view(f1@);
    let mut out: Vec<u8> = Vec::new();
    push_all(&mut out, diff.metadata_payload.as_slice());
    let n = diff.tracks_diffs.len();
    if n == 0 {
        return Ok(out);
    }
    let num_blocks = diff.tracks_diffs[0].instructions.len();
    let ghost ds = diff@.tracks_diffs;
    let ghost total = (num_blocks * n) as nat;
    proof {
        assert(ds[0].instructions.len() == num_blocks);
    }
    let mut b: usize = 0;
    while b < num_blocks
        invariant
            b <= num_blocks,
            n == diff.tracks_diffs@.len(),
            n > 0,
            ds == diff@.tracks_diffs,
            g1 == frames_view(f1@),
            total == num_blocks * n,
            diff_applied(v1_bytes@, diff@) == apply_steps(g1, ds, (b * n) as nat, total, out@),
        decreases num_blocks - b,
    {
        let mut t: usize = 0;
        while t < n
            invariant
                t <= n,
                b < num_blocks,
                n == diff.tracks_diffs@.len(),
                n > 0,
                ds == diff@.tracks_diffs,
                g1 == frames_view(f1@),
                total == num_blocks * n,
                diff_applied(v1_bytes@, diff@) == apply_steps(g1, ds, (b * n + t) as nat, total, out@),
            decreases n - t,
        {
            let k: Ghost<nat> = Ghost((b * n + t) as nat);
            proof {
                assert((b * n + t) / (n as int) == b as int && (b * n + t) % (n as int) == t as int) by (nonlinear_arith)
                    requires
                        t < n,
                        n > 0,
                ;
                assert(b * n + t < num_blocks * n) by (nonlinear_arith)
                    requires
                        t < n,
                        b < num_blocks,
                ;
            }
            let td = &diff.tracks_diffs[t];
            proof {
                assert(ds[t as int] == td@);
            }
            if b < td.instructions.len() {
                proof {
                    assert(ds[t as int].instructions[b as int] == td.instructions@[b as int]@);
                }
                match &td.instructions[b] {
                    FrameInstruction::Copy { base_frame_idx } => {
                        let idx = *base_frame_idx as usize;
                        if t >= f1.len() || idx >= f1[t].len() {
                            proof {
                                if t < f1@.len() {
                                    assert(g1[t as int].len() == f1@[t as int]@.len());
                                }
                            }
                            return Err(LoomError::InvalidData);
                        }
                        proof {
                            assert(g1[t as int][idx as int] == f1@[t as int]@[idx as int]@);
                        }
                        push_all(&mut out, f1[t][idx].as_slice());
                    },
                    FrameInstruction::Insert { frame_bytes } => {
                        push_all(&mut out, frame_bytes.as_slice());
                    },
                }
            }
            proof {
                assert((b * n + t + 1) as nat == k@ + 1);
            }
            t = t + 1;
        }
        proof {
            assert(b * n + n == (b + 1) * n) by (nonlinear_arith);
        }
        b = b + 1;
    }
    proof {
        assert(b * n == total);
    }
    Ok(out)
}


/// The frames that sorted seek points `i ..` mark: each from its offset to the next
/// point's, the last to the end.
pub open spec fn marked_frames(pts: Seq<SeekPoint>, payload: Seq<u8>, i: nat) -> Seq<Seq<u8>> {
    Seq::new(
        (pts.len() - i) as nat,
        |j: int|
            payload.subrange(
                pts[i + j].byte_offset as int,
                if i + j + 1 < pts.len() {
                    pts[i + j + 1].byte_offset as int
                } else {
                    payload.len() as int
                },
            ),
    )
}

/// Seek points that mark the frames of `payload` one after another: the first at its
/// start, each after the one before, all inside it.
pub open spec fn points_sorted(pts: Seq<SeekPoint>, payload: Seq<u8>) -> bool {
    &&& pts.len() >= 1
    &&& pts[0].byte_offset == 0
    &&& forall|i: int| 0 <= i < pts.len() ==> (#[trigger] pts[i]).byte_offset < payload.len()
    &&& forall|i: int| 0 <= i < pts.len() - 1 ==> (#[trigger] pts[i]).byte_offset < pts[i + 1].byte_offset
}

/// Sorted seek points slice the payload into the frames they mark.
proof fn lemma_slice_sorted(pts: Seq<SeekPoint>, payload: Seq<u8>, i: nat, acc: Seq<Seq<u8>>)
    requires
        points_sorted(pts, payload),
        i <= pts.len(),
    ensures
        slice_frames(pts, payload, i, acc) == Ok::<Seq<Seq<u8>>, LoomError>(
            acc + marked_frames(pts, payload, i),
        ),
    decreases pts.len() - i,
{
    if i >= pts.len() {
        assert(marked_frames(pts, payload, i) =~= seq![]);
        assert(acc + seq![] =~= acc);
    } else {
        let start = pts[i as int].byte_offset as int;
        let end = if i + 1 < pts.len() {
            pts[(i + 1) as int].byte_offset as int
        } else {
            payload.len() as int
        };
        assert(start < payload.len());
        assert(end <= payload.len());
        assert(start <= end);
        lemma_slice_sorted(pts, payload, i + 1, acc.push(payload.subrange(start, end)));
        assert(acc.push(payload.subrange(start, end)) + marked_frames(pts, payload, i + 1) =~= acc
            + marked_frames(pts, payload, i));
    }
}

/// Rebuilding a one-track diff whose every instruction gives the frame the new version has
/// there puts the frames `k ..` one after another.
proof fn lemma_apply_one_track(
    f1: Seq<Seq<Seq<u8>>>,
    f2: Seq<Seq<Seq<u8>>>,
    pts: Seq<SeekPoint>,
    payload: Seq<u8>,
    k: nat,
    out: Seq<u8>,
)
    requires
        points_sorted(pts, payload),
        f2 == seq![marked_frames(pts, payload, 0)],
        pts.len() <= 0x1_0000_0000,
        k <= pts.len(),
    ensures
        apply_steps(f1, diffs_of(f1, f2), k, pts.len(), out) == Ok::<Seq<u8>, LoomError>(
            out + (if k < pts.len() {
                payload.subrange(pts[k as int].byte_offset as int, payload.len() as int)
            } else {
                Seq::empty()
            }),
        ),
    decreases pts.len() - k,
{
    let ds = diffs_of(f1, f2);
    if k >= pts.len() {
        assert(out + Seq::<u8>::empty() =~= out);
    } else {
        assert(ds.len() == 1);
        assert((k / 1) as int == k && (k % 1) as int == 0);
        let is = ds[0].instructions;
        assert(is.len() == pts.len());
        let fr = f2[0][k as int];
        let start = pts[k as int].byte_offset as int;
        let end = if k + 1 < pts.len() {
            pts[(k + 1) as int].byte_offset as int
        } else {
            payload.len() as int
        };
        assert(fr == payload.subrange(start, end));
        assert(is[k as int] == inst_for(f1, f2, 0, k as int));
        let next = out + fr;
        lemma_apply_one_track(f1, f2, pts, payload, k + 1, next);
        match is[k as int] {
            InstSpec::Copy(idx) => {
                assert(idx == k);
            },
            InstSpec::Insert(b) => {},
        }
        assert(start <= end <= payload.len());
        assert(next + (if k + 1 < pts.len() {
            payload.subrange(pts[(k + 1) as int].byte_offset as int, payload.len() as int)
        } else {
            Seq::empty()
        }) =~= out + payload.subrange(start, payload.len() as int));
    }
}

/// The new version's frame parts that let a diff rebuild it: one track, in the FLAC layout
/// (its frames after the metadata, up to the end), with at most `2^32` seek points that mark
/// them one after another.
pub open spec fn diff_restorable(v2: Seq<u8>) -> bool {
    match frame_parts(v2) {
        Err(_) => false,
        Ok(fp) => {
            &&& fp.ntracks == 1
            &&& fp.points.len() >= 1
            &&& fp.points[0].len() <= 0x1_0000_0000
            &&& 0 <= fp.metadata_len <= v2.len()
            &&& fp.track0 == v2.subrange(fp.metadata_len, v2.len() as int)
            &&& points_sorted(fp.points[0], fp.track0)
        },
    }
}

/// A session whose frames a diff can rebuild has frames that read.
pub proof fn lemma_restorable_frames(v: Seq<u8>)
    requires
        diff_restorable(v),
    ensures
        raw_frames(v) is Ok,
{
    let fp = frame_parts(v)->Ok_0;
    let pts = fp.points[0];
    let payload = fp.track0;
    lemma_slice_sorted(pts, payload, 0, seq![]);
    assert(seq![] + marked_frames(pts, payload, 0) =~= marked_frames(pts, payload, 0));
    reveal_with_fuel(tracks_frames, 2);
    assert(seq![].push(marked_frames(pts, payload, 0)) =~= seq![marked_frames(pts, payload, 0)]);
}

/// Applying the diff of two versions to the first rebuilds the second bit for bit, where
/// both versions' frames read and the second has one track laid out as the encoder writes
/// it.
pub proof fn lemma_diff_restores(v1: Seq<u8>, v2: Seq<u8>)
    requires
        raw_frames(v1) is Ok,
        diff_restorable(v2),
    ensures
        session_diff(v1, v2) is Ok,
        diff_applied(v1, session_diff(v1, v2)->Ok_0) == Ok::<Seq<u8>, LoomError>(v2),
{
    let fp = frame_parts(v2)->Ok_0;
    let f1 = raw_frames(v1)->Ok_0;
    let pts = fp.points[0];
    let payload = fp.track0;
    lemma_slice_sorted(pts, payload, 0, seq![]);
    assert(seq![] + marked_frames(pts, payload, 0) =~= marked_frames(pts, payload, 0));
    reveal_with_fuel(tracks_frames, 2);
    let f2 = seq![marked_frames(pts, payload, 0)];
    assert(tracks_frames(fp, 0, seq![]) == Ok::<Seq<Seq<Seq<u8>>>, LoomError>(f2)) by {
        assert(seq![].push(marked_frames(pts, payload, 0)) =~= f2);
    }
    assert(raw_frames(v2) == Ok::<Seq<Seq<Seq<u8>>>, LoomError>(f2));
    let d = session_diff(v1, v2)->Ok_0;
    assert(d.tracks_diffs == diffs_of(f1, f2));
    assert(d.tracks_diffs.len() == 1);
    assert(d.tracks_diffs[0].instructions.len() == pts.len());
    assert(d.tracks_diffs[0].instructions.len() * d.tracks_diffs.len() == pts.len());
    lemma_apply_one_track(f1, f2, pts, payload, 0, v2.take(fp.metadata_len));
    assert(payload.subrange(0, payload.len() as int) =~= payload);
    assert(v2.take(fp.metadata_len) + payload =~= v2);
}
} // verus!
