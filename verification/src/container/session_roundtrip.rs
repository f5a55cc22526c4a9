//! Decoding a session the encoder writes gives back its tracks.
use crate::bitstream::{bytes_to_bits, lemma_bytes_to_bits_append, lemma_bytes_to_bits_len};
use crate::container::block_decode::{channel_residuals, coded_values, frame_decodes, frame_pcm};
use crate::container::bytes::{be_bytes, be_val, lemma_be_bytes_len, lemma_be_exact};
use crate::container::frame::{align8, flac_frame_bits, framed, loom_frame_bits, parse_frame_flac, FrameSpec};
use crate::container::session_frames::{
    append_block, fetch, fetched_pcm, loom_frame_of, loom_slot, rounds, step, steps, DecodeState, Fetched,
    FrameSource,
};
use crate::error::LoomError;
use crate::container::frame_roundtrip::{
    flac_frame_readable, lemma_flac_frame_roundtrip, lemma_framed_bytes, lemma_loom_frame_bytes_roundtrip,
    loom_frame_readable, written_at,
};
use crate::container::session::{block_of, frame_recovers, refs_agree, track_ok};
use crate::container::session_audio::{
    audio_written, block_sizes, block_start, cat, frame_sizes, frames_ok, lemma_block_sizes_len,
    lemma_payload_parts, lemma_sizes_cover, loom_cat, loom_round, round_ok, seek_points, seq_max, seq_min,
};
use crate::container::edit_block::{edit_body, lemma_edit_roundtrip};
use crate::container::flac_metadata::{packed_fields, streaminfo_fields};
use crate::container::header::{header_bytes, HeaderSpec};
use crate::container::picture_block::PictureSpec;
use crate::container::seek_index::seek_table_bytes;
use crate::container::session::flac_magic;
use crate::container::session_meta::{lemma_walk_layout, meta_kept, meta_writable, session_payload};
use crate::container::session_read::{edits_of, parse_container, session_decode, MetaAcc, SessionSpec};
use crate::container::session_frames::initial_state;
use crate::edit::schema::TrackEditsSpec;
use vstd::arithmetic::power2::lemma2_to64;
use vstd::prelude::*;

verus! {

/// The first `j` frames are a prefix of the first `m >= j`.
proof fn lemma_cat_prefix(fb: Seq<Seq<u8>>, j: int, m: int)
    requires
        0 <= j <= m <= fb.len(),
    ensures
        cat(fb.take(j)).len() <= cat(fb.take(m)).len(),
        cat(fb.take(m)).take(cat(fb.take(j)).len() as int) == cat(fb.take(j)),
    decreases m - j,
{
    if j < m {
        lemma_cat_prefix(fb, j, m - 1);
        assert(fb.take(m).drop_last() =~= fb.take(m - 1));
        let a = cat(fb.take(m - 1));
        assert(cat(fb.take(m)) == a + fb[m - 1]);
        assert((a + fb[m - 1]).take(cat(fb.take(j)).len() as int) =~= a.take(cat(fb.take(j)).len() as int));
    } else {
        assert(cat(fb.take(m)).take(cat(fb.take(m)).len() as int) =~= cat(fb.take(m)));
    }
}

/// Frame `k` stands in the bytes of all the frames right after the frames before it.
proof fn lemma_cat_window(fb: Seq<Seq<u8>>, k: int)
    requires
        0 <= k < fb.len(),
    ensures
        cat(fb.take(k)).len() + fb[k].len() <= cat(fb).len(),
        cat(fb) == cat(fb.take(k)) + fb[k] + cat(fb).skip((cat(fb.take(k)).len() + fb[k].len()) as int),
{
    lemma_cat_prefix(fb, k + 1, fb.len() as int);
    assert(fb.take(fb.len() as int) =~= fb);
    assert(fb.take(k + 1).drop_last() =~= fb.take(k));
    let p = cat(fb.take(k + 1));
    assert(p == cat(fb.take(k)) + fb[k]);
    assert(cat(fb) =~= cat(fb).take(p.len() as int) + cat(fb).skip(p.len() as int));
}

/// The Loom frames of the first tracks of a block are a prefix of those of more tracks.
proof fn lemma_loom_round_prefix(x: Seq<Seq<u8>>, j: int, m: int)
    requires
        0 <= j <= m <= x.len(),
    ensures
        loom_round(x, j).len() <= loom_round(x, m).len(),
        loom_round(x, m).take(loom_round(x, j).len() as int) == loom_round(x, j),
    decreases m - j,
{
    if j < m {
        lemma_loom_round_prefix(x, j, m - 1);
        if m > 1 {
            let a = loom_round(x, m - 1);
            assert(loom_round(x, m) == a + be_bytes(x[m - 1].len(), 4) + x[m - 1]);
            assert((a + be_bytes(x[m - 1].len(), 4) + x[m - 1]).take(loom_round(x, j).len() as int)
                =~= a.take(loom_round(x, j).len() as int));
        }
    } else {
        assert(loom_round(x, m).take(loom_round(x, m).len() as int) =~= loom_round(x, m));
    }
}

/// The Loom frames of the first blocks are a prefix of those of more blocks.
proof fn lemma_loom_cat_prefix(lb: Seq<Seq<Seq<u8>>>, nt: nat, j: int, m: int)
    requires
        0 <= j <= m <= lb.len(),
    ensures
        loom_cat(lb, nt, j).len() <= loom_cat(lb, nt, m).len(),
        loom_cat(lb, nt, m).take(loom_cat(lb, nt, j).len() as int) == loom_cat(lb, nt, j),
    decreases m - j,
{
    if j < m {
        lemma_loom_cat_prefix(lb, nt, j, m - 1);
        let a = loom_cat(lb, nt, m - 1);
        assert(loom_cat(lb, nt, m) == a + loom_round(lb[m - 1], nt as int));
        assert((a + loom_round(lb[m - 1], nt as int)).take(loom_cat(lb, nt, j).len() as int)
            =~= a.take(loom_cat(lb, nt, j).len() as int));
    } else {
        assert(loom_cat(lb, nt, m).take(loom_cat(lb, nt, m).len() as int) =~= loom_cat(lb, nt, m));
    }
}

/// The Loom frame of track `t` of block `k` stands, after its length, right after the Loom
/// frames before it.
proof fn lemma_loom_window(lb: Seq<Seq<Seq<u8>>>, nt: nat, k: int, t: int)
    requires
        0 <= k < lb.len(),
        1 <= t < nt,
        lb[k].len() == nt,
    ensures
        ({
            let all = loom_cat(lb, nt, lb.len() as int);
            let pre = loom_cat(lb, nt, k) + loom_round(lb[k], t);
            let x = lb[k][t];
            &&& pre.len() + 4 + x.len() <= all.len()
            &&& all.subrange(pre.len() as int, (pre.len() + 4) as int) == be_bytes(x.len(), 4)
            &&& all.subrange((pre.len() + 4) as int, (pre.len() + 4 + x.len()) as int) == x
            &&& (pre + be_bytes(x.len(), 4) + x).len() == (loom_cat(lb, nt, k) + loom_round(lb[k], t + 1)).len()
        }),
{
    let all = loom_cat(lb, nt, lb.len() as int);
    let x = lb[k][t];
    let c = loom_cat(lb, nt, k);
    let r1 = loom_round(lb[k], t);
    let r2 = loom_round(lb[k], t + 1);
    lemma_be_bytes_len(x.len(), 4);
    assert(r2 == r1 + be_bytes(x.len(), 4) + x);
    lemma_loom_round_prefix(lb[k], t + 1, nt as int);
    lemma_loom_cat_prefix(lb, nt, k + 1, lb.len() as int);
    let ck1 = loom_cat(lb, nt, k + 1);
    assert(ck1 == c + loom_round(lb[k], nt as int));
    let full_round = loom_round(lb[k], nt as int);
    assert(full_round.take(r2.len() as int) == r2);
    assert(ck1.take((c + r2).len() as int) =~= c + r2);
    assert(all.take(ck1.len() as int) == ck1);
    assert(all.take((c + r2).len() as int) =~= c + r2);
    let p = (c + r1).len() as int;
    assert(all.subrange(p, p + 4) =~= (c + r2).subrange(p, p + 4));
    assert((c + r2).subrange(p, p + 4) =~= be_bytes(x.len(), 4));
    assert(all.subrange(p + 4, p + 4 + x.len()) =~= (c + r2).subrange(p + 4, p + 4 + x.len()));
    assert((c + r2).subrange(p + 4, p + 4 + x.len()) =~= x);
}

/// Bits written at the start of frame `k`'s bytes stand, in the bits of all the frames,
/// where the frames before it end.
proof fn lemma_bits_window(fb: Seq<Seq<u8>>, k: int, bb: Seq<bool>)
    requires
        0 <= k < fb.len(),
        written_at(bytes_to_bits(fb[k]), 0, bb),
        align8(bb.len() as int) + 16 == 8 * fb[k].len(),
    ensures
        written_at(bytes_to_bits(cat(fb)), (8 * cat(fb.take(k)).len()) as int, bb),
        align8((8 * cat(fb.take(k)).len() + bb.len()) as int) + 16 == 8 * (cat(fb.take(k)).len() + fb[k].len()),
        align8((8 * cat(fb.take(k)).len() + bb.len()) as int) + 16 <= bytes_to_bits(cat(fb)).len(),
{
    let a = cat(fb.take(k));
    let x = fb[k];
    lemma_cat_window(fb, k);
    let rest = cat(fb).skip((a.len() + x.len()) as int);
    lemma_bytes_to_bits_append(a, x);
    lemma_bytes_to_bits_append(a + x, rest);
    lemma_bytes_to_bits_len(a);
    lemma_bytes_to_bits_len(x);
    lemma_bytes_to_bits_len(rest);
    lemma_bytes_to_bits_len(cat(fb));
    let bits = bytes_to_bits(cat(fb));
    assert(bits =~= bytes_to_bits(a) + bytes_to_bits(x) + bytes_to_bits(rest));
    let pos: int = (8 * a.len()) as int;
    assert(bits.subrange(pos, (pos + bb.len()) as int) =~= bytes_to_bits(x).subrange(0, bb.len() as int));
    assert((pos + bb.len()) % 8 == bb.len() % 8);
}

/// The FLAC frame `k` of the first track reads, at its place among the frames, as written,
/// with its first sample number for its sequence number.
proof fn lemma_flac_fetch(fb: Seq<Seq<u8>>, k: int, f: FrameSpec, sn: u64, bps: nat, ae: bool)
    requires
        0 <= k < fb.len(),
        framed(fb[k], flac_frame_bits(f, sn, bps, ae)),
        flac_frame_readable(f, sn, bps, ae),
    ensures
        parse_frame_flac(bytes_to_bits(cat(fb)), (8 * cat(fb.take(k)).len()) as int, bps) == Ok::<(FrameSpec, int), LoomError>(
            (FrameSpec { frame_seq: sn as u32, ..f }, (8 * (cat(fb.take(k)).len() + fb[k].len())) as int),
        ),
{
    let bb = flac_frame_bits(f, sn, bps, ae);
    lemma_framed_bytes(fb[k], bb);
    lemma_bits_window(fb, k, bb);
    lemma_flac_frame_roundtrip(bytes_to_bits(cat(fb)), (8 * cat(fb.take(k)).len()) as int, f, sn, bps, ae);
}

/// A Loom frame written with its framing reads back as itself.
proof fn lemma_loom_fetch(x: Seq<u8>, f: FrameSpec, track: u16, bps: nat, ae: bool)
    requires
        framed(x, loom_frame_bits(f, track, bps, ae)),
        loom_frame_readable(f, bps, ae),
    ensures
        loom_frame_of(x, bps) == Ok::<FrameSpec, LoomError>(f),
{
    lemma_loom_frame_bytes_roundtrip(x, f, track, bps, ae);
    reveal(loom_frame_of);
}

/// A frame's sequence number plays no part in decoding it.
proof fn lemma_frame_seq_free(f: FrameSpec, s: u32, t: nat, rf: Option<Seq<i64>>)
    ensures
        frame_decodes(FrameSpec { frame_seq: s, ..f }, t, rf) == frame_decodes(f, t, rf),
        frame_pcm(FrameSpec { frame_seq: s, ..f }, t, rf) == frame_pcm(f, t, rf),
        channel_residuals(FrameSpec { frame_seq: s, ..f }, 0, t, rf) == channel_residuals(f, 0, t, rf),
{
    let g = FrameSpec { frame_seq: s, ..f };
    assert(g.subframes == f.subframes);
    assert forall|ch: int| #[trigger] crate::container::block_decode::channel_samples(g, ch, t, rf)
        == crate::container::block_decode::channel_samples(f, ch, t, rf) by {
        assert(channel_residuals(g, ch, t, rf) == channel_residuals(f, ch, t, rf));
    }
    assert(frame_pcm(g, t, rf) =~= frame_pcm(f, t, rf));
}

/// The frames of block `i` read back: the first track's FLAC frame with its first sample
/// number, and every other track's Loom frame, each shorter than `2^32` bytes.
pub open spec fn round_readable(
    ts: Seq<Vec<Vec<i64>>>,
    sz: Seq<nat>,
    i: int,
    bps: nat,
    ae: bool,
    f: Seq<FrameSpec>,
    lbi: Seq<Seq<u8>>,
) -> bool {
    &&& flac_frame_readable(f[0], block_start(sz, i) as u64, bps, ae)
    &&& forall|t: int| 1 <= t < ts.len() ==> loom_frame_readable(#[trigger] f[t], bps, ae) && lbi[t].len() < 0x1_0000_0000
}

/// Every block's frames read back, as `round_readable` says.
pub open spec fn frames_readable(
    ts: Seq<Vec<Vec<i64>>>,
    sz: Seq<nat>,
    bps: nat,
    ae: bool,
    fr: Seq<Seq<FrameSpec>>,
    lb: Seq<Seq<Seq<u8>>>,
) -> bool {
    forall|i: int| 0 <= i < sz.len() ==> #[trigger] round_readable(ts, sz, i, bps, ae, fr[i], lb[i])
}

/// The channels of a track decoded up to sample `e` after `j` blocks: none before the first
/// block.
pub open spec fn decoded_upto(tr: Seq<Vec<i64>>, j: int, e: nat) -> Seq<Seq<i64>> {
    if j == 0 {
        seq![]
    } else {
        Seq::new(tr.len(), |ch: int| tr[ch]@.subrange(0, e as int))
    }
}

/// The blocks a track has decoded in round `k` once tracks before `t` have had theirs.
pub open spec fn done_blocks(u: int, t: int, k: int) -> int {
    if u < t {
        k + 1
    } else {
        k
    }
}

/// The decoder's state within round `k`, before track `t`'s frame.
pub open spec fn mid_state(
    ts: Seq<Vec<Vec<i64>>>,
    sz: Seq<nat>,
    fb: Seq<Seq<u8>>,
    lb: Seq<Seq<Seq<u8>>>,
    refs: Seq<Option<Seq<i64>>>,
    k: int,
    t: int,
    st: DecodeState,
) -> bool {
    let nt = ts.len();
    &&& st.pos0 == 8 * cat(fb.take(if t >= 1 { k + 1 } else { k })).len()
    &&& st.lpos == (loom_cat(lb, nt, k) + loom_round(lb[k], t)).len()
    &&& st.out.len() == nt
    &&& st.counts.len() == nt
    &&& forall|u: int| 0 <= u < nt ==> #[trigger] st.counts[u] == block_start(sz, done_blocks(u, t, k))
    &&& forall|u: int|
        0 <= u < nt ==> #[trigger] st.out[u] == decoded_upto(ts[u]@, done_blocks(u, t, k), block_start(sz, done_blocks(u, t, k)))
    &&& t >= 1 ==> refs_agree(refs[k], st.rf)
}

/// A block appended to a track decoded up to the block's start.
proof fn lemma_append(tr: Seq<Vec<i64>>, k: int, s: nat, n: nat, out: Seq<Seq<i64>>, pcm: Seq<Seq<i64>>)
    requires
        k >= 0,
        tr.len() >= 1,
        k == 0 ==> s == 0,
        forall|ch: int| 0 <= ch < tr.len() ==> #[trigger] tr[ch]@.len() >= s + n,
        out == decoded_upto(tr, k, s),
        pcm == block_of(tr, s, n),
    ensures
        ({
            let t2 = if out.len() == 0 {
                Seq::new(pcm.len(), |ch: int| Seq::<i64>::empty())
            } else {
                out
            };
            &&& pcm.len() <= t2.len()
            &&& append_block(t2, pcm) == decoded_upto(tr, k + 1, s + n)
        }),
{
    let t2 = if out.len() == 0 {
        Seq::new(pcm.len(), |ch: int| Seq::<i64>::empty())
    } else {
        out
    };
    assert forall|ch: int| 0 <= ch < tr.len() implies #[trigger] append_block(t2, pcm)[ch] == tr[ch]@.subrange(0, (s + n) as int) by {
        if k == 0 {
            assert(t2[ch] == Seq::<i64>::empty());
        } else {
            assert(t2[ch] == tr[ch]@.subrange(0, s as int));
        }
        assert(pcm[ch] == tr[ch]@.subrange(s as int, (s + n) as int));
        assert(tr[ch]@.subrange(0, s as int) + tr[ch]@.subrange(s as int, (s + n) as int) =~= tr[ch]@.subrange(0, (s + n) as int));
    }
    assert(append_block(t2, pcm) =~= decoded_upto(tr, k + 1, s + n));
}

/// What the decoder reads of a session the encoder writes: the first track's FLAC frames,
/// the Loom frames, the depth, the tracks and the length.
pub open spec fn source_of(
    ts: Seq<Vec<Vec<i64>>>,
    sz: Seq<nat>,
    total: nat,
    bps: nat,
    fb: Seq<Seq<u8>>,
    lb: Seq<Seq<Seq<u8>>>,
) -> FrameSource {
    FrameSource {
        old_format: false,
        track0: cat(fb),
        loom: loom_cat(lb, ts.len(), sz.len() as int),
        bps: bps,
        ntracks: ts.len(),
        total0: total,
    }
}

/// The frames of a session as the encoder writes them, and as they read back.
pub open spec fn written_ctx(
    ts: Seq<Vec<Vec<i64>>>,
    sz: Seq<nat>,
    total: nat,
    bps: nat,
    ae: bool,
    fr: Seq<Seq<FrameSpec>>,
    refs: Seq<Option<Seq<i64>>>,
    fb: Seq<Seq<u8>>,
    lb: Seq<Seq<Seq<u8>>>,
) -> bool {
    &&& ts.len() >= 1
    &&& forall|t: int| 0 <= t < ts.len() ==> track_ok(#[trigger] ts[t]@, total)
    &&& frames_ok(ts, sz, bps, ae, fr, refs, fb, lb)
    &&& frames_readable(ts, sz, bps, ae, fr, lb)
    &&& total <= u32::MAX
}

proof fn lemma_recovered(f: FrameSpec, t: nat, enc: Option<Seq<i64>>, rf: Option<Seq<i64>>, block: Seq<Seq<i64>>)
    requires
        frame_recovers(f, t, enc, block),
        refs_agree(enc, rf),
    ensures
        frame_decodes(f, t, rf),
        frame_pcm(f, t, rf) == block,
{
    assert(frame_decodes(f, t, rf));
    assert(frame_pcm(f, t, rf) =~= block);
}

/// The first track's frame of round `k` decodes and is appended.
#[verifier::rlimit(80)]
proof fn lemma_step_first(
    ts: Seq<Vec<Vec<i64>>>,
    sz: Seq<nat>,
    total: nat,
    bps: nat,
    ae: bool,
    fr: Seq<Seq<FrameSpec>>,
    refs: Seq<Option<Seq<i64>>>,
    fb: Seq<Seq<u8>>,
    lb: Seq<Seq<Seq<u8>>>,
    k: int,
    st: DecodeState,
)
    requires
        written_ctx(ts, sz, total, bps, ae, fr, refs, fb, lb),
        0 <= k < sz.len(),
        block_start(sz, k + 1) <= total,
        mid_state(ts, sz, fb, lb, refs, k, 0, st),
    ensures
        step(source_of(ts, sz, total, bps, fb, lb), 0, st) matches Ok(s2) && mid_state(ts, sz, fb, lb, refs, k, 1, s2),
{
    let src = source_of(ts, sz, total, bps, fb, lb);
    let nt = ts.len();
    let off = block_start(sz, k);
    let n = sz[k];
    let f0 = fr[k][0];
    assert(round_ok(ts, sz, k, bps, ae, fr[k], refs[k], fb[k], lb[k]));
    assert(round_readable(ts, sz, k, bps, ae, fr[k], lb[k]));
    assert(block_start(sz, k + 1) == off + n);
    lemma_flac_fetch(fb, k, f0, off as u64, bps, ae);
    let sn = (off as u64) as u32;
    let g = FrameSpec { frame_seq: sn, ..f0 };
    lemma_frame_seq_free(f0, sn, 0, st.rf);
    lemma_recovered(f0, 0, None, st.rf, block_of(ts[0]@, off, n));
    assert(f0.block_size == n);
    assert(track_ok(ts[0]@, total));
    assert(forall|ch: int| 0 <= ch < ts[0]@.len() ==> #[trigger] ts[0]@[ch]@.len() >= off + n);
    assert(st.out[0] == decoded_upto(ts[0]@, k, off));
    assert(st.counts[0] == off);
    lemma_append(ts[0]@, k, off, n, st.out[0], block_of(ts[0]@, off, n));
    let pos1 = (8 * (cat(fb.take(k)).len() + fb[k].len())) as int;
    assert(fetch(false, bytes_to_bits(cat(fb)), st.pos0, src.loom, st.lpos, bps, 0, st.out[0].len()) == Ok::<
        (Fetched, int, int),
        LoomError,
    >((Fetched::Frame(g), pos1, st.lpos)));
    let r0 = channel_residuals(g, 0, 0, st.rf);
    assert(r0 == coded_values(f0.subframes[0].mode, n));
    assert(fetched_pcm(Fetched::Frame(g), 0, st) == Some((block_of(ts[0]@, off, n), r0, n)));
    reveal(step);
    let s2 = step(src, 0, st)->Ok_0;
    assert(step(src, 0, st) is Ok);
    assert(fb.take(k + 1).drop_last() =~= fb.take(k));
    assert(cat(fb.take(k + 1)) == cat(fb.take(k)) + fb[k]);
    assert(s2.pos0 == 8 * cat(fb.take(k + 1)).len());
    assert(loom_round(lb[k], 1) == loom_round(lb[k], 0));
    assert forall|u: int| 0 <= u < nt implies #[trigger] s2.counts[u] == block_start(sz, done_blocks(u, 1, k)) by {
        if u == 0 {
        } else {
            assert(done_blocks(u, 0, k) == done_blocks(u, 1, k));
        }
    }
    assert forall|u: int| 0 <= u < nt implies #[trigger] s2.out[u] == decoded_upto(
        ts[u]@,
        done_blocks(u, 1, k),
        block_start(sz, done_blocks(u, 1, k)),
    ) by {
        if u != 0 {
            assert(done_blocks(u, 0, k) == done_blocks(u, 1, k));
        }
    }
}

/// Track `t`'s Loom frame of round `k` decodes and is appended.
#[verifier::rlimit(80)]
proof fn lemma_step_loom(
    ts: Seq<Vec<Vec<i64>>>,
    sz: Seq<nat>,
    total: nat,
    bps: nat,
    ae: bool,
    fr: Seq<Seq<FrameSpec>>,
    refs: Seq<Option<Seq<i64>>>,
    fb: Seq<Seq<u8>>,
    lb: Seq<Seq<Seq<u8>>>,
    k: int,
    t: int,
    st: DecodeState,
)
    requires
        written_ctx(ts, sz, total, bps, ae, fr, refs, fb, lb),
        0 <= k < sz.len(),
        1 <= t < ts.len(),
        block_start(sz, k + 1) <= total,
        mid_state(ts, sz, fb, lb, refs, k, t, st),
    ensures
        step(source_of(ts, sz, total, bps, fb, lb), t as nat, st) matches Ok(s2) && mid_state(
            ts,
            sz,
            fb,
            lb,
            refs,
            k,
            t + 1,
            s2,
        ),
{
    let src = source_of(ts, sz, total, bps, fb, lb);
    let nt = ts.len();
    let off = block_start(sz, k);
    let n = sz[k];
    let f = fr[k][t];
    assert(round_ok(ts, sz, k, bps, ae, fr[k], refs[k], fb[k], lb[k]));
    assert(round_readable(ts, sz, k, bps, ae, fr[k], lb[k]));
    assert(block_start(sz, k + 1) == off + n);
    let x = lb[k][t];
    assert(loom_frame_readable(f, bps, ae) && x.len() < 0x1_0000_0000);
    assert(frame_recovers(f, t as nat, refs[k], block_of(ts[t]@, off, n)) && framed(x, loom_frame_bits(f, t as u16, bps, ae)));
    lemma_loom_window(lb, nt, k, t);
    lemma2_to64();
    lemma_be_exact(x.len(), 4);
    let all = loom_cat(lb, nt, sz.len() as int);
    assert(lb.len() == sz.len());
    let lpos = st.lpos;
    assert(all.subrange(lpos, lpos + 4) == be_bytes(x.len(), 4));
    assert(be_val(all.subrange(lpos, lpos + 4)) == x.len());
    let end = lpos + 4 + x.len();
    assert(loom_slot(all, lpos) == Some(end));
    lemma_loom_fetch(x, f, t as u16, bps, ae);
    assert(all.subrange(lpos + 4, end) == x);
    assert(fetch(false, bytes_to_bits(cat(fb)), st.pos0, all, lpos, bps, t as nat, st.out[t].len()) == Ok::<
        (Fetched, int, int),
        LoomError,
    >((Fetched::Frame(f), st.pos0, end)));
    lemma_recovered(f, t as nat, refs[k], st.rf, block_of(ts[t]@, off, n));
    assert(f.block_size == n);
    assert(track_ok(ts[t]@, total));
    assert(forall|ch: int| 0 <= ch < ts[t]@.len() ==> #[trigger] ts[t]@[ch]@.len() >= off + n);
    assert(done_blocks(t, t, k) == k);
    assert(st.out[t] == decoded_upto(ts[t]@, k, off));
    assert(st.counts[t] == off);
    lemma_append(ts[t]@, k, off, n, st.out[t], block_of(ts[t]@, off, n));
    reveal(step);
    let s2 = step(src, t as nat, st)->Ok_0;
    assert(step(src, t as nat, st) is Ok);
    assert forall|u: int| 0 <= u < nt implies #[trigger] s2.counts[u] == block_start(sz, done_blocks(u, t + 1, k)) by {
        if u != t {
            assert(done_blocks(u, t, k) == done_blocks(u, t + 1, k));
        }
    }
    assert forall|u: int| 0 <= u < nt implies #[trigger] s2.out[u] == decoded_upto(
        ts[u]@,
        done_blocks(u, t + 1, k),
        block_start(sz, done_blocks(u, t + 1, k)),
    ) by {
        if u != t {
            assert(done_blocks(u, t, k) == done_blocks(u, t + 1, k));
        }
    }
}

/// Where blocks start never goes back.
proof fn lemma_start_mono(sz: Seq<nat>, i: int, j: int)
    requires
        0 <= i <= j <= sz.len(),
    ensures
        block_start(sz, i) <= block_start(sz, j),
    decreases j - i,
{
    if i < j {
        lemma_start_mono(sz, i, j - 1);
    }
}

/// The frames of the tracks from `t` on in round `k` decode and are appended.
proof fn lemma_steps(
    ts: Seq<Vec<Vec<i64>>>,
    sz: Seq<nat>,
    total: nat,
    bps: nat,
    ae: bool,
    fr: Seq<Seq<FrameSpec>>,
    refs: Seq<Option<Seq<i64>>>,
    fb: Seq<Seq<u8>>,
    lb: Seq<Seq<Seq<u8>>>,
    k: int,
    t: int,
    st: DecodeState,
)
    requires
        written_ctx(ts, sz, total, bps, ae, fr, refs, fb, lb),
        0 <= k < sz.len(),
        0 <= t <= ts.len(),
        block_start(sz, k + 1) <= total,
        mid_state(ts, sz, fb, lb, refs, k, t, st),
    ensures
        steps(source_of(ts, sz, total, bps, fb, lb), t as nat, st) matches Ok(s2) && mid_state(
            ts,
            sz,
            fb,
            lb,
            refs,
            k,
            ts.len() as int,
            s2,
        ),
    decreases ts.len() - t,
{
    let src = source_of(ts, sz, total, bps, fb, lb);
    if t < ts.len() {
        if t == 0 {
            lemma_step_first(ts, sz, total, bps, ae, fr, refs, fb, lb, k, st);
        } else {
            lemma_step_loom(ts, sz, total, bps, ae, fr, refs, fb, lb, k, t, st);
        }
        let s2 = step(src, t as nat, st)->Ok_0;
        lemma_steps(ts, sz, total, bps, ae, fr, refs, fb, lb, k, t + 1, s2);
    }
}

/// From the start of round `k` on, the decoder reads every remaining block of every track
/// and ends with each channel's first `total` samples.
proof fn lemma_rounds(
    ts: Seq<Vec<Vec<i64>>>,
    sz: Seq<nat>,
    total: nat,
    bps: nat,
    ae: bool,
    fr: Seq<Seq<FrameSpec>>,
    refs: Seq<Option<Seq<i64>>>,
    fb: Seq<Seq<u8>>,
    lb: Seq<Seq<Seq<u8>>>,
    k: int,
    st: DecodeState,
)
    requires
        written_ctx(ts, sz, total, bps, ae, fr, refs, fb, lb),
        0 <= k <= sz.len(),
        sz.len() >= 1,
        block_start(sz, sz.len() as int) == total,
        forall|i: int| 0 <= i < sz.len() ==> #[trigger] sz[i] >= 1,
        mid_state(ts, sz, fb, lb, refs, k, 0, st),
    ensures
        rounds(source_of(ts, sz, total, bps, fb, lb), st) == Ok::<Seq<Seq<Seq<i64>>>, LoomError>(
            Seq::new(ts.len(), |u: int| decoded_upto(ts[u]@, sz.len() as int, total)),
        ),
    decreases sz.len() - k,
{
    let src = source_of(ts, sz, total, bps, fb, lb);
    let nt = ts.len();
    if k == sz.len() {
        assert(st.counts[0] == block_start(sz, done_blocks(0, 0, k)));
        assert(st.out =~= Seq::new(nt, |u: int| decoded_upto(ts[u]@, sz.len() as int, total))) by {
            assert forall|u: int| 0 <= u < nt implies #[trigger] st.out[u] == decoded_upto(ts[u]@, sz.len() as int, total) by {
                assert(done_blocks(u, 0, k) == k);
            }
        }
    } else {
        lemma_start_mono(sz, k + 1, sz.len() as int);
        assert(block_start(sz, k + 1) == block_start(sz, k) + sz[k]);
        assert(st.counts[0] == block_start(sz, done_blocks(0, 0, k)));
        lemma_steps(ts, sz, total, bps, ae, fr, refs, fb, lb, k, 0, st);
        let s2 = steps(src, 0, st)->Ok_0;
        assert(s2.counts[0] == block_start(sz, done_blocks(0, nt as int, k)));
        assert(loom_cat(lb, nt, k + 1) == loom_cat(lb, nt, k) + loom_round(lb[k], nt as int));
        assert(loom_round(lb[k + 1], 0) =~= Seq::<u8>::empty());
        assert(loom_cat(lb, nt, k + 1) + loom_round(lb[k + 1], 0) =~= loom_cat(lb, nt, k + 1));
        assert forall|u: int| 0 <= u < nt implies done_blocks(u, nt as int, k) == done_blocks(u, 0, k + 1) by {}
        assert(mid_state(ts, sz, fb, lb, refs, k + 1, 0, s2));
        lemma_rounds(ts, sz, total, bps, ae, fr, refs, fb, lb, k + 1, s2);
    }
}

/// Every channel of every track, its first `total` samples.
pub open spec fn tracks_prefix(ts: Seq<Vec<Vec<i64>>>, total: nat) -> Seq<Seq<Seq<i64>>> {
    Seq::new(ts.len(), |t: int| Seq::new(ts[t]@.len(), |ch: int| ts[t]@[ch]@.take(total as int)))
}

/// Decoding a session the encoder writes gives back every track, each channel its first
/// `total` samples, with the header, the edits, the tags and the picture, wherever every
/// frame it wrote reads back (as `frames_readable` says).
#[verifier::rlimit(80)]
pub proof fn lemma_session_roundtrip(
    b: Seq<u8>,
    h: HeaderSpec,
    es: Seq<(u16, TrackEditsSpec)>,
    tg: Option<Seq<(Seq<char>, Seq<char>)>>,
    pic: Option<PictureSpec>,
    ts: Seq<Vec<Vec<i64>>>,
    total: nat,
    bs: nat,
    ae: bool,
    fr: Seq<Seq<FrameSpec>>,
    refs: Seq<Option<Seq<i64>>>,
    fb: Seq<Seq<u8>>,
    lb: Seq<Seq<Seq<u8>>>,
)
    requires
        audio_written(b, h, es, tg, pic, ts, total, bs, ae, fr, refs, fb, lb),
        meta_writable(h, es, tg, pic),
        h.tracks.len() == ts.len(),
        ts.len() >= 1,
        forall|t: int| 0 <= t < ts.len() ==> track_ok(#[trigger] ts[t]@, total),
        1 <= total <= u32::MAX,
        bs >= 1,
        h.bit_depth <= 63,
        h.tracks[0].total_samples == total,
        frames_readable(ts, block_sizes(ts, total, bs, 0), h.bit_depth as nat, ae, fr, lb),
    ensures
        session_decode(b) == Ok::<SessionSpec, LoomError>(
            SessionSpec { tracks: tracks_prefix(ts, total), header: h, edits: Some(es), tags: tg, picture: pic },
        ),
{
    let sz = block_sizes(ts, total, bs, 0);
    let nt = ts.len();
    let bps = h.bit_depth as nat;
    lemma_block_sizes_len(ts, total, bs, 0);
    lemma_sizes_cover(ts, total, bs, 0);
    assert(sz.len() >= 1) by {
        if sz.len() == 0 {
            assert(block_start(sz, 0) == 0);
        }
    }
    let pts = seek_points(sz, fb, lb, nt);
    let loom = loom_cat(lb, nt, sz.len() as int);
    let payload = session_payload(h, pts, es, loom);
    let si = streaminfo_fields(
        seq_min(sz, 0xFFFF) as u16,
        seq_max(sz, 0) as u16,
        seq_min(frame_sizes(fb), 0xFFFF_FFFF) as u32,
        seq_max(frame_sizes(fb), 0) as u32,
        h.sample_rate,
        ts[0]@.len() as u8,
        h.bit_depth,
        total as u64,
        h.tracks[0].md5,
    );
    assert(h.tracks[0].md5.len() == 16);
    lemma_be_bytes_len((seq_min(sz, 0xFFFF) as u16) as nat, 2);
    lemma_be_bytes_len((seq_max(sz, 0) as u16) as nat, 2);
    lemma_be_bytes_len((seq_min(frame_sizes(fb), 0xFFFF_FFFF) as u32) as nat, 3);
    lemma_be_bytes_len((seq_max(frame_sizes(fb), 0) as u32) as nat, 3);
    lemma_be_bytes_len(packed_fields(h.sample_rate, ts[0]@.len() as u8, h.bit_depth, total as u64), 8);
    let frames0 = cat(fb);
    lemma_walk_layout(b, si, payload, frames0, tg, pic, true);
    assert(b.take(4) =~= flac_magic());
    let at = b.len() - frames0.len();
    assert(b.subrange(at, b.len() as int) =~= frames0);
    assert(parse_container(b, true) == Ok::<(bool, MetaAcc, int), LoomError>((false, meta_kept(payload, tg, pic, true), at)));
    assert forall|t: int| 0 <= t < pts.len() implies #[trigger] pts[t].len() <= 0xFFFF_FFFF by {}
    lemma_payload_parts(h, pts, es, loom);
    let p1 = header_bytes(h).len() as int;
    let p2 = p1 + seek_table_bytes(pts).len();
    let p3 = p2 + crate::container::edit_block::edit_bytes(es).len();
    let body = edit_body(es);
    assert(body.subrange(0, body.len() as int) =~= body);
    lemma_edit_roundtrip(body, 0, es);
    assert(edits_of(Some(body)) == Some(es));
    let src = source_of(ts, sz, total, bps, fb, lb);
    assert(payload.subrange(p3, payload.len() as int) == loom);
    let init = initial_state(nt);
    assert(fb.take(0) =~= Seq::<Seq<u8>>::empty());
    assert(cat(fb.take(0)) =~= Seq::<u8>::empty());
    assert(loom_cat(lb, nt, 0) + loom_round(lb[0], 0) =~= Seq::<u8>::empty());
    assert(written_ctx(ts, sz, total, bps, ae, fr, refs, fb, lb));
    assert forall|u: int| 0 <= u < nt implies #[trigger] init.out[u] == decoded_upto(ts[u]@, done_blocks(u, 0, 0), block_start(sz, done_blocks(u, 0, 0))) by {}
    assert(mid_state(ts, sz, fb, lb, refs, 0, 0, init));
    lemma_rounds(ts, sz, total, bps, ae, fr, refs, fb, lb, 0, init);
    assert(Seq::new(nt, |u: int| decoded_upto(ts[u]@, sz.len() as int, total)) =~= tracks_prefix(ts, total)) by {
        assert forall|u: int| 0 <= u < nt implies #[trigger] decoded_upto(ts[u]@, sz.len() as int, total) == tracks_prefix(ts, total)[u] by {
            assert(decoded_upto(ts[u]@, sz.len() as int, total) =~= tracks_prefix(ts, total)[u]) by {
                assert forall|ch: int| 0 <= ch < ts[u]@.len() implies ts[u]@[ch]@.subrange(0, total as int) =~= ts[u]@[ch]@.take(total as int) by {}
            }
        }
    }
}

/// Decoding `b` gives every track, each channel its first `total` samples, with the header,
/// the edits, the tags and the picture.
pub open spec fn decodes_to(
    b: Seq<u8>,
    ts: Seq<Vec<Vec<i64>>>,
    total: nat,
    h: HeaderSpec,
    es: Seq<(u16, TrackEditsSpec)>,
    tg: Option<Seq<(Seq<char>, Seq<char>)>>,
    pic: Option<PictureSpec>,
) -> bool {
    session_decode(b) == Ok::<SessionSpec, LoomError>(
        SessionSpec { tracks: tracks_prefix(ts, total), header: h, edits: Some(es), tags: tg, picture: pic },
    )
}

/// What the encoder's output is shown to decode back from: one track, at least one sample
/// long, its samples within a bit depth of at most 26, and metadata that reads back.
pub open spec fn roundtrip_input(
    ts: Seq<Vec<Vec<i64>>>,
    depth: u8,
    h: HeaderSpec,
    es: Seq<(u16, TrackEditsSpec)>,
    tg: Option<Seq<(Seq<char>, Seq<char>)>>,
    pic: Option<PictureSpec>,
) -> bool {
    &&& ts.len() == 1
    &&& 1 <= depth <= 26
    &&& ts[0]@.len() >= 1
    &&& ts[0]@[0]@.len() >= 1
    &&& crate::container::readable::tracks_fit(ts, ts[0]@[0]@.len(), depth as nat)
    &&& meta_writable(h, es, tg, pic)
}

} // verus!
