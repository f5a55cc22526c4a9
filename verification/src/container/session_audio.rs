//! What an encoded session holds of the audio: the blocks it is cut into, the frames of
//! every track for every block, where each frame stands, and the STREAMINFO fields.
use crate::container::block_decode::{coded_values, frame_decodes, frame_pcm};
use crate::container::bytes::be_bytes;
use crate::container::flac_metadata::streaminfo_fields;
use crate::container::frame::{flac_frame_bits, framed, loom_frame_bits, FrameSpec};
use crate::container::header::HeaderSpec;
use crate::container::picture_block::PictureSpec;
use crate::container::seek_index::SeekPoint;
use crate::container::session::{
    block_cut, block_of, channels_cut, frame_recovers, refs_agree, track_ok, tracks_cut,
};
use crate::container::session_meta::{picture_opt_bytes, session_layout, session_payload, tags_opt_bytes};
use crate::edit::schema::TrackEditsSpec;
use crate::container::bytes::{lemma_be_bytes_len, lemma_be_exact};
use crate::container::edit_block::{edit_body, edit_bytes, edits_readable, lemma_edit_roundtrip};
use crate::container::header::{header_bytes, header_writable, lemma_header_roundtrip};
use crate::container::seek_index::{lemma_seek_table_roundtrip, seek_table_bytes};
use crate::container::session::flac_magic;
use crate::container::session_meta::{lemma_walk_layout, meta_kept, meta_writable};
use crate::diff::apply::{diff_applied, diff_restorable, lemma_diff_restores, lemma_restorable_frames, points_sorted};
use crate::diff::encode::{edit_at, frame_parts, session_diff, FrameParts};
use crate::container::session_read::{edit_frame, parse_container, MetaAcc};
use crate::container::header::parse_header;
use crate::container::seek_index::parse_seek_table;
use crate::error::LoomError;
use vstd::arithmetic::power2::lemma2_to64;
use vstd::prelude::*;

verus! {

/// The block the encoder tries at `off`: `bs` samples, or what is left of `total`.
pub open spec fn try_size(bs: nat, total: nat, off: nat) -> nat {
    if bs < total - off {
        bs
    } else {
        (total - off) as nat
    }
}

/// The sizes of the blocks the encoder cuts the tracks into from `off` on: each the tried
/// block, cut short at the earliest transient as `block_cut` says.
pub open spec fn block_sizes(ts: Seq<Vec<Vec<i64>>>, total: nat, bs: nat, off: nat) -> Seq<nat>
    decreases total - off,
{
    if off >= total || bs == 0 {
        seq![]
    } else {
        let s = block_cut(ts, off, try_size(bs, total, off));
        if s == 0 {
            seq![]
        } else {
            seq![s] + block_sizes(ts, total, bs, off + s)
        }
    }
}

/// Where block `i` starts: the sum of the sizes before it.
pub open spec fn block_start(sz: Seq<nat>, i: int) -> nat
    decreases i,
{
    if i <= 0 {
        0
    } else {
        block_start(sz, i - 1) + sz[i - 1]
    }
}

/// Byte strings one after another.
pub open spec fn cat(s: Seq<Seq<u8>>) -> Seq<u8>
    decreases s.len(),
{
    if s.len() == 0 {
        seq![]
    } else {
        cat(s.drop_last()) + s.last()
    }
}

/// The Loom frames of tracks `1 .. n` of one block, each after its length in 4 big-endian
/// bytes.
pub open spec fn loom_round(x: Seq<Seq<u8>>, n: int) -> Seq<u8>
    decreases n,
{
    if n <= 1 {
        seq![]
    } else {
        loom_round(x, n - 1) + be_bytes(x[n - 1].len(), 4) + x[n - 1]
    }
}

/// The Loom frames of the first `i` blocks.
pub open spec fn loom_cat(lb: Seq<Seq<Seq<u8>>>, nt: nat, i: int) -> Seq<u8>
    decreases i,
{
    if i <= 0 {
        seq![]
    } else {
        loom_cat(lb, nt, i - 1) + loom_round(lb[i - 1], nt as int)
    }
}

/// The smallest of `s`, or `base` where that is smaller.
pub open spec fn seq_min(s: Seq<nat>, base: nat) -> nat
    decreases s.len(),
{
    if s.len() == 0 {
        base
    } else {
        let m = seq_min(s.drop_last(), base);
        if s.last() < m {
            s.last()
        } else {
            m
        }
    }
}

/// The largest of `s`, or `base` where that is larger.
pub open spec fn seq_max(s: Seq<nat>, base: nat) -> nat
    decreases s.len(),
{
    if s.len() == 0 {
        base
    } else {
        let m = seq_max(s.drop_last(), base);
        if s.last() > m {
            s.last()
        } else {
            m
        }
    }
}

/// The sizes of frames as STREAMINFO counts them: their lengths' low 32 bits.
pub open spec fn frame_sizes(fb: Seq<Seq<u8>>) -> Seq<nat> {
    Seq::new(fb.len(), |i: int| (fb[i].len() as u32) as nat)
}

/// The seek points: for every track and block, the block's first sample, the offset of its
/// frame (among the first track's FLAC frames, or among the Loom frames, before the length
/// field), and its size.
pub open spec fn seek_points(sz: Seq<nat>, fb: Seq<Seq<u8>>, lb: Seq<Seq<Seq<u8>>>, nt: nat) -> Seq<
    Seq<SeekPoint>,
> {
    Seq::new(
        nt,
        |t: int|
            Seq::new(
                sz.len(),
                |i: int|
                    SeekPoint {
                        sample_number: block_start(sz, i) as u64,
                        byte_offset: (if t == 0 {
                            cat(fb.take(i)).len()
                        } else {
                            (loom_cat(lb, nt, i) + loom_round(lb[i], t)).len()
                        }) as u64,
                        frame_samples: sz[i] as u32,
                    },
            ),
    )
}

/// Block `i` as written: the frame of every track decodes to that track's samples of the
/// block (the later tracks with every reference that agrees with `rf`, the residuals the
/// first track's frame codes, where there is one), every frame is of the block's size, the
/// first track's frame is the FLAC
/// frame `b0` and every other track's the Loom frame in `lbi`.
pub open spec fn round_ok(
    ts: Seq<Vec<Vec<i64>>>,
    sz: Seq<nat>,
    i: int,
    bps: nat,
    ae: bool,
    f: Seq<FrameSpec>,
    rf: Option<Seq<i64>>,
    b0: Seq<u8>,
    lbi: Seq<Seq<u8>>,
) -> bool {
    let off = block_start(sz, i);
    let n = sz[i];
    &&& f.len() == ts.len()
    &&& lbi.len() == ts.len()
    &&& forall|t: int| 0 <= t < ts.len() ==> (#[trigger] f[t]).block_size == n
    &&& frame_recovers(f[0], 0, None, block_of(ts[0]@, off, n))
    &&& framed(b0, flac_frame_bits(f[0], off as u64, bps, ae))
    &&& rf matches Some(v) ==> v == coded_values(f[0].subframes[0].mode, n)
    &&& forall|t: int|
        1 <= t < ts.len() ==> frame_recovers(#[trigger] f[t], t as nat, rf, block_of(ts[t]@, off, n))
            && framed(lbi[t], loom_frame_bits(f[t], t as u16, bps, ae))
}

/// Every block as `round_ok` says.
pub open spec fn frames_ok(
    ts: Seq<Vec<Vec<i64>>>,
    sz: Seq<nat>,
    bps: nat,
    ae: bool,
    fr: Seq<Seq<FrameSpec>>,
    refs: Seq<Option<Seq<i64>>>,
    fb: Seq<Seq<u8>>,
    lb: Seq<Seq<Seq<u8>>>,
) -> bool {
    &&& fr.len() == sz.len()
    &&& refs.len() == sz.len()
    &&& fb.len() == sz.len()
    &&& lb.len() == sz.len()
    &&& forall|i: int|
        0 <= i < sz.len() ==> #[trigger] round_ok(ts, sz, i, bps, ae, fr[i], refs[i], fb[i], lb[i])
}

/// `b` is the session the encoder writes with these frames: the layout of `session_meta`,
/// with the STREAMINFO fields (smallest and largest block and frame, rate, channels of the
/// first track, depth, length and the first track's MD5), the first track's FLAC frames, the
/// Loom frames and the seek points of those frames.
pub open spec fn audio_written(
    b: Seq<u8>,
    h: HeaderSpec,
    es: Seq<(u16, TrackEditsSpec)>,
    tg: Option<Seq<(Seq<char>, Seq<char>)>>,
    pic: Option<PictureSpec>,
    ts: Seq<Vec<Vec<i64>>>,
    total: nat,
    bs: nat,
    ae: bool,
    fr: Seq<Seq<FrameSpec>>,
    refs: Seq<Option<Seq<i64>>>,
    fb: Seq<Seq<u8>>,
    lb: Seq<Seq<Seq<u8>>>,
) -> bool {
    let sz = block_sizes(ts, total, bs, 0);
    let nt = ts.len();
    let si = streaminfo_fields(
        seq_min(sz, 0xFFFF) as u16,
        seq_max(sz, 0) as u16,
        seq_min(frame_sizes(fb), 0xFFFF_FFFF) as u32,
        seq_max(frame_sizes(fb), 0) as u32,
        h.sample_rate,
        ts[0]@.len() as u8,
        h.bit_depth,
        total as u64,
        h.tracks[0].md5,
    );
    &&& frames_ok(ts, sz, h.bit_depth as nat, ae, fr, refs, fb, lb)
    &&& b == session_layout(
        si,
        tags_opt_bytes(tg),
        picture_opt_bytes(pic),
        session_payload(h, seek_points(sz, fb, lb, nt), es, loom_cat(lb, nt, sz.len() as int)),
        cat(fb),
    )
}

/// `b` is a session the encoder writes of the tracks `ts`, `total` samples long, in blocks
/// of at most `bs`: there are frames, each decoding to its block of its track, laid out as
/// `audio_written` says.
pub open spec fn session_audio(
    b: Seq<u8>,
    h: HeaderSpec,
    es: Seq<(u16, TrackEditsSpec)>,
    tg: Option<Seq<(Seq<char>, Seq<char>)>>,
    pic: Option<PictureSpec>,
    ts: Seq<Vec<Vec<i64>>>,
    total: nat,
    bs: nat,
    ae: bool,
) -> bool {
    exists|fr: Seq<Seq<FrameSpec>>, refs: Seq<Option<Seq<i64>>>, fb: Seq<Seq<u8>>, lb: Seq<Seq<Seq<u8>>>|
        #[trigger] audio_written(b, h, es, tg, pic, ts, total, bs, ae, fr, refs, fb, lb)
}

/// Where a block starts does not change when more blocks follow.
pub proof fn lemma_block_start_push(sz: Seq<nat>, s: nat, i: int)
    requires
        0 <= i <= sz.len(),
    ensures
        block_start(sz.push(s), i) == block_start(sz, i),
    decreases i,
{
    if i > 0 {
        lemma_block_start_push(sz, s, i - 1);
        assert(sz.push(s)[i - 1] == sz[i - 1]);
    }
}

/// The Loom frames of the first blocks do not change when more blocks follow.
pub proof fn lemma_loom_cat_push(lb: Seq<Seq<Seq<u8>>>, y: Seq<Seq<u8>>, nt: nat, i: int)
    requires
        0 <= i <= lb.len(),
    ensures
        loom_cat(lb.push(y), nt, i) == loom_cat(lb, nt, i),
    decreases i,
{
    if i > 0 {
        lemma_loom_cat_push(lb, y, nt, i - 1);
        assert(lb.push(y)[i - 1] == lb[i - 1]);
    }
}

/// The Loom frames of the first tracks of a block do not change when more tracks follow.
pub proof fn lemma_loom_round_push(x: Seq<Seq<u8>>, y: Seq<u8>, n: int)
    requires
        n <= x.len(),
    ensures
        loom_round(x.push(y), n) == loom_round(x, n),
    decreases n,
{
    if n > 1 {
        lemma_loom_round_push(x, y, n - 1);
        assert(x.push(y)[n - 1] == x[n - 1]);
    }
}

/// A block written stays as `round_ok` says when more blocks follow.
pub proof fn lemma_round_ok_push(
    ts: Seq<Vec<Vec<i64>>>,
    sz: Seq<nat>,
    s: nat,
    i: int,
    bps: nat,
    ae: bool,
    f: Seq<FrameSpec>,
    rf: Option<Seq<i64>>,
    b0: Seq<u8>,
    lbi: Seq<Seq<u8>>,
)
    requires
        0 <= i < sz.len(),
        round_ok(ts, sz, i, bps, ae, f, rf, b0, lbi),
    ensures
        round_ok(ts, sz.push(s), i, bps, ae, f, rf, b0, lbi),
{
    lemma_block_start_push(sz, s, i);
    assert(sz.push(s)[i] == sz[i]);
}

/// Every block is at least one sample long, so there are at most as many blocks as samples
/// left.
pub proof fn lemma_block_sizes_len(ts: Seq<Vec<Vec<i64>>>, total: nat, bs: nat, off: nat)
    ensures
        block_sizes(ts, total, bs, off).len() <= if off >= total {
            0
        } else {
            (total - off) as nat
        },
    decreases total - off,
{
    if off < total && bs != 0 {
        let s = block_cut(ts, off, try_size(bs, total, off));
        if s != 0 {
            lemma_block_sizes_len(ts, total, bs, off + s);
        }
    }
}

/// A cut point is never before sample 128.
proof fn lemma_cuts_late(ts: Seq<Vec<Vec<i64>>>, n: nat, offset: nat, cbs: nat)
    ensures
        tracks_cut(ts, n, offset, cbs) matches Some(c) ==> c >= 128,
    decreases n,
{
    if n > 0 {
        lemma_cuts_late(ts, (n - 1) as nat, offset, cbs);
        lemma_channel_cuts_late(ts[n - 1]@, ts[n - 1]@.len(), offset, cbs);
    }
}

proof fn lemma_channel_cuts_late(tr: Seq<Vec<i64>>, n: nat, offset: nat, cbs: nat)
    ensures
        channels_cut(tr, n, offset, cbs) matches Some(c) ==> c >= 128,
    decreases n,
{
    if n > 0 {
        lemma_channel_cuts_late(tr, (n - 1) as nat, offset, cbs);
    }
}

/// The start of block `i + 1` of a run of blocks after a first one of size `a`.
proof fn lemma_block_start_cons(a: nat, r: Seq<nat>, i: int)
    requires
        0 <= i <= r.len(),
    ensures
        block_start(seq![a] + r, i + 1) == a + block_start(r, i),
    decreases i,
{
    let c = seq![a] + r;
    if i > 0 {
        lemma_block_start_cons(a, r, i - 1);
        assert(c[i] == r[i - 1]);
        assert(block_start(c, i + 1) == block_start(c, i) + c[i]);
        assert(block_start(r, i) == block_start(r, i - 1) + r[i - 1]);
    } else {
        assert(c[0] == a);
        assert(block_start(c, 1) == block_start(c, 0) + c[0]);
        assert(block_start(c, 0) == 0);
        assert(block_start(r, 0) == 0);
    }
}

/// The blocks from `off` on are at least one sample long and together cover the samples
/// from `off` to `total`.
pub proof fn lemma_sizes_cover(ts: Seq<Vec<Vec<i64>>>, total: nat, bs: nat, off: nat)
    requires
        bs >= 1,
        off <= total,
    ensures
        block_start(block_sizes(ts, total, bs, off), block_sizes(ts, total, bs, off).len() as int)
            == total - off,
        forall|i: int|
            0 <= i < block_sizes(ts, total, bs, off).len() ==> #[trigger] block_sizes(ts, total, bs, off)[i]
                >= 1,
    decreases total - off,
{
    if off < total {
        let s = block_cut(ts, off, try_size(bs, total, off));
        lemma_cuts_late(ts, ts.len(), off, try_size(bs, total, off));
        assert(s >= 1);
        let r = block_sizes(ts, total, bs, off + s);
        lemma_sizes_cover(ts, total, bs, off + s);
        lemma_block_start_cons(s, r, r.len() as int);
        assert(block_sizes(ts, total, bs, off) == seq![s] + r);
        assert forall|i: int| 0 <= i < r.len() + 1 implies #[trigger] (seq![s] + r)[i] >= 1 by {
            if i > 0 {
                assert((seq![s] + r)[i] == r[i - 1]);
            }
        }
    }
}

/// The reference a later track's frame decodes with: the residuals that the first track's
/// frame codes, where the encoder used them.
pub open spec fn ref_for(t: int, rf: Option<Seq<i64>>) -> Option<Seq<i64>> {
    if t == 0 {
        None
    } else {
        rf
    }
}

/// Channel `ch` of track `t` as the first `k` of its frames decode, one block after another.
pub open spec fn decoded_channel(
    fr: Seq<Seq<FrameSpec>>,
    refs: Seq<Option<Seq<i64>>>,
    t: int,
    ch: int,
    k: int,
) -> Seq<i64>
    decreases k,
{
    if k <= 0 {
        seq![]
    } else {
        decoded_channel(fr, refs, t, ch, k - 1) + frame_pcm(fr[k - 1][t], t as nat, ref_for(t, refs[k - 1]))[ch]
    }
}

/// The frames the encoder writes give the audio back: every frame of every track decodes
/// (the later tracks with the residuals of the first track's frame as the reference, where
/// the encoder used them), and a channel's frames, decoded one after another, give exactly
/// its first `total` samples.
pub proof fn lemma_frames_decode(
    ts: Seq<Vec<Vec<i64>>>,
    total: nat,
    bs: nat,
    bps: nat,
    ae: bool,
    fr: Seq<Seq<FrameSpec>>,
    refs: Seq<Option<Seq<i64>>>,
    fb: Seq<Seq<u8>>,
    lb: Seq<Seq<Seq<u8>>>,
)
    requires
        bs >= 1,
        forall|t: int| 0 <= t < ts.len() ==> track_ok(#[trigger] ts[t]@, total),
        frames_ok(ts, block_sizes(ts, total, bs, 0), bps, ae, fr, refs, fb, lb),
    ensures
        forall|i: int, t: int|
            0 <= i < fr.len() && 0 <= t < ts.len() ==> #[trigger] frame_decodes(fr[i][t], t as nat, ref_for(t, refs[i])),
        forall|t: int, ch: int|
            0 <= t < ts.len() && 0 <= ch < ts[t]@.len() ==> #[trigger] decoded_channel(fr, refs, t, ch, fr.len() as int)
                == ts[t]@[ch]@.take(total as int),
{
    let sz = block_sizes(ts, total, bs, 0);
    lemma_sizes_cover(ts, total, bs, 0);
    assert forall|i: int, t: int|
        0 <= i < fr.len() && 0 <= t < ts.len() implies #[trigger] frame_decodes(fr[i][t], t as nat, ref_for(t, refs[i]))
        && frame_pcm(fr[i][t], t as nat, ref_for(t, refs[i])) == block_of(ts[t]@, block_start(sz, i), sz[i]) by {
        assert(round_ok(ts, sz, i, bps, ae, fr[i], refs[i], fb[i], lb[i]));
        if t == 0 {
            lemma_recovers_use(fr[i][0], 0, None, None, block_of(ts[0]@, block_start(sz, i), sz[i]));
        } else {
            assert(frame_recovers(fr[i][t], t as nat, refs[i], block_of(ts[t]@, block_start(sz, i), sz[i])));
            lemma_recovers_use(fr[i][t], t as nat, refs[i], refs[i], block_of(ts[t]@, block_start(sz, i), sz[i]));
        }
    }
    assert forall|t: int, ch: int|
        0 <= t < ts.len() && 0 <= ch < ts[t]@.len() implies #[trigger] decoded_channel(fr, refs, t, ch, fr.len() as int)
            == ts[t]@[ch]@.take(total as int) by {
        assert(track_ok(ts[t]@, total));
        assert(ts[t]@[ch]@.len() >= total);
        lemma_channel_joined(ts, total, bs, bps, ae, fr, refs, fb, lb, t, ch, fr.len() as int);
        assert(block_start(sz, sz.len() as int) == total);
        assert(ts[t]@[ch]@.subrange(0, total as int) =~= ts[t]@[ch]@.take(total as int));
    }
}

proof fn lemma_recovers_use(f: FrameSpec, t: nat, enc: Option<Seq<i64>>, rf: Option<Seq<i64>>, block: Seq<Seq<i64>>)
    requires
        frame_recovers(f, t, enc, block),
        refs_agree(enc, rf),
    ensures
        frame_decodes(f, t, rf),
        frame_pcm(f, t, rf) == block,
{
    assert(frame_decodes(f, t, rf));
    assert(frame_pcm(f, t, rf) =~= block);
}

proof fn lemma_block_start_mono(sz: Seq<nat>, i: int, j: int)
    requires
        0 <= i <= j <= sz.len(),
    ensures
        block_start(sz, i) <= block_start(sz, j),
    decreases j - i,
{
    if i < j {
        lemma_block_start_mono(sz, i, j - 1);
    }
}

proof fn lemma_channel_joined(
    ts: Seq<Vec<Vec<i64>>>,
    total: nat,
    bs: nat,
    bps: nat,
    ae: bool,
    fr: Seq<Seq<FrameSpec>>,
    refs: Seq<Option<Seq<i64>>>,
    fb: Seq<Seq<u8>>,
    lb: Seq<Seq<Seq<u8>>>,
    t: int,
    ch: int,
    k: int,
)
    requires
        0 <= t < ts.len(),
        0 <= ch < ts[t]@.len(),
        ts[t]@[ch]@.len() >= total,
        0 <= k <= fr.len(),
        frames_ok(ts, block_sizes(ts, total, bs, 0), bps, ae, fr, refs, fb, lb),
        block_start(block_sizes(ts, total, bs, 0), block_sizes(ts, total, bs, 0).len() as int) == total,
        forall|i: int, u: int|
            0 <= i < fr.len() && 0 <= u < ts.len() ==> #[trigger] frame_decodes(fr[i][u], u as nat, ref_for(u, refs[i]))
            && frame_pcm(fr[i][u], u as nat, ref_for(u, refs[i])) == block_of(
                ts[u]@,
                block_start(block_sizes(ts, total, bs, 0), i),
                block_sizes(ts, total, bs, 0)[i],
            ),
    ensures
        decoded_channel(fr, refs, t, ch, k) == ts[t]@[ch]@.subrange(
            0,
            block_start(block_sizes(ts, total, bs, 0), k) as int,
        ),
    decreases k,
{
    let sz = block_sizes(ts, total, bs, 0);
    if k > 0 {
        lemma_channel_joined(ts, total, bs, bps, ae, fr, refs, fb, lb, t, ch, k - 1);
        lemma_block_start_mono(sz, k, sz.len() as int);
        assert(frame_decodes(fr[k - 1][t], t as nat, ref_for(t, refs[k - 1])));
        let a = block_start(sz, k - 1) as int;
        let b = block_start(sz, k) as int;
        assert(frame_pcm(fr[k - 1][t], t as nat, ref_for(t, refs[k - 1]))[ch] == ts[t]@[ch]@.subrange(a, b));
        assert(ts[t]@[ch]@.subrange(0, a) + ts[t]@[ch]@.subrange(a, b) =~= ts[t]@[ch]@.subrange(0, b));
    }
}

/// A session the encoder writes carries frames that give its audio back: laid out as
/// `audio_written` says, every frame decodes, and each channel of each track, its frames
/// decoded one after another, is exactly its first `total` samples.
pub proof fn lemma_session_audio_decodes(
    b: Seq<u8>,
    h: HeaderSpec,
    es: Seq<(u16, TrackEditsSpec)>,
    tg: Option<Seq<(Seq<char>, Seq<char>)>>,
    pic: Option<PictureSpec>,
    ts: Seq<Vec<Vec<i64>>>,
    total: nat,
    bs: nat,
    ae: bool,
)
    requires
        bs >= 1,
        forall|t: int| 0 <= t < ts.len() ==> track_ok(#[trigger] ts[t]@, total),
        session_audio(b, h, es, tg, pic, ts, total, bs, ae),
    ensures
        exists|fr: Seq<Seq<FrameSpec>>, refs: Seq<Option<Seq<i64>>>, fb: Seq<Seq<u8>>, lb: Seq<Seq<Seq<u8>>>|
            #[trigger] audio_written(b, h, es, tg, pic, ts, total, bs, ae, fr, refs, fb, lb) && (forall|i: int, t: int|
                0 <= i < fr.len() && 0 <= t < ts.len() ==> #[trigger] frame_decodes(
                    fr[i][t],
                    t as nat,
                    ref_for(t, refs[i]),
                )) && (forall|t: int, ch: int|
                0 <= t < ts.len() && 0 <= ch < ts[t]@.len() ==> #[trigger] decoded_channel(
                    fr,
                    refs,
                    t,
                    ch,
                    fr.len() as int,
                ) == ts[t]@[ch]@.take(total as int)),
{
    let (fr, refs, fb, lb) = choose|fr: Seq<Seq<FrameSpec>>, refs: Seq<Option<Seq<i64>>>, fb: Seq<Seq<u8>>, lb: Seq<Seq<Seq<u8>>>|
        #[trigger] audio_written(b, h, es, tg, pic, ts, total, bs, ae, fr, refs, fb, lb);
    lemma_frames_decode(ts, total, bs, h.bit_depth as nat, ae, fr, refs, fb, lb);
    assert(audio_written(b, h, es, tg, pic, ts, total, bs, ae, fr, refs, fb, lb));
}

/// The first `i + 1` frames are the first `i` and frame `i`.
proof fn lemma_cat_take(fb: Seq<Seq<u8>>, i: int)
    requires
        0 <= i < fb.len(),
    ensures
        cat(fb.take(i + 1)) == cat(fb.take(i)) + fb[i],
{
    assert(fb.take(i + 1).drop_last() =~= fb.take(i));
}

/// Frames of at least two bytes each: the first `i` are shorter than the first `j > i`.
proof fn lemma_cat_take_grows(fb: Seq<Seq<u8>>, i: int, j: int)
    requires
        0 <= i < j <= fb.len(),
        forall|k: int| 0 <= k < fb.len() ==> (#[trigger] fb[k]).len() >= 2,
    ensures
        cat(fb.take(i)).len() < cat(fb.take(j)).len(),
    decreases j - i,
{
    lemma_cat_take(fb, j - 1);
    if i < j - 1 {
        lemma_cat_take_grows(fb, i, j - 1);
    }
}

/// A session the encoder writes splits, as a diff reads it, into the first track's FLAC
/// frames after the metadata, the Loom frames and the seek points.
#[verifier::rlimit(60)]
pub proof fn lemma_frame_parts(
    b: Seq<u8>,
    h: HeaderSpec,
    es: Seq<(u16, TrackEditsSpec)>,
    tg: Option<Seq<(Seq<char>, Seq<char>)>>,
    pic: Option<PictureSpec>,
    ts: Seq<Vec<Vec<i64>>>,
    total: nat,
    bs: nat,
    ae: bool,
    fr: Seq<Seq<FrameSpec>>,
    refs: Seq<Option<Seq<i64>>>,
    fb: Seq<Seq<u8>>,
    lb: Seq<Seq<Seq<u8>>>,
)
    requires
        audio_written(b, h, es, tg, pic, ts, total, bs, ae, fr, refs, fb, lb),
        meta_writable(h, es, tg, pic),
        h.tracks.len() == ts.len(),
        ts.len() >= 1,
        block_sizes(ts, total, bs, 0).len() <= 0xFFFF_FFFF,
    ensures
        frame_parts(b) == Ok::<FrameParts, LoomError>(
            FrameParts {
                track0: cat(fb),
                loom: loom_cat(lb, ts.len(), block_sizes(ts, total, bs, 0).len() as int),
                points: seek_points(block_sizes(ts, total, bs, 0), fb, lb, ts.len()),
                ntracks: h.tracks.len(),
                metadata_len: b.len() - cat(fb).len(),
            },
        ),
{
    let sz = block_sizes(ts, total, bs, 0);
    let nt = ts.len();
    let pts = seek_points(sz, fb, lb, nt);
    let loom = loom_cat(lb, nt, sz.len() as int);
    let payload = session_payload(h, pts, es, loom);
    let si = streaminfo_fields(
        seq_min(sz, 0xFFFF) as u16,
        seq_max(sz, 0) as u16,
        seq_min(frame_sizes(fb), 0xFFFF_FFFF) as u32,
        seq_max(frame_sizes(fb), 0) as u32,
        h.sample_rate,
        ts[0]@.len() as u8,
        h.bit_depth,
        total as u64,
        h.tracks[0].md5,
    );
    assert(h.tracks[0].md5.len() == 16);
    lemma_be_bytes_len((seq_min(sz, 0xFFFF) as u16) as nat, 2);
    lemma_be_bytes_len((seq_max(sz, 0) as u16) as nat, 2);
    lemma_be_bytes_len((seq_min(frame_sizes(fb), 0xFFFF_FFFF) as u32) as nat, 3);
    lemma_be_bytes_len((seq_max(frame_sizes(fb), 0) as u32) as nat, 3);
    lemma_be_bytes_len(crate::container::flac_metadata::packed_fields(h.sample_rate, ts[0]@.len() as u8, h.bit_depth, total as u64), 8);
    assert(si.len() == 34);
    let frames0 = cat(fb);
    lemma_walk_layout(b, si, payload, frames0, tg, pic, false);
    assert(b.take(4) =~= flac_magic());
    let at = b.len() - frames0.len();
    assert(b.subrange(at, b.len() as int) =~= frames0);
    assert(parse_container(b, false) == Ok::<(bool, MetaAcc, int), LoomError>((false, meta_kept(payload, tg, pic, false), at)));
    lemma_payload_parts(h, pts, es, loom);
}

/// The payload of a session the encoder writes reads as its header, seek points and edit
/// block, with the Loom frames after them.
#[verifier::rlimit(60)]
pub(crate) proof fn lemma_payload_parts(h: HeaderSpec, pts: Seq<Seq<SeekPoint>>, es: Seq<(u16, TrackEditsSpec)>, loom: Seq<u8>)
    requires
        header_writable(h),
        edits_readable(es),
        edit_body(es).len() < 0x1_0000_0000,
        pts.len() == h.tracks.len(),
        forall|t: int| 0 <= t < pts.len() ==> #[trigger] pts[t].len() <= 0xFFFF_FFFF,
    ensures
        ({
            let payload = session_payload(h, pts, es, loom);
            let p1 = header_bytes(h).len() as int;
            let p2 = p1 + seek_table_bytes(pts).len();
            let p3 = p2 + edit_bytes(es).len();
            &&& parse_header(payload, 0) == Ok::<(HeaderSpec, int), LoomError>((h, p1))
            &&& parse_seek_table(payload, p1) == Ok::<(Seq<Seq<SeekPoint>>, int), LoomError>((pts, p2))
            &&& edit_at(payload, p2) == Ok::<int, LoomError>(p3)
            &&& edit_frame(payload, p2) == Some((edit_body(es), p3))
            &&& payload.subrange(p3, payload.len() as int) == loom
        }),
{
    let payload = session_payload(h, pts, es, loom);
    let hb = header_bytes(h);
    let sb = seek_table_bytes(pts);
    let eb = edit_bytes(es);
    let body = edit_body(es);
    assert(payload == hb + sb + eb + loom);
    assert(payload.subrange(0, hb.len() as int) =~= hb);
    lemma_header_roundtrip(payload, 0, h);
    let p1 = hb.len() as int;
    assert(payload.subrange(p1, p1 + sb.len()) =~= sb);
    lemma_seek_table_roundtrip(payload, p1, pts);
    let p2 = p1 + sb.len();
    lemma2_to64();
    lemma_be_exact(body.len(), 4);
    lemma_be_bytes_len(body.len(), 4);
    assert(eb.len() == 5 + body.len());
    assert(payload[p2] == eb[0]);
    assert(payload.subrange(p2 + 1, p2 + 5) =~= be_bytes(body.len(), 4)) by {
        assert(payload.subrange(p2 + 1, p2 + 5) =~= eb.subrange(1, 5));
    }
    let bd = payload.subrange(p2 + 5, p2 + 5 + body.len());
    assert(bd =~= body) by {
        assert(bd =~= eb.subrange(5, 5 + body.len() as int));
    }
    assert(bd.subrange(0, body.len() as int) =~= body);
    lemma_edit_roundtrip(bd, 0, es);
    let p3 = p2 + 5 + body.len();
    assert(payload.subrange(p3, payload.len() as int) =~= loom);
}

/// The first track's seek points of a session the encoder writes mark its FLAC frames one
/// after another.
proof fn lemma_track0_points_sorted(ts: Seq<Vec<Vec<i64>>>, sz: Seq<nat>, bps: nat, ae: bool, fr: Seq<Seq<FrameSpec>>, refs: Seq<Option<Seq<i64>>>, fb: Seq<Seq<u8>>, lb: Seq<Seq<Seq<u8>>>)
    requires
        frames_ok(ts, sz, bps, ae, fr, refs, fb, lb),
        sz.len() >= 1,
        ts.len() >= 1,
        cat(fb).len() <= u64::MAX,
    ensures
        points_sorted(seek_points(sz, fb, lb, ts.len())[0], cat(fb)),
{
    let pts = seek_points(sz, fb, lb, ts.len())[0];
    assert forall|k: int| 0 <= k < fb.len() implies (#[trigger] fb[k]).len() >= 2 by {
        assert(round_ok(ts, sz, k, bps, ae, fr[k], refs[k], fb[k], lb[k]));
    }
    assert(fb.take(fb.len() as int) =~= fb);
    assert(fb.take(0) =~= Seq::<Seq<u8>>::empty());
    assert(cat(fb.take(0)) =~= Seq::<u8>::empty());
    assert forall|i: int| 0 <= i < pts.len() implies (#[trigger] pts[i]).byte_offset < cat(fb).len() by {
        lemma_cat_take_grows(fb, i, fb.len() as int);
    }
    assert forall|i: int| 0 <= i < pts.len() - 1 implies (#[trigger] pts[i]).byte_offset < pts[i + 1].byte_offset by {
        lemma_cat_take_grows(fb, i, i + 1);
        lemma_cat_take_grows(fb, i + 1, fb.len() as int);
    }
}

/// A one-track session the encoder writes, at least one sample long, is one a diff can
/// rebuild.
proof fn lemma_encoded_restorable(
    b: Seq<u8>,
    h: HeaderSpec,
    es: Seq<(u16, TrackEditsSpec)>,
    tg: Option<Seq<(Seq<char>, Seq<char>)>>,
    pic: Option<PictureSpec>,
    ts: Seq<Vec<Vec<i64>>>,
    total: nat,
    bs: nat,
    ae: bool,
)
    requires
        session_audio(b, h, es, tg, pic, ts, total, bs, ae),
        meta_writable(h, es, tg, pic),
        h.tracks.len() == 1,
        ts.len() == 1,
        1 <= total <= u32::MAX,
        bs >= 1,
        b.len() <= u64::MAX,
    ensures
        diff_restorable(b),
{
    let (fr, refs, fb, lb) = choose|fr: Seq<Seq<FrameSpec>>, refs: Seq<Option<Seq<i64>>>, fb: Seq<Seq<u8>>, lb: Seq<Seq<Seq<u8>>>|
        #[trigger] audio_written(b, h, es, tg, pic, ts, total, bs, ae, fr, refs, fb, lb);
    let sz = block_sizes(ts, total, bs, 0);
    lemma_block_sizes_len(ts, total, bs, 0);
    lemma_sizes_cover(ts, total, bs, 0);
    assert(sz.len() >= 1) by {
        if sz.len() == 0 {
            assert(block_start(sz, 0) == 0);
        }
    }
    lemma_frame_parts(b, h, es, tg, pic, ts, total, bs, ae, fr, refs, fb, lb);
    lemma_track0_points_sorted(ts, sz, h.bit_depth as nat, ae, fr, refs, fb, lb);
}

/// Applying the diff between two one-track sessions the encoder writes (each at least one
/// sample long) to the first rebuilds the second bit for bit.
pub proof fn lemma_encoded_diff_restores(
    v1: Seq<u8>,
    h1: HeaderSpec,
    es1: Seq<(u16, TrackEditsSpec)>,
    tg1: Option<Seq<(Seq<char>, Seq<char>)>>,
    pic1: Option<PictureSpec>,
    ts1: Seq<Vec<Vec<i64>>>,
    total1: nat,
    bs1: nat,
    ae1: bool,
    v2: Seq<u8>,
    h2: HeaderSpec,
    es2: Seq<(u16, TrackEditsSpec)>,
    tg2: Option<Seq<(Seq<char>, Seq<char>)>>,
    pic2: Option<PictureSpec>,
    ts2: Seq<Vec<Vec<i64>>>,
    total2: nat,
    bs2: nat,
    ae2: bool,
)
    requires
        session_audio(v1, h1, es1, tg1, pic1, ts1, total1, bs1, ae1),
        meta_writable(h1, es1, tg1, pic1),
        h1.tracks.len() == 1,
        ts1.len() == 1,
        1 <= total1 <= u32::MAX,
        bs1 >= 1,
        v1.len() <= u64::MAX,
        session_audio(v2, h2, es2, tg2, pic2, ts2, total2, bs2, ae2),
        meta_writable(h2, es2, tg2, pic2),
        h2.tracks.len() == 1,
        ts2.len() == 1,
        1 <= total2 <= u32::MAX,
        bs2 >= 1,
        v2.len() <= u64::MAX,
    ensures
        session_diff(v1, v2) is Ok,
        diff_applied(v1, session_diff(v1, v2)->Ok_0) == Ok::<Seq<u8>, LoomError>(v2),
{
    lemma_encoded_restorable(v1, h1, es1, tg1, pic1, ts1, total1, bs1, ae1);
    lemma_restorable_frames(v1);
    lemma_encoded_restorable(v2, h2, es2, tg2, pic2, ts2, total2, bs2, ae2);
    lemma_diff_restores(v1, v2);
}

} // verus!
