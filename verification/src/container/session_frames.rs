use crate::bitstream::{bytes_to_bits, BitReader};
use crate::container::block_decode::{channel_residuals, decode_frame, frame_decodes, frame_pcm, ref_view};
use crate::container::bytes::{be_val, read_be};
use crate::container::frame::{
    crc_tail_ok, layout_channels, parse_frame_flac, parse_frame_loom, ChannelLayout, Frame, FrameSpec,
};
use crate::error::LoomError;
use vstd::prelude::*;

verus! {

/// The end of the Loom frame whose 4-byte big-endian length is at `lpos`, where the length
/// and the frame lie inside `loom`.
pub open spec fn loom_slot(loom: Seq<u8>, lpos: int) -> Option<int> {
    if 0 <= lpos && lpos + 4 <= loom.len() && lpos + 4 + be_val(loom.subrange(lpos, lpos + 4))
        <= loom.len() {
        Some(lpos + 4 + be_val(loom.subrange(lpos, lpos + 4)))
    } else {
        None
    }
}

/// Reading a Loom frame that `sub` holds, as a fresh reader over it does: fewer than 100
/// bits is a truncated frame, a CRC-16 that does not match is invalid data.
#[verifier::opaque]
pub open spec fn loom_frame_of(sub: Seq<u8>, bps: nat) -> Result<FrameSpec, LoomError> {
    if 8 * sub.len() < 100 {
        Err(LoomError::UnexpectedEof)
    } else if !crc_tail_ok(sub) {
        Err(LoomError::InvalidData)
    } else {
        match parse_frame_loom(bytes_to_bits(sub), 0, bps) {
            Ok((f, _, _)) => Ok(f),
            Err(e) => Err(e),
        }
    }
}

/// The first index from `i` on where the sync bytes 0xF8 0xA5 start.
pub open spec fn sync_from(s: Seq<u8>, i: int) -> Option<int>
    decreases s.len() - i,
{
    if i < 0 || i + 1 >= s.len() {
        None
    } else if s[i] == 0xF8 && s[i + 1] == 0xA5 {
        Some(i)
    } else {
        sync_from(s, i + 1)
    }
}

/// What stands for the next frame of a track: a frame read, or, where a Loom frame does
/// not read, silence over that many channels.
pub enum Fetched {
    Frame(FrameSpec),
    Silence(nat),
}

/// The channels of the silence that stands for a Loom frame that does not read: those the
/// track already has, else those of the next frame where one reads at `lp`, else one.
/// A length that runs past the data there is a truncated payload.
pub open spec fn silence_channels(loom: Seq<u8>, lp: int, bps: nat, out_len: nat) -> Result<nat, LoomError> {
    if out_len > 0 {
        Ok(out_len)
    } else if lp < loom.len() {
        match loom_slot(loom, lp) {
            None => Err(LoomError::UnexpectedEof),
            Some(end) => match loom_frame_of(loom.subrange(lp + 4, end), bps) {
                Ok(f) => Ok(layout_channels(f.channel_layout)),
                Err(_) => Ok(1),
            },
        }
    } else {
        Ok(1)
    }
}

/// Fetching the next frame of track `t`: for the first track of a FLAC session, the FLAC
/// frame at bit `pos0` of its frames; otherwise the Loom frame at `lpos` of the Loom frames,
/// or, where it does not read, silence, with the Loom position moved to 4 bytes before the
/// next sync bytes after it (or to the end). Gives also the positions after it.
pub open spec fn fetch(
    old_format: bool,
    bits0: Seq<bool>,
    pos0: int,
    loom: Seq<u8>,
    lpos: int,
    bps: nat,
    t: nat,
    out_len: nat,
) -> Result<(Fetched, int, int), LoomError> {
    if t == 0 && !old_format {
        match parse_frame_flac(bits0, pos0, bps) {
            Ok((f, p)) => Ok((Fetched::Frame(f), p, lpos)),
            Err(e) => Err(e),
        }
    } else {
        match loom_slot(loom, lpos) {
            None => Err(LoomError::UnexpectedEof),
            Some(end) => match loom_frame_of(loom.subrange(lpos + 4, end), bps) {
                Ok(f) => Ok((Fetched::Frame(f), pos0, end)),
                Err(_) => {
                    let lp = match sync_from(loom, lpos + 4) {
                        Some(i) => i - 4,
                        None => loom.len() as int,
                    };
                    match silence_channels(loom, lp, bps, out_len) {
                        Ok(c) => Ok((Fetched::Silence(c), pos0, lp)),
                        Err(e) => Err(e),
                    }
                },
            },
        }
    }
}

/// What the frame loop reads: whether the session is Loom-only, the first track's FLAC
/// frames, the Loom frames, the bit depth, the number of tracks and the first track's
/// length.
pub struct FrameSource {
    pub old_format: bool,
    pub track0: Seq<u8>,
    pub loom: Seq<u8>,
    pub bps: nat,
    pub ntracks: nat,
    pub total0: nat,
}

/// The frame loop's state: the bit position in the first track's frames, the position in
/// the Loom frames, the block size of the first track's last FLAC frame, the first track's
/// residuals of the current block, the PCM decoded so far and the samples each track has.
pub struct DecodeState {
    pub pos0: int,
    pub lpos: int,
    pub bs0: u32,
    pub rf: Option<Seq<i64>>,
    pub out: Seq<Seq<Seq<i64>>>,
    pub counts: Seq<nat>,
}

/// `n` zeros.
pub open spec fn zeros(n: nat) -> Seq<i64> {
    Seq::new(n, |i: int| 0i64)
}

/// The PCM a fetched frame decodes to, its first channel's residuals and its block size.
pub open spec fn fetched_pcm(fe: Fetched, t: nat, st: DecodeState) -> Option<(Seq<Seq<i64>>, Seq<i64>, nat)> {
    match fe {
        Fetched::Frame(f) => if frame_decodes(f, t, st.rf) {
            Some((frame_pcm(f, t, st.rf), channel_residuals(f, 0, t, st.rf), f.block_size as nat))
        } else {
            None
        },
        Fetched::Silence(c) => Some((Seq::new(c, |ch: int| zeros(st.bs0 as nat)), zeros(st.bs0 as nat), st.bs0 as nat)),
    }
}

/// A track's channels with each of the first `pcm.len()` extended by the block.
pub open spec fn append_block(tr: Seq<Seq<i64>>, pcm: Seq<Seq<i64>>) -> Seq<Seq<i64>> {
    Seq::new(tr.len(), |ch: int| if ch < pcm.len() { tr[ch] + pcm[ch] } else { tr[ch] })
}

/// Decoding the next frame of track `t`: the block is appended to the track (whose channels
/// the first frame sets; a frame with more channels is invalid data), the track's count
/// grows by the block size (past `u64` is invalid data), and a block of the first track
/// gives the reference residuals. A frame that does not decode is invalid data.
#[verifier::opaque]
pub open spec fn step(src: FrameSource, t: nat, st: DecodeState) -> Result<DecodeState, LoomError> {
    match fetch(
        src.old_format,
        bytes_to_bits(src.track0),
        st.pos0,
        src.loom,
        st.lpos,
        src.bps,
        t,
        st.out[t as int].len(),
    ) {
        Err(e) => Err(e),
        Ok((fe, p0, lp)) => match fetched_pcm(fe, t, st) {
            None => Err(LoomError::InvalidData),
            Some((pcm, r0, bs)) => {
                let tr = if st.out[t as int].len() == 0 {
                    Seq::new(pcm.len(), |ch: int| Seq::<i64>::empty())
                } else {
                    st.out[t as int]
                };
                if pcm.len() > tr.len() || st.counts[t as int] + bs > u64::MAX {
                    Err(LoomError::InvalidData)
                } else {
                    Ok(
                        DecodeState {
                            pos0: p0,
                            lpos: lp,
                            bs0: match fe {
                                Fetched::Frame(f) => if t == 0 && !src.old_format {
                                    f.block_size
                                } else {
                                    st.bs0
                                },
                                Fetched::Silence(_) => st.bs0,
                            },
                            rf: if t == 0 {
                                Some(r0)
                            } else {
                                st.rf
                            },
                            out: st.out.update(t as int, append_block(tr, pcm)),
                            counts: st.counts.update(t as int, st.counts[t as int] + bs),
                        },
                    )
                }
            },
        },
    }
}

/// Decoding the next frame of each track from `t` on.
pub open spec fn steps(src: FrameSource, t: nat, st: DecodeState) -> Result<DecodeState, LoomError>
    decreases src.ntracks - t,
{
    if t >= src.ntracks {
        Ok(st)
    } else {
        match step(src, t, st) {
            Err(e) => Err(e),
            Ok(s2) => steps(src, t + 1, s2),
        }
    }
}

/// How many samples of the first track are still to come.
pub open spec fn remaining(src: FrameSource, st: DecodeState) -> nat {
    if st.counts[0] < src.total0 {
        (src.total0 - st.counts[0]) as nat
    } else {
        0
    }
}

/// Decoding rounds of one frame per track until the first track has its length; a round
/// that does not move the first track on is invalid data.
pub open spec fn rounds(src: FrameSource, st: DecodeState) -> Result<Seq<Seq<Seq<i64>>>, LoomError>
    decreases remaining(src, st),
{
    if st.counts[0] >= src.total0 {
        Ok(st.out)
    } else {
        match steps(src, 0, st) {
            Err(e) => Err(e),
            Ok(s2) => if s2.counts[0] > st.counts[0] {
                rounds(src, s2)
            } else {
                Err(LoomError::InvalidData)
            },
        }
    }
}

/// The state before the first frame.
pub open spec fn initial_state(ntracks: nat) -> DecodeState {
    DecodeState {
        pos0: 0,
        lpos: 0,
        bs0: 512,
        rf: None,
        out: Seq::new(ntracks, |t: int| Seq::<Seq<i64>>::empty()),
        counts: Seq::new(ntracks, |t: int| 0nat),
    }
}

proof fn lemma_sync_bounds(s: Seq<u8>, i: int)
    ensures
        sync_from(s, i) matches Some(k) ==> i <= k && k + 1 < s.len(),
    decreases s.len() - i,
{
    if i >= 0 && i + 1 < s.len() {
        lemma_sync_bounds(s, i + 1);
    }
}

proof fn lemma_sync_none(s: Seq<u8>, i: int)
    requires
        i >= 0,
        forall|j: int| i <= j && j + 1 < s.len() ==> !(#[trigger] s[j] == 0xF8 && s[j + 1] == 0xA5),
    ensures
        sync_from(s, i) is None,
    decreases s.len() - i,
{
    if i + 1 < s.len() {
        lemma_sync_none(s, i + 1);
    }
}

proof fn lemma_sync_some(s: Seq<u8>, i: int, k: int)
    requires
        0 <= i <= k,
        k + 1 < s.len(),
        s[k] == 0xF8 && s[k + 1] == 0xA5,
        forall|j: int| i <= j < k ==> !(#[trigger] s[j] == 0xF8 && s[j + 1] == 0xA5),
    ensures
        sync_from(s, i) == Some(k),
    decreases k - i,
{
    if i < k {
        lemma_sync_some(s, i + 1, k);
    }
}

/// The first index from `start` on where the sync bytes start, as `sync_from` says.
fn find_sync(data: &[u8], start: usize) -> (r: Option<usize>)
    ensures
        match sync_from(data@, start as int) {
            Some(i) => r is Some && r->Some_0 as int == i,
            None => r is None,
        },
        r matches Some(i) ==> start <= i < data@.len(),
{
    let r = Frame::scan_for_sync(data, start);
    proof {
        lemma_sync_bounds(data@, start as int);
        match r {
            Some(i) => lemma_sync_some(data@, start as int, i as int),
            None => lemma_sync_none(data@, start as int),
        }
    }
    r
}

/// The end of the Loom frame whose length is at `lpos`, as `loom_slot` says.
fn slot_end(loom: &[u8], lpos: usize) -> (r: Option<usize>)
    ensures
        match loom_slot(loom@, lpos as int) {
            Some(e) => r is Some && r->Some_0 as int == e && e <= loom@.len(),
            None => r is None,
        },
{
    if lpos > loom.len() || loom.len() - lpos < 4 {
        return None;
    }
    let len = match read_be(loom, lpos, 4) {
        Ok(v) => v,
        Err(_) => {
            return None;
        },
    };
    proof {
        vstd::arithmetic::power2::lemma2_to64();
    }
    if len > (loom.len() - lpos - 4) as u64 {
        return None;
    }
    Some(lpos + 4 + len as usize)
}

/// Reads the Loom frame that `loom[start..end]` holds, as `loom_frame_of` says.
fn frame_in(loom: &[u8], start: usize, end: usize, bps: usize) -> (r: Result<Frame, LoomError>)
    requires
        start <= end <= loom@.len(),
        loom@.len() <= usize::MAX / 8,
        bps <= 63,
    ensures
        match loom_frame_of(loom@.subrange(start as int, end as int), bps as nat) {
            Ok(f) => r is Ok && r->Ok_0@ == f,
            Err(e) => r == Err::<Frame, LoomError>(e),
        },
{
    reveal(loom_frame_of);
    let (head, _) = loom.split_at(end);
    let (_, sub) = head.split_at(start);
    proof {
        assert(sub@ =~= loom@.subrange(start as int, end as int));
    }
    let mut reader = BitReader::new(sub);
    let mut none: Vec<Vec<i64>> = Vec::new();
    let r = Frame::deserialize_loom(&mut reader, bps, none.as_mut_slice());
    proof {
        assert(sub@.subrange(0, sub@.len() as int) =~= sub@);
    }
    match r {
        Ok((f, _)) => Ok(f),
        Err(e) => Err(e),
    }
}

/// A fetched frame.
pub enum FetchedFrame {
    Frame(Frame),
    Silence(usize),
}

/// A fetched frame as plain values.
pub open spec fn fetched_view(f: FetchedFrame) -> Fetched {
    match f {
        FetchedFrame::Frame(x) => Fetched::Frame(x@),
        FetchedFrame::Silence(c) => Fetched::Silence(c as nat),
    }
}

/// Fetches the next frame of track `t` as `fetch` says.
#[verifier::rlimit(30)]
fn fetch_next(
    old_format: bool,
    reader0: &mut BitReader,
    loom: &[u8],
    lpos: usize,
    bps: usize,
    t: usize,
    out_len: usize,
) -> (r: Result<(FetchedFrame, usize), LoomError>)
    requires
        old(reader0).wf(),
        loom@.len() <= usize::MAX / 8,
        bps <= 63,
    ensures
        final(reader0).wf(),
        final(reader0).data() == old(reader0).data(),
        match fetch(
            old_format,
            old(reader0).bits(),
            old(reader0).pos() as int,
            loom@,
            lpos as int,
            bps as nat,
            t as nat,
            out_len as nat,
        ) {
            Ok((fe, p0, lp)) => r is Ok && fetched_view(r->Ok_0.0) == fe && final(reader0).pos() == p0
                && r->Ok_0.1 == lp,
            Err(e) => r == Err::<(FetchedFrame, usize), LoomError>(e),
        },
{
    if t == 0 && !old_format {
        let mut none: Vec<Vec<i64>> = Vec::new();
        return match Frame::deserialize_flac(reader0, bps, none.as_mut_slice()) {
            Ok(f) => Ok((FetchedFrame::Frame(f), lpos)),
            Err(e) => Err(e),
        };
    }
    let end = match slot_end(loom, lpos) {
        Some(e) => e,
        None => {
            return Err(LoomError::UnexpectedEof);
        },
    };
    match frame_in(loom, lpos + 4, end, bps) {
        Ok(f) => Ok((FetchedFrame::Frame(f), end)),
        Err(_) => {
            let lp = match find_sync(loom, lpos + 4) {
                Some(i) => i - 4,
                None => loom.len(),
            };
            if out_len > 0 {
                return Ok((FetchedFrame::Silence(out_len), lp));
            }
            if lp < loom.len() {
                let e2 = match slot_end(loom, lp) {
                    Some(e) => e,
                    None => {
                        return Err(LoomError::UnexpectedEof);
                    },
                };
                let c = match frame_in(loom, lp + 4, e2, bps) {
                    Ok(f) => f.channel_layout.channels() as usize,
                    Err(_) => 1,
                };
                return Ok((FetchedFrame::Silence(c), lp));
            }
            Ok((FetchedFrame::Silence(1), lp))
        },
    }
}

/// The PCM decoded so far, as plain values.
pub open spec fn out_view(out: Seq<Vec<Vec<i64>>>) -> Seq<Seq<Seq<i64>>> {
    out.map_values(|tr: Vec<Vec<i64>>| tr@.map_values(|c: Vec<i64>| c@))
}

/// The counts, as plain values.
pub open spec fn counts_view(c: Seq<u64>) -> Seq<nat> {
    c.map_values(|x: u64| x as nat)
}

/// The loop's state, as plain values.
pub open spec fn state_of(
    pos0: nat,
    lpos: usize,
    bs0: u32,
    rf: Option<Vec<i64>>,
    out: Seq<Vec<Vec<i64>>>,
    counts: Seq<u64>,
) -> DecodeState {
    DecodeState {
        pos0: pos0 as int,
        lpos: lpos as int,
        bs0,
        rf: ref_view(rf),
        out: out_view(out),
        counts: counts_view(counts),
    }
}

/// A block of zeros.
fn zeros_vec(n: usize) -> (r: Vec<i64>)
    ensures
        r@ == zeros(n as nat),
{
    let mut v: Vec<i64> = Vec::with_capacity(n);
    let mut i: usize = 0;
    while i < n
        invariant
            i <= n,
            v@ == zeros(i as nat),
        decreases n - i,
    {
        v.push(0);
        proof {
            assert(v@ =~= zeros((i + 1) as nat));
        }
        i = i + 1;
    }
    v
}

/// Silence over `c` channels of `n` samples.
fn silence(c: usize, n: usize) -> (r: Vec<Vec<i64>>)
    ensures
        r@.map_values(|v: Vec<i64>| v@) == Seq::new(c as nat, |ch: int| zeros(n as nat)),
{
    let mut out: Vec<Vec<i64>> = Vec::new();
    let mut k: usize = 0;
    while k < c
        invariant
            k <= c,
            out@.len() == k,
            forall|j: int| 0 <= j < k ==> #[trigger] out@[j]@ == zeros(n as nat),
        decreases c - k,
    {
        out.push(zeros_vec(n));
        k = k + 1;
    }
    proof {
        assert(out@.map_values(|v: Vec<i64>| v@) =~= Seq::new(c as nat, |ch: int| zeros(n as nat)));
    }
    out
}

/// Appends each channel of a block to the track's channel of the same index.
fn append_pcm(track: &mut Vec<Vec<i64>>, pcm: &Vec<Vec<i64>>)
    requires
        pcm@.len() <= old(track)@.len(),
    ensures
        final(track)@.map_values(|c: Vec<i64>| c@) == append_block(
            old(track)@.map_values(|c: Vec<i64>| c@),
            pcm@.map_values(|c: Vec<i64>| c@),
        ),
{
    let mut ch: usize = 0;
    while ch < pcm.len()
        invariant
            ch <= pcm@.len() <= track@.len(),
            track@.len() == old(track)@.len(),
            forall|c: int| 0 <= c < ch ==> #[trigger] track@[c]@ == old(track)@[c]@ + pcm@[c]@,
            forall|c: int| ch <= c < track@.len() ==> #[trigger] track@[c]@ == old(track)@[c]@,
        decreases pcm@.len() - ch,
    {
        let mut i: usize = 0;
        while i < pcm[ch].len()
            invariant
                ch < pcm@.len() <= track@.len(),
                track@.len() == old(track)@.len(),
                i <= pcm@[ch as int]@.len(),
                track@[ch as int]@ == old(track)@[ch as int]@ + pcm@[ch as int]@.take(i as int),
                forall|c: int| 0 <= c < ch ==> #[trigger] track@[c]@ == old(track)@[c]@ + pcm@[c]@,
                forall|c: int| ch < c < track@.len() ==> #[trigger] track@[c]@ == old(track)@[c]@,
            decreases pcm@[ch as int]@.len() - i,
        {
            let x = pcm[ch][i];
            track[ch].push(x);
            proof {
                assert(track@[ch as int]@ =~= old(track)@[ch as int]@ + pcm@[ch as int]@.take(i + 1));
            }
            i = i + 1;
        }
        proof {
            assert(pcm@[ch as int]@.take(i as int) =~= pcm@[ch as int]@);
        }
        ch = ch + 1;
    }
    proof {
        assert(track@.map_values(|c: Vec<i64>| c@) =~= append_block(
            old(track)@.map_values(|c: Vec<i64>| c@),
            pcm@.map_values(|c: Vec<i64>| c@),
        ));
    }
}

/// `n` empty channels.
fn empty_channels(n: usize) -> (r: Vec<Vec<i64>>)
    ensures
        r@.map_values(|c: Vec<i64>| c@) == Seq::new(n as nat, |ch: int| Seq::<i64>::empty()),
{
    let mut v: Vec<Vec<i64>> = Vec::new();
    let mut k: usize = 0;
    while k < n
        invariant
            k <= n,
            v@.len() == k,
            forall|j: int| 0 <= j < k ==> #[trigger] v@[j]@ == Seq::<i64>::empty(),
        decreases n - k,
    {
        v.push(Vec::new());
        k = k + 1;
    }
    proof {
        assert(v@.map_values(|c: Vec<i64>| c@) =~= Seq::new(n as nat, |ch: int| Seq::<i64>::empty()));
    }
    v
}

/// Decodes the next frame of track `t` as `step` says.
#[verifier::rlimit(40)]
fn decode_step(
    Ghost(src): Ghost<FrameSource>,
    old_format: bool,
    reader0: &mut BitReader,
    loom: &[u8],
    bps: usize,
    t: usize,
    lpos: &mut usize,
    bs0: &mut u32,
    rf: &mut Option<Vec<i64>>,
    out: &mut Vec<Vec<Vec<i64>>>,
    counts: &mut Vec<u64>,
) -> (r: Result<(), LoomError>)
    requires
        old(reader0).wf(),
        loom@.len() <= usize::MAX / 8,
        bps <= 63,
        t < old(out)@.len(),
        old(counts)@.len() == old(out)@.len(),
        src.old_format == old_format,
        src.track0 == old(reader0).data(),
        src.loom == loom@,
        src.bps == bps,
    ensures
        final(reader0).wf(),
        final(reader0).data() == old(reader0).data(),
        final(out)@.len() == old(out)@.len(),
        final(counts)@.len() == old(counts)@.len(),
        match step(
            src,
            t as nat,
            state_of(old(reader0).pos(), *old(lpos), *old(bs0), *old(rf), old(out)@, old(counts)@),
        ) {
            Ok(s2) => r is Ok && state_of(
                final(reader0).pos(),
                *final(lpos),
                *final(bs0),
                *final(rf),
                final(out)@,
                final(counts)@,
            ) == s2,
            Err(e) => r == Err::<(), LoomError>(e),
        },
{
    reveal(step);
    let ghost st = state_of(reader0.pos(), *lpos, *bs0, *rf, out@, counts@);
    let out_len = out[t].len();
    proof {
        assert(st.out[t as int].len() == out_len);
    }
    let (fe, lp) = match fetch_next(old_format, reader0, loom, *lpos, bps, t, out_len) {
        Ok(v) => v,
        Err(e) => {
            return Err(e);
        },
    };
    let (pcm, r0, bs, new_bs0) = match fe {
        FetchedFrame::Frame(f) => {
            match decode_frame(&f, t, rf) {
                Ok((pcm, r0)) => {
                    let nb = if t == 0 && !old_format {
                        f.block_size
                    } else {
                        *bs0
                    };
                    (pcm, r0, f.block_size, nb)
                },
                Err(e) => {
                    return Err(e);
                },
            }
        },
        FetchedFrame::Silence(c) => {
            let n = *bs0 as usize;
            (silence(c, n), zeros_vec(n), *bs0, *bs0)
        },
    };
    let ghost pv = pcm@.map_values(|c: Vec<i64>| c@);
    proof {
        assert(fetched_pcm(fetched_view(fe), t as nat, st) == Some((pv, r0@, bs as nat)));
    }
    let tr_len = if out_len == 0 {
        pcm.len()
    } else {
        out_len
    };
    if pcm.len() > tr_len {
        return Err(LoomError::InvalidData);
    }
    let cur = counts[t];
    if cur > u64::MAX - bs as u64 {
        return Err(LoomError::InvalidData);
    }
    let mut track = out.remove(t);
    if out_len == 0 {
        track = empty_channels(pcm.len());
    }
    let ghost tr0 = track@.map_values(|c: Vec<i64>| c@);
    proof {
        assert(tr0 == (if st.out[t as int].len() == 0 {
            Seq::new(pv.len(), |ch: int| Seq::<i64>::empty())
        } else {
            st.out[t as int]
        }));
    }
    append_pcm(&mut track, &pcm);
    let ghost out_before = out@;
    out.insert(t, track);
    counts.set(t, cur + bs as u64);
    *lpos = lp;
    *bs0 = new_bs0;
    if t == 0 {
        *rf = Some(r0);
    }
    proof {
        assert(out_view(out@) =~= st.out.update(t as int, append_block(tr0, pv)));
        assert(counts_view(counts@) =~= st.counts.update(t as int, st.counts[t as int] + bs as nat));
    }
    Ok(())
}

/// Runs the frame loop as `rounds` says, from the state before the first frame.
pub fn decode_rounds(
    old_format: bool,
    track0: &[u8],
    loom: &[u8],
    bps: usize,
    ntracks: usize,
    total0: u64,
) -> (r: Result<Vec<Vec<Vec<i64>>>, LoomError>)
    requires
        track0@.len() <= usize::MAX / 8,
        loom@.len() <= usize::MAX / 8,
        bps <= 63,
        ntracks > 0,
    ensures
        match rounds(
            FrameSource {
                old_format,
                track0: track0@,
                loom: loom@,
                bps: bps as nat,
                ntracks: ntracks as nat,
                total0: total0 as nat,
            },
            initial_state(ntracks as nat),
        ) {
            Ok(o) => r is Ok && out_view(r->Ok_0@) == o,
            Err(e) => r == Err::<Vec<Vec<Vec<i64>>>, LoomError>(e),
        },
{
    let ghost src = FrameSource {
        old_format,
        track0: track0@,
        loom: loom@,
        bps: bps as nat,
        ntracks: ntracks as nat,
        total0: total0 as nat,
    };
    let mut reader0 = BitReader::new(track0);
    let mut lpos: usize = 0;
    let mut bs0: u32 = 512;
    let mut rf: Option<Vec<i64>> = None;
    let mut out: Vec<Vec<Vec<i64>>> = Vec::new();
    let mut counts: Vec<u64> = Vec::new();
    let mut k: usize = 0;
    while k < ntracks
        invariant
            k <= ntracks,
            out@.len() == k,
            counts@.len() == k,
            forall|j: int| 0 <= j < k ==> #[trigger] out@[j]@.len() == 0,
            forall|j: int| 0 <= j < k ==> #[trigger] counts@[j] == 0,
        decreases ntracks - k,
    {
        out.push(Vec::new());
        counts.push(0);
        k = k + 1;
    }
    proof {
        let st = state_of(reader0.pos(), lpos, bs0, rf, out@, counts@);
        assert forall|j: int| 0 <= j < ntracks implies #[trigger] st.out[j] =~= Seq::<Seq<i64>>::empty() by {
            assert(out@[j]@.len() == 0);
        }
        assert(st.out =~= initial_state(ntracks as nat).out);
        assert(st.counts =~= initial_state(ntracks as nat).counts);
        assert(st == initial_state(ntracks as nat));
    }
    loop
        invariant
            src == (FrameSource {
                old_format,
                track0: track0@,
                loom: loom@,
                bps: bps as nat,
                ntracks: ntracks as nat,
                total0: total0 as nat,
            }),
            reader0.wf(),
            reader0.data() == track0@,
            loom@.len() <= usize::MAX / 8,
            bps <= 63,
            ntracks > 0,
            out@.len() == ntracks,
            counts@.len() == ntracks,
            rounds(src, initial_state(ntracks as nat)) == rounds(
                src,
                state_of(reader0.pos(), lpos, bs0, rf, out@, counts@),
            ),
        decreases remaining(src, state_of(reader0.pos(), lpos, bs0, rf, out@, counts@)),
    {
        let ghost st0 = state_of(reader0.pos(), lpos, bs0, rf, out@, counts@);
        if counts[0] >= total0 {
            return Ok(out);
        }
        let before = counts[0];
        let mut t: usize = 0;
        while t < ntracks
            invariant
                src == (FrameSource {
                    old_format,
                    track0: track0@,
                    loom: loom@,
                    bps: bps as nat,
                    ntracks: ntracks as nat,
                    total0: total0 as nat,
                }),
                t <= ntracks,
                st0.counts[0] == before,
                before < total0,
                rounds(src, initial_state(ntracks as nat)) == rounds(src, st0),
                reader0.wf(),
                reader0.data() == track0@,
                loom@.len() <= usize::MAX / 8,
                bps <= 63,
                out@.len() == ntracks,
                counts@.len() == ntracks,
                steps(src, 0, st0) == steps(
                    src,
                    t as nat,
                    state_of(reader0.pos(), lpos, bs0, rf, out@, counts@),
                ),
            decreases ntracks - t,
        {
            match decode_step(
                Ghost(src),
                old_format,
                &mut reader0,
                loom,
                bps,
                t,
                &mut lpos,
                &mut bs0,
                &mut rf,
                &mut out,
                &mut counts,
            ) {
                Ok(()) => {},
                Err(e) => {
                    proof {
                        assert(steps(src, 0, st0) == Err::<DecodeState, LoomError>(e));
                        assert(rounds(src, st0) == Err::<Seq<Seq<Seq<i64>>>, LoomError>(e));
                    }
                    return Err(e);
                },
            }
            t = t + 1;
        }
        let ghost st1 = state_of(reader0.pos(), lpos, bs0, rf, out@, counts@);
        proof {
            assert(steps(src, 0, st0) == Ok::<DecodeState, LoomError>(st1));
        }
        if counts[0] <= before {
            return Err(LoomError::InvalidData);
        }
    }
}

} // verus!
