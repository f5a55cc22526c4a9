use crate::container::header::{HeaderSpec, SessionHeader};
use crate::container::session_frames::out_view;
use crate::container::session_read::{decode_session_parts, decoded_view, session_decode};
use crate::error::LoomError;
use vstd::prelude::*;

verus! {

/// The channels of a decoded track, as plain values.
pub open spec fn channels_view(tr: Seq<Vec<i64>>) -> Seq<Seq<i64>> {
    tr.map_values(|c: Vec<i64>| c@)
}

/// Decoding the first track of a session: its channels and the header; a session without
/// tracks is invalid input.
pub open spec fn track_decode(d: Seq<u8>) -> Result<(Seq<Seq<i64>>, HeaderSpec), LoomError> {
    match session_decode(d) {
        Err(e) => Err(e),
        Ok(s) => if s.tracks.len() == 0 {
            Err(LoomError::InvalidInput)
        } else {
            Ok((s.tracks[0], s.header))
        },
    }
}

/// Decodes the first track of a session as `track_decode` says.
pub fn decode_track(session_bytes: &[u8]) -> (r: Result<(Vec<Vec<i64>>, SessionHeader), LoomError>)
    requires
        session_bytes@.len() <= usize::MAX / 8,
    ensures
        match track_decode(session_bytes@) {
            Ok((t, h)) => r is Ok && channels_view(r->Ok_0.0@) == t && r->Ok_0.1@ == h,
            Err(e) => r == Err::<(Vec<Vec<i64>>, SessionHeader), LoomError>(e),
        },
{
    let s = match decode_session_parts(session_bytes) {
        Ok(s) => s,
        Err(e) => {
            return Err(e);
        },
    };
    let mut tracks = s.tracks;
    if tracks.len() == 0 {
        return Err(LoomError::InvalidInput);
    }
    proof {
        assert(out_view(tracks@)[0] == channels_view(tracks@[0]@));
    }
    let first = tracks.remove(0);
    Ok((first, s.header))
}

/// Samples `start .. start + limit` of each channel of a track, cut at the first channel's
/// length: no channels give none; a start at or past the end gives empty channels; a
/// channel shorter than the cut leaves the data invalid.
pub open spec fn track_range(tr: Seq<Seq<i64>>, start: nat, limit: nat) -> Result<Seq<Seq<i64>>, LoomError> {
    if tr.len() == 0 {
        Ok(tr)
    } else if start >= tr[0].len() {
        Ok(Seq::new(tr.len(), |ch: int| Seq::<i64>::empty()))
    } else {
        let end: int = if start + limit < tr[0].len() {
            (start + limit) as int
        } else {
            tr[0].len() as int
        };
        if exists|ch: int| 0 <= ch < tr.len() && #[trigger] tr[ch].len() < end {
            Err(LoomError::InvalidData)
        } else {
            Ok(Seq::new(tr.len(), |ch: int| tr[ch].subrange(start as int, end)))
        }
    }
}

/// Decoding samples `start .. start + limit` of track `track_idx` of a session: a track
/// index past the tracks is invalid input; the range as `track_range` says.
pub open spec fn range_decode(d: Seq<u8>, track_idx: nat, start: nat, limit: nat) -> Result<
    (Seq<Seq<i64>>, HeaderSpec),
    LoomError,
> {
    match session_decode(d) {
        Err(e) => Err(e),
        Ok(s) => if track_idx >= s.tracks.len() {
            Err(LoomError::InvalidInput)
        } else {
            match track_range(s.tracks[track_idx as int], start, limit) {
                Err(e) => Err(e),
                Ok(r) => Ok((r, s.header)),
            }
        },
    }
}

/// What `decode_track` answers is track 0 of the decoded session, channel for channel, with
/// the session's header; it fails exactly where the session does not decode or has no
/// tracks.
pub proof fn lemma_track_decode_is_first_track(d: Seq<u8>)
    ensures
        track_decode(d) is Ok <==> (session_decode(d) is Ok && session_decode(d)->Ok_0.tracks.len() > 0),
        track_decode(d) matches Ok((t, h)) ==> {
            let s = session_decode(d)->Ok_0;
            &&& t.len() == s.tracks[0].len()
            &&& forall|ch: int| 0 <= ch < t.len() ==> #[trigger] t[ch] == s.tracks[0][ch]
            &&& h == s.header
        },
{
}

/// What `decode_track_partial` answers for track `idx` is, channel for channel, that
/// track's samples from `start` on: as many as `limit` allows and the first channel holds,
/// none where `start` is at or past its end; every channel of the track gives its own
/// samples, and the header is the session's.
pub proof fn lemma_range_decode_slices(d: Seq<u8>, idx: nat, start: nat, limit: nat)
    ensures
        session_decode(d) is Err ==> range_decode(d, idx, start, limit) == Err::<(Seq<Seq<i64>>, HeaderSpec), LoomError>(
            session_decode(d)->Err_0,
        ),
        session_decode(d) is Ok && idx >= session_decode(d)->Ok_0.tracks.len() ==> range_decode(d, idx, start, limit)
            == Err::<(Seq<Seq<i64>>, HeaderSpec), LoomError>(LoomError::InvalidInput),
        ({
            let tr = session_decode(d)->Ok_0.tracks[idx as int];
            session_decode(d) is Ok && idx < session_decode(d)->Ok_0.tracks.len() && (forall|ch: int|
                0 <= ch < tr.len() ==> #[trigger] tr[ch].len() >= tr[0].len()) ==> range_decode(d, idx, start, limit) is Ok
        }),
        range_decode(d, idx, start, limit) matches Ok((v, h)) ==> {
            let s = session_decode(d)->Ok_0;
            let tr = s.tracks[idx as int];
            let n: int = if tr.len() == 0 || start >= tr[0].len() {
                0
            } else if start + limit < tr[0].len() {
                limit as int
            } else {
                tr[0].len() - start
            };
            &&& session_decode(d) is Ok
            &&& idx < s.tracks.len()
            &&& h == s.header
            &&& v.len() == tr.len()
            &&& forall|ch: int| 0 <= ch < v.len() ==> #[trigger] v[ch].len() == n
            &&& forall|ch: int, i: int| 0 <= ch < v.len() && 0 <= i < n ==> #[trigger] v[ch][i] == tr[ch][start + i]
        },
{
}

/// Taking the whole of track 0 as a range gives what decoding the first track gives, each
/// channel cut to the first channel's length.
pub proof fn lemma_whole_range_is_first_track(d: Seq<u8>)
    ensures
        track_decode(d) matches Ok((t, h)) ==> (t.len() > 0 && (forall|ch: int|
            0 <= ch < t.len() ==> #[trigger] t[ch].len() >= t[0].len()) ==> range_decode(
            d,
            0,
            0,
            t[0].len(),
        ) == Ok::<(Seq<Seq<i64>>, HeaderSpec), LoomError>(
            (Seq::new(t.len(), |ch: int| t[ch].take(t[0].len() as int)), h),
        )),
{
    if let Ok((t, h)) = track_decode(d) {
        if t.len() > 0 && (forall|ch: int| 0 <= ch < t.len() ==> #[trigger] t[ch].len() >= t[0].len()) {
            if t[0].len() > 0 {
                assert(!exists|ch: int| 0 <= ch < t.len() && #[trigger] t[ch].len() < t[0].len());
                assert(Seq::new(t.len(), |ch: int| t[ch].subrange(0, t[0].len() as int)) =~= Seq::new(
                    t.len(),
                    |ch: int| t[ch].take(t[0].len() as int),
                ));
            } else {
                assert forall|ch: int| 0 <= ch < t.len() implies #[trigger] t[ch].take(0) == Seq::<i64>::empty() by {
                    assert(t[ch].take(0) =~= Seq::<i64>::empty());
                }
                assert(Seq::new(t.len(), |ch: int| Seq::<i64>::empty()) =~= Seq::new(
                    t.len(),
                    |ch: int| t[ch].take(t[0].len() as int),
                ));
            }
        }
    }
}

/// Samples `start .. end` of a channel.
fn copy_samples_range(src: &Vec<i64>, start: usize, end: usize) -> (r: Vec<i64>)
    requires
        start <= end <= src@.len(),
    ensures
        r@ == src@.subrange(start as int, end as int),
{
    let mut v: Vec<i64> = Vec::with_capacity(end - start);
    let mut i = start;
    while i < end
        invariant
            start <= i <= end,
            end <= src@.len(),
            v@ == src@.subrange(start as int, i as int),
        decreases end - i,
    {
        v.push(src[i]);
        proof {
            assert(v@ =~= src@.subrange(start as int, i + 1));
        }
        i = i + 1;
    }
    v
}

/// The range of a track as `track_range` says.
fn slice_track(track: &Vec<Vec<i64>>, start_sample: u64, limit_samples: usize) -> (r: Result<
    Vec<Vec<i64>>,
    LoomError,
>)
    ensures
        match track_range(channels_view(track@), start_sample as nat, limit_samples as nat) {
            Ok(t) => r is Ok && channels_view(r->Ok_0@) == t,
            Err(e) => r == Err::<Vec<Vec<i64>>, LoomError>(e),
        },
{
    let ghost tv = channels_view(track@);
    let n = track.len();
    let mut out: Vec<Vec<i64>> = Vec::new();
    if n == 0 {
        proof {
            assert(channels_view(out@) =~= tv);
        }
        return Ok(out);
    }
    let len0 = track[0].len();
    if start_sample >= len0 as u64 {
        let mut k: usize = 0;
        while k < n
            invariant
                k <= n,
                out@.len() == k,
                forall|j: int| 0 <= j < k ==> #[trigger] out@[j]@ == Seq::<i64>::empty(),
            decreases n - k,
        {
            out.push(Vec::new());
            k = k + 1;
        }
        proof {
            assert(channels_view(out@) =~= Seq::new(tv.len(), |ch: int| Seq::<i64>::empty()));
        }
        return Ok(out);
    }
    let start = start_sample as usize;
    let end = if limit_samples < len0 - start {
        start + limit_samples
    } else {
        len0
    };
    let ghost spec_end: int = if start_sample + limit_samples < tv[0].len() {
        (start_sample + limit_samples) as int
    } else {
        tv[0].len() as int
    };
    proof {
        assert(tv[0].len() == len0);
        assert(end as int == spec_end);
    }
    let mut ch: usize = 0;
    while ch < n
        invariant
            ch <= n,
            n == track@.len(),
            tv == channels_view(track@),
            start <= end,
            end as int == spec_end,
            n > 0,
            start as nat == start_sample,
            start_sample < tv[0].len(),
            spec_end == (if start_sample + limit_samples < tv[0].len() {
                (start_sample + limit_samples) as int
            } else {
                tv[0].len() as int
            }),
            out@.len() == ch,
            forall|c: int| 0 <= c < ch ==> #[trigger] track@[c]@.len() >= end,
            forall|c: int| 0 <= c < ch ==> #[trigger] out@[c]@ == track@[c]@.subrange(start as int, end as int),
        decreases n - ch,
    {
        if track[ch].len() < end {
            proof {
                assert(tv[ch as int].len() < end);
            }
            return Err(LoomError::InvalidData);
        }
        out.push(copy_samples_range(&track[ch], start, end));
        ch = ch + 1;
    }
    proof {
        assert(!exists|c: int| 0 <= c < tv.len() && #[trigger] tv[c].len() < end);
        assert(channels_view(out@) =~= Seq::new(tv.len(), |c: int| tv[c].subrange(start as int, end as int)));
    }
    Ok(out)
}

/// Decodes samples `start_sample .. start_sample + limit_samples` of track `track_idx` of
/// a session, as `range_decode` says.
pub fn decode_track_partial(
    session_bytes: &[u8],
    track_idx: usize,
    start_sample: u64,
    limit_samples: usize,
) -> (r: Result<(Vec<Vec<i64>>, SessionHeader), LoomError>)
    requires
        session_bytes@.len() <= usize::MAX / 8,
    ensures
        match range_decode(session_bytes@, track_idx as nat, start_sample as nat, limit_samples as nat) {
            Ok((t, h)) => r is Ok && channels_view(r->Ok_0.0@) == t && r->Ok_0.1@ == h,
            Err(e) => r == Err::<(Vec<Vec<i64>>, SessionHeader), LoomError>(e),
        },
{
    let s = match decode_session_parts(session_bytes) {
        Ok(s) => s,
        Err(e) => {
            return Err(e);
        },
    };
    if track_idx >= s.tracks.len() {
        return Err(LoomError::InvalidInput);
    }
    proof {
        assert(out_view(s.tracks@)[track_idx as int] == channels_view(s.tracks@[track_idx as int]@));
    }
    match slice_track(&s.tracks[track_idx], start_sample, limit_samples) {
        Ok(t) => Ok((t, s.header)),
        Err(e) => Err(e),
    }
}

} // verus!
