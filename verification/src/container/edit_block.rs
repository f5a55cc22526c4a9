use crate::container::bytes::{be_bytes, be_val, lemma_be_exact, push_all, push_be, read_be};
use vstd::arithmetic::power2::{lemma2_to64, lemma2_to64_rest};
use crate::edit::schema::{fade_code, Fade, FadeShape, GainPoint, MuteRegion, TrackEdits, TrackEditsSpec};
use crate::container::header::{parse_header, SessionHeader};
use crate::error::LoomError;
use vstd::prelude::*;

verus! {

/// The non-destructive edits of a session, track by track, each track at most once.
#[derive(Clone, Debug)]
pub struct EditBlock {
    pub tracks_edits: Vec<(u16, TrackEdits)>,
}

/// The edits as plain values.
pub open spec fn edits_view(es: Seq<(u16, TrackEdits)>) -> Seq<(u16, TrackEditsSpec)> {
    es.map_values(|p: (u16, TrackEdits)| (p.0, p.1@))
}

impl View for EditBlock {
    type V = Seq<(u16, TrackEditsSpec)>;

    open spec fn view(&self) -> Seq<(u16, TrackEditsSpec)> {
        edits_view(self.tracks_edits@)
    }
}

/// The last index holding track `k`, or -1.
pub open spec fn track_pos(es: Seq<(u16, TrackEditsSpec)>, k: u16) -> int
    decreases es.len(),
{
    if es.len() == 0 {
        -1
    } else if es.last().0 == k {
        es.len() - 1
    } else {
        track_pos(es.drop_last(), k)
    }
}

/// Setting the edits of track `k`: replaced where the track is, else added at the end.
pub open spec fn edits_insert(es: Seq<(u16, TrackEditsSpec)>, k: u16, e: TrackEditsSpec) -> Seq<
    (u16, TrackEditsSpec),
> {
    if track_pos(es, k) >= 0 {
        es.update(track_pos(es, k), (k, e))
    } else {
        es.push((k, e))
    }
}

/// A mute region: start and end, 8 big-endian bytes each.
pub open spec fn mute_bytes(m: MuteRegion) -> Seq<u8> {
    be_bytes(m.start_sample as nat, 8) + be_bytes(m.end_sample as nat, 8)
}

/// A fade: start and end, 8 bytes each, the shape's code and 1 for a fade in, else 0.
pub open spec fn fade_bytes(f: Fade) -> Seq<u8> {
    be_bytes(f.start_sample as nat, 8) + be_bytes(f.end_sample as nat, 8) + seq![
        fade_code(f.shape),
        if f.is_fade_in {
            1u8
        } else {
            0u8
        },
    ]
}

/// A gain point: its offset in 8 bytes and its float's bits in 4.
pub open spec fn gain_bytes(g: GainPoint) -> Seq<u8> {
    be_bytes(g.sample_offset as nat, 8) + be_bytes(g.gain_bits as nat, 4)
}

/// Mute regions one after another.
pub open spec fn mutes_bytes(ms: Seq<MuteRegion>) -> Seq<u8>
    decreases ms.len(),
{
    if ms.len() == 0 {
        Seq::empty()
    } else {
        mutes_bytes(ms.drop_last()) + mute_bytes(ms.last())
    }
}

/// Fades one after another.
pub open spec fn fades_bytes(fs: Seq<Fade>) -> Seq<u8>
    decreases fs.len(),
{
    if fs.len() == 0 {
        Seq::empty()
    } else {
        fades_bytes(fs.drop_last()) + fade_bytes(fs.last())
    }
}

/// Gain points one after another.
pub open spec fn gains_bytes(gs: Seq<GainPoint>) -> Seq<u8>
    decreases gs.len(),
{
    if gs.len() == 0 {
        Seq::empty()
    } else {
        gains_bytes(gs.drop_last()) + gain_bytes(gs.last())
    }
}

/// A track's edits: the track in 2 bytes, then the mutes, the fades and the gain points,
/// each run after its count in 4 bytes.
pub open spec fn entry_bytes(p: (u16, TrackEditsSpec)) -> Seq<u8> {
    be_bytes(p.0 as nat, 2) + be_bytes(p.1.mutes.len(), 4) + mutes_bytes(p.1.mutes) + be_bytes(
        p.1.fades.len(),
        4,
    ) + fades_bytes(p.1.fades) + be_bytes(p.1.gain_points.len(), 4) + gains_bytes(p.1.gain_points)
}

/// Tracks' edits one after another.
pub open spec fn entries_bytes(es: Seq<(u16, TrackEditsSpec)>) -> Seq<u8>
    decreases es.len(),
{
    if es.len() == 0 {
        Seq::empty()
    } else {
        entries_bytes(es.drop_last()) + entry_bytes(es.last())
    }
}

/// The body of an edit block: the track count in 2 bytes, then each track's edits (counts
/// keep their low bits).
pub open spec fn edit_body(es: Seq<(u16, TrackEditsSpec)>) -> Seq<u8> {
    be_bytes(es.len(), 2) + entries_bytes(es)
}

/// A framed edit block: the tag byte 1, the body's length in 4 bytes, the body.
pub open spec fn edit_bytes(es: Seq<(u16, TrackEditsSpec)>) -> Seq<u8> {
    seq![1u8] + be_bytes(edit_body(es).len(), 4) + edit_body(es)
}

/// Reading `n` more mute regions after `acc`.
pub open spec fn parse_mutes(d: Seq<u8>, pos: int, n: nat, acc: Seq<MuteRegion>) -> Result<
    (Seq<MuteRegion>, int),
    LoomError,
>
    decreases n,
{
    if n == 0 {
        Ok((acc, pos))
    } else if pos < 0 || pos + 16 > d.len() {
        Err(LoomError::UnexpectedEof)
    } else {
        parse_mutes(
            d,
            pos + 16,
            (n - 1) as nat,
            acc.push(
                MuteRegion {
                    start_sample: be_val(d.subrange(pos, pos + 8)) as u64,
                    end_sample: be_val(d.subrange(pos + 8, pos + 16)) as u64,
                },
            ),
        )
    }
}

/// The shape coded `c`, if any.
pub open spec fn shape_of(c: u8) -> Option<FadeShape> {
    if c == 0 {
        Some(FadeShape::Linear)
    } else if c == 1 {
        Some(FadeShape::SCurve)
    } else if c == 2 {
        Some(FadeShape::Exponential)
    } else {
        None
    }
}

/// Reading `n` more fades after `acc`: an unknown shape code is invalid data.
pub open spec fn parse_fades(d: Seq<u8>, pos: int, n: nat, acc: Seq<Fade>) -> Result<(Seq<Fade>, int), LoomError>
    decreases n,
{
    if n == 0 {
        Ok((acc, pos))
    } else if pos < 0 || pos + 17 > d.len() {
        Err(LoomError::UnexpectedEof)
    } else {
        match shape_of(d[pos + 16]) {
            None => Err(LoomError::InvalidData),
            Some(sh) => if pos + 18 > d.len() {
                Err(LoomError::UnexpectedEof)
            } else {
                parse_fades(
                    d,
                    pos + 18,
                    (n - 1) as nat,
                    acc.push(
                        Fade {
                            start_sample: be_val(d.subrange(pos, pos + 8)) as u64,
                            end_sample: be_val(d.subrange(pos + 8, pos + 16)) as u64,
                            shape: sh,
                            is_fade_in: d[pos + 17] != 0,
                        },
                    ),
                )
            },
        }
    }
}

/// Reading `n` more gain points after `acc`.
pub open spec fn parse_gains(d: Seq<u8>, pos: int, n: nat, acc: Seq<GainPoint>) -> Result<
    (Seq<GainPoint>, int),
    LoomError,
>
    decreases n,
{
    if n == 0 {
        Ok((acc, pos))
    } else if pos < 0 || pos + 12 > d.len() {
        Err(LoomError::UnexpectedEof)
    } else {
        parse_gains(
            d,
            pos + 12,
            (n - 1) as nat,
            acc.push(
                GainPoint {
                    sample_offset: be_val(d.subrange(pos, pos + 8)) as u64,
                    gain_bits: be_val(d.subrange(pos + 8, pos + 12)) as u32,
                },
            ),
        )
    }
}

/// Reading one track's edits at `pos`: the track and the edits, and the position after.
pub open spec fn parse_entry(d: Seq<u8>, pos: int) -> Result<((u16, TrackEditsSpec), int), LoomError> {
    if pos < 0 || pos + 6 > d.len() {
        Err(LoomError::UnexpectedEof)
    } else {
        match parse_mutes(d, pos + 6, be_val(d.subrange(pos + 2, pos + 6)), seq![]) {
            Err(e) => Err(e),
            Ok((ms, p1)) => if p1 + 4 > d.len() {
                Err(LoomError::UnexpectedEof)
            } else {
                match parse_fades(d, p1 + 4, be_val(d.subrange(p1, p1 + 4)), seq![]) {
                    Err(e) => Err(e),
                    Ok((fs, p2)) => if p2 + 4 > d.len() {
                        Err(LoomError::UnexpectedEof)
                    } else {
                        match parse_gains(d, p2 + 4, be_val(d.subrange(p2, p2 + 4)), seq![]) {
                            Err(e) => Err(e),
                            Ok((gs, p3)) => Ok(
                                (
                                    (
                                        be_val(d.subrange(pos, pos + 2)) as u16,
                                        TrackEditsSpec { mutes: ms, fades: fs, gain_points: gs },
                                    ),
                                    p3,
                                ),
                            ),
                        }
                    },
                }
            },
        }
    }
}

/// Reading `n` more tracks' edits after `acc`; a track read again replaces its edits.
pub open spec fn parse_entries(d: Seq<u8>, pos: int, n: nat, acc: Seq<(u16, TrackEditsSpec)>) -> Result<
    (Seq<(u16, TrackEditsSpec)>, int),
    LoomError,
>
    decreases n,
{
    if n == 0 {
        Ok((acc, pos))
    } else {
        match parse_entry(d, pos) {
            Err(e) => Err(e),
            Ok((p, q)) => parse_entries(d, q, (n - 1) as nat, edits_insert(acc, p.0, p.1)),
        }
    }
}

/// Reading the body of an edit block at `pos`: the edits and the position after them.
pub open spec fn parse_edit(d: Seq<u8>, pos: int) -> Result<(Seq<(u16, TrackEditsSpec)>, int), LoomError> {
    if pos < 0 || pos + 2 > d.len() {
        Err(LoomError::UnexpectedEof)
    } else {
        parse_entries(d, pos + 2, be_val(d.subrange(pos, pos + 2)), seq![])
    }
}

fn read_mutes(data: &[u8], pos: usize, n: usize) -> (r: Result<(Vec<MuteRegion>, usize), LoomError>)
    ensures
        match parse_mutes(data@, pos as int, n as nat, seq![]) {
            Ok((ms, p)) => r is Ok && r->Ok_0.0@ == ms && r->Ok_0.1 == p,
            Err(e) => r == Err::<(Vec<MuteRegion>, usize), LoomError>(e),
        },
{
    let mut out: Vec<MuteRegion> = Vec::new();
    let mut p = pos;
    let mut i: usize = 0;
    while i < n
        invariant
            i <= n,
            parse_mutes(data@, pos as int, n as nat, seq![]) == parse_mutes(data@, p as int, (n - i) as nat, out@),
        decreases n - i,
    {
        proof {
            vstd::arithmetic::power2::lemma2_to64();
            vstd::arithmetic::power2::lemma2_to64_rest();
        }
        if p > data.len() || data.len() - p < 16 {
            return Err(LoomError::UnexpectedEof);
        }
        let s = match read_be(data, p, 8) {
            Ok(v) => v,
            Err(e) => {
                return Err(e);
            },
        };
        let e = match read_be(data, p + 8, 8) {
            Ok(v) => v,
            Err(e) => {
                return Err(e);
            },
        };
        out.push(MuteRegion { start_sample: s, end_sample: e });
        p = p + 16;
        i = i + 1;
    }
    Ok((out, p))
}

fn read_fades(data: &[u8], pos: usize, n: usize) -> (r: Result<(Vec<Fade>, usize), LoomError>)
    ensures
        match parse_fades(data@, pos as int, n as nat, seq![]) {
            Ok((fs, p)) => r is Ok && r->Ok_0.0@ == fs && r->Ok_0.1 == p,
            Err(e) => r == Err::<(Vec<Fade>, usize), LoomError>(e),
        },
{
    let mut out: Vec<Fade> = Vec::new();
    let mut p = pos;
    let mut i: usize = 0;
    while i < n
        invariant
            i <= n,
            parse_fades(data@, pos as int, n as nat, seq![]) == parse_fades(data@, p as int, (n - i) as nat, out@),
        decreases n - i,
    {
        proof {
            vstd::arithmetic::power2::lemma2_to64();
            vstd::arithmetic::power2::lemma2_to64_rest();
        }
        if p > data.len() || data.len() - p < 17 {
            return Err(LoomError::UnexpectedEof);
        }
        let shape = match FadeShape::from_code(data[p + 16]) {
            Some(sh) => sh,
            None => {
                return Err(LoomError::InvalidData);
            },
        };
        proof {
            assert(shape_of(data@[p + 16]) == Some(shape));
        }
        if data.len() - p < 18 {
            return Err(LoomError::UnexpectedEof);
        }
        let s = match read_be(data, p, 8) {
            Ok(v) => v,
            Err(e) => {
                return Err(e);
            },
        };
        let e = match read_be(data, p + 8, 8) {
            Ok(v) => v,
            Err(e) => {
                return Err(e);
            },
        };
        out.push(Fade { start_sample: s, end_sample: e, shape, is_fade_in: data[p + 17] != 0 });
        p = p + 18;
        i = i + 1;
    }
    Ok((out, p))
}

fn read_gains(data: &[u8], pos: usize, n: usize) -> (r: Result<(Vec<GainPoint>, usize), LoomError>)
    ensures
        match parse_gains(data@, pos as int, n as nat, seq![]) {
            Ok((gs, p)) => r is Ok && r->Ok_0.0@ == gs && r->Ok_0.1 == p,
            Err(e) => r == Err::<(Vec<GainPoint>, usize), LoomError>(e),
        },
{
    let mut out: Vec<GainPoint> = Vec::new();
    let mut p = pos;
    let mut i: usize = 0;
    while i < n
        invariant
            i <= n,
            parse_gains(data@, pos as int, n as nat, seq![]) == parse_gains(data@, p as int, (n - i) as nat, out@),
        decreases n - i,
    {
        proof {
            vstd::arithmetic::power2::lemma2_to64();
            vstd::arithmetic::power2::lemma2_to64_rest();
        }
        if p > data.len() || data.len() - p < 12 {
            return Err(LoomError::UnexpectedEof);
        }
        let o = match read_be(data, p, 8) {
            Ok(v) => v,
            Err(e) => {
                return Err(e);
            },
        };
        let g = match read_be(data, p + 8, 4) {
            Ok(v) => v as u32,
            Err(e) => {
                return Err(e);
            },
        };
        out.push(GainPoint { sample_offset: o, gain_bits: g });
        p = p + 12;
        i = i + 1;
    }
    Ok((out, p))
}

fn read_entry(data: &[u8], pos: usize) -> (r: Result<((u16, TrackEdits), usize), LoomError>)
    ensures
        match parse_entry(data@, pos as int) {
            Ok((e, p)) => r is Ok && r->Ok_0.0.0 == e.0 && r->Ok_0.0.1@ == e.1 && r->Ok_0.1 == p,
            Err(e) => r == Err::<((u16, TrackEdits), usize), LoomError>(e),
        },
{
    proof {
        vstd::arithmetic::power2::lemma2_to64();
        vstd::arithmetic::power2::lemma2_to64_rest();
    }
    if pos > data.len() || data.len() - pos < 6 {
        return Err(LoomError::UnexpectedEof);
    }
    let t = match read_be(data, pos, 2) {
        Ok(v) => v as u16,
        Err(e) => {
            return Err(e);
        },
    };
    let nm = match read_be(data, pos + 2, 4) {
        Ok(v) => v as usize,
        Err(e) => {
            return Err(e);
        },
    };
    let (mutes, p1) = match read_mutes(data, pos + 6, nm) {
        Ok(x) => x,
        Err(e) => {
            return Err(e);
        },
    };
    if p1 > data.len() || data.len() - p1 < 4 {
        return Err(LoomError::UnexpectedEof);
    }
    let nf = match read_be(data, p1, 4) {
        Ok(v) => v as usize,
        Err(e) => {
            return Err(e);
        },
    };
    let (fades, p2) = match read_fades(data, p1 + 4, nf) {
        Ok(x) => x,
        Err(e) => {
            return Err(e);
        },
    };
    if p2 > data.len() || data.len() - p2 < 4 {
        return Err(LoomError::UnexpectedEof);
    }
    let ng = match read_be(data, p2, 4) {
        Ok(v) => v as usize,
        Err(e) => {
            return Err(e);
        },
    };
    let (gain_points, p3) = match read_gains(data, p2 + 4, ng) {
        Ok(x) => x,
        Err(e) => {
            return Err(e);
        },
    };
    Ok(((t, TrackEdits { mutes, fades, gain_points }), p3))
}

/// The last index of `es` holding track `k`, as `track_pos` says.
fn find_track(es: &Vec<(u16, TrackEdits)>, k: u16) -> (r: Option<usize>)
    ensures
        match r {
            Some(i) => track_pos(edits_view(es@), k) == i as int,
            None => track_pos(edits_view(es@), k) == -1,
        },
{
    let mut i = es.len();
    proof {
        assert(es@.take(es@.len() as int) =~= es@);
    }
    while i > 0
        invariant
            i <= es@.len(),
            track_pos(edits_view(es@), k) == track_pos(edits_view(es@.take(i as int)), k),
        decreases i,
    {
        proof {
            assert(edits_view(es@.take(i as int)).drop_last() =~= edits_view(es@.take(i - 1)));
        }
        if es[i - 1].0 == k {
            return Some(i - 1);
        }
        i = i - 1;
    }
    proof {
        assert(edits_view(es@.take(0)) =~= Seq::<(u16, TrackEditsSpec)>::empty());
    }
    None
}

proof fn lemma_track_pos_bound(es: Seq<(u16, TrackEditsSpec)>, k: u16)
    ensures
        -1 <= track_pos(es, k) < es.len(),
        track_pos(es, k) >= 0 ==> es[track_pos(es, k)].0 == k,
    decreases es.len(),
{
    if es.len() > 0 && es.last().0 != k {
        lemma_track_pos_bound(es.drop_last(), k);
    }
}

impl EditBlock {
    /// No edits.
    pub fn new() -> (r: Self)
        ensures
            r@.len() == 0,
    {
        EditBlock { tracks_edits: Vec::new() }
    }

    /// Appends the framed block to `out` as `edit_bytes` says.
    pub fn serialize(&self, out: &mut Vec<u8>)
        ensures
            final(out)@ == old(out)@ + edit_bytes(self@),
    {
        let ghost es = self@;
        let mut body: Vec<u8> = Vec::new();
        push_be(&mut body, self.tracks_edits.len() as u64, 2);
        let ghost head = body@;
        let mut t: usize = 0;
        proof {
            assert(es.take(0) =~= Seq::<(u16, TrackEditsSpec)>::empty());
        }
        while t < self.tracks_edits.len()
            invariant
                t <= self.tracks_edits@.len(),
                es == self@,
                body@ == head + entries_bytes(es.take(t as int)),
            decreases self.tracks_edits@.len() - t,
        {
            let (tid, e) = &self.tracks_edits[t];
            proof {
                assert(es[t as int] == (*tid, e@));
                assert(es.take(t + 1).drop_last() =~= es.take(t as int));
            }
            let ghost before = body@;
            push_be(&mut body, *tid as u64, 2);
            push_be(&mut body, e.mutes.len() as u64, 4);
            let ghost m0 = body@;
            let mut i: usize = 0;
            while i < e.mutes.len()
                invariant
                    i <= e.mutes@.len(),
                    body@ == m0 + mutes_bytes(e.mutes@.take(i as int)),
                decreases e.mutes@.len() - i,
            {
                push_be(&mut body, e.mutes[i].start_sample, 8);
                push_be(&mut body, e.mutes[i].end_sample, 8);
                proof {
                    assert(e.mutes@.take(i + 1).drop_last() =~= e.mutes@.take(i as int));
                    assert(body@ =~= m0 + mutes_bytes(e.mutes@.take(i + 1)));
                }
                i = i + 1;
            }
            push_be(&mut body, e.fades.len() as u64, 4);
            let ghost f0 = body@;
            let mut i: usize = 0;
            while i < e.fades.len()
                invariant
                    i <= e.fades@.len(),
                    body@ == f0 + fades_bytes(e.fades@.take(i as int)),
                decreases e.fades@.len() - i,
            {
                let f = e.fades[i];
                push_be(&mut body, f.start_sample, 8);
                push_be(&mut body, f.end_sample, 8);
                let code: u8 = match f.shape {
                    FadeShape::Linear => 0,
                    FadeShape::SCurve => 1,
                    FadeShape::Exponential => 2,
                };
                body.push(code);
                body.push(
                    if f.is_fade_in {
                        1
                    } else {
                        0
                    },
                );
                proof {
                    assert(e.fades@.take(i + 1).drop_last() =~= e.fades@.take(i as int));
                    assert(body@ =~= f0 + fades_bytes(e.fades@.take(i + 1)));
                }
                i = i + 1;
            }
            push_be(&mut body, e.gain_points.len() as u64, 4);
            let ghost g0 = body@;
            let mut i: usize = 0;
            while i < e.gain_points.len()
                invariant
                    i <= e.gain_points@.len(),
                    body@ == g0 + gains_bytes(e.gain_points@.take(i as int)),
                decreases e.gain_points@.len() - i,
            {
                push_be(&mut body, e.gain_points[i].sample_offset, 8);
                push_be(&mut body, e.gain_points[i].gain_bits as u64, 4);
                proof {
                    assert(e.gain_points@.take(i + 1).drop_last() =~= e.gain_points@.take(i as int));
                    assert(body@ =~= g0 + gains_bytes(e.gain_points@.take(i + 1)));
                }
                i = i + 1;
            }
            proof {
                assert(e.mutes@.take(e.mutes@.len() as int) =~= e.mutes@);
                assert(e.fades@.take(e.fades@.len() as int) =~= e.fades@);
                assert(e.gain_points@.take(e.gain_points@.len() as int) =~= e.gain_points@);
                assert(body@ =~= before + entry_bytes((*tid, e@)));
                assert(body@ =~= head + entries_bytes(es.take(t + 1)));
            }
            t = t + 1;
        }
        proof {
            assert(es.take(es.len() as int) =~= es);
            assert(body@ =~= edit_body(es));
        }
        out.push(0x01);
        push_be(out, body.len() as u64, 4);
        push_all(out, body.as_slice());
        proof {
            assert(final(out)@ =~= old(out)@ + edit_bytes(es));
        }
    }

    /// Reads an edit block's body at `pos` of `data` as `parse_edit` says; gives it and the
    /// position after it.
    pub fn deserialize(data: &[u8], pos: usize) -> (r: Result<(EditBlock, usize), LoomError>)
        ensures
            match parse_edit(data@, pos as int) {
                Ok((es, p)) => r is Ok && r->Ok_0.0@ == es && r->Ok_0.1 == p,
                Err(e) => r == Err::<(EditBlock, usize), LoomError>(e),
            },
    {
        proof {
            vstd::arithmetic::power2::lemma2_to64();
        }
        if pos > data.len() || data.len() - pos < 2 {
            return Err(LoomError::UnexpectedEof);
        }
        let nt = match read_be(data, pos, 2) {
            Ok(v) => v as usize,
            Err(e) => {
                return Err(e);
            },
        };
        let ghost n = nt as nat;
        let mut edits: Vec<(u16, TrackEdits)> = Vec::new();
        let mut q = pos + 2;
        let mut i: usize = 0;
        proof {
            assert(edits_view(edits@) =~= seq![]);
        }
        while i < nt
            invariant
                i <= nt,
                n == nt,
                parse_edit(data@, pos as int) == parse_entries(data@, q as int, (n - i) as nat, edits_view(edits@)),
            decreases nt - i,
        {
            let ((t, e), q2) = match read_entry(data, q) {
                Ok(x) => x,
                Err(err) => {
                    return Err(err);
                },
            };
            let ghost before = edits_view(edits@);
            match find_track(&edits, t) {
                Some(k) => {
                    proof {
                        lemma_track_pos_bound(before, t);
                    }
                    edits.set(k, (t, e));
                },
                None => {
                    edits.push((t, e));
                },
            }
            proof {
                assert(edits_view(edits@) =~= edits_insert(before, t, e@));
            }
            q = q2;
            i = i + 1;
        }
        Ok((EditBlock { tracks_edits: edits }, q))
    }
}


/// Edits that read back: at most 65535 tracks, each at most once, and fewer than `2^32`
/// mutes, fades and gain points per track.
pub open spec fn edits_readable(es: Seq<(u16, TrackEditsSpec)>) -> bool {
    &&& es.len() <= 0xFFFF
    &&& forall|i: int, j: int| 0 <= i < j < es.len() ==> #[trigger] es[i].0 != #[trigger] es[j].0
    &&& forall|i: int|
        0 <= i < es.len() ==> {
            &&& (#[trigger] es[i]).1.mutes.len() < 0x1_0000_0000
            &&& es[i].1.fades.len() < 0x1_0000_0000
            &&& es[i].1.gain_points.len() < 0x1_0000_0000
        }
}

/// Reading one more mute region after `n` of them.
proof fn lemma_parse_mutes_last(d: Seq<u8>, pos: int, n: nat, acc: Seq<MuteRegion>)
    ensures
        parse_mutes(d, pos, n + 1, acc) == match parse_mutes(d, pos, n, acc) {
            Err(e) => Err(e),
            Ok((a, p)) => parse_mutes(d, p, 1, a),
        },
    decreases n,
{
    reveal_with_fuel(parse_mutes, 2);
    if n > 0 && 0 <= pos && pos + 16 <= d.len() {
        let m = MuteRegion {
            start_sample: be_val(d.subrange(pos, pos + 8)) as u64,
            end_sample: be_val(d.subrange(pos + 8, pos + 16)) as u64,
        };
        lemma_parse_mutes_last(d, pos + 16, (n - 1) as nat, acc.push(m));
    }
}

/// Mute regions read back as they were written.
proof fn lemma_mutes_roundtrip(d: Seq<u8>, pos: int, ms: Seq<MuteRegion>)
    requires
        0 <= pos,
        pos + mutes_bytes(ms).len() <= d.len(),
        d.subrange(pos, pos + mutes_bytes(ms).len()) == mutes_bytes(ms),
    ensures
        mutes_bytes(ms).len() == 16 * ms.len(),
        parse_mutes(d, pos, ms.len(), seq![]) == Ok::<(Seq<MuteRegion>, int), LoomError>(
            (ms, pos + mutes_bytes(ms).len()),
        ),
    decreases ms.len(),
{
    if ms.len() == 0 {
        assert(ms =~= seq![]);
    } else {
        let dl = ms.drop_last();
        let m = ms.last();
        let head = mutes_bytes(dl);
        let whole = mutes_bytes(ms);
        lemma2_to64();
        lemma2_to64_rest();
        lemma_be_exact(m.start_sample as nat, 8);
        lemma_be_exact(m.end_sample as nat, 8);
        assert(d.subrange(pos, pos + head.len()) =~= head) by {
            assert(whole.subrange(0, head.len() as int) =~= head);
        }
        lemma_mutes_roundtrip(d, pos, dl);
        lemma_parse_mutes_last(d, pos, dl.len(), seq![]);
        let q = pos + head.len();
        assert(d.subrange(q, q + 8) =~= be_bytes(m.start_sample as nat, 8)) by {
            assert(whole.subrange(head.len() as int, head.len() as int + 8) =~= be_bytes(
                m.start_sample as nat,
                8,
            ));
        }
        assert(d.subrange(q + 8, q + 16) =~= be_bytes(m.end_sample as nat, 8)) by {
            assert(whole.subrange(head.len() as int + 8, head.len() as int + 16) =~= be_bytes(
                m.end_sample as nat,
                8,
            ));
        }
        reveal_with_fuel(parse_mutes, 2);
        assert(dl.push(m) =~= ms);
    }
}

/// Reading one more fade after `n` of them.
proof fn lemma_parse_fades_last(d: Seq<u8>, pos: int, n: nat, acc: Seq<Fade>)
    ensures
        parse_fades(d, pos, n + 1, acc) == match parse_fades(d, pos, n, acc) {
            Err(e) => Err(e),
            Ok((a, p)) => parse_fades(d, p, 1, a),
        },
    decreases n,
{
    reveal_with_fuel(parse_fades, 2);
    if n > 0 && 0 <= pos && pos + 18 <= d.len() {
        match shape_of(d[pos + 16]) {
            None => {},
            Some(sh) => {
                let f = Fade {
                    start_sample: be_val(d.subrange(pos, pos + 8)) as u64,
                    end_sample: be_val(d.subrange(pos + 8, pos + 16)) as u64,
                    shape: sh,
                    is_fade_in: d[pos + 17] != 0,
                };
                lemma_parse_fades_last(d, pos + 18, (n - 1) as nat, acc.push(f));
            },
        }
    }
}

/// Fades read back as they were written.
proof fn lemma_fades_roundtrip(d: Seq<u8>, pos: int, fs: Seq<Fade>)
    requires
        0 <= pos,
        pos + fades_bytes(fs).len() <= d.len(),
        d.subrange(pos, pos + fades_bytes(fs).len()) == fades_bytes(fs),
    ensures
        fades_bytes(fs).len() == 18 * fs.len(),
        parse_fades(d, pos, fs.len(), seq![]) == Ok::<(Seq<Fade>, int), LoomError>(
            (fs, pos + fades_bytes(fs).len()),
        ),
    decreases fs.len(),
{
    if fs.len() == 0 {
        assert(fs =~= seq![]);
    } else {
        let dl = fs.drop_last();
        let f = fs.last();
        let head = fades_bytes(dl);
        let whole = fades_bytes(fs);
        lemma2_to64();
        lemma2_to64_rest();
        lemma_be_exact(f.start_sample as nat, 8);
        lemma_be_exact(f.end_sample as nat, 8);
        crate::edit::schema::lemma_fade_code_roundtrip(f.shape);
        assert(d.subrange(pos, pos + head.len()) =~= head) by {
            assert(whole.subrange(0, head.len() as int) =~= head);
        }
        lemma_fades_roundtrip(d, pos, dl);
        lemma_parse_fades_last(d, pos, dl.len(), seq![]);
        let q = pos + head.len();
        let h = head.len() as int;
        assert(d.subrange(q, q + 8) =~= be_bytes(f.start_sample as nat, 8)) by {
            assert(whole.subrange(h, h + 8) =~= be_bytes(f.start_sample as nat, 8));
        }
        assert(d.subrange(q + 8, q + 16) =~= be_bytes(f.end_sample as nat, 8)) by {
            assert(whole.subrange(h + 8, h + 16) =~= be_bytes(f.end_sample as nat, 8));
        }
        assert(d[q + 16] == whole[h + 16]);
        assert(d[q + 17] == whole[h + 17]);
        assert(whole[h + 16] == fade_code(f.shape));
        assert(shape_of(fade_code(f.shape)) == Some(f.shape)) by {
            match f.shape {
                FadeShape::Linear => {},
                FadeShape::SCurve => {},
                FadeShape::Exponential => {},
            }
        }
        reveal_with_fuel(parse_fades, 2);
        assert(dl.push(f) =~= fs);
    }
}

/// Reading one more gain point after `n` of them.
proof fn lemma_parse_gains_last(d: Seq<u8>, pos: int, n: nat, acc: Seq<GainPoint>)
    ensures
        parse_gains(d, pos, n + 1, acc) == match parse_gains(d, pos, n, acc) {
            Err(e) => Err(e),
            Ok((a, p)) => parse_gains(d, p, 1, a),
        },
    decreases n,
{
    reveal_with_fuel(parse_gains, 2);
    if n > 0 && 0 <= pos && pos + 12 <= d.len() {
        let g = GainPoint {
            sample_offset: be_val(d.subrange(pos, pos + 8)) as u64,
            gain_bits: be_val(d.subrange(pos + 8, pos + 12)) as u32,
        };
        lemma_parse_gains_last(d, pos + 12, (n - 1) as nat, acc.push(g));
    }
}

/// Gain points read back as they were written.
proof fn lemma_gains_roundtrip(d: Seq<u8>, pos: int, gs: Seq<GainPoint>)
    requires
        0 <= pos,
        pos + gains_bytes(gs).len() <= d.len(),
        d.subrange(pos, pos + gains_bytes(gs).len()) == gains_bytes(gs),
    ensures
        gains_bytes(gs).len() == 12 * gs.len(),
        parse_gains(d, pos, gs.len(), seq![]) == Ok::<(Seq<GainPoint>, int), LoomError>(
            (gs, pos + gains_bytes(gs).len()),
        ),
    decreases gs.len(),
{
    if gs.len() == 0 {
        assert(gs =~= seq![]);
    } else {
        let dl = gs.drop_last();
        let g = gs.last();
        let head = gains_bytes(dl);
        let whole = gains_bytes(gs);
        lemma2_to64();
        lemma2_to64_rest();
        lemma_be_exact(g.sample_offset as nat, 8);
        lemma_be_exact(g.gain_bits as nat, 4);
        assert(d.subrange(pos, pos + head.len()) =~= head) by {
            assert(whole.subrange(0, head.len() as int) =~= head);
        }
        lemma_gains_roundtrip(d, pos, dl);
        lemma_parse_gains_last(d, pos, dl.len(), seq![]);
        let q = pos + head.len();
        let h = head.len() as int;
        assert(d.subrange(q, q + 8) =~= be_bytes(g.sample_offset as nat, 8)) by {
            assert(whole.subrange(h, h + 8) =~= be_bytes(g.sample_offset as nat, 8));
        }
        assert(d.subrange(q + 8, q + 12) =~= be_bytes(g.gain_bits as nat, 4)) by {
            assert(whole.subrange(h + 8, h + 12) =~= be_bytes(g.gain_bits as nat, 4));
        }
        reveal_with_fuel(parse_gains, 2);
        assert(dl.push(g) =~= gs);
    }
}

/// One track's edits read back as they were written.
#[verifier::rlimit(40)]
proof fn lemma_entry_roundtrip(d: Seq<u8>, pos: int, e: (u16, TrackEditsSpec))
    requires
        0 <= pos,
        e.1.mutes.len() < 0x1_0000_0000,
        e.1.fades.len() < 0x1_0000_0000,
        e.1.gain_points.len() < 0x1_0000_0000,
        pos + entry_bytes(e).len() <= d.len(),
        d.subrange(pos, pos + entry_bytes(e).len()) == entry_bytes(e),
    ensures
        parse_entry(d, pos) == Ok::<((u16, TrackEditsSpec), int), LoomError>(
            (e, pos + entry_bytes(e).len()),
        ),
{
    let b = entry_bytes(e);
    let mb = mutes_bytes(e.1.mutes);
    let fb = fades_bytes(e.1.fades);
    let gb = gains_bytes(e.1.gain_points);
    lemma2_to64();
    lemma_be_exact(e.0 as nat, 2);
    lemma_be_exact(e.1.mutes.len(), 4);
    lemma_be_exact(e.1.fades.len(), 4);
    lemma_be_exact(e.1.gain_points.len(), 4);
    let m = mb.len() as int;
    let f = fb.len() as int;
    let g = gb.len() as int;
    assert(b.len() == 14 + m + f + g);
    assert(d.subrange(pos, pos + 2) =~= be_bytes(e.0 as nat, 2)) by {
        assert(b.subrange(0, 2) =~= be_bytes(e.0 as nat, 2));
    }
    assert(d.subrange(pos + 2, pos + 6) =~= be_bytes(e.1.mutes.len(), 4)) by {
        assert(b.subrange(2, 6) =~= be_bytes(e.1.mutes.len(), 4));
    }
    assert(d.subrange(pos + 6, pos + 6 + m) =~= mb) by {
        assert(b.subrange(6, 6 + m) =~= mb);
    }
    lemma_mutes_roundtrip(d, pos + 6, e.1.mutes);
    let p1 = pos + 6 + m;
    assert(d.subrange(p1, p1 + 4) =~= be_bytes(e.1.fades.len(), 4)) by {
        assert(b.subrange(6 + m, 10 + m) =~= be_bytes(e.1.fades.len(), 4));
    }
    assert(d.subrange(p1 + 4, p1 + 4 + f) =~= fb) by {
        assert(b.subrange(10 + m, 10 + m + f) =~= fb);
    }
    lemma_fades_roundtrip(d, p1 + 4, e.1.fades);
    let p2 = p1 + 4 + f;
    assert(d.subrange(p2, p2 + 4) =~= be_bytes(e.1.gain_points.len(), 4)) by {
        assert(b.subrange(10 + m + f, 14 + m + f) =~= be_bytes(e.1.gain_points.len(), 4));
    }
    assert(d.subrange(p2 + 4, p2 + 4 + g) =~= gb) by {
        assert(b.subrange(14 + m + f, 14 + m + f + g) =~= gb);
    }
    lemma_gains_roundtrip(d, p2 + 4, e.1.gain_points);
}

/// Reading one more track's edits after `n` of them.
proof fn lemma_parse_entries_last(d: Seq<u8>, pos: int, n: nat, acc: Seq<(u16, TrackEditsSpec)>)
    ensures
        parse_entries(d, pos, n + 1, acc) == match parse_entries(d, pos, n, acc) {
            Err(e) => Err(e),
            Ok((a, p)) => parse_entries(d, p, 1, a),
        },
    decreases n,
{
    reveal_with_fuel(parse_entries, 2);
    if n > 0 {
        match parse_entry(d, pos) {
            Err(e) => {},
            Ok((p, q)) => {
                lemma_parse_entries_last(d, q, (n - 1) as nat, edits_insert(acc, p.0, p.1));
            },
        }
    }
}

/// A track found nowhere has no position.
proof fn lemma_track_pos_none(es: Seq<(u16, TrackEditsSpec)>, k: u16)
    requires
        forall|i: int| 0 <= i < es.len() ==> #[trigger] es[i].0 != k,
    ensures
        track_pos(es, k) == -1,
    decreases es.len(),
{
    if es.len() > 0 {
        assert(es.last().0 != k);
        assert forall|i: int| 0 <= i < es.drop_last().len() implies #[trigger] es.drop_last()[i].0
            != k by {
            assert(es.drop_last()[i] == es[i]);
        }
        lemma_track_pos_none(es.drop_last(), k);
    }
}

/// Tracks' edits read back as they were written.
proof fn lemma_entries_roundtrip(d: Seq<u8>, pos: int, es: Seq<(u16, TrackEditsSpec)>)
    requires
        0 <= pos,
        edits_readable(es),
        pos + entries_bytes(es).len() <= d.len(),
        d.subrange(pos, pos + entries_bytes(es).len()) == entries_bytes(es),
    ensures
        parse_entries(d, pos, es.len(), seq![]) == Ok::<(Seq<(u16, TrackEditsSpec)>, int), LoomError>(
            (es, pos + entries_bytes(es).len()),
        ),
    decreases es.len(),
{
    if es.len() == 0 {
        assert(es =~= seq![]);
    } else {
        let dl = es.drop_last();
        let e = es.last();
        let head = entries_bytes(dl);
        let whole = entries_bytes(es);
        assert(d.subrange(pos, pos + head.len()) =~= head) by {
            assert(whole.subrange(0, head.len() as int) =~= head);
        }
        assert(edits_readable(dl)) by {
            assert forall|i: int| 0 <= i < dl.len() implies #[trigger] dl[i] == es[i] by {}
            assert forall|i: int, j: int| 0 <= i < j < dl.len() implies #[trigger] dl[i].0
                != #[trigger] dl[j].0 by {
                assert(dl[i] == es[i]);
                assert(dl[j] == es[j]);
            }
        }
        lemma_entries_roundtrip(d, pos, dl);
        lemma_parse_entries_last(d, pos, dl.len(), seq![]);
        let q = pos + head.len();
        assert(d.subrange(q, q + entry_bytes(e).len()) =~= entry_bytes(e)) by {
            assert(whole.subrange(head.len() as int, whole.len() as int) =~= entry_bytes(e));
        }
        assert(e == es[es.len() - 1]);
        lemma_entry_roundtrip(d, q, e);
        assert forall|i: int| 0 <= i < dl.len() implies #[trigger] dl[i].0 != e.0 by {
            assert(dl[i] == es[i]);
        }
        lemma_track_pos_none(dl, e.0);
        reveal_with_fuel(parse_entries, 2);
        assert(dl.push(e) =~= es);
    }
}

/// Reading back the body of written edits gives the edits and the position right after
/// it, whatever bytes stand before and after it.
pub proof fn lemma_edit_roundtrip(d: Seq<u8>, pos: int, es: Seq<(u16, TrackEditsSpec)>)
    requires
        edits_readable(es),
        0 <= pos,
        pos + edit_body(es).len() <= d.len(),
        d.subrange(pos, pos + edit_body(es).len()) == edit_body(es),
    ensures
        parse_edit(d, pos) == Ok::<(Seq<(u16, TrackEditsSpec)>, int), LoomError>(
            (es, pos + edit_body(es).len()),
        ),
{
    let b = edit_body(es);
    let eb = entries_bytes(es);
    lemma2_to64();
    lemma_be_exact(es.len(), 2);
    assert(d.subrange(pos, pos + 2) =~= be_bytes(es.len(), 2)) by {
        assert(b.subrange(0, 2) =~= be_bytes(es.len(), 2));
    }
    assert(d.subrange(pos + 2, pos + 2 + eb.len()) =~= eb) by {
        assert(b.subrange(2, 2 + eb.len() as int) =~= eb);
    }
    lemma_entries_roundtrip(d, pos + 2, es);
}


/// Reading mute regions moves on.
proof fn lemma_mutes_move(d: Seq<u8>, pos: int, n: nat, acc: Seq<MuteRegion>)
    ensures
        parse_mutes(d, pos, n, acc) matches Ok((_, p)) ==> p >= pos,
    decreases n,
{
    if n > 0 && 0 <= pos && pos + 16 <= d.len() {
        let m = MuteRegion {
            start_sample: be_val(d.subrange(pos, pos + 8)) as u64,
            end_sample: be_val(d.subrange(pos + 8, pos + 16)) as u64,
        };
        lemma_mutes_move(d, pos + 16, (n - 1) as nat, acc.push(m));
    }
}

/// Reading fades moves on.
proof fn lemma_fades_move(d: Seq<u8>, pos: int, n: nat, acc: Seq<Fade>)
    ensures
        parse_fades(d, pos, n, acc) matches Ok((_, p)) ==> p >= pos,
    decreases n,
{
    if n > 0 && 0 <= pos && pos + 18 <= d.len() {
        match shape_of(d[pos + 16]) {
            None => {},
            Some(sh) => {
                let f = Fade {
                    start_sample: be_val(d.subrange(pos, pos + 8)) as u64,
                    end_sample: be_val(d.subrange(pos + 8, pos + 16)) as u64,
                    shape: sh,
                    is_fade_in: d[pos + 17] != 0,
                };
                lemma_fades_move(d, pos + 18, (n - 1) as nat, acc.push(f));
            },
        }
    }
}

/// Reading gain points moves on.
proof fn lemma_gains_move(d: Seq<u8>, pos: int, n: nat, acc: Seq<GainPoint>)
    ensures
        parse_gains(d, pos, n, acc) matches Ok((_, p)) ==> p >= pos,
    decreases n,
{
    if n > 0 && 0 <= pos && pos + 12 <= d.len() {
        let g = GainPoint {
            sample_offset: be_val(d.subrange(pos, pos + 8)) as u64,
            gain_bits: be_val(d.subrange(pos + 8, pos + 12)) as u32,
        };
        lemma_gains_move(d, pos + 12, (n - 1) as nat, acc.push(g));
    }
}

/// Reading tracks' edits moves on.
proof fn lemma_entries_move(d: Seq<u8>, pos: int, n: nat, acc: Seq<(u16, TrackEditsSpec)>)
    ensures
        parse_entries(d, pos, n, acc) matches Ok((_, p)) ==> p >= pos,
    decreases n,
{
    if n > 0 {
        match parse_entry(d, pos) {
            Err(e) => {},
            Ok((e, q)) => {
                if 0 <= pos && pos + 6 <= d.len() {
                    lemma_mutes_move(d, pos + 6, be_val(d.subrange(pos + 2, pos + 6)), seq![]);
                    match parse_mutes(d, pos + 6, be_val(d.subrange(pos + 2, pos + 6)), seq![]) {
                        Err(_) => {},
                        Ok((ms, p1)) => {
                            lemma_fades_move(d, p1 + 4, be_val(d.subrange(p1, p1 + 4)), seq![]);
                            match parse_fades(d, p1 + 4, be_val(d.subrange(p1, p1 + 4)), seq![]) {
                                Err(_) => {},
                                Ok((fs, p2)) => {
                                    lemma_gains_move(d, p2 + 4, be_val(d.subrange(p2, p2 + 4)), seq![]);
                                },
                            }
                        },
                    }
                }
                lemma_entries_move(d, q, (n - 1) as nat, edits_insert(acc, e.0, e.1));
            },
        }
    }
}

/// Reading an edit block's body moves past its track count at least.
pub proof fn lemma_edit_moves(d: Seq<u8>, pos: int)
    ensures
        parse_edit(d, pos) matches Ok((_, p)) ==> p >= pos + 2,
{
    if 0 <= pos && pos + 2 <= d.len() {
        lemma_entries_move(d, pos + 2, be_val(d.subrange(pos, pos + 2)), seq![]);
    }
}

/// Scanning the blocks that follow a session header at `pos`, keeping the edits `cur` of
/// the last edit block read: a byte 0xFF ends the blocks; otherwise a type byte and a
/// 4-byte big-endian length, then an edit block's body where the type is 1, read as it
/// stands, or a block of that length passed over.
pub open spec fn edit_scan(d: Seq<u8>, pos: int, cur: Seq<(u16, TrackEditsSpec)>) -> Result<
    Seq<(u16, TrackEditsSpec)>,
    LoomError,
>
    decreases d.len() - pos,
{
    if pos < 0 || pos + 1 > d.len() {
        Err(LoomError::UnexpectedEof)
    } else if d[pos] == 0xFF {
        Ok(cur)
    } else if pos + 5 > d.len() {
        Err(LoomError::UnexpectedEof)
    } else if d[pos] == 1 {
        match parse_edit(d, pos + 5) {
            Err(e) => Err(e),
            Ok((es, p)) => {
                proof {
                    lemma_edit_moves(d, pos + 5);
                }
                if p > d.len() {
                    Err(LoomError::UnexpectedEof)
                } else {
                    edit_scan(d, p, es)
                }
            },
        }
    } else {
        let q = pos + 5 + be_val(d.subrange(pos + 1, pos + 5));
        if q > d.len() {
            Err(LoomError::UnexpectedEof)
        } else {
            edit_scan(d, q, cur)
        }
    }
}

/// Finding the edits of a session laid out as a header followed by typed blocks: the
/// header, then the blocks as `edit_scan` says, from no edits.
pub open spec fn find_edits(d: Seq<u8>) -> Result<Seq<(u16, TrackEditsSpec)>, LoomError> {
    match parse_header(d, 0) {
        Err(e) => Err(e),
        Ok((_, p)) => edit_scan(d, p, seq![]),
    }
}

/// Finds the edit block of a session laid out as a header followed by typed blocks, as
/// `find_edits` says.
pub fn get_edit_block(session_bytes: &[u8]) -> (r: Result<EditBlock, LoomError>)
    ensures
        match find_edits(session_bytes@) {
            Ok(es) => r is Ok && r->Ok_0@ == es,
            Err(e) => r == Err::<EditBlock, LoomError>(e),
        },
{
    let (_header, p0) = match SessionHeader::deserialize(session_bytes, 0) {
        Ok(v) => v,
        Err(e) => {
            return Err(e);
        },
    };
    let mut edit_block = EditBlock::new();
    proof {
        assert(edit_block@ =~= seq![]);
    }
    let mut pos = p0;
    let ghost d = session_bytes@;
    while pos < session_bytes.len()
        invariant
            d == session_bytes@,
            find_edits(d) == edit_scan(d, pos as int, edit_block@),
        decreases session_bytes@.len() - pos,
    {
        let block_type = session_bytes[pos];
        if block_type == 0xFF {
            return Ok(edit_block);
        }
        if session_bytes.len() - pos < 5 {
            return Err(LoomError::UnexpectedEof);
        }
        let length = match read_be(session_bytes, pos + 1, 4) {
            Ok(v) => v,
            Err(e) => {
                return Err(e);
            },
        };
        proof {
            lemma2_to64();
        }
        if block_type == 1 {
            let (eb, p) = match EditBlock::deserialize(session_bytes, pos + 5) {
                Ok(v) => v,
                Err(e) => {
                    return Err(e);
                },
            };
            proof {
                lemma_edit_moves(d, pos + 5);
            }
            if p > session_bytes.len() {
                return Err(LoomError::UnexpectedEof);
            }
            edit_block = eb;
            pos = p;
        } else {
            if (length as usize) > session_bytes.len() - pos - 5 {
                return Err(LoomError::UnexpectedEof);
            }
            pos = pos + 5 + length as usize;
        }
    }
    Err(LoomError::UnexpectedEof)
}
} // verus!
