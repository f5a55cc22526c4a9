use crate::container::bytes::{be_bytes, be_val, copy_range, lemma_be_exact, push_all, push_be, read_be};
use vstd::arithmetic::power2::lemma2_to64;
use crate::error::LoomError;
use vstd::prelude::*;

verus! {

/// One step of rebuilding a track's frames: copy a frame of the base version, or insert
/// new frame bytes.
#[derive(Clone, Debug, PartialEq)]
pub enum FrameInstruction {
    Copy { base_frame_idx: u32 },
    Insert { frame_bytes: Vec<u8> },
}

/// The steps that rebuild one track.
#[derive(Clone, Debug, PartialEq)]
pub struct TrackDiff {
    pub track_idx: u16,
    pub instructions: Vec<FrameInstruction>,
}

/// A new session version as changes against a base version.
#[derive(Clone, Debug, PartialEq)]
pub struct SessionDiff {
    pub base_md5: [u8; 16],
    pub metadata_payload: Vec<u8>,
    pub tracks_diffs: Vec<TrackDiff>,
}

/// An instruction as plain values.
pub enum InstSpec {
    Copy(u32),
    Insert(Seq<u8>),
}

/// A track diff as plain values.
pub struct TrackDiffSpec {
    pub track_idx: u16,
    pub instructions: Seq<InstSpec>,
}

/// A session diff as plain values.
pub struct SessionDiffSpec {
    pub base_md5: Seq<u8>,
    pub metadata_payload: Seq<u8>,
    pub tracks_diffs: Seq<TrackDiffSpec>,
}

impl View for FrameInstruction {
    type V = InstSpec;

    open spec fn view(&self) -> InstSpec {
        match self {
            FrameInstruction::Copy { base_frame_idx } => InstSpec::Copy(*base_frame_idx),
            FrameInstruction::Insert { frame_bytes } => InstSpec::Insert(frame_bytes@),
        }
    }
}

impl View for TrackDiff {
    type V = TrackDiffSpec;

    open spec fn view(&self) -> TrackDiffSpec {
        TrackDiffSpec {
            track_idx: self.track_idx,
            instructions: self.instructions@.map_values(|i: FrameInstruction| i@),
        }
    }
}

impl View for SessionDiff {
    type V = SessionDiffSpec;

    open spec fn view(&self) -> SessionDiffSpec {
        SessionDiffSpec {
            base_md5: self.base_md5@,
            metadata_payload: self.metadata_payload@,
            tracks_diffs: self.tracks_diffs@.map_values(|t: TrackDiff| t@),
        }
    }
}

/// The bytes "LDIFF".
pub open spec fn diff_magic() -> Seq<u8> {
    seq![0x4Cu8, 0x44u8, 0x49u8, 0x46u8, 0x46u8]
}

/// An instruction: 0 and a 4-byte frame index, or 1, a 4-byte length and the frame bytes.
pub open spec fn inst_bytes(i: InstSpec) -> Seq<u8> {
    match i {
        InstSpec::Copy(idx) => seq![0u8] + be_bytes(idx as nat, 4),
        InstSpec::Insert(b) => seq![1u8] + be_bytes(b.len(), 4) + b,
    }
}

/// A run of instructions.
pub open spec fn insts_bytes(is: Seq<InstSpec>) -> Seq<u8>
    decreases is.len(),
{
    if is.len() == 0 {
        Seq::empty()
    } else {
        insts_bytes(is.drop_last()) + inst_bytes(is.last())
    }
}

/// A track diff: the track in 2 bytes, the instruction count in 4, the instructions.
pub open spec fn track_diff_bytes(t: TrackDiffSpec) -> Seq<u8> {
    be_bytes(t.track_idx as nat, 2) + be_bytes(t.instructions.len(), 4) + insts_bytes(t.instructions)
}

/// A run of track diffs.
pub open spec fn track_diffs_bytes(ts: Seq<TrackDiffSpec>) -> Seq<u8>
    decreases ts.len(),
{
    if ts.len() == 0 {
        Seq::empty()
    } else {
        track_diffs_bytes(ts.drop_last()) + track_diff_bytes(ts.last())
    }
}

/// A serialized diff: "LDIFF", the base MD5, the metadata with its 4-byte length, the
/// track diff count in 2 bytes and the track diffs (lengths and counts keep their low bits).
pub open spec fn diff_bytes(d: SessionDiffSpec) -> Seq<u8> {
    diff_magic() + d.base_md5 + be_bytes(d.metadata_payload.len(), 4) + d.metadata_payload + be_bytes(
        d.tracks_diffs.len(),
        2,
    ) + track_diffs_bytes(d.tracks_diffs)
}

/// Reading `n` more instructions after `acc`.
pub open spec fn parse_insts(d: Seq<u8>, pos: int, n: nat, acc: Seq<InstSpec>) -> Result<
    (Seq<InstSpec>, int),
    LoomError,
>
    decreases n,
{
    if n == 0 {
        Ok((acc, pos))
    } else if pos + 1 > d.len() {
        Err(LoomError::UnexpectedEof)
    } else if d[pos] == 0 {
        if pos + 5 > d.len() {
            Err(LoomError::UnexpectedEof)
        } else {
            parse_insts(
                d,
                pos + 5,
                (n - 1) as nat,
                acc.push(InstSpec::Copy(be_val(d.subrange(pos + 1, pos + 5)) as u32)),
            )
        }
    } else if d[pos] == 1 {
        if pos + 5 > d.len() {
            Err(LoomError::UnexpectedEof)
        } else {
            let l = be_val(d.subrange(pos + 1, pos + 5)) as int;
            if pos + 5 + l > d.len() {
                Err(LoomError::UnexpectedEof)
            } else {
                parse_insts(
                    d,
                    pos + 5 + l,
                    (n - 1) as nat,
                    acc.push(InstSpec::Insert(d.subrange(pos + 5, pos + 5 + l))),
                )
            }
        }
    } else {
        Err(LoomError::InvalidData)
    }
}

/// Reading `n` more track diffs after `acc`.
pub open spec fn parse_track_diffs(d: Seq<u8>, pos: int, n: nat, acc: Seq<TrackDiffSpec>) -> Result<
    (Seq<TrackDiffSpec>, int),
    LoomError,
>
    decreases n,
{
    if n == 0 {
        Ok((acc, pos))
    } else if pos + 6 > d.len() {
        Err(LoomError::UnexpectedEof)
    } else {
        match parse_insts(d, pos + 6, be_val(d.subrange(pos + 2, pos + 6)), seq![]) {
            Err(e) => Err(e),
            Ok((is, p)) => parse_track_diffs(
                d,
                p,
                (n - 1) as nat,
                acc.push(
                    TrackDiffSpec {
                        track_idx: be_val(d.subrange(pos, pos + 2)) as u16,
                        instructions: is,
                    },
                ),
            ),
        }
    }
}

/// Reading a diff at `pos`: the diff and the position after it.
pub open spec fn parse_diff(d: Seq<u8>, pos: int) -> Result<(SessionDiffSpec, int), LoomError> {
    if pos + 5 > d.len() {
        Err(LoomError::UnexpectedEof)
    } else if d.subrange(pos, pos + 5) != diff_magic() {
        Err(LoomError::InvalidData)
    } else if pos + 25 > d.len() {
        Err(LoomError::UnexpectedEof)
    } else {
        let ml = be_val(d.subrange(pos + 21, pos + 25)) as int;
        let p = pos + 25;
        if p + ml + 2 > d.len() {
            Err(LoomError::UnexpectedEof)
        } else {
            match parse_track_diffs(
                d,
                p + ml + 2,
                be_val(d.subrange(p + ml, p + ml + 2)),
                seq![],
            ) {
                Err(e) => Err(e),
                Ok((ts, q)) => Ok(
                    (
                        SessionDiffSpec {
                            base_md5: d.subrange(pos + 5, pos + 21),
                            metadata_payload: d.subrange(p, p + ml),
                            tracks_diffs: ts,
                        },
                        q,
                    ),
                ),
            }
        }
    }
}

fn read_insts(data: &[u8], pos: usize, n: usize) -> (r: Result<(Vec<FrameInstruction>, usize), LoomError>)
    ensures
        match parse_insts(data@, pos as int, n as nat, seq![]) {
            Ok((is, p)) => r is Ok && r->Ok_0.0@.map_values(|i: FrameInstruction| i@) == is && r->Ok_0.1 == p,
            Err(e) => r == Err::<(Vec<FrameInstruction>, usize), LoomError>(e),
        },
{
    let mut insts: Vec<FrameInstruction> = Vec::new();
    let mut p = pos;
    let mut i: usize = 0;
    proof {
        assert(insts@.map_values(|i: FrameInstruction| i@) =~= seq![]);
    }
    while i < n
        invariant
            i <= n,
            parse_insts(data@, pos as int, n as nat, seq![]) == parse_insts(
                data@,
                p as int,
                (n - i) as nat,
                insts@.map_values(|i: FrameInstruction| i@),
            ),
        decreases n - i,
    {
        proof {
            vstd::arithmetic::power2::lemma2_to64();
            vstd::arithmetic::power2::lemma2_to64_rest();
        }
        if p >= data.len() {
            return Err(LoomError::UnexpectedEof);
        }
        let kind = data[p];
        let ghost before = insts@.map_values(|i: FrameInstruction| i@);
        if kind == 0 {
            let idx = match read_be(data, p + 1, 4) {
                Ok(v) => v as u32,
                Err(e) => {
                    return Err(e);
                },
            };
            let inst = FrameInstruction::Copy { base_frame_idx: idx };
            insts.push(inst);
            proof {
                assert(insts@.map_values(|i: FrameInstruction| i@) =~= before.push(inst@));
            }
            p = p + 5;
        } else if kind == 1 {
            let l = match read_be(data, p + 1, 4) {
                Ok(v) => v as usize,
                Err(e) => {
                    return Err(e);
                },
            };
            if data.len() - (p + 5) < l {
                return Err(LoomError::UnexpectedEof);
            }
            let inst = FrameInstruction::Insert { frame_bytes: copy_range(data, p + 5, p + 5 + l) };
            insts.push(inst);
            proof {
                assert(insts@.map_values(|i: FrameInstruction| i@) =~= before.push(inst@));
            }
            p = p + 5 + l;
        } else {
            return Err(LoomError::InvalidData);
        }
        i = i + 1;
    }
    Ok((insts, p))
}

impl SessionDiff {
    /// Appends the diff to `out` as `diff_bytes` says.
    pub fn serialize(&self, out: &mut Vec<u8>)
        ensures
            final(out)@ == old(out)@ + diff_bytes(self@),
    {
        let ghost d = self@;
        out.push(0x4C);
        out.push(0x44);
        out.push(0x49);
        out.push(0x46);
        out.push(0x46);
        push_all(out, self.base_md5.as_slice());
        push_be(out, self.metadata_payload.len() as u64, 4);
        push_all(out, self.metadata_payload.as_slice());
        push_be(out, self.tracks_diffs.len() as u64, 2);
        let ghost head = out@;
        proof {
            assert(head =~= old(out)@ + diff_magic() + d.base_md5 + be_bytes(
                d.metadata_payload.len(),
                4,
            ) + d.metadata_payload + be_bytes(d.tracks_diffs.len(), 2));
        }
        let ghost ts = d.tracks_diffs;
        let mut t: usize = 0;
        proof {
            assert(ts.take(0) =~= Seq::<TrackDiffSpec>::empty());
        }
        while t < self.tracks_diffs.len()
            invariant
                t <= self.tracks_diffs@.len(),
                ts == self@.tracks_diffs,
                out@ == head + track_diffs_bytes(ts.take(t as int)),
            decreases self.tracks_diffs@.len() - t,
        {
            let td = &self.tracks_diffs[t];
            proof {
                assert(ts[t as int] == td@);
                assert(ts.take(t + 1).drop_last() =~= ts.take(t as int));
            }
            push_be(out, td.track_idx as u64, 2);
            push_be(out, td.instructions.len() as u64, 4);
            let ghost mid = out@;
            let ghost is = td@.instructions;
            let mut i: usize = 0;
            proof {
                assert(is.take(0) =~= Seq::<InstSpec>::empty());
            }
            while i < td.instructions.len()
                invariant
                    i <= td.instructions@.len(),
                    is == td@.instructions,
                    out@ == mid + insts_bytes(is.take(i as int)),
                decreases td.instructions@.len() - i,
            {
                proof {
                    assert(is[i as int] == td.instructions@[i as int]@);
                    assert(is.take(i + 1).drop_last() =~= is.take(i as int));
                }
                match &td.instructions[i] {
                    FrameInstruction::Copy { base_frame_idx } => {
                        out.push(0x00);
                        push_be(out, *base_frame_idx as u64, 4);
                    },
                    FrameInstruction::Insert { frame_bytes } => {
                        out.push(0x01);
                        push_be(out, frame_bytes.len() as u64, 4);
                        push_all(out, frame_bytes.as_slice());
                    },
                }
                proof {
                    assert(out@ =~= mid + insts_bytes(is.take(i + 1)));
                }
                i = i + 1;
            }
            proof {
                assert(is.take(is.len() as int) =~= is);
                assert(out@ =~= head + track_diffs_bytes(ts.take(t + 1)));
            }
            t = t + 1;
        }
        proof {
            assert(ts.take(ts.len() as int) =~= ts);
            assert(final(out)@ =~= old(out)@ + diff_bytes(d));
        }
    }

    /// Reads a diff at `pos` of `data` as `parse_diff` says; gives it and the position after
    /// it.
    pub fn deserialize(data: &[u8], pos: usize) -> (r: Result<(SessionDiff, usize), LoomError>)
        ensures
            match parse_diff(data@, pos as int) {
                Ok((d, p)) => r is Ok && r->Ok_0.0@ == d && r->Ok_0.1 == p,
                Err(e) => r == Err::<(SessionDiff, usize), LoomError>(e),
            },
    {
        proof {
            vstd::arithmetic::power2::lemma2_to64();
            vstd::arithmetic::power2::lemma2_to64_rest();
        }
        if pos > data.len() || data.len() - pos < 5 {
            return Err(LoomError::UnexpectedEof);
        }
        if !(data[pos] == 0x4C && data[pos + 1] == 0x44 && data[pos + 2] == 0x49 && data[pos + 3]
            == 0x46 && data[pos + 4] == 0x46) {
            proof {
                if data@.subrange(pos as int, pos + 5) == diff_magic() {
                    assert(data@.subrange(pos as int, pos + 5)[0] == data@[pos as int]);
                    assert(data@.subrange(pos as int, pos + 5)[1] == data@[pos + 1]);
                    assert(data@.subrange(pos as int, pos + 5)[2] == data@[pos + 2]);
                    assert(data@.subrange(pos as int, pos + 5)[3] == data@[pos + 3]);
                    assert(data@.subrange(pos as int, pos + 5)[4] == data@[pos + 4]);
                }
            }
            return Err(LoomError::InvalidData);
        }
        proof {
            assert(data@.subrange(pos as int, pos + 5) =~= diff_magic());
        }
        if data.len() - pos < 25 {
            return Err(LoomError::UnexpectedEof);
        }
        let mut base_md5 = [0u8; 16];
        let mut k: usize = 0;
        while k < 16
            invariant
                k <= 16,
                pos + 25 <= data@.len(),
                data@.len() == data.len(),
                forall|j: int| 0 <= j < k ==> #[trigger] base_md5@[j] == data@[pos + 5 + j],
            decreases 16 - k,
        {
            base_md5[k] = data[pos + 5 + k];
            k = k + 1;
        }
        proof {
            assert(base_md5@ =~= data@.subrange(pos + 5, pos + 21));
        }
        let ml = match read_be(data, pos + 21, 4) {
            Ok(v) => v as usize,
            Err(e) => {
                return Err(e);
            },
        };
        let p = pos + 25;
        if data.len() - p < ml || data.len() - p - ml < 2 {
            return Err(LoomError::UnexpectedEof);
        }
        let metadata_payload = copy_range(data, p, p + ml);
        let nt = match read_be(data, p + ml, 2) {
            Ok(v) => v as usize,
            Err(e) => {
                return Err(e);
            },
        };
        let ghost n = nt as nat;
        let mut tracks_diffs: Vec<TrackDiff> = Vec::new();
        let mut q = p + ml + 2;
        let mut i: usize = 0;
        proof {
            assert(tracks_diffs@.map_values(|t: TrackDiff| t@) =~= seq![]);
        }
        while i < nt
            invariant
                i <= nt,
                n == nt,
                pos + 25 <= data@.len(),
                data@.subrange(pos as int, pos + 5) == diff_magic(),
                p == pos + 25,
                ml == be_val(data@.subrange(pos + 21, pos + 25)),
                p + ml + 2 <= data@.len(),
                n == be_val(data@.subrange(p + ml, p + ml + 2)),
                base_md5@ == data@.subrange(pos + 5, pos + 21),
                metadata_payload@ == data@.subrange(p as int, p + ml),
                parse_track_diffs(data@, p + ml + 2, n, seq![]) == parse_track_diffs(
                    data@,
                    q as int,
                    (n - i) as nat,
                    tracks_diffs@.map_values(|t: TrackDiff| t@),
                ),
            decreases nt - i,
        {
            proof {
                vstd::arithmetic::power2::lemma2_to64();
                vstd::arithmetic::power2::lemma2_to64_rest();
            }
            if q > data.len() || data.len() - q < 6 {
                return Err(LoomError::UnexpectedEof);
            }
            let track_idx = match read_be(data, q, 2) {
                Ok(v) => v as u16,
                Err(e) => {
                    return Err(e);
                },
            };
            let ni = match read_be(data, q + 2, 4) {
                Ok(v) => v as usize,
                Err(e) => {
                    return Err(e);
                },
            };
            let (instructions, q2) = match read_insts(data, q + 6, ni) {
                Ok(x) => x,
                Err(e) => {
                    return Err(e);
                },
            };
            let td = TrackDiff { track_idx, instructions };
            let ghost before = tracks_diffs@.map_values(|t: TrackDiff| t@);
            tracks_diffs.push(td);
            proof {
                assert(tracks_diffs@.map_values(|t: TrackDiff| t@) =~= before.push(td@));
            }
            q = q2;
            i = i + 1;
        }
        Ok((SessionDiff { base_md5, metadata_payload, tracks_diffs }, q))
    }
}


/// A diff that reads back: a 16-byte base MD5, metadata and every inserted frame shorter
/// than `2^32` bytes, at most 65535 track diffs with fewer than `2^32` instructions each.
pub open spec fn diff_readable(d: SessionDiffSpec) -> bool {
    &&& d.base_md5.len() == 16
    &&& d.metadata_payload.len() < 0x1_0000_0000
    &&& d.tracks_diffs.len() <= 0xFFFF
    &&& forall|t: int| 0 <= t < d.tracks_diffs.len() ==> insts_readable(#[trigger] d.tracks_diffs[t].instructions)
}

/// Instructions that read back: fewer than `2^32`, each inserted frame shorter than `2^32`
/// bytes.
pub open spec fn insts_readable(is: Seq<InstSpec>) -> bool {
    &&& is.len() < 0x1_0000_0000
    &&& forall|i: int| 0 <= i < is.len() ==> (#[trigger] is[i] matches InstSpec::Insert(b) ==> b.len() < 0x1_0000_0000)
}

/// Reading one more instruction after `n` of them.
proof fn lemma_parse_insts_last(d: Seq<u8>, pos: int, n: nat, acc: Seq<InstSpec>)
    ensures
        parse_insts(d, pos, n + 1, acc) == match parse_insts(d, pos, n, acc) {
            Err(e) => Err(e),
            Ok((a, p)) => parse_insts(d, p, 1, a),
        },
    decreases n,
{
    reveal_with_fuel(parse_insts, 2);
    if n > 0 && pos + 5 <= d.len() {
        if d[pos] == 0 {
            lemma_parse_insts_last(
                d,
                pos + 5,
                (n - 1) as nat,
                acc.push(InstSpec::Copy(be_val(d.subrange(pos + 1, pos + 5)) as u32)),
            );
        } else if d[pos] == 1 {
            let l = be_val(d.subrange(pos + 1, pos + 5)) as int;
            if pos + 5 + l <= d.len() {
                lemma_parse_insts_last(
                    d,
                    pos + 5 + l,
                    (n - 1) as nat,
                    acc.push(InstSpec::Insert(d.subrange(pos + 5, pos + 5 + l))),
                );
            }
        }
    }
}

/// Instructions read back as they were written.
proof fn lemma_insts_roundtrip(d: Seq<u8>, pos: int, is: Seq<InstSpec>)
    requires
        0 <= pos,
        insts_readable(is),
        pos + insts_bytes(is).len() <= d.len(),
        d.subrange(pos, pos + insts_bytes(is).len()) == insts_bytes(is),
    ensures
        parse_insts(d, pos, is.len(), seq![]) == Ok::<(Seq<InstSpec>, int), LoomError>(
            (is, pos + insts_bytes(is).len()),
        ),
    decreases is.len(),
{
    if is.len() == 0 {
        assert(is =~= seq![]);
    } else {
        let dl = is.drop_last();
        let i = is.last();
        let head = insts_bytes(dl);
        let whole = insts_bytes(is);
        let h = head.len() as int;
        lemma2_to64();
        assert(d.subrange(pos, pos + h) =~= head) by {
            assert(whole.subrange(0, h) =~= head);
        }
        assert(insts_readable(dl)) by {
            assert forall|k: int| 0 <= k < dl.len() implies #[trigger] dl[k] == is[k] by {}
        }
        lemma_insts_roundtrip(d, pos, dl);
        lemma_parse_insts_last(d, pos, dl.len(), seq![]);
        let q = pos + h;
        assert(i == is[is.len() - 1]);
        reveal_with_fuel(parse_insts, 2);
        match i {
            InstSpec::Copy(idx) => {
                lemma_be_exact(idx as nat, 4);
                assert(d[q] == whole[h]);
                assert(d.subrange(q + 1, q + 5) =~= be_bytes(idx as nat, 4)) by {
                    assert(whole.subrange(h + 1, h + 5) =~= be_bytes(idx as nat, 4));
                }
            },
            InstSpec::Insert(b) => {
                lemma_be_exact(b.len(), 4);
                assert(d[q] == whole[h]);
                assert(d.subrange(q + 1, q + 5) =~= be_bytes(b.len(), 4)) by {
                    assert(whole.subrange(h + 1, h + 5) =~= be_bytes(b.len(), 4));
                }
                assert(d.subrange(q + 5, q + 5 + b.len()) =~= b) by {
                    assert(whole.subrange(h + 5, h + 5 + b.len()) =~= b);
                }
            },
        }
        assert(dl.push(i) =~= is);
    }
}

/// Reading one more track diff after `n` of them.
proof fn lemma_parse_track_diffs_last(d: Seq<u8>, pos: int, n: nat, acc: Seq<TrackDiffSpec>)
    ensures
        parse_track_diffs(d, pos, n + 1, acc) == match parse_track_diffs(d, pos, n, acc) {
            Err(e) => Err(e),
            Ok((a, p)) => parse_track_diffs(d, p, 1, a),
        },
    decreases n,
{
    reveal_with_fuel(parse_track_diffs, 2);
    if n > 0 && pos + 6 <= d.len() {
        match parse_insts(d, pos + 6, be_val(d.subrange(pos + 2, pos + 6)), seq![]) {
            Err(e) => {},
            Ok((is, p)) => {
                lemma_parse_track_diffs_last(
                    d,
                    p,
                    (n - 1) as nat,
                    acc.push(
                        TrackDiffSpec {
                            track_idx: be_val(d.subrange(pos, pos + 2)) as u16,
                            instructions: is,
                        },
                    ),
                );
            },
        }
    }
}

/// Track diffs read back as they were written.
proof fn lemma_track_diffs_roundtrip(d: Seq<u8>, pos: int, ts: Seq<TrackDiffSpec>)
    requires
        0 <= pos,
        forall|t: int| 0 <= t < ts.len() ==> insts_readable(#[trigger] ts[t].instructions),
        pos + track_diffs_bytes(ts).len() <= d.len(),
        d.subrange(pos, pos + track_diffs_bytes(ts).len()) == track_diffs_bytes(ts),
    ensures
        parse_track_diffs(d, pos, ts.len(), seq![]) == Ok::<(Seq<TrackDiffSpec>, int), LoomError>(
            (ts, pos + track_diffs_bytes(ts).len()),
        ),
    decreases ts.len(),
{
    if ts.len() == 0 {
        assert(ts =~= seq![]);
    } else {
        let dl = ts.drop_last();
        let t = ts.last();
        let head = track_diffs_bytes(dl);
        let whole = track_diffs_bytes(ts);
        let ib = insts_bytes(t.instructions);
        let h = head.len() as int;
        lemma2_to64();
        lemma_be_exact(t.track_idx as nat, 2);
        assert(t == ts[ts.len() - 1]);
        assert(insts_readable(t.instructions));
        lemma_be_exact(t.instructions.len(), 4);
        assert(d.subrange(pos, pos + h) =~= head) by {
            assert(whole.subrange(0, h) =~= head);
        }
        assert forall|k: int| 0 <= k < dl.len() implies insts_readable(#[trigger] dl[k].instructions) by {
            assert(dl[k] == ts[k]);
        }
        lemma_track_diffs_roundtrip(d, pos, dl);
        lemma_parse_track_diffs_last(d, pos, dl.len(), seq![]);
        let q = pos + h;
        assert(d.subrange(q, q + 2) =~= be_bytes(t.track_idx as nat, 2)) by {
            assert(whole.subrange(h, h + 2) =~= be_bytes(t.track_idx as nat, 2));
        }
        assert(d.subrange(q + 2, q + 6) =~= be_bytes(t.instructions.len(), 4)) by {
            assert(whole.subrange(h + 2, h + 6) =~= be_bytes(t.instructions.len(), 4));
        }
        assert(d.subrange(q + 6, q + 6 + ib.len()) =~= ib) by {
            assert(whole.subrange(h + 6, h + 6 + ib.len()) =~= ib);
        }
        lemma_insts_roundtrip(d, q + 6, t.instructions);
        reveal_with_fuel(parse_track_diffs, 2);
        assert(dl.push(t) =~= ts);
    }
}

/// Reading back a written diff gives the diff and the position right after it, whatever
/// bytes stand before and after it.
pub proof fn lemma_diff_roundtrip(d: Seq<u8>, pos: int, df: SessionDiffSpec)
    requires
        diff_readable(df),
        0 <= pos,
        pos + diff_bytes(df).len() <= d.len(),
        d.subrange(pos, pos + diff_bytes(df).len()) == diff_bytes(df),
    ensures
        parse_diff(d, pos) == Ok::<(SessionDiffSpec, int), LoomError>(
            (df, pos + diff_bytes(df).len()),
        ),
{
    let b = diff_bytes(df);
    let ml = df.metadata_payload.len() as int;
    let tb = track_diffs_bytes(df.tracks_diffs);
    lemma2_to64();
    lemma_be_exact(df.metadata_payload.len(), 4);
    lemma_be_exact(df.tracks_diffs.len(), 2);
    assert(b.len() == 27 + ml + tb.len());
    assert(d.subrange(pos, pos + 5) =~= diff_magic()) by {
        assert(b.subrange(0, 5) =~= diff_magic());
    }
    assert(d.subrange(pos + 5, pos + 21) =~= df.base_md5) by {
        assert(b.subrange(5, 21) =~= df.base_md5);
    }
    assert(d.subrange(pos + 21, pos + 25) =~= be_bytes(df.metadata_payload.len(), 4)) by {
        assert(b.subrange(21, 25) =~= be_bytes(df.metadata_payload.len(), 4));
    }
    let p = pos + 25;
    assert(d.subrange(p, p + ml) =~= df.metadata_payload) by {
        assert(b.subrange(25, 25 + ml) =~= df.metadata_payload);
    }
    assert(d.subrange(p + ml, p + ml + 2) =~= be_bytes(df.tracks_diffs.len(), 2)) by {
        assert(b.subrange(25 + ml, 27 + ml) =~= be_bytes(df.tracks_diffs.len(), 2));
    }
    assert(d.subrange(p + ml + 2, p + ml + 2 + tb.len()) =~= tb) by {
        assert(b.subrange(27 + ml, 27 + ml + tb.len()) =~= tb);
    }
    lemma_track_diffs_roundtrip(d, p + ml + 2, df.tracks_diffs);
}

} // verus!
