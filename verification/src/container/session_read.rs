use crate::container::bytes::{be_val, copy_range, push_all, read_be};
use crate::container::edit_block::{parse_edit, EditBlock};
use crate::edit::schema::TrackEditsSpec;
use crate::container::header::{loom_magic, parse_header, HeaderSpec, SessionHeader};
use crate::container::metadata_tags::{parse_tags, MetadataTags};
use crate::container::picture_block::{parse_picture, PictureBlock, PictureSpec};
use crate::container::seek_index::{parse_seek_table, SeekTable};
use crate::container::session::flac_magic;
use crate::container::session_frames::{decode_rounds, initial_state, out_view, rounds, FrameSource};
use crate::error::LoomError;
use vstd::prelude::*;

verus! {

/// The magic of the older Loom-only files.
pub open spec fn lse_magic() -> Seq<u8> {
    seq![0x4Cu8, 0x53u8, 0x45u8, 0x01u8]
}

/// What the metadata blocks of a session carry: the Loom payload their application blocks
/// hold, in order, and the last tags and picture that read.
pub struct MetaAcc {
    pub payload: Seq<u8>,
    pub tags: Option<Seq<(Seq<char>, Seq<char>)>>,
    pub picture: Option<PictureSpec>,
}

/// The length a metadata block header at `pos` gives.
pub open spec fn block_len(d: Seq<u8>, pos: int) -> nat {
    be_val(d.subrange(pos + 1, pos + 4))
}

/// Reading the metadata block whose header is at `pos` (`pos + 4 <= d.len()`): where
/// `keep` says so, a tags block or a picture block is read whole and kept where it parses; an application block tagged
/// "LOOM" adds its data to the payload; other blocks are skipped. Gives the position after
/// the block.
#[verifier::opaque]
pub open spec fn meta_block(d: Seq<u8>, pos: int, acc: MetaAcc, keep: bool) -> Result<(MetaAcc, int), LoomError> {
    let ty = d[pos] % 128;
    let len = block_len(d, pos);
    let body = pos + 4;
    if keep && (ty == 4 || ty == 6) {
        if body + len > d.len() {
            Err(LoomError::UnexpectedEof)
        } else {
            let blk = d.subrange(body, body + len);
            if ty == 4 {
                match parse_tags(blk, 0) {
                    Ok((ts, _)) => Ok((MetaAcc { tags: Some(ts), ..acc }, body + len)),
                    Err(_) => Ok((acc, body + len)),
                }
            } else {
                match parse_picture(blk, 0) {
                    Ok((p, _)) => Ok((MetaAcc { picture: Some(p), ..acc }, body + len)),
                    Err(_) => Ok((acc, body + len)),
                }
            }
        }
    } else if ty == 2 {
        if body + 4 > d.len() {
            Err(LoomError::UnexpectedEof)
        } else if len < 4 {
            Err(LoomError::InvalidData)
        } else if d.subrange(body, body + 4) == loom_magic() {
            if body + len > d.len() {
                Err(LoomError::UnexpectedEof)
            } else {
                Ok((MetaAcc { payload: acc.payload + d.subrange(body + 4, body + len), ..acc }, body + len))
            }
        } else {
            Ok((acc, body + len))
        }
    } else {
        Ok((acc, body + len))
    }
}

/// Reading a metadata block moves past its header at least.
pub proof fn lemma_meta_block_moves(d: Seq<u8>, pos: int, acc: MetaAcc, keep: bool)
    ensures
        meta_block(d, pos, acc, keep) matches Ok((_, p)) ==> p >= pos + 4,
{
    reveal(meta_block);
}

/// Reading metadata blocks from `pos` up to and with the one flagged last.
pub open spec fn meta_walk(d: Seq<u8>, pos: int, acc: MetaAcc, keep: bool) -> Result<(MetaAcc, int), LoomError>
    decreases d.len() - pos,
{
    if pos < 0 || pos + 4 > d.len() {
        Err(LoomError::UnexpectedEof)
    } else {
        match meta_block(d, pos, acc, keep) {
            Err(e) => Err(e),
            Ok((acc2, p2)) => if d[pos] >= 128 {
                Ok((acc2, p2))
            } else if p2 + 4 > d.len() {
                Err(LoomError::UnexpectedEof)
            } else {
                proof {
                    lemma_meta_block_moves(d, pos, acc, keep);
                }
                meta_walk(d, p2, acc2, keep)
            },
        }
    }
}

/// Reading a session's container: after "fLaC", its metadata blocks (the frames of the
/// first track follow them), keeping tags and pictures where `keep` says so; after the
/// magic of the Loom-only format, the whole data is the payload. Gives whether the format
/// is Loom-only, what the blocks carry, and where the first track's frames start.
pub open spec fn parse_container(d: Seq<u8>, keep: bool) -> Result<(bool, MetaAcc, int), LoomError> {
    let empty = MetaAcc { payload: Seq::empty(), tags: None, picture: None };
    if d.len() < 4 {
        Err(LoomError::UnexpectedEof)
    } else if d.take(4) == flac_magic() {
        match meta_walk(d, 4, empty, keep) {
            Ok((acc, p)) => Ok((false, acc, p)),
            Err(e) => Err(e),
        }
    } else if d.take(4) == loom_magic() || d.take(4) == lse_magic() {
        Ok((true, MetaAcc { payload: d, tags: None, picture: None }, 4))
    } else {
        Err(LoomError::InvalidData)
    }
}

/// A session's container, read.
pub struct Container {
    pub old_format: bool,
    pub payload: Vec<u8>,
    pub frames_at: usize,
    pub tags: Option<MetadataTags>,
    pub picture: Option<PictureBlock>,
}

/// Tags as plain values.
pub open spec fn tags_opt(t: Option<MetadataTags>) -> Option<Seq<(Seq<char>, Seq<char>)>> {
    match t {
        Some(x) => Some(x.spec_tags()),
        None => None,
    }
}

/// A picture as plain values.
pub open spec fn picture_opt(p: Option<PictureBlock>) -> Option<PictureSpec> {
    match p {
        Some(x) => Some(x@),
        None => None,
    }
}

/// The container read as plain values.
pub open spec fn container_view(c: Container) -> (bool, MetaAcc, int) {
    (
        c.old_format,
        MetaAcc { payload: c.payload@, tags: tags_opt(c.tags), picture: picture_opt(c.picture) },
        c.frames_at as int,
    )
}

/// Reads a session's container as `parse_container` says.
pub fn read_container(d: &[u8], keep: bool) -> (r: Result<Container, LoomError>)
    requires
        d@.len() <= usize::MAX / 8,
    ensures
        match parse_container(d@, keep) {
            Ok(c) => r is Ok && container_view(r->Ok_0) == c,
            Err(e) => r == Err::<Container, LoomError>(e),
        },
        r matches Ok(c) ==> c.payload@.len() <= d@.len(),
{
    if d.len() < 4 {
        return Err(LoomError::UnexpectedEof);
    }
    let is_flac = d[0] == 0x66 && d[1] == 0x4C && d[2] == 0x61 && d[3] == 0x43;
    let is_loom = d[0] == 0x4C && d[1] == 0x4F && d[2] == 0x4F && d[3] == 0x4D;
    let is_lse = d[0] == 0x4C && d[1] == 0x53 && d[2] == 0x45 && d[3] == 0x01;
    proof {
        assert(is_flac <==> d@.take(4) == flac_magic()) by {
            if d@.take(4) == flac_magic() {
                assert(d@.take(4)[0] == d@[0]);
                assert(d@.take(4)[1] == d@[1]);
                assert(d@.take(4)[2] == d@[2]);
                assert(d@.take(4)[3] == d@[3]);
            }
            if is_flac {
                assert(d@.take(4) =~= flac_magic());
            }
        }
        assert(is_loom <==> d@.take(4) == loom_magic()) by {
            if d@.take(4) == loom_magic() {
                assert(d@.take(4)[0] == d@[0]);
                assert(d@.take(4)[1] == d@[1]);
                assert(d@.take(4)[2] == d@[2]);
                assert(d@.take(4)[3] == d@[3]);
            }
            if is_loom {
                assert(d@.take(4) =~= loom_magic());
            }
        }
        assert(is_lse <==> d@.take(4) == lse_magic()) by {
            if d@.take(4) == lse_magic() {
                assert(d@.take(4)[0] == d@[0]);
                assert(d@.take(4)[1] == d@[1]);
                assert(d@.take(4)[2] == d@[2]);
                assert(d@.take(4)[3] == d@[3]);
            }
            if is_lse {
                assert(d@.take(4) =~= lse_magic());
            }
        }
    }
    if !is_flac {
        if is_loom || is_lse {
            let payload = copy_range(d, 0, d.len());
            proof {
                assert(d@.subrange(0, d@.len() as int) =~= d@);
            }
            return Ok(Container { old_format: true, payload, frames_at: 4, tags: None, picture: None });
        }
        return Err(LoomError::InvalidData);
    }
    let ghost empty = MetaAcc { payload: Seq::empty(), tags: None, picture: None };
    if d.len() < 8 {
        return Err(LoomError::UnexpectedEof);
    }
    let mut payload: Vec<u8> = Vec::new();
    let mut tags: Option<MetadataTags> = None;
    let mut picture: Option<PictureBlock> = None;
    let mut pos: usize = 4;
    loop
        invariant
            4 <= pos,
            pos + 4 <= d@.len(),
            payload@.len() <= pos,
            d@.len() <= usize::MAX / 8,
            d@.take(4) == flac_magic(),
            empty == (MetaAcc { payload: Seq::empty(), tags: None, picture: None }),
            meta_walk(d@, 4, empty, keep) == meta_walk(
                d@,
                pos as int,
                MetaAcc { payload: payload@, tags: tags_opt(tags), picture: picture_opt(picture) },
                keep,
            ),
        decreases d@.len() - pos,
    {
        let ghost acc = MetaAcc { payload: payload@, tags: tags_opt(tags), picture: picture_opt(picture) };
        let next = match read_meta_block(d, pos, &mut payload, &mut tags, &mut picture, keep) {
            Ok(n) => n,
            Err(e) => {
                proof {
                    assert(meta_walk(d@, pos as int, acc, keep) == Err::<(MetaAcc, int), LoomError>(e));
                    assert(meta_walk(d@, 4, empty, keep) == Err::<(MetaAcc, int), LoomError>(e));

                }
                return Err(e);
            },
        };
        let ghost acc2 = MetaAcc { payload: payload@, tags: tags_opt(tags), picture: picture_opt(picture) };
        proof {
            lemma_meta_block_moves(d@, pos as int, acc, keep);
        }
        if d[pos] >= 128 {
            proof {
                assert(meta_walk(d@, pos as int, acc, keep) == Ok::<(MetaAcc, int), LoomError>((acc2, next as int)));
            }
            return Ok(Container { old_format: false, payload, frames_at: next, tags, picture });
        }
        if next > d.len() || d.len() - next < 4 {
            proof {
                assert(meta_walk(d@, pos as int, acc, keep) == Err::<(MetaAcc, int), LoomError>(LoomError::UnexpectedEof));
            }
            return Err(LoomError::UnexpectedEof);
        }
        proof {
            assert(meta_walk(d@, pos as int, acc, keep) == meta_walk(d@, next as int, acc2, keep));
        }
        pos = next;
    }
}

/// Reads the metadata block whose header is at `pos` as `meta_block` says, into the
/// payload, tags and picture read so far; gives the position after it.
fn read_meta_block(
    d: &[u8],
    pos: usize,
    payload: &mut Vec<u8>,
    tags: &mut Option<MetadataTags>,
    picture: &mut Option<PictureBlock>,
    keep: bool,
) -> (r: Result<usize, LoomError>)
    requires
        pos + 4 <= d@.len(),
        d@.len() <= usize::MAX / 8,
        old(payload)@.len() <= pos,
    ensures
        r is Ok ==> final(payload)@.len() <= d@.len() && final(payload)@.len() <= r->Ok_0,
        match meta_block(
            d@,
            pos as int,
            MetaAcc { payload: old(payload)@, tags: tags_opt(*old(tags)), picture: picture_opt(*old(picture)) },
            keep,
        ) {
            Ok((acc, p)) => r is Ok && r->Ok_0 as int == p && acc == MetaAcc {
                payload: final(payload)@,
                tags: tags_opt(*final(tags)),
                picture: picture_opt(*final(picture)),
            },
            Err(e) => r == Err::<usize, LoomError>(e),
        },
{
    reveal(meta_block);
    let head = d[pos];
    let len = match read_be(d, pos + 1, 3) {
        Ok(v) => v as usize,
        Err(e) => {
            return Err(e);
        },
    };
    proof {
        vstd::arithmetic::power2::lemma2_to64();
        assert(len as int == block_len(d@, pos as int));
    }
    let ty = head % 128;
    let body = pos + 4;
    if keep && (ty == 4 || ty == 6) {
        if len > d.len() - body {
            return Err(LoomError::UnexpectedEof);
        }
        let blk = copy_range(d, body, body + len);
        if ty == 4 {
            match MetadataTags::deserialize(blk.as_slice(), 0) {
                Ok((t, _)) => {
                    *tags = Some(t);
                },
                Err(_) => {},
            }
        } else {
            match PictureBlock::deserialize(blk.as_slice(), 0) {
                Ok((p, _)) => {
                    *picture = Some(p);
                },
                Err(_) => {},
            }
        }
        Ok(body + len)
    } else if ty == 2 {
        if d.len() - body < 4 {
            return Err(LoomError::UnexpectedEof);
        }
        if len < 4 {
            return Err(LoomError::InvalidData);
        }
        let tagged = d[body] == 0x4C && d[body + 1] == 0x4F && d[body + 2] == 0x4F && d[body + 3] == 0x4D;
        proof {
            let s = d@.subrange(body as int, body + 4);
            assert(tagged <==> s == loom_magic()) by {
                if s == loom_magic() {
                    assert(s[0] == d@[body as int]);
                    assert(s[1] == d@[body + 1]);
                    assert(s[2] == d@[body + 2]);
                    assert(s[3] == d@[body + 3]);
                }
                if tagged {
                    assert(s =~= loom_magic());
                }
            }
        }
        if tagged {
            if len > d.len() - body {
                return Err(LoomError::UnexpectedEof);
            }
            let chunk = copy_range(d, body + 4, body + len);
            push_all(payload, chunk.as_slice());
        }
        Ok(body + len)
    } else {
        Ok(body + len)
    }
}

/// The edit block framed at `pos`: its tag byte 1, a 4-byte big-endian length, then its
/// body, if the data holds all of it. Gives the body and the position after it.
pub open spec fn edit_frame(p: Seq<u8>, pos: int) -> Option<(Seq<u8>, int)> {
    if 0 <= pos && pos + 5 <= p.len() && p[pos] == 1 && pos + 5 + be_val(p.subrange(pos + 1, pos + 5))
        <= p.len() {
        let end = pos + 5 + be_val(p.subrange(pos + 1, pos + 5));
        Some((p.subrange(pos + 5, end), end))
    } else {
        None
    }
}

/// Reading the head of the Loom payload: the session header, the seek table, and the edit
/// block where one is framed there. Gives the header, the edit block's body and where the
/// Loom frames start.
pub open spec fn parse_payload_head(p: Seq<u8>) -> Result<(HeaderSpec, Option<Seq<u8>>, int), LoomError> {
    match parse_header(p, 0) {
        Err(e) => Err(e),
        Ok((h, p1)) => match parse_seek_table(p, p1) {
            Err(e) => Err(e),
            Ok((_, p2)) => match edit_frame(p, p2) {
                Some((b, p3)) => Ok((h, Some(b), p3)),
                None => Ok((h, None, p2)),
            },
        },
    }
}

/// Reads the head of the Loom payload as `parse_payload_head` says.
pub fn read_payload_head(p: &[u8]) -> (r: Result<(SessionHeader, Option<Vec<u8>>, usize), LoomError>)
    ensures
        match parse_payload_head(p@) {
            Ok((h, eb, at)) => r is Ok && r->Ok_0.0@ == h && r->Ok_0.2 == at && match eb {
                Some(b) => r->Ok_0.1 matches Some(v) && v@ == b,
                None => r->Ok_0.1 is None,
            },
            Err(e) => r == Err::<(SessionHeader, Option<Vec<u8>>, usize), LoomError>(e),
        },
{
    let (header, p1) = match SessionHeader::deserialize(p, 0) {
        Ok(v) => v,
        Err(e) => {
            return Err(e);
        },
    };
    let (_table, p2) = match SeekTable::deserialize(p, p1) {
        Ok(v) => v,
        Err(e) => {
            return Err(e);
        },
    };
    if p2 <= p.len() && p.len() - p2 >= 5 && p[p2] == 1 {
        let len = match read_be(p, p2 + 1, 4) {
            Ok(v) => v as usize,
            Err(e) => {
                return Err(e);
            },
        };
        proof {
            vstd::arithmetic::power2::lemma2_to64();
        }
        if len <= p.len() - p2 - 5 {
            let body = copy_range(p, p2 + 5, p2 + 5 + len);
            return Ok((header, Some(body), p2 + 5 + len));
        }
    }
    Ok((header, None, p2))
}

/// A decoded session as plain values: the tracks' PCM, the header, the edits, the tags and
/// the picture.
pub struct SessionSpec {
    pub tracks: Seq<Seq<Seq<i64>>>,
    pub header: HeaderSpec,
    pub edits: Option<Seq<(u16, TrackEditsSpec)>>,
    pub tags: Option<Seq<(Seq<char>, Seq<char>)>>,
    pub picture: Option<PictureSpec>,
}

/// The edits an edit block's body holds, where it reads.
pub open spec fn edits_of(body: Option<Seq<u8>>) -> Option<Seq<(u16, TrackEditsSpec)>> {
    match body {
        Some(b) => match parse_edit(b, 0) {
            Ok((es, _)) => Some(es),
            Err(_) => None,
        },
        None => None,
    }
}

/// Decoding a session: its container; the first track's frames, which must start inside
/// the data; the head of the payload; a header with at least one track and a bit depth of
/// at most 63 (else invalid data); then the frame loop over the first track's FLAC frames
/// (or, in the Loom-only format, none) and the Loom frames after the payload's head.
pub open spec fn session_decode(d: Seq<u8>) -> Result<SessionSpec, LoomError> {
    match parse_container(d, true) {
        Err(e) => Err(e),
        Ok((old, acc, at)) => if at > d.len() {
            Err(LoomError::UnexpectedEof)
        } else {
            match parse_payload_head(acc.payload) {
                Err(e) => Err(e),
                Ok((h, eb, lat)) => if lat > acc.payload.len() {
                    Err(LoomError::UnexpectedEof)
                } else if h.tracks.len() == 0 || h.bit_depth > 63 {
                    Err(LoomError::InvalidData)
                } else {
                    let src = FrameSource {
                        old_format: old,
                        track0: d.subrange(at, d.len() as int),
                        loom: acc.payload.subrange(lat, acc.payload.len() as int),
                        bps: h.bit_depth as nat,
                        ntracks: h.tracks.len(),
                        total0: h.tracks[0].total_samples as nat,
                    };
                    match rounds(src, initial_state(h.tracks.len())) {
                        Err(e) => Err(e),
                        Ok(out) => Ok(
                            SessionSpec {
                                tracks: out,
                                header: h,
                                edits: edits_of(eb),
                                tags: acc.tags,
                                picture: acc.picture,
                            },
                        ),
                    }
                },
            }
        },
    }
}

/// A decoded session: the tracks' PCM, the header, the edits, the tags and the picture.
pub struct DecodedSession {
    pub tracks: Vec<Vec<Vec<i64>>>,
    pub header: SessionHeader,
    pub edits: Option<EditBlock>,
    pub tags: Option<MetadataTags>,
    pub picture: Option<PictureBlock>,
}

/// The edits, as plain values.
pub open spec fn edit_opt(e: Option<EditBlock>) -> Option<Seq<(u16, TrackEditsSpec)>> {
    match e {
        Some(b) => Some(b@),
        None => None,
    }
}

/// A decoded session, as plain values.
pub open spec fn decoded_view(s: DecodedSession) -> SessionSpec {
    SessionSpec {
        tracks: out_view(s.tracks@),
        header: s.header@,
        edits: edit_opt(s.edits),
        tags: tags_opt(s.tags),
        picture: picture_opt(s.picture),
    }
}

/// Decodes a session as `session_decode` says: every track's PCM, the header, the edits,
/// the tags and the picture.
pub fn decode_session_parts(session_bytes: &[u8]) -> (r: Result<DecodedSession, LoomError>)
    requires
        session_bytes@.len() <= usize::MAX / 8,
    ensures
        match session_decode(session_bytes@) {
            Ok(s) => r is Ok && decoded_view(r->Ok_0) == s,
            Err(e) => r == Err::<DecodedSession, LoomError>(e),
        },
{
    let c = match read_container(session_bytes, true) {
        Ok(c) => c,
        Err(e) => {
            return Err(e);
        },
    };
    if c.frames_at > session_bytes.len() {
        return Err(LoomError::UnexpectedEof);
    }
    let (header, edits, lat) = match read_payload_head(c.payload.as_slice()) {
        Ok(v) => v,
        Err(e) => {
            return Err(e);
        },
    };
    if lat > c.payload.len() {
        return Err(LoomError::UnexpectedEof);
    }
    if header.tracks.len() == 0 || header.bit_depth > 63 {
        return Err(LoomError::InvalidData);
    }
    let (_, track0) = session_bytes.split_at(c.frames_at);
    let (_, loom) = c.payload.as_slice().split_at(lat);
    proof {
        assert(track0@ =~= session_bytes@.subrange(c.frames_at as int, session_bytes@.len() as int));
        assert(loom@ =~= c.payload@.subrange(lat as int, c.payload@.len() as int));
    }
    let ntracks = header.tracks.len();
    let total0 = header.tracks[0].total_samples;
    proof {
        assert(header@.tracks[0].total_samples == total0);
    }
    let tracks = match decode_rounds(
        c.old_format,
        track0,
        loom,
        header.bit_depth as usize,
        ntracks,
        total0,
    ) {
        Ok(t) => t,
        Err(e) => {
            return Err(e);
        },
    };
    let edit_block = match edits {
        Some(b) => match EditBlock::deserialize(b.as_slice(), 0) {
            Ok((eb, _)) => Some(eb),
            Err(_) => None,
        },
        None => None,
    };
    Ok(DecodedSession { tracks, header, edits: edit_block, tags: c.tags, picture: c.picture })
}

/// Decodes a session's tracks and header, as `session_decode` says.
pub fn decode_session(session_bytes: &[u8]) -> (r: Result<(Vec<Vec<Vec<i64>>>, SessionHeader), LoomError>)
    requires
        session_bytes@.len() <= usize::MAX / 8,
    ensures
        match session_decode(session_bytes@) {
            Ok(s) => r is Ok && out_view(r->Ok_0.0@) == s.tracks && r->Ok_0.1@ == s.header,
            Err(e) => r == Err::<(Vec<Vec<Vec<i64>>>, SessionHeader), LoomError>(e),
        },
{
    match decode_session_parts(session_bytes) {
        Ok(s) => Ok((s.tracks, s.header)),
        Err(e) => Err(e),
    }
}

} // verus!
