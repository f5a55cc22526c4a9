//! How an encoded session lays out its metadata, and what a reader gets back of it.
use crate::container::edit_block::{edit_body, edit_bytes, edits_readable, lemma_edit_roundtrip};
use crate::container::flac_metadata::block_header_bytes;
use crate::container::header::{
    header_bytes, header_writable, lemma_header_roundtrip, loom_magic, HeaderSpec,
};
use crate::container::metadata_tags::{lemma_tags_roundtrip, tags_bytes, tags_readable};
use crate::container::picture_block::{
    lemma_picture_roundtrip, picture_bytes, picture_readable, PictureSpec,
};
use crate::container::seek_index::{lemma_seek_table_roundtrip, seek_table_bytes, SeekPoint};
use crate::container::bytes::{be_bytes, be_val, lemma_be_exact};
use crate::container::session_read::{
    block_len, edit_frame, edits_of, meta_block, meta_walk, parse_container, parse_payload_head, MetaAcc,
};
use crate::edit::schema::TrackEditsSpec;
use vstd::arithmetic::power2::lemma2_to64;
use vstd::prelude::*;

verus! {

/// A metadata block that is there or not: its header (not the last block) and its body.
pub open spec fn opt_block(ty: u8, b: Option<Seq<u8>>) -> Seq<u8> {
    match b {
        Some(x) => block_header_bytes(false, ty, x.len() as u32) + x,
        None => Seq::empty(),
    }
}

/// Where the application block holding the payload from `i` on ends: at most 16,000,000
/// bytes on.
pub open spec fn chunk_end(p: Seq<u8>, i: nat) -> nat {
    if p.len() - i > 16_000_000 {
        i + 16_000_000
    } else {
        p.len()
    }
}

/// The payload from `i` on in application blocks tagged "LOOM", one after another.
pub open spec fn app_chunks(p: Seq<u8>, i: nat) -> Seq<u8>
    decreases p.len() - i,
{
    if i >= p.len() {
        Seq::empty()
    } else {
        block_header_bytes(false, 2, (chunk_end(p, i) - i + 4) as u32) + loom_magic() + p.subrange(
            i as int,
            chunk_end(p, i) as int,
        ) + app_chunks(p, chunk_end(p, i))
    }
}

/// An encoded session: "fLaC", the STREAMINFO block `si`, the tags and picture blocks
/// where there are any, the payload in application blocks, 4096 bytes of padding in the
/// last block, and the first track's frames.
pub open spec fn session_layout(
    si: Seq<u8>,
    tg: Option<Seq<u8>>,
    pic: Option<Seq<u8>>,
    payload: Seq<u8>,
    frames0: Seq<u8>,
) -> Seq<u8> {
    seq![0x66u8, 0x4Cu8, 0x61u8, 0x43u8] + block_header_bytes(false, 0, 34) + si + opt_block(4, tg)
        + opt_block(6, pic) + app_chunks(payload, 0) + block_header_bytes(true, 1, 4096) + Seq::new(
        4096,
        |i: int| 0u8,
    ) + frames0
}

/// The bytes of tags, if any.
pub open spec fn tags_opt_bytes(tg: Option<Seq<(Seq<char>, Seq<char>)>>) -> Option<Seq<u8>> {
    match tg {
        Some(ts) => Some(tags_bytes(ts)),
        None => None,
    }
}

/// The bytes of a picture, if any.
pub open spec fn picture_opt_bytes(pic: Option<PictureSpec>) -> Option<Seq<u8>> {
    match pic {
        Some(p) => Some(picture_bytes(p)),
        None => None,
    }
}

/// The payload an encoded session carries: the header, the seek table, the framed edit
/// block and the Loom frames.
pub open spec fn session_payload(
    h: HeaderSpec,
    pts: Seq<Seq<SeekPoint>>,
    es: Seq<(u16, TrackEditsSpec)>,
    loom: Seq<u8>,
) -> Seq<u8> {
    header_bytes(h) + seek_table_bytes(pts) + edit_bytes(es) + loom
}

/// `b` is a session laid out as the encoder writes one, with header `h`, edits `es`, tags
/// `tg` and picture `pic`, whatever its STREAMINFO block, seek points, Loom frames and
/// first track's frames.
pub open spec fn session_meta(
    b: Seq<u8>,
    h: HeaderSpec,
    es: Seq<(u16, TrackEditsSpec)>,
    tg: Option<Seq<(Seq<char>, Seq<char>)>>,
    pic: Option<PictureSpec>,
) -> bool {
    exists|si: Seq<u8>, pts: Seq<Seq<SeekPoint>>, loom: Seq<u8>, frames0: Seq<u8>|
        #![trigger session_layout(si, tags_opt_bytes(tg), picture_opt_bytes(pic), session_payload(h, pts, es, loom), frames0)]
        si.len() == 34 && pts.len() == h.tracks.len() && (forall|t: int|
            0 <= t < pts.len() ==> #[trigger] pts[t].len() <= 0xFFFF_FFFF) && b == session_layout(
            si,
            tags_opt_bytes(tg),
            picture_opt_bytes(pic),
            session_payload(h, pts, es, loom),
            frames0,
        )
}


/// A block header written at `pos` reads as its type, its last-block flag and its length.
proof fn lemma_block_header(d: Seq<u8>, pos: int, last: bool, ty: u8, len: u32)
    requires
        ty < 128,
        len < 0x100_0000,
        0 <= pos,
        pos + 4 <= d.len(),
        d.subrange(pos, pos + 4) == block_header_bytes(last, ty, len),
    ensures
        d[pos] % 128 == ty,
        d[pos] >= 128 <==> last,
        block_len(d, pos) == len,
        block_header_bytes(last, ty, len).len() == 4,
{
    lemma2_to64();
    lemma_be_exact(len as nat, 3);
    assert(d[pos] == block_header_bytes(last, ty, len)[0]);
    assert(d.subrange(pos + 1, pos + 4) =~= be_bytes(len as nat, 3)) by {
        assert(block_header_bytes(last, ty, len).subrange(1, 4) =~= be_bytes(len as nat, 3));
    }
}

/// Reading metadata blocks from a block that is not the last goes on after it.
proof fn lemma_walk_step(d: Seq<u8>, pos: int, acc: MetaAcc, keep: bool, acc2: MetaAcc, p2: int)
    requires
        0 <= pos,
        pos + 4 <= d.len(),
        d[pos] < 128,
        meta_block(d, pos, acc, keep) == Ok::<(MetaAcc, int), crate::error::LoomError>((acc2, p2)),
        p2 + 4 <= d.len(),
    ensures
        meta_walk(d, pos, acc, keep) == meta_walk(d, p2, acc2, keep),
{
}

/// A block skipped: neither kept tags or picture nor an application block.
proof fn lemma_skip_block(d: Seq<u8>, pos: int, acc: MetaAcc, keep: bool, last: bool, ty: u8, len: u32)
    requires
        ty < 128,
        ty != 2,
        !keep || (ty != 4 && ty != 6),
        len < 0x100_0000,
        0 <= pos,
        pos + 4 <= d.len(),
        d.subrange(pos, pos + 4) == block_header_bytes(last, ty, len),
    ensures
        meta_block(d, pos, acc, keep) == Ok::<(MetaAcc, int), crate::error::LoomError>((acc, pos + 4 + len)),
{
    lemma_block_header(d, pos, last, ty, len);
    reveal(meta_block);
}

/// The zero bytes of the padding block.
pub open spec fn padding_zeros() -> Seq<u8> {
    Seq::new(4096, |i: int| 0u8)
}

/// Reading the application blocks of the payload from `i` on, and the padding block after
/// them, adds the payload from `i` on and ends after the padding.
proof fn lemma_walk_chunks(d: Seq<u8>, pos: int, p: Seq<u8>, i: nat, acc: MetaAcc, keep: bool)
    requires
        i <= p.len(),
        0 <= pos,
        pos + (app_chunks(p, i) + block_header_bytes(true, 1, 4096) + padding_zeros()).len() <= d.len(),
        d.subrange(pos, pos + (app_chunks(p, i) + block_header_bytes(true, 1, 4096) + padding_zeros()).len())
            == app_chunks(p, i) + block_header_bytes(true, 1, 4096) + padding_zeros(),
    ensures
        meta_walk(d, pos, acc, keep) == Ok::<(MetaAcc, int), crate::error::LoomError>(
            (
                MetaAcc { payload: acc.payload + p.subrange(i as int, p.len() as int), ..acc },
                pos + (app_chunks(p, i) + block_header_bytes(true, 1, 4096) + padding_zeros()).len(),
            ),
        ),
    decreases p.len() - i,
{
    lemma2_to64();
    let pad = block_header_bytes(true, 1, 4096) + padding_zeros();
    let x = app_chunks(p, i) + block_header_bytes(true, 1, 4096) + padding_zeros();
    crate::container::bytes::lemma_be_bytes_len(4096, 3);
    if i >= p.len() {
        assert(app_chunks(p, i) =~= Seq::<u8>::empty());
        assert(x =~= pad);
        assert(d.subrange(pos, pos + 4) =~= block_header_bytes(true, 1, 4096)) by {
            assert(d.subrange(pos, pos + 4) =~= d.subrange(pos, pos + x.len()).subrange(0, 4));
            assert(x.subrange(0, 4) =~= block_header_bytes(true, 1, 4096));
        }
        lemma_skip_block(d, pos, acc, keep, true, 1, 4096);
        lemma_block_header(d, pos, true, 1, 4096);
        assert(p.subrange(i as int, p.len() as int) =~= Seq::<u8>::empty());
        assert(acc.payload + Seq::<u8>::empty() =~= acc.payload);
        assert(MetaAcc { payload: acc.payload + p.subrange(i as int, p.len() as int), ..acc } == acc);
    } else {
        let e = chunk_end(p, i);
        let len = (e - i + 4) as u32;
        let hdr = block_header_bytes(false, 2, len);
        let body = p.subrange(i as int, e as int);
        let rest = app_chunks(p, e);
        assert(app_chunks(p, i) == hdr + loom_magic() + body + rest);
        crate::container::bytes::lemma_be_bytes_len(len as nat, 3);
        assert(x =~= hdr + loom_magic() + body + (rest + pad));
        assert(d.subrange(pos, pos + 4) =~= hdr) by {
            assert(d.subrange(pos, pos + 4) =~= d.subrange(pos, pos + x.len()).subrange(0, 4));
            assert(x.subrange(0, 4) =~= hdr);
        }
        lemma_block_header(d, pos, false, 2, len);
        assert(d.subrange(pos + 4, pos + 8) =~= loom_magic()) by {
            assert(hdr.len() == 4);
            assert(d.subrange(pos + 4, pos + 8) =~= d.subrange(pos, pos + x.len()).subrange(4, 8));
            assert(x.subrange(4, 8) =~= loom_magic());
        }
        let blen = (e - i) as int;
        assert(d.subrange(pos + 8, pos + 8 + blen) =~= body) by {
            assert(hdr.len() == 4);
            assert(d.subrange(pos + 8, pos + 8 + blen) =~= d.subrange(pos, pos + x.len()).subrange(8, 8 + blen));
            assert(x.subrange(8, 8 + blen) =~= body);
        }
        let acc2 = MetaAcc { payload: acc.payload + body, ..acc };
        assert(meta_block(d, pos, acc, keep) == Ok::<(MetaAcc, int), crate::error::LoomError>(
            (acc2, pos + 8 + blen),
        )) by {
            reveal(meta_block);
        }
        let p2 = pos + 8 + blen;
        let y = rest + block_header_bytes(true, 1, 4096) + padding_zeros();
        assert(d.subrange(p2, p2 + y.len()) =~= y) by {
            assert(hdr.len() == 4);
            assert(x.len() == 8 + blen + y.len());
            assert(d.subrange(p2, p2 + y.len()) =~= d.subrange(pos, pos + x.len()).subrange(8 + blen, x.len() as int));
            assert(x.subrange(8 + blen, x.len() as int) =~= y);
        }
        lemma_walk_chunks(d, p2, p, e, acc2, keep);
        lemma_walk_step(d, pos, acc, keep, acc2, p2);
        assert(acc2.payload + p.subrange(e as int, p.len() as int) =~= acc.payload + p.subrange(
            i as int,
            p.len() as int,
        ));
    }
}

/// A tags block read: kept where `keep` says so.
proof fn lemma_tags_block(d: Seq<u8>, pos: int, ts: Seq<(Seq<char>, Seq<char>)>, acc: MetaAcc, keep: bool)
    requires
        tags_readable(ts),
        tags_bytes(ts).len() < 0x100_0000,
        0 <= pos,
        pos + 4 + tags_bytes(ts).len() <= d.len(),
        d.subrange(pos, pos + 4 + tags_bytes(ts).len()) == opt_block(4, Some(tags_bytes(ts))),
    ensures
        d[pos] < 128,
        meta_block(d, pos, acc, keep) == Ok::<(MetaAcc, int), crate::error::LoomError>(
            (
                if keep {
                    MetaAcc { tags: Some(ts), ..acc }
                } else {
                    acc
                },
                pos + 4 + tags_bytes(ts).len(),
            ),
        ),
{
    let tb = tags_bytes(ts);
    let hdr = block_header_bytes(false, 4, tb.len() as u32);
    let x = hdr + tb;
    lemma2_to64();
    crate::container::bytes::lemma_be_bytes_len(tb.len(), 3);
    assert(d.subrange(pos, pos + 4) =~= hdr) by {
        assert(d.subrange(pos, pos + 4) =~= d.subrange(pos, pos + x.len()).subrange(0, 4));
    }
    lemma_block_header(d, pos, false, 4, tb.len() as u32);
    let blk = d.subrange(pos + 4, pos + 4 + tb.len());
    assert(blk =~= tb) by {
        assert(blk =~= d.subrange(pos, pos + x.len()).subrange(4, x.len() as int));
    }
    assert(blk.subrange(0, tb.len() as int) =~= tb);
    lemma_tags_roundtrip(blk, 0, ts);
    reveal(meta_block);
}

/// A picture block read: kept where `keep` says so.
proof fn lemma_picture_block(d: Seq<u8>, pos: int, pic: PictureSpec, acc: MetaAcc, keep: bool)
    requires
        picture_readable(pic),
        picture_bytes(pic).len() < 0x100_0000,
        0 <= pos,
        pos + 4 + picture_bytes(pic).len() <= d.len(),
        d.subrange(pos, pos + 4 + picture_bytes(pic).len()) == opt_block(6, Some(picture_bytes(pic))),
    ensures
        d[pos] < 128,
        meta_block(d, pos, acc, keep) == Ok::<(MetaAcc, int), crate::error::LoomError>(
            (
                if keep {
                    MetaAcc { picture: Some(pic), ..acc }
                } else {
                    acc
                },
                pos + 4 + picture_bytes(pic).len(),
            ),
        ),
{
    let pb = picture_bytes(pic);
    let hdr = block_header_bytes(false, 6, pb.len() as u32);
    let x = hdr + pb;
    lemma2_to64();
    crate::container::bytes::lemma_be_bytes_len(pb.len(), 3);
    assert(d.subrange(pos, pos + 4) =~= hdr) by {
        assert(d.subrange(pos, pos + 4) =~= d.subrange(pos, pos + x.len()).subrange(0, 4));
    }
    lemma_block_header(d, pos, false, 6, pb.len() as u32);
    let blk = d.subrange(pos + 4, pos + 4 + pb.len());
    assert(blk =~= pb) by {
        assert(blk =~= d.subrange(pos, pos + x.len()).subrange(4, x.len() as int));
    }
    assert(blk.subrange(0, pb.len() as int) =~= pb);
    lemma_picture_roundtrip(blk, 0, pic);
    reveal(meta_block);
}

/// The head of an encoded session's payload reads back as its header and its edit block's
/// body.
pub proof fn lemma_payload_head(
    h: HeaderSpec,
    pts: Seq<Seq<SeekPoint>>,
    es: Seq<(u16, TrackEditsSpec)>,
    loom: Seq<u8>,
)
    requires
        header_writable(h),
        pts.len() == h.tracks.len(),
        forall|t: int| 0 <= t < pts.len() ==> #[trigger] pts[t].len() <= 0xFFFF_FFFF,
        edit_body(es).len() < 0x1_0000_0000,
    ensures
        parse_payload_head(session_payload(h, pts, es, loom)) matches Ok((h2, eb, lat)) && h2 == h && eb
            == Some(edit_body(es)) && lat <= session_payload(h, pts, es, loom).len(),
{
    let p = session_payload(h, pts, es, loom);
    let hb = header_bytes(h);
    let sb = seek_table_bytes(pts);
    let eb = edit_bytes(es);
    let body = edit_body(es);
    assert(p == hb + sb + eb + loom);
    assert(p.subrange(0, hb.len() as int) =~= hb);
    lemma_header_roundtrip(p, 0, h);
    let p1 = hb.len() as int;
    assert(p.subrange(p1, p1 + sb.len()) =~= sb);
    lemma_seek_table_roundtrip(p, p1, pts);
    let p2 = p1 + sb.len();
    lemma2_to64();
    lemma_be_exact(body.len(), 4);
    assert(eb == seq![1u8] + be_bytes(body.len(), 4) + body);
    assert(p[p2] == eb[0]);
    assert(p.subrange(p2 + 1, p2 + 5) =~= be_bytes(body.len(), 4)) by {
        assert(p.subrange(p2 + 1, p2 + 5) =~= eb.subrange(1, 5));
    }
    assert(p.subrange(p2 + 5, p2 + 5 + body.len()) =~= body) by {
        assert(p.subrange(p2 + 5, p2 + 5 + body.len()) =~= eb.subrange(5, 5 + body.len() as int));
    }
    assert(edit_frame(p, p2) == Some((body, p2 + 5 + body.len())));
}

/// What a session's metadata must be for it to read back: a header the writer can write,
/// edits that read back with a body shorter than `2^32` bytes, and tags and a picture that
/// read back, each shorter than `2^24` bytes.
pub open spec fn meta_writable(
    h: HeaderSpec,
    es: Seq<(u16, TrackEditsSpec)>,
    tg: Option<Seq<(Seq<char>, Seq<char>)>>,
    pic: Option<PictureSpec>,
) -> bool {
    &&& header_writable(h)
    &&& edits_readable(es)
    &&& edit_body(es).len() < 0x1_0000_0000
    &&& tg matches Some(ts) ==> tags_readable(ts) && tags_bytes(ts).len() < 0x100_0000
    &&& pic matches Some(p) ==> picture_readable(p) && picture_bytes(p).len() < 0x100_0000
}

/// The tags a reader keeps of `tg`: all of them where it keeps tags at all.
pub open spec fn tags_kept(tg: Option<Seq<(Seq<char>, Seq<char>)>>, keep: bool) -> Option<Seq<(Seq<char>, Seq<char>)>> {
    if keep {
        match tg {
            Some(ts) => Some(ts),
            None => None,
        }
    } else {
        None
    }
}

/// What reading the metadata blocks of a session keeps: the payload, and where `keep`
/// says so the tags and the picture.
pub open spec fn meta_kept(
    payload: Seq<u8>,
    tg: Option<Seq<(Seq<char>, Seq<char>)>>,
    pic: Option<PictureSpec>,
    keep: bool,
) -> MetaAcc {
    MetaAcc {
        payload: payload,
        tags: tags_kept(tg, keep),
        picture: if keep {
            pic
        } else {
            None
        },
    }
}

/// Reading the metadata blocks of a laid-out session keeps its payload, tags and picture,
/// and ends where the first track's frames start.
#[verifier::rlimit(80)]
#[verifier::spinoff_prover]
pub proof fn lemma_walk_layout(
    b: Seq<u8>,
    si: Seq<u8>,
    payload: Seq<u8>,
    frames0: Seq<u8>,
    tg: Option<Seq<(Seq<char>, Seq<char>)>>,
    pic: Option<PictureSpec>,
    keep: bool,
)
    requires
        si.len() == 34,
        b == session_layout(si, tags_opt_bytes(tg), picture_opt_bytes(pic), payload, frames0),
        tg matches Some(ts) ==> tags_readable(ts) && tags_bytes(ts).len() < 0x100_0000,
        pic matches Some(p) ==> picture_readable(p) && picture_bytes(p).len() < 0x100_0000,
    ensures
        meta_walk(b, 4, MetaAcc { payload: Seq::empty(), tags: None, picture: None }, keep) matches Ok(
            (acc, at),
        ) && acc == meta_kept(payload, tg, pic, keep) && at <= b.len() && at == b.len() - frames0.len(),
{
    let tb = opt_block(4, tags_opt_bytes(tg));
    let pb = opt_block(6, picture_opt_bytes(pic));
    let c = app_chunks(payload, 0);
    let tail = c + block_header_bytes(true, 1, 4096) + padding_zeros();
    lemma2_to64();
    crate::container::bytes::lemma_be_bytes_len(34, 3);
    crate::container::bytes::lemma_be_bytes_len(4096, 3);
    let magic = seq![0x66u8, 0x4Cu8, 0x61u8, 0x43u8];
    let b1 = block_header_bytes(false, 0, 34);
    assert(b =~= magic + b1 + si + tb + pb + tail + frames0);
    let empty = MetaAcc { payload: Seq::empty(), tags: None, picture: None };
    assert(b.subrange(4, 8) =~= b1);
    lemma_skip_block(b, 4, empty, keep, false, 0, 34);
    lemma_block_header(b, 4, false, 0, 34);
    let q1: int = 42;
    let acc1 = if keep {
        match tg {
            Some(ts) => MetaAcc { tags: Some(ts), ..empty },
            None => empty,
        }
    } else {
        empty
    };
    let q2 = q1 + tb.len();
    assert(b.subrange(q1, q2) =~= tb);
    let acc2 = if keep {
        match pic {
            Some(p) => MetaAcc { picture: Some(p), ..acc1 },
            None => acc1,
        }
    } else {
        acc1
    };
    let q3 = q2 + pb.len();
    assert(b.subrange(q2, q3) =~= pb);
    assert(b.subrange(q3, q3 + tail.len()) =~= tail);
    lemma_walk_chunks(b, q3, payload, 0, acc2, keep);
    assert(payload.subrange(0, payload.len() as int) =~= payload);
    assert(acc2.payload + payload =~= payload);
    if pb.len() > 0 {
        let p = pic->Some_0;
        assert(pb == opt_block(6, Some(picture_bytes(p))));
        crate::container::bytes::lemma_be_bytes_len((picture_bytes(p).len() as u32) as nat, 3);
        assert(pb.len() == 4 + picture_bytes(p).len());
        lemma_picture_block(b, q2, p, acc1, keep);
        lemma_walk_step(b, q2, acc1, keep, acc2, q3);
    } else {
        assert(pic is None);
    }
    if tb.len() > 0 {
        let ts = tg->Some_0;
        assert(tb == opt_block(4, Some(tags_bytes(ts))));
        crate::container::bytes::lemma_be_bytes_len((tags_bytes(ts).len() as u32) as nat, 3);
        assert(tb.len() == 4 + tags_bytes(ts).len());
        lemma_tags_block(b, q1, ts, empty, keep);
        lemma_walk_step(b, q1, empty, keep, acc1, q2);
    } else {
        assert(tg is None);
    }
    lemma_walk_step(b, 4, empty, keep, empty, q1);
}

/// Reading the container of a session laid out as the encoder writes it gives back, in the
/// FLAC layout, the payload whose head reads as the session's header and edit block, and
/// (where `keep` says so) the tags and the picture; the edit block reads as
/// the edits.
pub proof fn lemma_session_meta_roundtrip(
    b: Seq<u8>,
    h: HeaderSpec,
    es: Seq<(u16, TrackEditsSpec)>,
    tg: Option<Seq<(Seq<char>, Seq<char>)>>,
    pic: Option<PictureSpec>,
    keep: bool,
)
    requires
        session_meta(b, h, es, tg, pic),
        meta_writable(h, es, tg, pic),
    ensures
        parse_container(b, keep) matches Ok((old, acc, at)) && !old && at <= b.len() && acc.tags
            == tags_kept(tg, keep) && acc.picture == (if keep {
            pic
        } else {
            None
        }) && (parse_payload_head(acc.payload) matches Ok((h2, eb, lat)) && h2 == h && eb == Some(
            edit_body(es),
        )),
        edits_of(Some(edit_body(es))) == Some(es),
{
    let (si, pts, loom, frames0) = choose|si: Seq<u8>, pts: Seq<Seq<SeekPoint>>, loom: Seq<u8>, frames0: Seq<u8>|
        #![trigger session_layout(si, tags_opt_bytes(tg), picture_opt_bytes(pic), session_payload(h, pts, es, loom), frames0)]
        si.len() == 34 && pts.len() == h.tracks.len() && (forall|t: int|
            0 <= t < pts.len() ==> #[trigger] pts[t].len() <= 0xFFFF_FFFF) && b == session_layout(
            si,
            tags_opt_bytes(tg),
            picture_opt_bytes(pic),
            session_payload(h, pts, es, loom),
            frames0,
        );
    let payload = session_payload(h, pts, es, loom);
    lemma_walk_layout(b, si, payload, frames0, tg, pic, keep);
    assert(b.take(4) =~= seq![0x66u8, 0x4Cu8, 0x61u8, 0x43u8]);
    lemma_payload_head(h, pts, es, loom);
    assert(edit_body(es).subrange(0, edit_body(es).len() as int) =~= edit_body(es));
    lemma_edit_roundtrip(edit_body(es), 0, es);
}
} // verus!
