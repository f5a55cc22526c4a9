use crate::container::bytes::{
    be_bytes, be_val, copy_range, lemma_be_exact, push_all, push_be, read_be, string_bytes,
    string_from_utf8,
};
use vstd::arithmetic::power2::lemma2_to64;
use crate::error::LoomError;
use vstd::prelude::*;
use vstd::utf8::{decode_utf8, encode_utf8, valid_utf8};

verus! {

/// What a picture shows, as FLAC numbers the kinds.
#[derive(Clone, Copy, Debug, PartialEq, Eq, Structural)]
pub enum PictureType {
    Other,
    FileIcon,
    OtherFileIcon,
    FrontCover,
    BackCover,
    LeafletPage,
    Media,
    LeadArtist,
    ArtistPhoto,
    Conductor,
    Band,
    Composer,
    Lyricist,
    RecordingLocation,
    DuringRecording,
    DuringPerformance,
    MovieScreenCapture,
    ABrightColouredFish,
    Illustration,
    BandLogotype,
    PublisherStudioLogotype,
}

/// The number of a picture kind.
pub open spec fn picture_code(t: PictureType) -> u32 {
    match t {
        PictureType::Other => 0,
        PictureType::FileIcon => 1,
        PictureType::OtherFileIcon => 2,
        PictureType::FrontCover => 3,
        PictureType::BackCover => 4,
        PictureType::LeafletPage => 5,
        PictureType::Media => 6,
        PictureType::LeadArtist => 7,
        PictureType::ArtistPhoto => 8,
        PictureType::Conductor => 9,
        PictureType::Band => 10,
        PictureType::Composer => 11,
        PictureType::Lyricist => 12,
        PictureType::RecordingLocation => 13,
        PictureType::DuringRecording => 14,
        PictureType::DuringPerformance => 15,
        PictureType::MovieScreenCapture => 16,
        PictureType::ABrightColouredFish => 17,
        PictureType::Illustration => 18,
        PictureType::BandLogotype => 19,
        PictureType::PublisherStudioLogotype => 20,
    }
}

/// The picture kind numbered `v` (Other for an unknown number).
pub open spec fn picture_of_code(v: u32) -> PictureType {
    if v == 1 {
        PictureType::FileIcon
    } else if v == 2 {
        PictureType::OtherFileIcon
    } else if v == 3 {
        PictureType::FrontCover
    } else if v == 4 {
        PictureType::BackCover
    } else if v == 5 {
        PictureType::LeafletPage
    } else if v == 6 {
        PictureType::Media
    } else if v == 7 {
        PictureType::LeadArtist
    } else if v == 8 {
        PictureType::ArtistPhoto
    } else if v == 9 {
        PictureType::Conductor
    } else if v == 10 {
        PictureType::Band
    } else if v == 11 {
        PictureType::Composer
    } else if v == 12 {
        PictureType::Lyricist
    } else if v == 13 {
        PictureType::RecordingLocation
    } else if v == 14 {
        PictureType::DuringRecording
    } else if v == 15 {
        PictureType::DuringPerformance
    } else if v == 16 {
        PictureType::MovieScreenCapture
    } else if v == 17 {
        PictureType::ABrightColouredFish
    } else if v == 18 {
        PictureType::Illustration
    } else if v == 19 {
        PictureType::BandLogotype
    } else if v == 20 {
        PictureType::PublisherStudioLogotype
    } else {
        PictureType::Other
    }
}

impl PictureType {
    pub fn from_u32(v: u32) -> (r: Self)
        ensures
            r == picture_of_code(v),
    {
        match v {
            1 => PictureType::FileIcon,
            2 => PictureType::OtherFileIcon,
            3 => PictureType::FrontCover,
            4 => PictureType::BackCover,
            5 => PictureType::LeafletPage,
            6 => PictureType::Media,
            7 => PictureType::LeadArtist,
            8 => PictureType::ArtistPhoto,
            9 => PictureType::Conductor,
            10 => PictureType::Band,
            11 => PictureType::Composer,
            12 => PictureType::Lyricist,
            13 => PictureType::RecordingLocation,
            14 => PictureType::DuringRecording,
            15 => PictureType::DuringPerformance,
            16 => PictureType::MovieScreenCapture,
            17 => PictureType::ABrightColouredFish,
            18 => PictureType::Illustration,
            19 => PictureType::BandLogotype,
            20 => PictureType::PublisherStudioLogotype,
            _ => PictureType::Other,
        }
    }

    /// The kind's number.
    pub fn to_u32(&self) -> (r: u32)
        ensures
            r == picture_code(*self),
    {
        match self {
            PictureType::Other => 0,
            PictureType::FileIcon => 1,
            PictureType::OtherFileIcon => 2,
            PictureType::FrontCover => 3,
            PictureType::BackCover => 4,
            PictureType::LeafletPage => 5,
            PictureType::Media => 6,
            PictureType::LeadArtist => 7,
            PictureType::ArtistPhoto => 8,
            PictureType::Conductor => 9,
            PictureType::Band => 10,
            PictureType::Composer => 11,
            PictureType::Lyricist => 12,
            PictureType::RecordingLocation => 13,
            PictureType::DuringRecording => 14,
            PictureType::DuringPerformance => 15,
            PictureType::MovieScreenCapture => 16,
            PictureType::ABrightColouredFish => 17,
            PictureType::Illustration => 18,
            PictureType::BandLogotype => 19,
            PictureType::PublisherStudioLogotype => 20,
        }
    }
}

/// Every kind reads back from its number.
pub proof fn lemma_picture_code_roundtrip(t: PictureType)
    ensures
        picture_of_code(picture_code(t)) == t,
{
}

/// An embedded picture.
#[derive(Clone, Debug, PartialEq)]
pub struct PictureBlock {
    pub picture_type: PictureType,
    pub mime_type: String,
    pub description: String,
    pub width: u32,
    pub height: u32,
    pub color_depth: u32,
    pub num_colors: u32,
    pub data: Vec<u8>,
}

/// A picture as plain values.
pub struct PictureSpec {
    pub picture_type: PictureType,
    pub mime_type: Seq<char>,
    pub description: Seq<char>,
    pub width: u32,
    pub height: u32,
    pub color_depth: u32,
    pub num_colors: u32,
    pub data: Seq<u8>,
}

impl View for PictureBlock {
    type V = PictureSpec;

    open spec fn view(&self) -> PictureSpec {
        PictureSpec {
            picture_type: self.picture_type,
            mime_type: self.mime_type@,
            description: self.description@,
            width: self.width,
            height: self.height,
            color_depth: self.color_depth,
            num_colors: self.num_colors,
            data: self.data@,
        }
    }
}

/// The length a serialized picture records for itself: 32 bytes of fixed fields and the
/// MIME type, description and data.
pub open spec fn picture_len(p: PictureSpec) -> nat {
    32 + encode_utf8(p.mime_type).len() + encode_utf8(p.description).len() + p.data.len()
}

/// A serialized picture: its length, the kind, the MIME type and description (each a
/// length and UTF-8 bytes), width, height, colour depth, colour count, and the data with
/// its length, every number in 4 big-endian bytes (their low 32 bits).
pub open spec fn picture_bytes(p: PictureSpec) -> Seq<u8> {
    be_bytes(picture_len(p), 4) + be_bytes(picture_code(p.picture_type) as nat, 4) + be_bytes(
        encode_utf8(p.mime_type).len(),
        4,
    ) + encode_utf8(p.mime_type) + be_bytes(encode_utf8(p.description).len(), 4) + encode_utf8(
        p.description,
    ) + be_bytes(p.width as nat, 4) + be_bytes(p.height as nat, 4) + be_bytes(p.color_depth as nat, 4)
        + be_bytes(p.num_colors as nat, 4) + be_bytes(p.data.len(), 4) + p.data
}

/// Reading a picture's description bytes: their text if valid UTF-8, else empty.
pub open spec fn lenient_text(b: Seq<u8>) -> Seq<char> {
    if valid_utf8(b) {
        decode_utf8(b)
    } else {
        Seq::empty()
    }
}

/// Reading a picture at `pos`, as `picture_bytes` lays it out (the recorded length is not
/// checked; an invalid description reads as empty): the picture and the position after it.
pub open spec fn parse_picture(d: Seq<u8>, pos: int) -> Result<(PictureSpec, int), LoomError> {
    if pos + 12 > d.len() {
        Err(LoomError::UnexpectedEof)
    } else {
        let ml = be_val(d.subrange(pos + 8, pos + 12)) as int;
        let p1 = pos + 12;
        if p1 + ml > d.len() {
            Err(LoomError::UnexpectedEof)
        } else if !valid_utf8(d.subrange(p1, p1 + ml)) {
            Err(LoomError::InvalidData)
        } else if p1 + ml + 4 > d.len() {
            Err(LoomError::UnexpectedEof)
        } else {
            let dl = be_val(d.subrange(p1 + ml, p1 + ml + 4)) as int;
            let p2 = p1 + ml + 4;
            if p2 + dl > d.len() {
                Err(LoomError::UnexpectedEof)
            } else if p2 + dl + 20 > d.len() {
                Err(LoomError::UnexpectedEof)
            } else {
                let p3 = p2 + dl;
                let n = be_val(d.subrange(p3 + 16, p3 + 20)) as int;
                if p3 + 20 + n > d.len() {
                    Err(LoomError::UnexpectedEof)
                } else {
                    Ok(
                        (
                            PictureSpec {
                                picture_type: picture_of_code(be_val(d.subrange(pos + 4, pos + 8)) as u32),
                                mime_type: decode_utf8(d.subrange(p1, p1 + ml)),
                                description: lenient_text(d.subrange(p2, p2 + dl)),
                                width: be_val(d.subrange(p3, p3 + 4)) as u32,
                                height: be_val(d.subrange(p3 + 4, p3 + 8)) as u32,
                                color_depth: be_val(d.subrange(p3 + 8, p3 + 12)) as u32,
                                num_colors: be_val(d.subrange(p3 + 12, p3 + 16)) as u32,
                                data: d.subrange(p3 + 20, p3 + 20 + n),
                            },
                            p3 + 20 + n,
                        ),
                    )
                }
            }
        }
    }
}

impl PictureBlock {
    /// Appends the picture to `out` as `picture_bytes` says.
    pub fn serialize(&self, out: &mut Vec<u8>)
        ensures
            final(out)@ == old(out)@ + picture_bytes(self@),
    {
        let mime_bytes = string_bytes(&self.mime_type);
        let desc_bytes = string_bytes(&self.description);
        let len: u128 = 32 + mime_bytes.len() as u128 + desc_bytes.len() as u128 + self.data.len() as u128;
        let len32 = (len % 0x1_0000_0000) as u64;
        proof {
            crate::container::bytes::lemma_be_low_bytes(len as nat, 4);
            vstd::arithmetic::power2::lemma2_to64();
            vstd::arithmetic::power2::lemma2_to64_rest();
        }
        push_be(out, len32, 4);
        push_be(out, self.picture_type.to_u32() as u64, 4);
        push_be(out, mime_bytes.len() as u64, 4);
        push_all(out, mime_bytes);
        push_be(out, desc_bytes.len() as u64, 4);
        push_all(out, desc_bytes);
        push_be(out, self.width as u64, 4);
        push_be(out, self.height as u64, 4);
        push_be(out, self.color_depth as u64, 4);
        push_be(out, self.num_colors as u64, 4);
        push_be(out, self.data.len() as u64, 4);
        push_all(out, self.data.as_slice());
        proof {
            assert(final(out)@ =~= old(out)@ + picture_bytes(self@));
        }
    }

    /// Reads a picture at `pos` of `data` as `parse_picture` says; gives it and the position
    /// after it.
    pub fn deserialize(data: &[u8], pos: usize) -> (r: Result<(PictureBlock, usize), LoomError>)
        ensures
            match parse_picture(data@, pos as int) {
                Ok((p, q)) => r is Ok && r->Ok_0.0@ == p && r->Ok_0.1 == q,
                Err(e) => r == Err::<(PictureBlock, usize), LoomError>(e),
            },
    {
        proof {
            vstd::arithmetic::power2::lemma2_to64();
            vstd::arithmetic::power2::lemma2_to64_rest();
        }
        if pos > data.len() || data.len() - pos < 12 {
            return Err(LoomError::UnexpectedEof);
        }
        let code = match read_be(data, pos + 4, 4) {
            Ok(v) => v as u32,
            Err(e) => {
                return Err(e);
            },
        };
        let picture_type = PictureType::from_u32(code);
        let mime_len = match read_be(data, pos + 8, 4) {
            Ok(v) => v as usize,
            Err(e) => {
                return Err(e);
            },
        };
        let p1 = pos + 12;
        if data.len() - p1 < mime_len {
            return Err(LoomError::UnexpectedEof);
        }
        let mime_type = match string_from_utf8(copy_range(data, p1, p1 + mime_len)) {
            Some(s) => s,
            None => {
                return Err(LoomError::InvalidData);
            },
        };
        proof {
            vstd::utf8::encode_utf8_decode_utf8(mime_type@);
        }
        let desc_len = match read_be(data, p1 + mime_len, 4) {
            Ok(v) => v as usize,
            Err(e) => {
                return Err(e);
            },
        };
        let p2 = p1 + mime_len + 4;
        if data.len() - p2 < desc_len {
            return Err(LoomError::UnexpectedEof);
        }
        let description = match string_from_utf8(copy_range(data, p2, p2 + desc_len)) {
            Some(s) => {
                proof {
                    vstd::utf8::encode_utf8_decode_utf8(s@);
                }
                s
            },
            None => String::new(),
        };
        let p3 = p2 + desc_len;
        if data.len() - p3 < 20 {
            return Err(LoomError::UnexpectedEof);
        }
        let width = match read_be(data, p3, 4) {
            Ok(v) => v as u32,
            Err(e) => {
                return Err(e);
            },
        };
        let height = match read_be(data, p3 + 4, 4) {
            Ok(v) => v as u32,
            Err(e) => {
                return Err(e);
            },
        };
        let color_depth = match read_be(data, p3 + 8, 4) {
            Ok(v) => v as u32,
            Err(e) => {
                return Err(e);
            },
        };
        let num_colors = match read_be(data, p3 + 12, 4) {
            Ok(v) => v as u32,
            Err(e) => {
                return Err(e);
            },
        };
        let n = match read_be(data, p3 + 16, 4) {
            Ok(v) => v as usize,
            Err(e) => {
                return Err(e);
            },
        };
        let p4 = p3 + 20;
        if data.len() - p4 < n {
            return Err(LoomError::UnexpectedEof);
        }
        let bytes = copy_range(data, p4, p4 + n);
        Ok(
            (
                PictureBlock {
                    picture_type,
                    mime_type,
                    description,
                    width,
                    height,
                    color_depth,
                    num_colors,
                    data: bytes,
                },
                p4 + n,
            ),
        )
    }
}


/// A picture that reads back: its MIME type, description and data each shorter than
/// `2^32` bytes.
pub open spec fn picture_readable(p: PictureSpec) -> bool {
    &&& encode_utf8(p.mime_type).len() < 0x1_0000_0000
    &&& encode_utf8(p.description).len() < 0x1_0000_0000
    &&& p.data.len() < 0x1_0000_0000
}

/// Reading back a written picture gives the picture and the position right after it,
/// whatever bytes stand before and after it.
#[verifier::rlimit(60)]
#[verifier::spinoff_prover]
pub proof fn lemma_picture_roundtrip(d: Seq<u8>, pos: int, p: PictureSpec)
    requires
        picture_readable(p),
        0 <= pos,
        pos + picture_bytes(p).len() <= d.len(),
        d.subrange(pos, pos + picture_bytes(p).len()) == picture_bytes(p),
    ensures
        parse_picture(d, pos) == Ok::<(PictureSpec, int), LoomError>(
            (p, pos + picture_bytes(p).len()),
        ),
{
    let b = picture_bytes(p);
    let mb = encode_utf8(p.mime_type);
    let db = encode_utf8(p.description);
    let ml = mb.len() as int;
    let dl = db.len() as int;
    let n = p.data.len() as int;
    lemma2_to64();
    crate::container::bytes::lemma_be_bytes_len(picture_len(p), 4);
    lemma_be_exact(picture_code(p.picture_type) as nat, 4);
    lemma_be_exact(mb.len(), 4);
    lemma_be_exact(db.len(), 4);
    lemma_be_exact(p.width as nat, 4);
    lemma_be_exact(p.height as nat, 4);
    lemma_be_exact(p.color_depth as nat, 4);
    lemma_be_exact(p.num_colors as nat, 4);
    lemma_be_exact(p.data.len(), 4);
    lemma_picture_code_roundtrip(p.picture_type);
    vstd::utf8::encode_utf8_valid_utf8(p.mime_type);
    vstd::utf8::encode_utf8_decode_utf8(p.mime_type);
    vstd::utf8::encode_utf8_valid_utf8(p.description);
    vstd::utf8::encode_utf8_decode_utf8(p.description);
    assert(b.len() == 36 + ml + dl + n);
    let p1 = pos + 12;
    let p2 = p1 + ml + 4;
    let p3 = p2 + dl;
    assert(d.subrange(pos + 4, pos + 8) =~= b.subrange(4, 8));
    assert(b.subrange(4, 8) =~= be_bytes(picture_code(p.picture_type) as nat, 4));
    assert(d.subrange(pos + 8, pos + 12) =~= b.subrange(8, 12));
    assert(b.subrange(8, 12) =~= be_bytes(mb.len(), 4));
    assert(d.subrange(p1, p1 + ml) =~= b.subrange(12, 12 + ml));
    assert(b.subrange(12, 12 + ml) =~= mb);
    assert(d.subrange(p1 + ml, p1 + ml + 4) =~= b.subrange(12 + ml, 16 + ml));
    assert(b.subrange(12 + ml, 16 + ml) =~= be_bytes(db.len(), 4));
    assert(d.subrange(p2, p2 + dl) =~= b.subrange(16 + ml, 16 + ml + dl));
    assert(b.subrange(16 + ml, 16 + ml + dl) =~= db);
    let o = 16 + ml + dl;
    assert(d.subrange(p3, p3 + 4) =~= b.subrange(o, o + 4));
    assert(b.subrange(o, o + 4) =~= be_bytes(p.width as nat, 4));
    assert(d.subrange(p3 + 4, p3 + 8) =~= b.subrange(o + 4, o + 8));
    assert(b.subrange(o + 4, o + 8) =~= be_bytes(p.height as nat, 4));
    assert(d.subrange(p3 + 8, p3 + 12) =~= b.subrange(o + 8, o + 12));
    assert(b.subrange(o + 8, o + 12) =~= be_bytes(p.color_depth as nat, 4));
    assert(d.subrange(p3 + 12, p3 + 16) =~= b.subrange(o + 12, o + 16));
    assert(b.subrange(o + 12, o + 16) =~= be_bytes(p.num_colors as nat, 4));
    assert(d.subrange(p3 + 16, p3 + 20) =~= b.subrange(o + 16, o + 20));
    assert(b.subrange(o + 16, o + 20) =~= be_bytes(p.data.len(), 4));
    assert(d.subrange(p3 + 20, p3 + 20 + n) =~= b.subrange(o + 20, o + 20 + n));
    assert(b.subrange(o + 20, o + 20 + n) =~= p.data);
}

} // verus!
