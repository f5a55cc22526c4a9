use crate::config::EncoderConfig;
use crate::container::header::{header_writable, HeaderSpec, TrackInfoSpec};
use crate::container::session::{
    encode_session_with_config, expected_header, flac_magic, session_input_ok, session_names_fit,
    track_ok, track_prefix,
};
use crate::container::session_meta::session_meta;
use crate::container::session_audio::session_audio;
use crate::container::session_read::{session_decode, SessionSpec};
use crate::container::session_roundtrip::{decodes_to, roundtrip_input, tracks_prefix};
use crate::container::readable::{fits, tracks_fit};
use crate::container::bytes::{be_bytes, lemma_be_bytes_len};
use crate::container::edit_block::{edit_body, entries_bytes};
use crate::config::level_number;
use crate::edit::schema::TrackEditsSpec;
use crate::render::interleaved;
use crate::verify::{md5_of, pcm_bytes};
use crate::decorrelate::stereo::pcm32;
use crate::error::LoomError;
use vstd::prelude::*;
use vstd::utf8::encode_utf8;

verus! {

/// What the single-track encoder takes: a bit depth of 1 to 32, a block size of 1 to
/// 65535, and 1 to 8 channels, each at least as long as the first (fewer than `2^32`
/// samples), those samples within 32 bits.
pub open spec fn track_input_ok(pcm: Seq<Vec<i64>>, bit_depth: u8, block_size: nat) -> bool {
    &&& 1 <= bit_depth <= 32
    &&& 1 <= block_size <= 0xFFFF
    &&& pcm.len() > 0
    &&& pcm[0]@.len() <= u32::MAX
    &&& track_ok(pcm, pcm[0]@.len())
}

/// The header a one-track session of `pcm` named `name` carries.
pub open spec fn track_header(pcm: Seq<Vec<i64>>, name: Seq<char>, rate: u32, depth: u8) -> HeaderSpec {
    let total = pcm[0]@.len();
    HeaderSpec {
        sample_rate: rate,
        bit_depth: depth,
        tracks: seq![
            TrackInfoSpec {
                name: name,
                total_samples: total as u64,
                md5: md5_of(pcm_bytes(interleaved(track_prefix(pcm, total)), depth)),
            },
        ],
    }
}

/// What decoding a one-track session of `pcm` gives back: the first channel's length of
/// samples of each channel, the header, an empty edit list and no tags or picture.
pub open spec fn track_decoded(pcm: Seq<Vec<i64>>, h: HeaderSpec) -> SessionSpec {
    SessionSpec {
        tracks: seq![track_prefix(pcm, pcm[0]@.len())],
        header: h,
        edits: Some(Seq::<(u16, TrackEditsSpec)>::empty()),
        tags: None,
        picture: None,
    }
}

/// The samples of every channel of `pcm`, as far as the first channel's length, lie within
/// `depth` bits, and there is at least one of them.
pub open spec fn track_fits(pcm: Seq<Vec<i64>>, depth: u8) -> bool {
    &&& pcm[0]@.len() >= 1
    &&& forall|ch: int| 0 <= ch < pcm.len() ==> fits(#[trigger] pcm[ch]@.take(pcm[0]@.len() as int), depth as nat)
}

/// `ts` holds the one track `pcm`, channel by channel.
pub open spec fn single_track(ts: Seq<Vec<Vec<i64>>>, pcm: Seq<Vec<i64>>) -> bool {
    &&& ts.len() == 1
    &&& ts[0]@.len() == pcm.len()
    &&& forall|ch: int| 0 <= ch < pcm.len() ==> #[trigger] ts[0]@[ch]@ == pcm[ch]@
}

/// A deep copy of the channels.
fn copy_channels(pcm: &[Vec<i64>]) -> (r: Vec<Vec<i64>>)
    ensures
        r@.len() == pcm@.len(),
        forall|ch: int| 0 <= ch < pcm@.len() ==> #[trigger] r@[ch]@ == pcm@[ch]@,
{
    let mut out: Vec<Vec<i64>> = Vec::new();
    let mut ch: usize = 0;
    while ch < pcm.len()
        invariant
            ch <= pcm@.len(),
            out@.len() == ch,
            forall|c: int| 0 <= c < ch ==> #[trigger] out@[c]@ == pcm@[c]@,
        decreases pcm@.len() - ch,
    {
        let src = &pcm[ch];
        let mut v: Vec<i64> = Vec::with_capacity(src.len());
        let mut i: usize = 0;
        while i < src.len()
            invariant
                i <= src@.len(),
                v@ == src@.take(i as int),
            decreases src@.len() - i,
        {
            v.push(src[i]);
            proof {
                assert(v@ =~= src@.take(i + 1));
            }
            i = i + 1;
        }
        proof {
            assert(src@.take(src@.len() as int) =~= src@);
        }
        out.push(v);
        ch = ch + 1;
    }
    out
}

proof fn lemma_single_track(tracks: Seq<Vec<Vec<i64>>>, pcm: Seq<Vec<i64>>, bit_depth: u8, block_size: nat)
    requires
        track_input_ok(pcm, bit_depth, block_size),
        tracks.len() == 1,
        tracks[0]@.len() == pcm.len(),
        forall|ch: int| 0 <= ch < pcm.len() ==> #[trigger] tracks[0]@[ch]@ == pcm[ch]@,
    ensures
        session_input_ok(tracks, 1, bit_depth, block_size as usize),
{
    let total = pcm[0]@.len();
    assert(tracks[0]@[0]@ == pcm[0]@);
    assert(track_ok(tracks[0]@, total)) by {
        assert forall|ch: int| 0 <= ch < tracks[0]@.len() implies #[trigger] tracks[0]@[ch]@.len() >= total
            && pcm32(tracks[0]@[ch]@.take(total as int)) by {
            assert(tracks[0]@[ch]@ == pcm[ch]@);
        }
    }
}

/// Encodes one track as a session at compression level 5 with blocks of `block_size`.
/// A name longer than 255 bytes is invalid input.
pub fn encode_track(
    pcm_channels: &[Vec<i64>],
    sample_rate: u32,
    bit_depth: u8,
    block_size: u32,
    track_name: &str,
) -> (r: Result<Vec<u8>, LoomError>)
    requires
        track_input_ok(pcm_channels@, bit_depth, block_size as nat),
    ensures
        r is Ok <==> encode_utf8(track_name@).len() <= 255,
        r is Err ==> r == Err::<Vec<u8>, LoomError>(LoomError::InvalidInput),
        r matches Ok(b) ==> b@.take(4) == flac_magic(),
        r is Ok ==> header_writable(track_header(pcm_channels@, track_name@, sample_rate, bit_depth)),
        r matches Ok(b) ==> session_meta(
            b@,
            track_header(pcm_channels@, track_name@, sample_rate, bit_depth),
            Seq::<(u16, TrackEditsSpec)>::empty(),
            None,
            None,
        ),
        r matches Ok(b) ==> exists|ts: Seq<Vec<Vec<i64>>>|
            #[trigger] single_track(ts, pcm_channels@) && session_audio(
                b@,
                track_header(pcm_channels@, track_name@, sample_rate, bit_depth),
                Seq::<(u16, TrackEditsSpec)>::empty(),
                None,
                None,
                ts,
                pcm_channels@[0]@.len(),
                block_size as nat,
                true,
            ),
        r matches Ok(b) ==> (1 <= bit_depth <= 26 && track_fits(pcm_channels@, bit_depth) ==> session_decode(b@)
            == Ok::<SessionSpec, LoomError>(
            track_decoded(pcm_channels@, track_header(pcm_channels@, track_name@, sample_rate, bit_depth)),
        )),
{
    let config = EncoderConfig::new(5, block_size as usize, sample_rate, bit_depth);
    encode_track_with_config(pcm_channels, track_name, &config)
}

/// Encodes one track as a session with `config`. A name longer than 255 bytes is invalid
/// input.
pub fn encode_track_with_config(pcm_channels: &[Vec<i64>], track_name: &str, config: &EncoderConfig) -> (r:
    Result<Vec<u8>, LoomError>)
    requires
        track_input_ok(pcm_channels@, config.bit_depth, config.block_size as nat),
    ensures
        r is Ok <==> encode_utf8(track_name@).len() <= 255,
        r is Err ==> r == Err::<Vec<u8>, LoomError>(LoomError::InvalidInput),
        r matches Ok(b) ==> b@.take(4) == flac_magic(),
        r is Ok ==> header_writable(track_header(pcm_channels@, track_name@, config.sample_rate, config.bit_depth)),
        r matches Ok(b) ==> session_meta(
            b@,
            track_header(pcm_channels@, track_name@, config.sample_rate, config.bit_depth),
            Seq::<(u16, TrackEditsSpec)>::empty(),
            None,
            None,
        ),
        r matches Ok(b) ==> exists|ts: Seq<Vec<Vec<i64>>>|
            #[trigger] single_track(ts, pcm_channels@) && session_audio(
                b@,
                track_header(pcm_channels@, track_name@, config.sample_rate, config.bit_depth),
                Seq::<(u16, TrackEditsSpec)>::empty(),
                None,
                None,
                ts,
                pcm_channels@[0]@.len(),
                config.block_size as nat,
                level_number(config.compression_level) >= 4,
            ),
        r matches Ok(b) ==> (1 <= config.bit_depth <= 26 && track_fits(pcm_channels@, config.bit_depth)
            ==> session_decode(b@) == Ok::<SessionSpec, LoomError>(
            track_decoded(pcm_channels@, track_header(pcm_channels@, track_name@, config.sample_rate, config.bit_depth)),
        )),
{
    let mut tracks: Vec<Vec<Vec<i64>>> = Vec::new();
    tracks.push(copy_channels(pcm_channels));
    let mut names: Vec<String> = Vec::new();
    names.push(track_name.to_owned());
    proof {
        lemma_single_track(tracks@, pcm_channels@, config.bit_depth, config.block_size as nat);
        assert(session_names_fit(names@, 1) <==> encode_utf8(track_name@).len() <= 255) by {
            assert(names@[0]@ == track_name@);
        }
    }
    proof {
        assert(track_prefix(tracks@[0]@, pcm_channels@[0]@.len()) =~= track_prefix(
            pcm_channels@,
            pcm_channels@[0]@.len(),
        ));
        assert(expected_header(tracks@, names@, config.sample_rate, config.bit_depth).tracks =~= track_header(
            pcm_channels@,
            track_name@,
            config.sample_rate,
            config.bit_depth,
        ).tracks);
    }
    let r = encode_session_with_config(tracks.as_slice(), names.as_slice(), config, None, None, None);
    proof {
        assert(single_track(tracks@, pcm_channels@));
        assert(tracks@[0]@[0]@ == pcm_channels@[0]@);
        let total = pcm_channels@[0]@.len();
        let h = expected_header(tracks@, names@, config.sample_rate, config.bit_depth);
        let es = Seq::<(u16, TrackEditsSpec)>::empty();
        if r is Ok && 1 <= config.bit_depth <= 26 && track_fits(pcm_channels@, config.bit_depth) {
            assert(h == track_header(pcm_channels@, track_name@, config.sample_rate, config.bit_depth));
            assert(tracks_fit(tracks@, total, config.bit_depth as nat)) by {
                assert forall|t: int, ch: int| 0 <= t < tracks@.len() && 0 <= ch < tracks@[t]@.len() implies fits(
                    #[trigger] tracks@[t]@[ch]@.take(total as int),
                    config.bit_depth as nat,
                ) by {
                    assert(tracks@[0]@[ch]@ == pcm_channels@[ch]@);
                }
            }
            assert(edit_body(es).len() == 2) by {
                lemma_be_bytes_len(0, 2);
                assert(edit_body(es) =~= be_bytes(0, 2) + entries_bytes(es));
            }
            assert(roundtrip_input(tracks@, config.bit_depth, h, es, None, None));
            assert(decodes_to(r->Ok_0@, tracks@, total, h, es, None, None));
            assert(tracks_prefix(tracks@, total) =~= seq![track_prefix(pcm_channels@, total)]) by {
                assert(tracks_prefix(tracks@, total)[0] =~= track_prefix(pcm_channels@, total));
            }
        }
    }
    r
}

} // verus!
