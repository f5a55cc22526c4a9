use loom_core::bitstream::BitReader;
use loom_core::container::session::encode_session_with_lpc;
use loom_core::predict::LpcCandidate;
use loom_core::container::edit_block::get_edit_block;
use loom_core::decorrelate::dag::DependencyGraph;
use loom_core::container::frame::{ChannelLayout, Subframe};
use loom_core::container::header::{SessionHeader, TrackInfo};
use loom_core::diff::{FrameInstruction, SessionDiff, TrackDiff};
use loom_core::predict::PredictionMode;
use loom_core::container::seek_index::{SeekPoint, SeekTable};
use loom_core::error::LoomError;
use loom_core::render::{interleave_channels, mix_tracks};
use loom_core::verify::{compute_pcm_md5, verify_stream};
use loom_core::{
    decode_session, decode_track, decode_track_partial, encode_session, encode_track, EditBlock,
    Fade, FadeShape, GainPoint, MetadataTags, MuteRegion, PictureBlock, PictureType, TrackEdits,
};

fn short_session() -> Vec<u8> {
    let tracks = vec![vec![vec![7i64; 600]]];
    let names = vec!["solo".to_string()];
    encode_session(&tracks, &names, 44100, 16, 256, None, None, None).expect("encoding failed")
}

#[test]
fn decode_of_truncated_input_is_unexpected_eof() {
    let bytes = short_session();
    let r = decode_session(&bytes[..3]);
    assert_eq!(r.err(), Some(LoomError::UnexpectedEof));
}

#[test]
fn decode_of_wrong_magic_is_invalid_data() {
    let mut bytes = short_session();
    bytes[0] = b'X';
    let r = decode_session(&bytes);
    assert_eq!(r.err(), Some(LoomError::InvalidData));
}

#[test]
fn session_without_tracks_is_refused() {
    let tracks: Vec<Vec<Vec<i64>>> = Vec::new();
    let names: Vec<String> = Vec::new();
    let r = encode_session(&tracks, &names, 44100, 16, 256, None, None, None);
    assert_eq!(r.err(), Some(LoomError::InvalidInput));
}

#[test]
fn track_name_longer_than_255_bytes_is_refused() {
    let pcm = vec![vec![0i64; 100]];
    let name = "n".repeat(256);
    let r = encode_track(&pcm, 44100, 16, 256, &name);
    assert_eq!(r.err(), Some(LoomError::InvalidInput));
    let ok_name = "n".repeat(255);
    assert!(encode_track(&pcm, 44100, 16, 256, &ok_name).is_ok());
}

#[test]
fn encoded_track_starts_with_flac_magic() {
    let pcm = vec![vec![3i64; 300]];
    let bytes = encode_track(&pcm, 44100, 16, 256, "t").expect("encoding failed");
    assert_eq!(&bytes[..4], b"fLaC");
    let (decoded, header) = decode_track(&bytes).expect("decoding failed");
    assert_eq!(decoded, pcm);
    assert_eq!(header.tracks[0].name, "t");
    assert_eq!(header.tracks[0].total_samples, 300);
}

#[test]
fn partial_decode_edges() {
    let ramp: Vec<i64> = (0..700).map(|i| (i % 50) as i64).collect();
    let tracks = vec![vec![ramp.clone()]];
    let names = vec!["ramp".to_string()];
    let bytes = encode_session(&tracks, &names, 44100, 16, 256, None, None, None)
        .expect("encoding failed");
    let (part, _) = decode_track_partial(&bytes, 0, 700, 10).expect("decoding failed");
    assert_eq!(part.len(), 1);
    assert!(part[0].is_empty());
    let (part, _) = decode_track_partial(&bytes, 0, 690, 100).expect("decoding failed");
    assert_eq!(part[0], ramp[690..700].to_vec());
    let r = decode_track_partial(&bytes, 1, 0, 10);
    assert_eq!(r.err(), Some(LoomError::InvalidInput));
}

#[test]
fn header_serialize_then_deserialize() {
    let header = SessionHeader {
        sample_rate: 48000,
        bit_depth: 24,
        tracks: vec![
            TrackInfo { name: "kick".to_string(), total_samples: 12345, md5: [7u8; 16] },
            TrackInfo { name: "".to_string(), total_samples: 0, md5: [0u8; 16] },
        ],
    };
    let mut out = Vec::new();
    header.serialize(&mut out).expect("serialize failed");
    let (back, used) = SessionHeader::deserialize(&out, 0).expect("deserialize failed");
    assert_eq!(back, header);
    assert_eq!(used, out.len());
}

#[test]
fn seek_table_serialize_then_deserialize() {
    let mut table = SeekTable::new(2);
    table.tracks_points[0].push(SeekPoint { sample_number: 0, byte_offset: 100, frame_samples: 256 });
    table.tracks_points[1].push(SeekPoint { sample_number: 256, byte_offset: 900, frame_samples: 128 });
    let mut out = Vec::new();
    table.serialize(&mut out);
    let (back, used) = SeekTable::deserialize(&out, 0).expect("deserialize failed");
    assert_eq!(back, table);
    assert_eq!(used, out.len());
}

#[test]
fn tags_insert_replaces_and_roundtrips() {
    let mut tags = MetadataTags::new();
    tags.insert("artist".to_string(), "A".to_string());
    tags.insert("title".to_string(), "T".to_string());
    tags.insert("artist".to_string(), "B".to_string());
    assert_eq!(tags.tags.len(), 2);
    assert_eq!(tags.get(&"artist".to_string()), Some(&"B".to_string()));
    assert_eq!(tags.get(&"album".to_string()), None);
    let mut out = Vec::new();
    tags.serialize(&mut out);
    let (back, used) = MetadataTags::deserialize(&out, 0).expect("deserialize failed");
    assert_eq!(back.get(&"artist".to_string()), Some(&"B".to_string()));
    assert_eq!(back.get(&"title".to_string()), Some(&"T".to_string()));
    assert_eq!(used, out.len());
}

#[test]
fn picture_serialize_then_deserialize() {
    let pic = PictureBlock {
        picture_type: PictureType::FrontCover,
        mime_type: "image/png".to_string(),
        description: "cover".to_string(),
        width: 300,
        height: 200,
        color_depth: 24,
        num_colors: 0,
        data: vec![1, 2, 3, 4, 5],
    };
    let mut out = Vec::new();
    pic.serialize(&mut out);
    let (back, used) = PictureBlock::deserialize(&out, 0).expect("deserialize failed");
    assert_eq!(back, pic);
    assert_eq!(used, out.len());
    assert_eq!(PictureType::from_u32(3), PictureType::FrontCover);
    assert_eq!(PictureType::FrontCover.to_u32(), 3);
}

#[test]
fn edit_block_serialize_then_deserialize() {
    let mut edits = TrackEdits::new();
    edits.mutes.push(MuteRegion { start_sample: 100, end_sample: 200 });
    edits.fades.push(Fade { start_sample: 400, end_sample: 900, shape: FadeShape::Linear, is_fade_in: false });
    edits.gain_points.push(GainPoint { sample_offset: 10, gain_bits: 0.5f32.to_bits() });
    let mut block = EditBlock::new();
    block.tracks_edits.push((3, edits));
    let mut out = Vec::new();
    block.serialize(&mut out);
    assert_eq!(out[0], 1);
    let (back, used) = EditBlock::deserialize(&out, 5).expect("deserialize failed");
    assert_eq!(used, out.len());
    assert_eq!(back.tracks_edits.len(), 1);
    let (idx, e) = &back.tracks_edits[0];
    assert_eq!(*idx, 3);
    assert_eq!(e.mutes, vec![MuteRegion { start_sample: 100, end_sample: 200 }]);
    assert_eq!(e.fades[0].shape, FadeShape::Linear);
    assert!(!e.fades[0].is_fade_in);
    assert_eq!(f32::from_bits(e.gain_points[0].gain_bits), 0.5f32);
}

#[test]
fn session_keeps_edits_tags_and_picture() {
    let tracks = vec![vec![vec![5i64; 300]]];
    let names = vec!["x".to_string()];
    let mut edits = TrackEdits::new();
    edits.mutes.push(MuteRegion { start_sample: 1, end_sample: 2 });
    let mut block = EditBlock::new();
    block.tracks_edits.push((0, edits));
    let mut tags = MetadataTags::new();
    tags.insert("genre".to_string(), "Rock".to_string());
    let pic = PictureBlock {
        picture_type: PictureType::BackCover,
        mime_type: "image/jpeg".to_string(),
        description: "back".to_string(),
        width: 10,
        height: 20,
        color_depth: 8,
        num_colors: 0,
        data: vec![0xFF, 0xD8],
    };
    let bytes =
        encode_session(&tracks, &names, 48000, 16, 256, Some(&block), Some(&tags), Some(&pic))
            .expect("encoding failed");
    let s = loom_core::decode_session_parts(&bytes).expect("decoding failed");
    assert_eq!(s.tracks, tracks);
    assert_eq!(s.header.sample_rate, 48000);
    assert_eq!(s.header.bit_depth, 16);
    assert_eq!(s.header.tracks.len(), 1);
    assert_eq!(s.header.tracks[0].name, "x");
    assert_eq!(s.header.tracks[0].total_samples, 300);
    assert_eq!(s.header.tracks[0].md5, compute_pcm_md5(&vec![5i64; 300], 16));
    let e = s.edits.expect("edits lost");
    assert_eq!(e.tracks_edits[0].1.mutes, vec![MuteRegion { start_sample: 1, end_sample: 2 }]);
    let t = s.tags.expect("tags lost");
    assert_eq!(t.get(&"genre".to_string()), Some(&"Rock".to_string()));
    assert_eq!(s.picture, Some(pic));
}

#[test]
fn interleave_two_channels() {
    let chs = vec![vec![1i64, 2, 3], vec![10i64, 20, 30]];
    assert_eq!(interleave_channels(&chs), vec![1, 10, 2, 20, 3, 30]);
    let none: Vec<Vec<i64>> = Vec::new();
    assert!(interleave_channels(&none).is_empty());
}

#[test]
fn mix_clamps_to_bit_depth() {
    let mono = vec![vec![30000i64, -30000, 5]];
    let stereo = vec![vec![10000i64, -10000, 1], vec![-1i64, 2, 3]];
    let mixed = mix_tracks(&vec![mono, stereo], 16);
    assert_eq!(mixed, vec![vec![32767, -32768, 6], vec![29999, -29998, 8]]);
}

#[test]
fn md5_of_no_samples_is_md5_of_nothing() {
    let empty: Vec<i64> = Vec::new();
    let d = compute_pcm_md5(&empty, 16);
    let expected: [u8; 16] = [
        0xd4, 0x1d, 0x8c, 0xd9, 0x8f, 0x00, 0xb2, 0x04, 0xe9, 0x80, 0x09, 0x98, 0xec, 0xf8, 0x42, 0x7e,
    ];
    assert_eq!(d, expected);
    assert!(verify_stream(&d, &expected));
    let mut other = expected;
    other[15] ^= 1;
    assert!(!verify_stream(&d, &other));
}

#[test]
fn md5_depends_on_samples() {
    let a = compute_pcm_md5(&[1i64, 2], 16);
    let b = compute_pcm_md5(&[1i64, 3], 16);
    assert_ne!(a, b);
}

fn sample_frame() -> loom_core::Frame {
    loom_core::Frame {
        frame_seq: 7,
        block_size: 8,
        channel_layout: ChannelLayout::Stereo,
        subframes: vec![
            Subframe {
                mode: PredictionMode::Fixed { order: 2, residuals: vec![5, -3, 1, 0, 2, -1, 0, 1] },
                ref_track: None,
                ref_weight: 0,
                wasted_bits: 0,
            },
            Subframe {
                mode: PredictionMode::Verbatim(vec![1, -2, 3, -4, 5, -6, 7, -8]),
                ref_track: None,
                ref_weight: 0,
                wasted_bits: 2,
            },
        ],
    }
}

fn same_mode(a: &PredictionMode, b: &PredictionMode) -> bool {
    match (a, b) {
        (PredictionMode::Constant(x), PredictionMode::Constant(y)) => x == y,
        (PredictionMode::Verbatim(x), PredictionMode::Verbatim(y)) => x == y,
        (
            PredictionMode::Fixed { order: o1, residuals: r1 },
            PredictionMode::Fixed { order: o2, residuals: r2 },
        ) => o1 == o2 && r1 == r2,
        _ => false,
    }
}

#[test]
fn loom_frame_serialize_then_deserialize() {
    let mut f = sample_frame();
    f.subframes[1].ref_track = Some(0);
    f.subframes[1].ref_weight = -3;
    let bytes = f.serialize_loom(3, 16, true);
    let mut reader = BitReader::new(&bytes);
    let mut pcm: Vec<Vec<i64>> = Vec::new();
    let (g, track) = loom_core::Frame::deserialize_loom(&mut reader, 16, &mut pcm).expect("read failed");
    assert_eq!(track, 3);
    assert_eq!(g.frame_seq, 7);
    assert_eq!(g.block_size, 8);
    assert_eq!(g.channel_layout, f.channel_layout);
    assert_eq!(g.subframes.len(), 2);
    for (a, b) in f.subframes.iter().zip(g.subframes.iter()) {
        assert!(same_mode(&a.mode, &b.mode));
        assert_eq!(a.ref_track, b.ref_track);
        assert_eq!(a.ref_weight, b.ref_weight);
        assert_eq!(a.wasted_bits, b.wasted_bits);
    }
}

#[test]
fn flac_frame_serialize_then_deserialize() {
    let f = sample_frame();
    let bytes = f.serialize_flac(100000, 16, false);
    let mut reader = BitReader::new(&bytes);
    let mut pcm: Vec<Vec<i64>> = Vec::new();
    let g = loom_core::Frame::deserialize_flac(&mut reader, 16, &mut pcm).expect("read failed");
    assert_eq!(g.frame_seq, 100000);
    assert_eq!(g.block_size, 8);
    assert_eq!(g.subframes.len(), 2);
    for (a, b) in f.subframes.iter().zip(g.subframes.iter()) {
        assert!(same_mode(&a.mode, &b.mode));
        assert_eq!(b.ref_track, None);
        assert_eq!(a.wasted_bits, b.wasted_bits);
    }
}

#[test]
fn diff_serialize_then_deserialize() {
    let d = SessionDiff {
        base_md5: [9u8; 16],
        metadata_payload: vec![1, 2, 3],
        tracks_diffs: vec![TrackDiff {
            track_idx: 0,
            instructions: vec![
                FrameInstruction::Copy { base_frame_idx: 4 },
                FrameInstruction::Insert { frame_bytes: vec![7, 7] },
            ],
        }],
    };
    let mut out = Vec::new();
    d.serialize(&mut out);
    assert_eq!(&out[..5], b"LDIFF");
    let (back, used) = SessionDiff::deserialize(&out, 0).expect("deserialize failed");
    assert_eq!(back, d);
    assert_eq!(used, out.len());
}

#[test]
fn test_dag_topology() {
    let mut graph = DependencyGraph::new(3);
    graph.add_edge(0, 1, 0.8f64.to_bits());
    graph.add_edge(1, 2, 0.5f64.to_bits());
    assert!(graph.is_dag());
}

#[test]
fn dag_with_cycle_is_refused() {
    let mut graph = DependencyGraph::new(3);
    graph.add_edge(0, 1, 0);
    graph.add_edge(1, 2, 0);
    graph.add_edge(2, 0, 0);
    assert!(!graph.is_dag());
    let mut looped = DependencyGraph::new(2);
    looped.add_edge(1, 1, 0);
    assert!(!looped.is_dag());
}

#[test]
fn dag_edges_outside_the_nodes() {
    let mut into = DependencyGraph::new(2);
    into.add_edge(5, 1, 0);
    assert!(!into.is_dag());
    let mut out_of = DependencyGraph::new(2);
    out_of.add_edge(0, 7, 0);
    assert!(out_of.is_dag());
    assert!(DependencyGraph::new(0).is_dag());
}

#[test]
fn edit_block_found_in_session() {
    let header = SessionHeader {
        sample_rate: 44100,
        bit_depth: 16,
        tracks: vec![TrackInfo { name: "a".to_string(), total_samples: 300, md5: [1u8; 16] }],
    };
    let mut plain = Vec::new();
    header.serialize(&mut plain).expect("header too large");
    plain.push(4);
    plain.extend_from_slice(&[0, 0, 0, 2, 9, 9]);
    let mut bytes = plain.clone();
    plain.push(0xFF);
    let none = get_edit_block(&plain).expect("scan failed");
    assert!(none.tracks_edits.is_empty());
    let mut edits = TrackEdits::new();
    edits.mutes.push(MuteRegion { start_sample: 10, end_sample: 20 });
    let mut block = EditBlock::new();
    block.tracks_edits.push((0, edits));
    block.serialize(&mut bytes);
    bytes.push(0xFF);
    let found = get_edit_block(&bytes).expect("edit block not found");
    assert_eq!(found.tracks_edits.len(), 1);
    assert_eq!(found.tracks_edits[0].0, 0);
    assert_eq!(found.tracks_edits[0].1.mutes, vec![MuteRegion { start_sample: 10, end_sample: 20 }]);
    let flac_session = encode_session(&vec![vec![vec![3i64; 300]]], &vec!["a".to_string()], 44100, 16, 256, Some(&block), None, None)
        .expect("encoding failed");
    assert_eq!(get_edit_block(&flac_session).err(), Some(LoomError::InvalidData));
}

#[test]
fn edit_block_scan_of_cut_session_fails() {
    let mut header_only = Vec::new();
    let header = SessionHeader {
        sample_rate: 44100,
        bit_depth: 16,
        tracks: vec![TrackInfo { name: "t".to_string(), total_samples: 0, md5: [0u8; 16] }],
    };
    header.serialize(&mut header_only).expect("header too large");
    assert_eq!(get_edit_block(&header_only).err(), Some(LoomError::UnexpectedEof));
    header_only.push(2);
    header_only.extend_from_slice(&[0, 0, 0, 9]);
    assert_eq!(get_edit_block(&header_only).err(), Some(LoomError::UnexpectedEof));
}

#[test]
fn header_with_long_name_keeps_what_was_written() {
    let header = SessionHeader {
        sample_rate: 44100,
        bit_depth: 16,
        tracks: vec![
            TrackInfo { name: "ok".to_string(), total_samples: 5, md5: [0u8; 16] },
            TrackInfo { name: "x".repeat(256), total_samples: 5, md5: [0u8; 16] },
        ],
    };
    let mut out = Vec::new();
    assert_eq!(header.serialize(&mut out), Err(LoomError::InvalidInput));
    assert_eq!(out.len(), 11 + 1 + 2 + 8 + 16);
    assert_eq!(&out[0..4], b"LOOM");
}

#[test]
fn session_with_lpc_candidates_roundtrips() {
    let ch: Vec<i64> = (0..3000i64).map(|i| ((i * 37) % 1000) - 500 + (i / 7)).collect();
    let tracks = vec![vec![ch.clone()], vec![ch.iter().map(|x| x / 2).collect::<Vec<i64>>()]];
    let names = vec!["a".to_string(), "b".to_string()];
    let config = loom_core::EncoderConfig::new(8, 512, 44100, 16);
    let cands = |_s: &[i64]| {
        vec![
            vec![LpcCandidate { qlp_coeffs: vec![2, -1], qlp_shift: 0, qlp_precision: 15 }],
            vec![LpcCandidate { qlp_coeffs: vec![1, 1, -1, 0], qlp_shift: 1, qlp_precision: 12 }],
        ]
    };
    let bytes = encode_session_with_lpc(&tracks, &names, &config, None, None, None, &cands)
        .expect("encoding failed");
    let (decoded, header) = decode_session(&bytes).expect("decoding failed");
    assert_eq!(decoded, tracks);
    assert_eq!(header.tracks.len(), 2);
}

#[test]
fn streaminfo_of_encoded_session() {
    let tracks = vec![vec![vec![0i64; 1000]]];
    let names = vec!["t".to_string()];
    let out = encode_session(&tracks, &names, 44100, 16, 256, None, None, None).expect("encoding failed");
    assert_eq!(&out[0..4], b"fLaC");
    assert_eq!(&out[4..8], &[0x00, 0x00, 0x00, 0x22]);
    assert_eq!(&out[8..12], &[0x00, 0xE8, 0x01, 0x00]);
    assert_eq!(&out[18..26], &[0x0A, 0xC4, 0x40, 0xF0, 0x00, 0x00, 0x03, 0xE8]);
}

#[test]
fn diff_between_encoded_versions_rebuilds_the_second() {
    let v1 = encode_session(&vec![vec![vec![5i64; 900]]], &vec!["x".to_string()], 44100, 16, 256, None, None, None)
        .expect("encoding failed");
    let ch: Vec<i64> = (0..900i64).map(|i| (i % 50) - 25).collect();
    let v2 = encode_session(&vec![vec![ch]], &vec!["x".to_string()], 44100, 16, 256, None, None, None)
        .expect("encoding failed");
    let d = loom_core::encode_diff(&v1, &v2).expect("diff failed");
    let rebuilt = loom_core::apply_diff(&v1, &d).expect("apply failed");
    assert_eq!(rebuilt, v2);
}

fn wide_mono_frame(v: Vec<i64>, wasted_bits: u8) -> loom_core::Frame {
    loom_core::Frame {
        frame_seq: 2,
        block_size: v.len() as u32,
        channel_layout: ChannelLayout::Mono,
        subframes: vec![Subframe { mode: PredictionMode::Verbatim(v), ref_track: None, ref_weight: 0, wasted_bits }],
    }
}

#[test]
fn loom_frame_at_63_bits_reads_back() {
    let v = vec![(1i64 << 62) - 1, -(1i64 << 62), 0, -1, 12345];
    let f = wide_mono_frame(v.clone(), 0);
    let bytes = f.serialize_loom(1, 63, true);
    let mut reader = BitReader::new(&bytes);
    let mut pcm: Vec<Vec<i64>> = Vec::new();
    let (g, track) = loom_core::Frame::deserialize_loom(&mut reader, 63, &mut pcm).expect("read failed");
    assert_eq!(track, 1);
    assert_eq!(g.block_size, 5);
    assert!(same_mode(&g.subframes[0].mode, &PredictionMode::Verbatim(v)));
}

#[test]
fn flac_frame_at_63_bits_reads_back() {
    let v = vec![(1i64 << 62) - 1, -(1i64 << 62), 7];
    let f = wide_mono_frame(v.clone(), 0);
    let bytes = f.serialize_flac(9, 63, false);
    let mut reader = BitReader::new(&bytes);
    let mut pcm: Vec<Vec<i64>> = Vec::new();
    let g = loom_core::Frame::deserialize_flac(&mut reader, 63, &mut pcm).expect("read failed");
    assert_eq!(g.frame_seq, 9);
    assert!(same_mode(&g.subframes[0].mode, &PredictionMode::Verbatim(v)));
}

#[test]
fn frame_at_64_bits_with_wasted_bits_is_written() {
    let f = wide_mono_frame(vec![-5, 3, (1i64 << 61)], 2);
    let loom = f.serialize_loom(0, 64, true);
    let flac = f.serialize_flac(0, 64, true);
    assert_eq!(&loom[0..2], &[0xF8, 0xA5]);
    assert_eq!(&flac[0..3], &[0xFF, 0xF9, 0x70]);
}
