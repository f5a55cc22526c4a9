use loom_core::config::{CompressionLevel, EncoderConfig};

#[test]
fn test_compression_level_mapping() {
    for lvl in 0..=8 {
        let cl = CompressionLevel::from_int(lvl);
        assert_eq!(cl.to_int(), lvl);
    }
}

#[test]
fn test_encoder_config_creation() {
    let cfg = EncoderConfig::default_with_level(5, 44100, 16);
    assert_eq!(cfg.block_size, 4096);
    assert_eq!(cfg.sample_rate, 44100);
    assert_eq!(cfg.bit_depth, 16);
}

#[test]
fn compression_level_clamps_above_eight() {
    assert_eq!(CompressionLevel::from_int(9).to_int(), 8);
    assert_eq!(CompressionLevel::from_int(255).to_int(), 8);
}

#[test]
fn default_block_size_depends_on_level() {
    assert_eq!(EncoderConfig::default_with_level(0, 48000, 24).block_size, 1152);
    assert_eq!(EncoderConfig::default_with_level(2, 48000, 24).block_size, 1152);
    assert_eq!(EncoderConfig::default_with_level(3, 48000, 24).block_size, 4096);
}
