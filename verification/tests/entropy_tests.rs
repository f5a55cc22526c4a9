use loom_core::entropy::rans::{rans_encode_bytes, rans_encode_checked, RansDecoder, RANS_L};
use loom_core::entropy::tans::{TansSymbol, TansTable};

#[test]
fn test_rans_byte_roundtrip() {
    let input = b"loom_rans_entropy_coder_test_payload_1234567890";
    let encoded = rans_encode_bytes(input);
    assert!(!encoded.is_empty());
    let (decoder, _) = RansDecoder::new(&encoded).expect("Decoder init failed");
    assert!(decoder.get_state() >= RANS_L);
}

#[test]
fn test_tans_table_creation() {
    let symbols = vec![
        TansSymbol {
            symbol: 0,
            freq: 8,
            start: 0,
        },
        TansSymbol {
            symbol: 1,
            freq: 8,
            start: 8,
        },
    ];
    let table = TansTable::new(&symbols, 4);
    assert_eq!(table.table_size, 16);
    let (sym, _next) = table.decode_step(5);
    assert!(sym <= 1);
}

#[test]
fn rans_of_nothing_is_nothing() {
    assert!(rans_encode_bytes(&[]).is_empty());
    assert_eq!(rans_encode_checked(&[]), Some(Vec::new()));
}

#[test]
fn rans_single_byte() {
    // One byte 'a' (frequency 1, no smaller byte values): the state 65536 sheds nothing
    // (it is below 2^20), then becomes 65536 * 4096; its four bytes, high byte first,
    // come out reversed with the rest of the stream.
    let encoded = rans_encode_bytes(&[97]);
    assert_eq!(encoded, vec![0x00, 0x00, 0x00, 0x10]);
    let (decoder, n) = RansDecoder::new(&encoded).unwrap();
    assert_eq!(n, 4);
    assert_eq!(decoder.get_state(), 0x10);
}

#[test]
fn rans_known_stream() {
    let encoded = rans_encode_bytes(b"abracadabra");
    assert_eq!(encoded, vec![1, 48, 248, 20, 6, 0, 9, 2, 7, 0, 0, 8, 3, 0, 5, 9, 1]);
}

#[test]
fn rans_checked_agrees_with_plain() {
    let input = b"abracadabra";
    assert_eq!(rans_encode_checked(input), Some(rans_encode_bytes(input)));
}

#[test]
fn rans_decoder_needs_four_bytes() {
    assert!(RansDecoder::new(&[1, 2, 3]).is_none());
    let (d, n) = RansDecoder::new(&[0x12, 0x34, 0x56, 0x78, 0x9A]).unwrap();
    assert_eq!(d.get_state(), 0x1234_5678);
    assert_eq!(n, 5);
}

#[test]
fn tans_table_layout() {
    let symbols = vec![
        TansSymbol { symbol: 7, freq: 3, start: 0 },
        TansSymbol { symbol: 9, freq: 2, start: 3 },
    ];
    let table = TansTable::new(&symbols, 3);
    assert_eq!(table.table_size, 8);
    assert_eq!(table.symbol_table, vec![7, 7, 7, 9, 9, 0, 0, 0]);
    assert_eq!(table.state_table, vec![3, 4, 5, 2, 3, 0, 0, 0]);
    let (sym, next) = table.decode_step(17);
    assert_eq!(sym, 7);
    assert_eq!(next, (17 >> 4) | 4);
}

#[test]
fn tans_table_truncates_to_size() {
    let symbols = vec![TansSymbol { symbol: 1, freq: 6, start: 0 }];
    let table = TansTable::new(&symbols, 2);
    assert_eq!(table.symbol_table, vec![1, 1, 1, 1]);
    assert_eq!(table.state_table, vec![6, 7, 8, 9]);
}
