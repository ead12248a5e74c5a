use brotli_cost::context::{
    compute_huffman_table_index_for_context_map, kSigned3BitContextLookup, kUTF8ContextLookup,
    Context,
};
use brotli_cost::interface::{ContextType, InputPair, PredictionModeContextMap};

#[test]
fn low_six_bits() {
    assert_eq!(Context(0xff, 0x12, ContextType::CONTEXT_LSB6), 0x3f);
    assert_eq!(Context(0x41, 0xff, ContextType::CONTEXT_LSB6), 0x01);
    assert_eq!(Context(0x80, 0, ContextType::CONTEXT_LSB6), 0);
}

#[test]
fn top_six_bits() {
    assert_eq!(Context(0xff, 0x12, ContextType::CONTEXT_MSB6), 0x3f);
    assert_eq!(Context(0x41, 0xff, ContextType::CONTEXT_MSB6), 0x10);
    assert_eq!(Context(0x03, 0, ContextType::CONTEXT_MSB6), 0);
}

#[test]
fn utf8_combines_two_lookups() {
    // a lower-case vowel after a space
    assert_eq!(Context(b'e', b' ', ContextType::CONTEXT_UTF8), 56);
    // a lower-case consonant after an upper-case letter
    assert_eq!(Context(b't', b'T', ContextType::CONTEXT_UTF8), 60 | 2);
    // a digit after a digit
    assert_eq!(Context(b'7', b'1', ContextType::CONTEXT_UTF8), 44 | 2);
    // continuation bytes
    assert_eq!(Context(0x81, 0xe2, ContextType::CONTEXT_UTF8), 1 | 2);
    assert_eq!(Context(0xc3, 0x20, ContextType::CONTEXT_UTF8), 3);
}

#[test]
fn signed_joins_two_three_bit_classes() {
    assert_eq!(Context(0, 0, ContextType::CONTEXT_SIGNED), 0);
    assert_eq!(Context(255, 255, ContextType::CONTEXT_SIGNED), 63);
    assert_eq!(Context(1, 16, ContextType::CONTEXT_SIGNED), (1 << 3) | 2);
    assert_eq!(Context(128, 64, ContextType::CONTEXT_SIGNED), (4 << 3) | 3);
    assert_eq!(Context(240, 239, ContextType::CONTEXT_SIGNED), (6 << 3) | 5);
}

#[test]
fn every_context_is_below_64() {
    for mode in [
        ContextType::CONTEXT_LSB6,
        ContextType::CONTEXT_MSB6,
        ContextType::CONTEXT_UTF8,
        ContextType::CONTEXT_SIGNED,
    ] {
        for a in 0..=255u8 {
            for b in 0..=255u8 {
                assert!(Context(a, b, mode) < 64);
            }
        }
    }
}

#[test]
fn lookup_tables_have_their_classes() {
    assert_eq!(kUTF8ContextLookup.len(), 512);
    assert_eq!(kUTF8ContextLookup[b'a' as usize], 56);
    assert_eq!(kUTF8ContextLookup[b'b' as usize], 60);
    assert_eq!(kUTF8ContextLookup[256 + b'a' as usize], 3);
    assert_eq!(kUTF8ContextLookup[256 + 0xff], 2);
    assert_eq!(kSigned3BitContextLookup[0], 0);
    assert_eq!(kSigned3BitContextLookup[15], 1);
    assert_eq!(kSigned3BitContextLookup[16], 2);
    assert_eq!(kSigned3BitContextLookup[64], 3);
    assert_eq!(kSigned3BitContextLookup[128], 4);
    assert_eq!(kSigned3BitContextLookup[192], 5);
    assert_eq!(kSigned3BitContextLookup[240], 6);
    assert_eq!(kSigned3BitContextLookup[255], 7);
}

fn map(mode: u8, literal_context_map: Vec<u8>) -> PredictionModeContextMap {
    PredictionModeContextMap {
        literal_context_map,
        predmode_speed_and_distance_context_map: vec![mode, 77],
    }
}

#[test]
fn context_map_gives_the_row() {
    let mut literal = vec![0u8; 128];
    literal[64 + 5] = 200;
    literal[5] = 100;
    let m = map(0, literal);
    assert_eq!(compute_huffman_table_index_for_context_map(5, 0, &m, 0), (100, 5));
    assert_eq!(compute_huffman_table_index_for_context_map(5, 0, &m, 1), (200, 5));
    assert_eq!(compute_huffman_table_index_for_context_map(0x45, 0, &m, 1), (200, 5));
    // past the end of the map the context is the row
    assert_eq!(compute_huffman_table_index_for_context_map(5, 0, &m, 2), (5, 5));
    let m = map(1, Vec::new());
    assert_eq!(compute_huffman_table_index_for_context_map(0xf0, 0, &m, 9), (0x3c, 0x3c));
}

#[test]
fn prediction_mode_is_the_first_byte() {
    assert_eq!(map(0, Vec::new()).literal_prediction_mode(), Some(ContextType::CONTEXT_LSB6));
    assert_eq!(map(1, Vec::new()).literal_prediction_mode(), Some(ContextType::CONTEXT_MSB6));
    assert_eq!(map(2, Vec::new()).literal_prediction_mode(), Some(ContextType::CONTEXT_UTF8));
    assert_eq!(map(3, Vec::new()).literal_prediction_mode(), Some(ContextType::CONTEXT_SIGNED));
    assert_eq!(map(4, Vec::new()).literal_prediction_mode(), None);
    let empty = PredictionModeContextMap {
        literal_context_map: Vec::new(),
        predmode_speed_and_distance_context_map: Vec::new(),
    };
    assert_eq!(empty.literal_prediction_mode(), None);
}

#[test]
fn input_pair_reads_across_both_parts() {
    let pair = InputPair(&[1, 2, 3], &[4, 5]);
    assert_eq!(pair.len(), 5);
    assert_eq!((0..5).map(|i| pair.get(i)).collect::<Vec<u8>>(), vec![1, 2, 3, 4, 5]);
    assert_eq!(InputPair(&[], &[9]).get(0), 9);
    assert_eq!(InputPair(&[], &[]).len(), 0);
}
