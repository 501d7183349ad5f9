use engine::huffman::{
    decode_tokens, deserialise_table, encode_tokens, serialise_table, BitReader, BitWriter, HuffmanTable,
};
use engine::lz::Token;
use engine::EngineError;

#[test]
fn canonical_codes_deterministic() {
    let freqs = vec![10u64, 5, 20, 1, 7, 0, 3];
    let t1 = HuffmanTable::build(&freqs);
    let t2 = HuffmanTable::build(&freqs);
    assert_eq!(t1.lengths, t2.lengths);
}

#[test]
fn encode_decode_round_trip_literals() {
    let tokens: Vec<Token> = b"hello world".iter().map(|&b| Token::Literal(b)).collect();
    let (table, bits) = encode_tokens(&tokens);
    let decoded = decode_tokens(&table, &bits, tokens.len()).unwrap();
    assert_eq!(decoded, tokens);
}

#[test]
fn encode_decode_round_trip_mixed() {
    let tokens = vec![
        Token::Literal(b'a'),
        Token::Literal(b'b'),
        Token::Match { distance: 2, length: 5 },
        Token::Literal(b'c'),
        Token::Match { distance: 1, length: 10 },
    ];
    let (table, bits) = encode_tokens(&tokens);
    let decoded = decode_tokens(&table, &bits, tokens.len()).unwrap();
    assert_eq!(decoded, tokens);
}

#[test]
fn table_serialise_round_trip() {
    let freqs: Vec<u64> = (0..513).map(|i| if i % 3 == 0 { 10 } else { 1 }).collect();
    let table = HuffmanTable::build(&freqs);
    let bytes = serialise_table(&table);
    let (table2, _) = deserialise_table(&bytes).unwrap();
    assert_eq!(table.lengths, table2.lengths);
}

#[test]
fn single_symbol_table() {
    let mut freqs = vec![0u64; 513];
    freqs[42] = 100;
    let table = HuffmanTable::build(&freqs);
    // Symbol 42 and EOB should have length 1
    assert!(table.lengths.iter().any(|&(s, l)| s == 42 && l == 1));
}

// ── further cases ──

#[test]
fn build_gives_exact_lengths() {
    // Two symbols plus the end-of-block symbol: package-merge gives 1, 2, 2.
    let mut freqs = vec![0u64; 516];
    freqs[0] = 5;
    freqs[1] = 1;
    let table = HuffmanTable::build(&freqs);
    assert_eq!(table.lengths, vec![(0, 1), (1, 2), (515, 2)]);
    assert_eq!(table.encode_symbol(0), (0, 1));
    assert_eq!(table.encode_symbol(1), (2, 2));
    assert_eq!(table.encode_symbol(515), (3, 2));
    assert_eq!(table.encode_symbol(2), (0, 0));
}

#[test]
fn build_of_all_zero_frequencies_is_empty() {
    let table = HuffmanTable::build(&[0u64; 10]);
    assert!(table.lengths.is_empty());
    assert_eq!(table.symbol_count, 10);
    assert_eq!(table.encode, vec![(0, 0); 10]);
}

#[test]
fn build_with_only_the_end_symbol() {
    let mut freqs = vec![0u64; 516];
    freqs[515] = 3;
    let table = HuffmanTable::build(&freqs);
    assert_eq!(table.lengths, vec![(515, 1)]);
}

#[test]
fn canonical_codes_from_lengths() {
    // RFC 1951 example: lengths (3, 3, 3, 3, 3, 2, 4, 4) give codes
    // 010, 011, 100, 101, 110, 00, 1110, 1111.
    let table = HuffmanTable::from_lengths(&[3, 3, 3, 3, 3, 2, 4, 4]);
    let codes: Vec<(u32, u8)> = (0..8).map(|s| table.encode_symbol(s)).collect();
    assert_eq!(codes, vec![(2, 3), (3, 3), (4, 3), (5, 3), (6, 3), (0, 2), (14, 4), (15, 4)]);
    assert_eq!(table.lengths, vec![(5, 2), (0, 3), (1, 3), (2, 3), (3, 3), (4, 3), (6, 4), (7, 4)]);
}

#[test]
fn decode_symbol_reads_the_top_bits() {
    let table = HuffmanTable::from_lengths(&[3, 3, 3, 3, 3, 2, 4, 4]);
    // 1110 followed by anything decodes symbol 6 with length 4.
    assert_eq!(table.decode_symbol(0b1110_0000_0000_0000_0000_0000_0000_0000).unwrap(), (6, 4));
    assert_eq!(table.decode_symbol(0b0011_1111_0000_0000_0000_0000_0000_0000).unwrap(), (5, 2));
}

#[test]
fn decode_symbol_without_code_is_an_error() {
    // A single code of length 1 leaves the windows starting with 1 without a code.
    let table = HuffmanTable::from_lengths(&[1]);
    match table.decode_symbol(0x8000_0000) {
        Err(EngineError::DecompressError(msg)) => assert_eq!(msg, "invalid Huffman code"),
        other => panic!("unexpected {:?}", other),
    }
    assert_eq!(table.decode_symbol(0x7FFF_FFFF).unwrap(), (0, 1));
}

#[test]
fn serialised_table_layout() {
    let table = HuffmanTable::from_lengths(&[2, 1, 0, 2]);
    let bytes = serialise_table(&table);
    assert_eq!(bytes, vec![3, 0, 1, 0, 1, 0, 0, 2, 3, 0, 2]);
    let (t2, used) = deserialise_table(&[bytes.clone(), vec![9, 9]].concat()).unwrap();
    assert_eq!(used, 11);
    assert_eq!(t2.lengths, table.lengths);
}

#[test]
fn deserialise_errors() {
    match deserialise_table(&[1]) {
        Err(EngineError::DecompressError(msg)) => assert_eq!(msg, "table too short"),
        other => panic!("unexpected {:?}", other.map(|(t, n)| (t.lengths, n))),
    }
    match deserialise_table(&[2, 0, 1, 0, 1]) {
        Err(EngineError::DecompressError(msg)) => assert_eq!(msg, "truncated table"),
        other => panic!("unexpected {:?}", other.map(|(t, n)| (t.lengths, n))),
    }
    // Three codes of length 1 break the Kraft inequality.
    match deserialise_table(&[3, 0, 0, 0, 1, 1, 0, 1, 2, 0, 1]) {
        Err(EngineError::DecompressError(msg)) => assert_eq!(msg, "invalid Huffman table"),
        other => panic!("unexpected {:?}", other.map(|(t, n)| (t.lengths, n))),
    }
    // A length over 15 is refused too.
    match deserialise_table(&[1, 0, 0, 0, 16]) {
        Err(EngineError::DecompressError(msg)) => assert_eq!(msg, "invalid Huffman table"),
        other => panic!("unexpected {:?}", other.map(|(t, n)| (t.lengths, n))),
    }
}

#[test]
fn deserialise_keeps_the_last_record_of_a_symbol() {
    let (t, used) = deserialise_table(&[2, 0, 0, 0, 3, 0, 0, 1]).unwrap();
    assert_eq!(used, 8);
    assert_eq!(t.lengths, vec![(0, 1)]);
}

#[test]
fn bit_writer_packs_msb_first() {
    let mut w = BitWriter::new();
    w.write_bits(0b101, 3);
    w.write_bits(0b1, 1);
    w.write_bits(0xABCD, 16);
    assert_eq!(w.finish(), vec![0b1011_1010, 0b1011_1100, 0b1101_0000]);
}

#[test]
fn bit_reader_reads_and_runs_out() {
    let data = [0b1011_1010u8, 0xFF];
    let mut r = BitReader::new(&data);
    assert_eq!(r.peek32(), 0b1011_1010_1111_1111 << 16);
    r.consume(3);
    assert_eq!(r.read_bits(5).unwrap(), 0b11010);
    assert_eq!(r.read_bits(8).unwrap(), 0xFF);
    match r.read_bits(1) {
        Err(EngineError::DecompressError(msg)) => assert_eq!(msg, "unexpected end of bitstream"),
        other => panic!("unexpected {:?}", other),
    }
}

#[test]
fn decode_tokens_stops_at_the_end_symbol() {
    let tokens = vec![Token::Literal(7), Token::Match { distance: 300, length: 258 }];
    let (table, mut bits) = encode_tokens(&tokens);
    bits.extend_from_slice(&[0xAB, 0xCD]);
    assert_eq!(decode_tokens(&table, &bits, 0).unwrap(), tokens);
}

#[test]
fn decode_tokens_reports_an_early_end() {
    let tokens = vec![Token::Match { distance: 0xFFFF, length: 4 }; 3];
    let (table, bits) = encode_tokens(&tokens);
    // Without its last byte the stream ends inside a distance or before the end symbol.
    assert!(decode_tokens(&table, &bits[..bits.len() - 1], 0).is_err());
    match decode_tokens(&table, &[], 0) {
        Err(EngineError::DecompressError(msg)) => assert_eq!(msg, "unexpected end of bitstream"),
        other => panic!("unexpected {:?}", other),
    }
}

#[test]
fn decode_symbol_inverts_encode_symbol() {
    let freqs: Vec<u64> = (0..600u64).map(|i| (i * 7919) % 97).collect();
    let table = HuffmanTable::build(&freqs);
    let mut coded = 0;
    for s in 0..table.symbol_count as u16 {
        let (code, len) = table.encode_symbol(s);
        if len == 0 {
            continue;
        }
        coded += 1;
        let word = (code << (32 - len as u32)) | ((1u32 << (32 - len as u32)) - 1);
        assert_eq!(table.decode_symbol(code << (32 - len as u32)).unwrap(), (s, len));
        assert_eq!(table.decode_symbol(word).unwrap(), (s, len));
    }
    assert_eq!(coded, table.lengths.len());
}

#[test]
fn consume_on_fresh_reader_skips_bits() {
    let data = [0xF0u8];
    let mut r = BitReader::new(&data);
    r.consume(4);
    assert_eq!(r.read_bits(4).unwrap(), 0);
}

#[test]
fn consume_past_the_end_takes_what_is_left() {
    let data = [0xABu8, 0xCD];
    let mut r = BitReader::new(&data);
    r.consume(200);
    assert!(r.read_bits(1).is_err());
}

#[test]
fn consume_spans_more_than_one_refill() {
    let data: Vec<u8> = (0u8..20).collect();
    let mut r = BitReader::new(&data);
    r.consume(8 * 12);
    assert_eq!(r.read_bits(8).unwrap(), 12);
}

#[test]
fn read_zero_bits_gives_zero() {
    let data = [0xFFu8; 9];
    let mut r = BitReader::new(&data);
    assert_eq!(r.read_bits(0).unwrap(), 0);
    assert_eq!(r.read_bits(8).unwrap(), 0xFF);
}

#[test]
fn write_bits_longer_than_32() {
    let mut w = BitWriter::new();
    w.write_bits(1, 3);
    w.write_bits(0xDEAD_BEEF, 45);
    let out = w.finish();
    // 3 bits 001, then 13 zero bits, then 0xDEADBEEF.
    assert_eq!(out, vec![0x20, 0x00, 0xDE, 0xAD, 0xBE, 0xEF]);
}

#[test]
fn build_accepts_a_frequency_above_2_pow_48() {
    let mut freqs = vec![0u64; 516];
    freqs[65] = 1u64 << 50;
    freqs[66] = 3;
    let t = HuffmanTable::build(&freqs);
    let bytes = serialise_table(&t);
    let (t2, used) = deserialise_table(&bytes).unwrap();
    assert_eq!(used, bytes.len());
    assert_eq!(t2.encode_symbol(65), t.encode_symbol(65));
    assert_eq!(t.encode_symbol(65).1, 1);
}
