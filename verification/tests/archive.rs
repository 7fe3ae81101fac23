use my_compressor::codec::{encode_bitvec_huffman, decode_bitvec_huffman, FileRecord,
    build_canonical_bitvec_map_from_string};
use my_compressor::{DecodeError, EncodeError};

fn rec(name: &str, content: &str) -> FileRecord {
    FileRecord { name: String::from(name), content: String::from(content) }
}

#[test]
fn round_trip_single_file() {
    let files = vec![rec("x", "hi")];
    let bytes = encode_bitvec_huffman(&files).unwrap();
    let back = decode_bitvec_huffman(&bytes).unwrap();
    assert_eq!(back.len(), 1);
    assert_eq!(back[0].name, "x");
    assert_eq!(back[0].content, "hi");
}

#[test]
fn round_trip_two_files() {
    let files = vec![rec("alpha.txt", "the quick brown fox"), rec("beta.txt", "jumps over")];
    let bytes = encode_bitvec_huffman(&files).unwrap();
    let back = decode_bitvec_huffman(&bytes).unwrap();
    assert_eq!(back.len(), 2);
    assert_eq!(back[0].name, "alpha.txt");
    assert_eq!(back[0].content, "the quick brown fox");
    assert_eq!(back[1].name, "beta.txt");
    assert_eq!(back[1].content, "jumps over");
}

#[test]
fn round_trip_multibyte_symbols() {
    let files = vec![rec("caf\u{e9}", "\u{6f22}\u{5b57} et voil\u{e0} \u{1f642}")];
    let bytes = encode_bitvec_huffman(&files).unwrap();
    let back = decode_bitvec_huffman(&bytes).unwrap();
    assert_eq!(back.len(), 1);
    assert_eq!(back[0].name, "caf\u{e9}");
    assert_eq!(back[0].content, "\u{6f22}\u{5b57} et voil\u{e0} \u{1f642}");
}

#[test]
fn round_trip_empty_content() {
    let files = vec![rec("empty", ""), rec("full", "aaa")];
    let bytes = encode_bitvec_huffman(&files).unwrap();
    let back = decode_bitvec_huffman(&bytes).unwrap();
    assert_eq!(back.len(), 2);
    assert_eq!(back[0].name, "empty");
    assert_eq!(back[0].content, "");
    assert_eq!(back[1].name, "full");
    assert_eq!(back[1].content, "aaa");
}

#[test]
fn empty_file_set_is_rejected() {
    let files: Vec<FileRecord> = Vec::new();
    assert_eq!(encode_bitvec_huffman(&files).unwrap_err(), EncodeError::EmptyAlphabet);
}

#[test]
fn oversized_alphabet_is_rejected() {
    // 300 distinct symbols exceed the one-byte symbol count of the header.
    let mut content = String::new();
    for i in 0..300u32 {
        content.push(char::from_u32(0x4e00 + i).unwrap());
    }
    let files = vec![rec("w", &content)];
    assert_eq!(encode_bitvec_huffman(&files).unwrap_err(), EncodeError::UnsupportedAlphabet);
}

// Concrete scenario: the sentinel's canonical code stands exactly once in the
// payload, between the encoded path bits and the encoded content bits.
#[test]
fn sentinel_sits_between_name_and_content() {
    let files = vec![rec("x", "hi")];
    let bytes = encode_bitvec_huffman(&files).unwrap();

    // Rebuild the same canonical table from the framed symbol stream.
    let msg: Vec<char> = vec!['x', '\u{0}', 'h', 'i', '\u{1}'];
    let table = build_canonical_bitvec_map_from_string(&msg).unwrap();
    let code_of = |c: char| -> Vec<bool> {
        table.iter().find(|e| e.0 == c).unwrap().1.clone()
    };

    // Header: 1 count byte, then per entry 1 ASCII byte + 1 length byte +
    // 1 code byte (5 symbols, so every code is at most 4 bits long).
    let header_len = 1 + table.len() * 3;
    assert_eq!(bytes[0] as usize, table.len());
    assert_eq!(table.len(), 5);

    // Expected payload bits: code(x), code(NUL), code(h), code(i), code(SOH).
    let mut expect: Vec<bool> = Vec::new();
    for c in ['x', '\u{0}', 'h', 'i', '\u{1}'] {
        expect.extend_from_slice(&code_of(c));
    }
    while expect.len() % 8 != 0 {
        expect.push(false);
    }
    let payload = &bytes[header_len..];
    let mut actual: Vec<bool> = Vec::new();
    for b in payload {
        for j in 0..8 {
            actual.push((b >> (7 - j)) & 1 == 1);
        }
    }
    assert_eq!(actual, expect);
}

// Concrete scenario: a header declaring a single symbol is degenerate.
#[test]
fn single_symbol_count_is_degenerate() {
    let bytes = vec![1u8, b'a', 1u8, 0u8];
    assert_eq!(decode_bitvec_huffman(&bytes).unwrap_err(), DecodeError::DegenerateTable);
}

#[test]
fn zero_symbol_count_is_degenerate() {
    let bytes = vec![0u8];
    assert_eq!(decode_bitvec_huffman(&bytes).unwrap_err(), DecodeError::DegenerateTable);
}

// Concrete scenario: an archive truncated mid-header fails cleanly.
#[test]
fn truncated_header_is_invalid() {
    // Declares two symbols but ends after the first symbol's byte.
    let bytes = vec![2u8, b'a'];
    assert_eq!(decode_bitvec_huffman(&bytes).unwrap_err(), DecodeError::InvalidHeader);
}

#[test]
fn empty_archive_is_invalid() {
    let bytes: Vec<u8> = Vec::new();
    assert_eq!(decode_bitvec_huffman(&bytes).unwrap_err(), DecodeError::InvalidHeader);
}

#[test]
fn bad_utf8_leading_byte_is_invalid() {
    // 0xFF can never lead a UTF-8 symbol.
    let bytes = vec![2u8, 0xFFu8, 1u8, 0u8, b'b', 1u8, 0x80u8];
    assert_eq!(decode_bitvec_huffman(&bytes).unwrap_err(), DecodeError::InvalidHeader);
}

// Length-optimality scenario: the payload of a skewed input stays at or
// below a fixed-width baseline of ceil(log2(alphabet size)) bits per symbol.
#[test]
fn payload_beats_fixed_width_baseline() {
    let mut msg: Vec<char> = "f".chars().collect();
    msg.push('\u{0}');
    msg.extend("abracadabra abracadabra abracadabra".chars());
    msg.push('\u{1}');
    let table = build_canonical_bitvec_map_from_string(&msg).unwrap();
    let mut width = 0usize;
    while (1usize << width) < table.len() {
        width += 1;
    }
    let total_bits: usize = msg
        .iter()
        .map(|c| table.iter().find(|e| e.0 == *c).unwrap().1.len())
        .sum();
    assert!(total_bits <= msg.len() * width);
}

// An input whose total length exceeds the 16-bit counter domain is fine as
// long as no single symbol does.
#[test]
fn round_trip_beyond_the_counter_domain() {
    let mut content = String::new();
    for i in 0..70000 {
        content.push(if i % 2 == 0 { 'a' } else { 'b' });
    }
    let files = vec![rec("big.txt", &content)];
    let bytes = encode_bitvec_huffman(&files).unwrap();
    let back = decode_bitvec_huffman(&bytes).unwrap();
    assert_eq!(back.len(), 1);
    assert_eq!(back[0].name, "big.txt");
    assert_eq!(back[0].content, content);
}

#[test]
fn encoding_twice_gives_identical_archives() {
    let files = vec![rec("a.txt", "mississippi"), rec("b.txt", "riverbank")];
    let first = encode_bitvec_huffman(&files).unwrap();
    let second = encode_bitvec_huffman(&files).unwrap();
    assert_eq!(first, second);
}

// The writer's exact bytes: header entries in canonical (length, symbol)
// order, then the payload bits zero-padded to a whole byte.
#[test]
fn archive_bytes_are_bit_exact() {
    // Frame "b" NUL "aa" SOH: all four symbols get two-bit codes; sorted
    // by symbol the canonical codes are NUL=00, SOH=01, a=10, b=11. The
    // payload bits 11 00 10 10 01 pack to 0xCA 0x40 with six pad zeros.
    let files = vec![rec("b", "aa")];
    let bytes = encode_bitvec_huffman(&files).unwrap();
    let expect: Vec<u8> = vec![
        4u8, 0x00, 2, 0x00, 0x01, 2, 0x40, b'a', 2, 0x80, b'b', 2, 0xC0, 0xCA, 0x40,
    ];
    assert_eq!(bytes, expect);
}

#[test]
fn decode_of_handmade_archive() {
    // Table: 'a' -> 0, NUL -> 10, SOH -> 11; payload "a" NUL "aa" SOH,
    // bits 0 10 0 0 11 padded with two zeros: 0100 0110 -> 0x46.
    let bytes = vec![
        3u8, b'a', 1u8, 0x00u8, 0u8, 2u8, 0x80u8, 1u8, 2u8, 0xC0u8, 0x46u8,
    ];
    let back = decode_bitvec_huffman(&bytes).unwrap();
    assert_eq!(back.len(), 1);
    assert_eq!(back[0].name, "a");
    assert_eq!(back[0].content, "aa");
}
