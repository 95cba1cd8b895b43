use data_compression::bitfile::{file_print_binary, BitFile, CodecError};
use data_compression::header::{input_counts, output_counts};
use data_compression::huffman::{
    build_code_table, compress_data, compress_file, count_bytes, scale_counts,
};

fn is_prefix(a: &[bool], b: &[bool]) -> bool {
    a.len() <= b.len() && a.iter().zip(b.iter()).all(|(x, y)| x == y)
}

#[test]
fn bit_writer_single_bits_pack_msb_first() {
    let mut w = BitFile::create();
    for bit in [1u8, 0, 1, 0, 1, 0, 1, 0] {
        w.output_bit(bit);
    }
    w.output_bit(1);
    w.flush_bits();
    assert_eq!(w.into_bytes(), vec![0b1010_1010, 0b1000_0000]);
}

#[test]
fn bit_writer_flush_pads_partial_byte_with_zeros() {
    let mut w = BitFile::create();
    w.output_bit(1);
    w.flush_bits();
    assert_eq!(w.into_bytes(), vec![0x80]);
}

#[test]
fn bit_writer_flush_without_pending_bits_is_noop() {
    let mut w = BitFile::create();
    w.output_bits(0xAB, 8);
    w.flush_bits();
    w.flush_bits();
    assert_eq!(w.into_bytes(), vec![0xAB]);
}

#[test]
fn bit_channel_round_trip_mixed_widths() {
    let pairs: [(u32, u8); 7] = [
        (0b101, 3),
        (0xFFFF, 16),
        (1, 1),
        (0x1234_5678, 32),
        (0, 5),
        (0x7F, 7),
        (3, 2),
    ];
    let mut w = BitFile::create();
    for &(v, n) in pairs.iter() {
        w.output_bits(v, n as usize);
    }
    w.flush_bits();
    let mut r = BitFile::open(w.into_bytes());
    for &(v, n) in pairs.iter() {
        assert_eq!(r.input_bits(n).unwrap(), v);
    }
}

#[test]
fn bit_writer_drops_bits_above_requested_width() {
    let mut w = BitFile::create();
    w.output_bits(0xFF, 4);
    w.flush_bits();
    assert_eq!(w.into_bytes(), vec![0xF0]);
}

#[test]
fn bit_reader_reports_exhaustion() {
    let mut r = BitFile::open(Vec::new());
    assert_eq!(r.input_bit(), Err(CodecError::Exhausted));
    let mut r2 = BitFile::open(vec![0xFF]);
    assert_eq!(r2.input_bits(8).unwrap(), 0xFF);
    assert_eq!(r2.input_bits(1), Err(CodecError::Exhausted));
}

#[test]
fn bit_reader_reads_msb_first() {
    let mut r = BitFile::open(vec![0b1100_0001]);
    assert_eq!(r.input_bit().unwrap(), 1);
    assert_eq!(r.input_bit().unwrap(), 1);
    assert_eq!(r.input_bits(5).unwrap(), 0);
    assert_eq!(r.input_bit().unwrap(), 1);
}

#[test]
fn file_print_binary_renders_ascii_digits() {
    let mut out = Vec::new();
    file_print_binary(&mut out, 0b1010, 4);
    assert_eq!(out, b"1010".to_vec());
    let mut out2 = Vec::new();
    file_print_binary(&mut out2, 1, 3);
    assert_eq!(out2, b"001".to_vec());
}

#[test]
fn count_bytes_counts_every_value() {
    let input = vec![7u8, 7, 7, 0, 255];
    let counts = count_bytes(&input);
    assert_eq!(counts.len(), 256);
    assert_eq!(counts[7], 3);
    assert_eq!(counts[0], 1);
    assert_eq!(counts[255], 1);
    assert_eq!(counts[8], 0);
}

#[test]
fn scale_counts_preserves_zero_nonzero() {
    let mut counts = vec![0u64; 256];
    counts[10] = 510;
    counts[11] = 1;
    let weights = scale_counts(&counts);
    // divisor = 510 / 255 + 1 = 3
    assert_eq!(weights.len(), 257);
    assert_eq!(weights[10], 170);
    assert_eq!(weights[11], 1); // nonzero count never scales to zero
    assert_eq!(weights[12], 0);
    assert_eq!(weights[256], 1); // end-of-stream weight is fixed
}

#[test]
fn scale_counts_empty_input_substitutes_weight_for_zero() {
    let counts = vec![0u64; 256];
    let weights = scale_counts(&counts);
    assert_eq!(weights[0], 1);
    assert!(weights[1..256].iter().all(|&w| w == 0));
    assert_eq!(weights[256], 1);
}

#[test]
fn header_round_trip_recovers_weights() {
    let mut counts = vec![0u64; 256];
    counts[3] = 1;
    counts[4] = 9;
    counts[200] = 4;
    counts[255] = 2;
    let weights = scale_counts(&counts);
    let mut out = BitFile::create();
    output_counts(&mut out, &weights);
    let mut r = BitFile::open(out.into_bytes());
    let table = input_counts(&mut r).unwrap();
    assert_eq!(&table[..], &weights[..256]);
}

#[test]
fn header_all_zero_table_is_single_terminator_byte() {
    let weights = vec![0u8; 257];
    let mut out = BitFile::create();
    output_counts(&mut out, &weights);
    let bytes = out.into_bytes();
    assert_eq!(bytes, vec![0]);
    let mut r = BitFile::open(bytes);
    let table = input_counts(&mut r).unwrap();
    assert!(table.iter().all(|&w| w == 0));
}

#[test]
fn header_run_at_symbol_255() {
    let mut weights = vec![0u8; 257];
    weights[255] = 7;
    let mut out = BitFile::create();
    output_counts(&mut out, &weights);
    let bytes = out.into_bytes();
    assert_eq!(bytes, vec![255, 255, 7, 0]);
    let mut r = BitFile::open(bytes);
    let table = input_counts(&mut r).unwrap();
    assert_eq!(table[255], 7);
    assert!(table[..255].iter().all(|&w| w == 0));
}

#[test]
fn header_truncated_input_is_an_error() {
    let mut r = BitFile::open(vec![5]);
    assert_eq!(input_counts(&mut r), Err(CodecError::Exhausted));
    let mut r2 = BitFile::open(Vec::new());
    assert_eq!(input_counts(&mut r2), Err(CodecError::Exhausted));
}

#[test]
fn skewed_input_codes_beat_plain_bytes() {
    // A x6, B x3, C x2, D x1: max count 6, divisor floor(6/255)+1 = 1,
    // so scaled weights equal the raw counts
    let mut input = Vec::new();
    input.extend(std::iter::repeat(b'A').take(6));
    input.extend(std::iter::repeat(b'B').take(3));
    input.extend(std::iter::repeat(b'C').take(2));
    input.push(b'D');
    let counts = count_bytes(&input);
    let weights = scale_counts(&counts);
    assert_eq!(weights[b'A' as usize], 6);
    assert_eq!(weights[b'B' as usize], 3);
    assert_eq!(weights[b'C' as usize], 2);
    assert_eq!(weights[b'D' as usize], 1);
    let codes = build_code_table(&weights);
    let coded: Vec<usize> = (0..257).filter(|&s| codes[s].is_some()).collect();
    assert_eq!(
        coded,
        vec![b'A' as usize, b'B' as usize, b'C' as usize, b'D' as usize, 256]
    );
    let total_bits: usize = input
        .iter()
        .map(|&b| codes[b as usize].as_ref().unwrap().bits.len())
        .sum();
    assert!(total_bits < 96);
    // the payload written by compress_data carries exactly those bits
    let mut out = BitFile::create();
    compress_data(&input, &mut out, &codes);
    out.flush_bits();
    let eos_bits = codes[256].as_ref().unwrap().bits.len();
    assert_eq!(out.into_bytes().len(), (total_bits + eos_bits + 7) / 8);
}

#[test]
fn empty_input_compresses_to_header_and_eos_code() {
    let out = compress_file(&Vec::new());
    // header: run (0, 0, weight 1) then terminator; payload: the 1-bit
    // end-of-stream code, zero-padded to one byte
    assert_eq!(out, vec![0, 0, 1, 0, 0x80]);
}

#[test]
fn all_byte_values_once_yields_balanced_codes() {
    let input: Vec<u8> = (0..=255).collect();
    let counts = count_bytes(&input);
    let weights = scale_counts(&counts);
    assert!(weights[..256].iter().all(|&w| w == 1));
    let codes = build_code_table(&weights);
    for s in 0..257 {
        let code = codes[s].as_ref().unwrap();
        assert!(code.bits.len() < 256);
        assert!(code.bits.len() >= 8); // 257 leaves need at least 8 bits somewhere
    }
    // header round trip recovers all 256 weights as 1
    let mut out = BitFile::create();
    output_counts(&mut out, &weights);
    let mut r = BitFile::open(out.into_bytes());
    let table = input_counts(&mut r).unwrap();
    assert!(table.iter().all(|&w| w == 1));
}

#[test]
fn code_table_is_prefix_free() {
    let input: Vec<u8> = (0..=255).collect();
    let counts = count_bytes(&input);
    let weights = scale_counts(&counts);
    let codes = build_code_table(&weights);
    let patterns: Vec<Vec<bool>> = (0..257)
        .map(|s| codes[s].as_ref().unwrap().bits.clone())
        .collect();
    for i in 0..patterns.len() {
        for j in 0..patterns.len() {
            if i != j {
                assert!(!is_prefix(&patterns[i], &patterns[j]));
            }
        }
    }
}

#[test]
fn kraft_inequality_holds_on_a_skewed_table() {
    let mut input = Vec::new();
    for (b, n) in [(b'a', 40), (b'b', 20), (b'c', 10), (b'd', 5), (b'e', 1)] {
        input.extend(std::iter::repeat(b).take(n));
    }
    let counts = count_bytes(&input);
    let weights = scale_counts(&counts);
    let codes = build_code_table(&weights);
    // sum of 2^(32 - len) over coded symbols must stay within 2^32
    let mut sum: u64 = 0;
    for s in 0..257 {
        if let Some(code) = &codes[s] {
            assert!(code.bits.len() <= 32);
            sum += 1u64 << (32 - code.bits.len());
        }
    }
    assert!(sum <= 1u64 << 32);
}

#[test]
fn compress_file_deterministic_small_input() {
    // counts: A=2, B=1; weights A=2, B=1, EOS=1; greedy merge pairs
    // (B, EOS) then (A, .) giving A="0", B="10", EOS="11";
    // header (65, 66, [2, 1]) + terminator; payload 0 0 10 11 -> 0x2C
    let out = compress_file(&vec![b'A', b'A', b'B']);
    assert_eq!(out, vec![65, 66, 2, 1, 0, 0x2C]);
}

#[test]
fn compress_file_header_matches_output_counts() {
    let input = b"the quick brown fox jumps over the lazy dog".to_vec();
    let out = compress_file(&input);
    let counts = count_bytes(&input);
    let weights = scale_counts(&counts);
    let mut header = BitFile::create();
    output_counts(&mut header, &weights);
    let header_bytes = header.into_bytes();
    assert!(out.len() > header_bytes.len());
    assert_eq!(&out[..header_bytes.len()], &header_bytes[..]);
}
