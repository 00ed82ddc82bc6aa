use parcomp::delta;
use parcomp::huffman;
use parcomp::huffman::Node;

/// A deterministic mixed workload: pseudo-random bytes, printable text and
/// long runs, so that short deltas, escapes and run-length records all occur.
fn sample_text() -> Vec<u8> {
    let mut out: Vec<u8> = Vec::new();
    let mut x: u32 = 0x2468_ACE1;
    for i in 0..900 {
        x = x.wrapping_mul(1103515245).wrapping_add(12345);
        if i % 90 < 20 {
            out.push(b'a' + ((x >> 16) % 26) as u8);
        } else if i % 90 < 40 {
            out.push(b' ');
        } else {
            out.push((x >> 16) as u8);
        }
    }
    for _ in 0..64 {
        out.push(0x41);
    }
    out
}

#[test]
fn delta_compression_and_decompression() {
    let text = sample_text();
    assert_eq!(text, delta::decompress(&delta::compress(&text)));
}

#[test]
fn delta_separated_compression_and_decompression() {
    let text = sample_text();
    let chunks = text.chunks(32).collect::<Vec<_>>();
    let compressed = chunks.iter().map(|c| delta::compress(c)).collect::<Vec<_>>();
    let decompressed = compressed.iter().map(|c| delta::decompress(c)).collect::<Vec<_>>();
    assert_eq!(chunks, decompressed);
}

#[test]
fn huffman_compression_and_decompression() {
    let text = sample_text();
    let compressed = huffman::compress(&text);
    let decompressed = huffman::decompress(&compressed).expect("Decompression failed");
    assert_eq!(text, decompressed.as_slice());
}

#[test]
fn huffman_separated_compression_and_decompression() {
    let text = sample_text();
    let chunks = text.chunks(32).collect::<Vec<_>>();
    let compressed = chunks.iter().map(|c| huffman::compress(c)).collect::<Vec<_>>();
    let decompressed = compressed
        .iter()
        .map(|c| huffman::decompress(c).expect("Decompression failed"))
        .collect::<Vec<_>>();
    assert_eq!(chunks, decompressed);
}

#[test]
fn header_creation_and_parsing() {
    let counts: Vec<(u8, u32)> = vec![(1, 1), (2, 2), (3, 3)];
    let mut header = huffman::counts_to_header(&counts);
    header.extend_from_slice(&24_u64.to_be_bytes());
    header.extend_from_slice(&[1, 2, 3]);
    let (new_counts, bits, off) = huffman::header_to_counts(&header).expect("Header parsing failed");
    assert_eq!(counts, new_counts);
    assert_eq!(bits, 24);
    assert_eq!(&header[off..], &[1, 2, 3]);
}

#[test]
fn get_bytes_from_tree() {
    let tree = Node::new_tree(&vec![(1, 1), (2, 2), (3, 3)]);
    assert_eq!(tree.get_byte(&vec![true, false]), Some(1));
    assert_eq!(tree.get_byte(&vec![true, true]), Some(2));
    assert_eq!(tree.get_byte(&vec![false]), Some(3));
}

#[test]
fn bitwriter_finish_flushes_pending_bits() {
    // A pending partial byte is flushed implicitly, zero-filled.
    let mut w = parcomp::bits::BitWriter::new();
    w.bit(true);
    assert_eq!(w.into_boxed_slice(), vec![0x80]);
    let mut w = parcomp::bits::BitWriter::new();
    w.bits(0b101, 3);
    assert_eq!(w.into_boxed_slice(), vec![0xA0]);
    let mut w = parcomp::bits::BitWriter::new();
    w.byte(0xC3);
    w.flush();
    assert_eq!(w.into_boxed_slice(), vec![0xC3]);
    assert_eq!(parcomp::bits::BitWriter::new().into_boxed_slice(), Vec::<u8>::new());
}

#[test]
fn delta_all_constant_bit_stream() {
    let input = [0x41u8, 0x41, 0x41, 0x41];
    let compressed = delta::compress(&input);
    assert_eq!(compressed, vec![0x41, 0x56]);
    assert_eq!(delta::decompress(&compressed), input.to_vec());
}

#[test]
fn delta_small_delta_bit_stream() {
    let input = [10u8, 12];
    let compressed = delta::compress(&input);
    assert_eq!(compressed, vec![0x0A, 0x0F]);
    assert_eq!(delta::decompress(&compressed), input.to_vec());
}

#[test]
fn delta_escape_bit_stream() {
    let input = [100u8, 200];
    let compressed = delta::compress(&input);
    assert_eq!(compressed, vec![0x64, 0x8C, 0x98]);
    assert_eq!(delta::decompress(&compressed), input.to_vec());
}

#[test]
fn delta_family_boundary() {
    // |delta| = 30 stays in the widest short family, |delta| = 31 escapes.
    assert_eq!(delta::diff_to_bits(30), (127, 7));
    assert_eq!(delta::diff_to_bits(-30), (96, 7));
    assert_eq!(delta::bits_to_diff(31, 5), 30);
    assert_eq!(delta::bits_to_diff(0, 5), -30);
    assert_eq!(delta::compress(&[0, 30]), vec![0x00, 0x3F, 0xE0]);
    assert_eq!(delta::compress(&[0, 31]), vec![0x00, 0x83, 0xF8]);
    assert_eq!(delta::decompress(&delta::compress(&[0, 30])), vec![0, 30]);
    assert_eq!(delta::decompress(&delta::compress(&[0, 31])), vec![0, 31]);
}

#[test]
fn delta_run_boundaries() {
    // Nine zero deltas: one full run of eight, then a run of one.
    let input = [0x41u8; 10];
    let compressed = delta::compress(&input);
    assert_eq!(compressed, vec![0x41, 0x7A, 0x30]);
    assert_eq!(delta::decompress(&compressed), input.to_vec());
}

#[test]
fn delta_truncated_stream_is_rejected() {
    // A lone first byte has no terminator opcode.
    assert_eq!(delta::try_decompress(&[0x41]), None);
    assert_eq!(delta::try_decompress(&[]), None);
}

#[test]
fn huffman_single_symbol() {
    let input = [0x5A_u8; 5];
    let compressed = huffman::compress(&input);
    assert_eq!(
        compressed,
        vec![0, 1, 0x5A, 0, 0, 0, 5, 0, 0, 0, 0, 0, 0, 0, 5, 0]
    );
    assert_eq!(huffman::decompress(&compressed).expect("Decompression failed"), input.to_vec());
}

#[test]
fn huffman_uniform_distribution() {
    let input = *b"ABABCDCD";
    let compressed = huffman::compress(&input);
    // Four symbols, so a 22-byte header; sixteen payload bits mean every
    // code has length two.
    let (counts, bits, off) = huffman::header_to_counts(&compressed).expect("Header parsing failed");
    assert_eq!(counts, vec![(b'A', 2), (b'B', 2), (b'C', 2), (b'D', 2)]);
    assert_eq!(bits, 16);
    assert_eq!(compressed.len() - off, 2);
    assert_eq!(huffman::decompress(&compressed).expect("Decompression failed"), input.to_vec());
}

#[test]
fn huffman_deterministic_codes() {
    let text = sample_text();
    assert_eq!(huffman::compress(&text), huffman::compress(&text));
    let counts = huffman::count_freqs(&text);
    let t1 = Node::new_tree(&counts).get_codes();
    let t2 = Node::new_tree(&counts).get_codes();
    assert_eq!(t1, t2);
}

#[test]
fn huffman_empty_chunk() {
    let compressed = huffman::compress(&[]);
    assert_eq!(compressed, vec![0, 0, 0, 0, 0, 0, 0, 0, 0, 0]);
    assert_eq!(huffman::decompress(&compressed).expect("Decompression failed"), Vec::<u8>::new());
}

#[test]
fn huffman_malformed_inputs() {
    // Truncated header.
    assert!(huffman::decompress(&[]).is_err());
    assert!(huffman::decompress(&[0]).is_err());
    // One record announced, none present.
    assert!(huffman::decompress(&[0, 1]).is_err());
    // Missing bit-count field.
    assert!(huffman::decompress(&[0, 1, 0x41, 0, 0, 0, 1]).is_err());
    // Bit count exceeds the payload.
    assert!(huffman::decompress(&[0, 0, 0, 0, 0, 0, 0, 0, 0, 9]).is_err());
    // Empty model but non-zero bit count.
    assert!(huffman::decompress(&[0, 0, 0, 0, 0, 0, 0, 0, 0, 1, 0xFF]).is_err());
    // Payload ends in the middle of a code: lower the declared bit count
    // so the bits stop one step into a two-bit code.
    let compressed = huffman::compress(b"AABC");
    let mut truncated = compressed.clone();
    let k = 2 + 5 * 3;
    truncated[k..k + 8].copy_from_slice(&3u64.to_be_bytes());
    assert!(huffman::decompress(&truncated).is_err());
}

#[test]
fn count_freqs_orders_keys() {
    let counts = huffman::count_freqs(b"banana");
    assert_eq!(counts, vec![(b'a', 3), (b'b', 1), (b'n', 2)]);
}
