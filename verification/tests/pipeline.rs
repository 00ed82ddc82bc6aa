use parcomp::dispatch;
use parcomp::driver::{process_chunk, worker_reply, Action, Algorithm, Cli, CodecError, CompressArgs};
use parcomp::framing;

fn delta_compress_cfg() -> Cli {
    Cli { algorithm: Algorithm::Delta, action: Action::Compress(CompressArgs { size: None }) }
}

fn cfg(algorithm: Algorithm, compress: bool) -> Cli {
    Cli {
        algorithm,
        action: if compress {
            Action::Compress(CompressArgs { size: Some(32) })
        } else {
            Action::Decompress
        },
    }
}

#[test]
fn framing_round_trip_scenario() {
    let chunks: Vec<Vec<u8>> = vec![vec![1, 2, 3], vec![4], vec![5, 6]];
    let framed = framing::frame_chunks(&chunks);
    assert_eq!(framed.len(), 8 * 4 + 6);
    let parsed = framing::parse_frames(&framed).expect("framed stream must parse");
    assert_eq!(parsed, chunks);
}

#[test]
fn framing_terminator_ends_stream() {
    // Bytes after the zero-length terminator are not part of the stream.
    let chunks: Vec<Vec<u8>> = vec![vec![9, 9]];
    let mut framed = framing::frame_chunks(&chunks);
    framed.extend_from_slice(&[1, 2, 3, 4, 5, 6, 7, 8]);
    let parsed = framing::parse_frames(&framed).expect("framed stream must parse");
    assert_eq!(parsed, chunks);
    // An empty list is just the terminator.
    let empty = framing::frame_chunks(&Vec::new());
    assert_eq!(empty, vec![0u8; 8]);
    assert_eq!(framing::parse_frames(&empty), Some(Vec::new()));
    // A stream that ends before its terminator is rejected.
    assert_eq!(framing::parse_frames(&framed[..framed.len() - 9]), None);
    assert_eq!(framing::parse_frames(&[0, 0, 0]), None);
}

#[test]
fn split_chunks_windows() {
    let data: Vec<u8> = (1..=10).collect();
    let chunks = framing::split_chunks(&data, 4);
    assert_eq!(chunks, vec![vec![1, 2, 3, 4], vec![5, 6, 7, 8], vec![9, 10]]);
    let exact = framing::split_chunks(&data, 5);
    assert_eq!(exact, vec![vec![1, 2, 3, 4, 5], vec![6, 7, 8, 9, 10]]);
    assert_eq!(framing::split_chunks(&[], 4), Vec::<Vec<u8>>::new());
    assert_eq!(framing::split_chunks(&[7], 4), vec![vec![7]]);
}

#[test]
fn dispatcher_reassembly() {
    // N = 3 ranks: two workers. Chunks deal round-robin and drain back in
    // input order.
    let chunks: Vec<Vec<u8>> = vec![vec![0], vec![1], vec![2], vec![3], vec![4]];
    let slots = dispatch::distribute(&chunks, 2);
    assert_eq!(slots[0], vec![vec![0], vec![2], vec![4]]);
    assert_eq!(slots[1], vec![vec![1], vec![3]]);
    let out = dispatch::reorder(&slots);
    assert_eq!(out, chunks);
    assert_eq!(dispatch::rank_for_chunk(0, 3), 1);
    assert_eq!(dispatch::rank_for_chunk(1, 3), 2);
    assert_eq!(dispatch::rank_for_chunk(2, 3), 1);
    assert_eq!(dispatch::rank_for_chunk(4, 3), 1);
}

#[test]
fn dispatcher_balanced_counts() {
    let chunks: Vec<Vec<u8>> = (0u8..7).map(|i| vec![i]).collect();
    for workers in 1..=4usize {
        let slots = dispatch::distribute(&chunks, workers);
        assert_eq!(slots.len(), workers);
        assert_eq!(dispatch::reorder(&slots), chunks);
    }
}

#[test]
fn process_chunk_round_trips() {
    let data: Vec<u8> = (0u8..=255).chain(0u8..=255).collect();
    for algorithm in [Algorithm::Delta, Algorithm::Huffman] {
        let compressed = process_chunk(&data, &cfg(algorithm.clone(), true))
            .expect("compression cannot fail on this input");
        let decompressed = process_chunk(&compressed, &cfg(algorithm, false))
            .expect("round trip must decompress");
        assert_eq!(decompressed, data);
    }
}

#[test]
fn process_chunk_rejects_empty_delta_chunk() {
    assert_eq!(process_chunk(&[], &delta_compress_cfg()), Err(CodecError::EmptyChunk));
    // Huffman handles an empty chunk.
    let ok = process_chunk(&[], &cfg(Algorithm::Huffman, true)).expect("empty chunk compresses");
    assert_eq!(ok, vec![0u8; 10]);
}

#[test]
fn process_chunk_reports_malformed_input() {
    assert_eq!(
        process_chunk(&[0x41], &cfg(Algorithm::Delta, false)),
        Err(CodecError::Malformed)
    );
    assert_eq!(
        process_chunk(&[0, 7], &cfg(Algorithm::Huffman, false)),
        Err(CodecError::Malformed)
    );
}

#[test]
fn worker_stops_on_sentinel() {
    let config = cfg(Algorithm::Delta, true);
    assert!(worker_reply(&[], &config).is_none());
    let reply = worker_reply(&[1, 2, 3], &config).expect("non-empty message is work");
    assert_eq!(reply.expect("chunk compresses"), parcomp::delta::compress(&[1, 2, 3]));
}

#[test]
fn whole_pipeline_identity() {
    // Dispatcher compress path: split, deal, compress per chunk, drain,
    // frame; then the decompress path undoes it all.
    let data = (0u8..=200).cycle().take(997).collect::<Vec<u8>>();
    let chunks = framing::split_chunks(&data, 64);
    let compress_cfg = cfg(Algorithm::Huffman, true);
    let slots = dispatch::distribute(&chunks, 3);
    let worked: Vec<Vec<Vec<u8>>> = slots
        .iter()
        .map(|s| {
            s.iter()
                .map(|c| process_chunk(c, &compress_cfg).expect("chunk compresses"))
                .collect()
        })
        .collect();
    let ordered = dispatch::reorder(&worked);
    let framed = framing::frame_chunks(&ordered);

    let read_back = framing::parse_frames(&framed).expect("framed stream must parse");
    let decompress_cfg = cfg(Algorithm::Huffman, false);
    let restored: Vec<u8> = read_back
        .iter()
        .flat_map(|c| process_chunk(c, &decompress_cfg).expect("chunk decompresses"))
        .collect();
    assert_eq!(restored, data);
}
