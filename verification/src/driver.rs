//! The driver: which codec runs on a chunk, and what a worker does with a
//! received message. Argument parsing and the message fabric live outside
//! the library; they hand these types plain values.

use vstd::prelude::*;
use crate::bits::{bytes_bits, pack_bits};
use crate::delta::{delta_bits, delta_parse};
use crate::huffman::{huff_encoding, huff_parse};

verus! {

/// The compression algorithm to use.
#[derive(Debug, Clone, PartialEq, Eq, Structural)]
pub enum Algorithm {
    Delta,
    Huffman,
}

impl Default for Algorithm {
    /// Huffman unless asked otherwise.
    fn default() -> (r: Self)
        ensures
            r == Algorithm::Huffman,
    {
        Algorithm::Huffman
    }
}

/// Options of the compress subcommand: the chunk size, or one chunk for
/// the whole input when absent.
#[derive(Debug, Clone)]
pub struct CompressArgs {
    pub size: Option<usize>,
}

/// What to do with the input stream.
#[derive(Debug, Clone)]
pub enum Action {
    Compress(CompressArgs),
    Decompress,
}

/// The run's whole configuration.
#[derive(Debug, Clone)]
pub struct Cli {
    pub algorithm: Algorithm,
    pub action: Action,
}

/// Why a chunk was rejected.
#[derive(Debug, Clone, PartialEq, Eq, Structural)]
pub enum CodecError {
    /// Delta cannot code a chunk with no first byte.
    EmptyChunk,
    /// Huffman counts cannot exceed their four-byte header field.
    ChunkTooLarge,
    /// The compressed bytes do not form a well-formed chunk.
    Malformed,
}

/// What processing a chunk must yield, for every configuration and input.
pub open spec fn chunk_spec(x: Seq<u8>, action: Action, algorithm: Algorithm) -> Result<
    Seq<u8>,
    CodecError,
> {
    match algorithm {
        Algorithm::Delta => match action {
            Action::Compress(_) => if x.len() >= 1 {
                Ok(pack_bits(delta_bits(x)))
            } else {
                Err(CodecError::EmptyChunk)
            },
            Action::Decompress => match delta_parse(bytes_bits(x)) {
                Some(v) => Ok(v),
                None => Err(CodecError::Malformed),
            },
        },
        Algorithm::Huffman => match action {
            Action::Compress(_) => if x.len() < 0x1_0000_0000 {
                Ok(huff_encoding(x))
            } else {
                Err(CodecError::ChunkTooLarge)
            },
            Action::Decompress => match huff_parse(x) {
                Some(v) => Ok(v),
                None => Err(CodecError::Malformed),
            },
        },
    }
}

/// Run the configured codec on one chunk.
pub fn process_chunk(input: &[u8], args: &Cli) -> (r: Result<Vec<u8>, CodecError>)
    ensures
        match r {
            Ok(v) => chunk_spec(input@, args.action, args.algorithm) == Ok::<
                Seq<u8>,
                CodecError,
            >(v@),
            Err(e) => chunk_spec(input@, args.action, args.algorithm) == Err::<
                Seq<u8>,
                CodecError,
            >(e),
        },
{
    match (&args.action, &args.algorithm) {
        (Action::Compress(_), Algorithm::Delta) => {
            if input.len() == 0 {
                Err(CodecError::EmptyChunk)
            } else {
                Ok(crate::delta::compress(input))
            }
        },
        (Action::Decompress, Algorithm::Delta) => {
            match crate::delta::try_decompress(input) {
                Some(v) => Ok(v),
                None => Err(CodecError::Malformed),
            }
        },
        (Action::Compress(_), Algorithm::Huffman) => {
            if input.len() as u64 >= 0x1_0000_0000u64 {
                Err(CodecError::ChunkTooLarge)
            } else {
                Ok(crate::huffman::compress(input))
            }
        },
        (Action::Decompress, Algorithm::Huffman) => {
            match crate::huffman::decompress(input) {
                Ok(v) => Ok(v),
                Err(_) => Err(CodecError::Malformed),
            }
        },
    }
}

/// One worker step: an empty message is the shutdown sentinel and yields
/// no reply, anything else is processed as a chunk.
pub fn worker_reply(msg: &[u8], args: &Cli) -> (r: Option<Result<Vec<u8>, CodecError>>)
    ensures
        match r {
            None => msg@.len() == 0,
            Some(res) => msg@.len() > 0 && (match res {
                Ok(v) => chunk_spec(msg@, args.action, args.algorithm) == Ok::<
                    Seq<u8>,
                    CodecError,
                >(v@),
                Err(e) => chunk_spec(msg@, args.action, args.algorithm) == Err::<
                    Seq<u8>,
                    CodecError,
                >(e),
            }),
        },
{
    if msg.len() == 0 {
        None
    } else {
        Some(process_chunk(msg, args))
    }
}

/// Empty chunks and Delta: of the two admissible resolutions, this
/// library rejects a zero-length chunk rather than defining a compressed
/// form for it, and every chunk it does accept round-trips.
pub proof fn lemma_delta_empty_chunk_rejected(args: CompressArgs)
    ensures
        chunk_spec(Seq::<u8>::empty(), Action::Compress(args), Algorithm::Delta) == Err::<
            Seq<u8>,
            CodecError,
        >(CodecError::EmptyChunk),
        forall|x: Seq<u8>|
            x.len() >= 1 ==> #[trigger] delta_parse(bytes_bits(pack_bits(delta_bits(x))))
                == Some(x),
{
    assert forall|x: Seq<u8>|
        x.len() >= 1 implies #[trigger] delta_parse(bytes_bits(pack_bits(delta_bits(x))))
        == Some(x) by {
        crate::delta::lemma_delta_round_trip(x);
    }
}

/// Independence, Delta: compressing chunks independently and concatenating
/// their decompressions restores the concatenation of the chunks.
pub proof fn lemma_delta_independence(chunks: Seq<Seq<u8>>)
    requires
        forall|i: int| 0 <= i < chunks.len() ==> (#[trigger] chunks[i]).len() >= 1,
    ensures
        Seq::new(
            chunks.len(),
            |i: int| delta_parse(bytes_bits(pack_bits(delta_bits(chunks[i]))))->Some_0,
        ).flatten() == chunks.flatten(),
{
    let rt = Seq::new(
        chunks.len(),
        |i: int| delta_parse(bytes_bits(pack_bits(delta_bits(chunks[i]))))->Some_0,
    );
    assert forall|i: int| 0 <= i < chunks.len() implies rt[i] == chunks[i] by {
        crate::delta::lemma_delta_round_trip(chunks[i]);
    }
    assert(rt =~= chunks);
}

/// Independence, Huffman: the same, for every partition into chunks small
/// enough for the count fields.
pub proof fn lemma_huffman_independence(chunks: Seq<Seq<u8>>)
    requires
        forall|i: int| 0 <= i < chunks.len() ==> (#[trigger] chunks[i]).len() < 0x1_0000_0000,
    ensures
        Seq::new(chunks.len(), |i: int| huff_parse(huff_encoding(chunks[i]))->Some_0).flatten()
            == chunks.flatten(),
{
    let rt = Seq::new(chunks.len(), |i: int| huff_parse(huff_encoding(chunks[i]))->Some_0);
    assert forall|i: int| 0 <= i < chunks.len() implies rt[i] == chunks[i] by {
        crate::huffman::lemma_huffman_round_trip(chunks[i]);
    }
    assert(rt =~= chunks);
}

} // verus!
