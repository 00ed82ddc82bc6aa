//! Stream framing: each chunk is written as an eight-byte big-endian
//! length followed by its payload, and a zero-length frame ends the
//! stream. Raw input is split into fixed-size windows instead.

use vstd::prelude::*;
use crate::endian::{be64, u64_bytes, push_u64, read_u64, lemma_be64_bytes};

verus! {

/// The framed bytes of chunks `j..`, terminator included.
pub open spec fn frames_from(chunks: Seq<Seq<u8>>, j: int) -> Seq<u8>
    decreases chunks.len() - j,
{
    if j < 0 || j >= chunks.len() {
        u64_bytes(0)
    } else {
        u64_bytes(chunks[j].len() as u64) + chunks[j] + frames_from(chunks, j + 1)
    }
}

/// The framed form of a chunk list.
pub open spec fn frame_bytes(chunks: Seq<Seq<u8>>) -> Seq<u8> {
    frames_from(chunks, 0)
}

/// The chunk list read back from framed bytes: `None` when the bytes end
/// before a length field is satisfied or before the terminator.
pub open spec fn parse_frames_spec(bytes: Seq<u8>) -> Option<Seq<Seq<u8>>>
    decreases bytes.len(),
{
    if bytes.len() < 8 {
        None
    } else {
        let l = be64(bytes.take(8));
        if l == 0 {
            Some(Seq::empty())
        } else if bytes.len() < 8 + l {
            None
        } else {
            match parse_frames_spec(bytes.skip(8 + l as int)) {
                None => None,
                Some(rest) => Some(seq![bytes.subrange(8, 8 + l as int)] + rest),
            }
        }
    }
}

/// Frame a chunk list with its terminator.
pub fn frame_chunks(chunks: &Vec<Vec<u8>>) -> (out: Vec<u8>)
    ensures
        out@ == frame_bytes(chunks.deep_view()),
{
    let ghost dv = chunks.deep_view();
    let mut out: Vec<u8> = Vec::new();
    let n = chunks.len();
    proof {
        assert(dv.len() == n);
    }
    let mut j: usize = 0;
    while j < n
        invariant
            j <= n,
            n == dv.len(),
            dv == chunks.deep_view(),
            n == chunks@.len(),
            out@ + frames_from(dv, j as int) == frame_bytes(dv),
        decreases n - j,
    {
        let ghost pre = out@;
        let chunk = &chunks[j];
        proof {
            assert(chunk@ =~= dv[j as int]);
        }
        push_u64(&mut out, chunk.len() as u64);
        let m = chunk.len();
        let mut i: usize = 0;
        while i < m
            invariant
                i <= m,
                m == chunk@.len(),
                out@ == pre + u64_bytes(chunk@.len() as u64) + chunk@.take(i as int),
            decreases m - i,
        {
            out.push(chunk[i]);
            proof {
                assert(chunk@.take(i + 1) =~= chunk@.take(i as int).push(chunk@[i as int]));
                assert(out@ =~= pre + u64_bytes(chunk@.len() as u64) + chunk@.take(i + 1));
            }
            i = i + 1;
        }
        proof {
            assert(chunk@.take(m as int) =~= chunk@);
            assert(frames_from(dv, j as int) == u64_bytes(dv[j as int].len() as u64)
                + dv[j as int] + frames_from(dv, j + 1));
            assert(out@ + frames_from(dv, j + 1) =~= pre + frames_from(dv, j as int));
        }
        j = j + 1;
    }
    push_u64(&mut out, 0);
    proof {
        assert(frames_from(dv, n as int) == u64_bytes(0));
        assert(out@ =~= frame_bytes(dv));
    }
    out
}

/// Prepend already-read chunks to the outcome on the remaining bytes.
pub open spec fn opt_prepend(pre: Seq<Seq<u8>>, o: Option<Seq<Seq<u8>>>) -> Option<Seq<Seq<u8>>> {
    match o {
        None => None,
        Some(r) => Some(pre + r),
    }
}

/// Read a framed stream back into its chunks; bytes after the terminator
/// are ignored. `None` when the stream ends before the terminator.
pub fn parse_frames(bytes: &[u8]) -> (r: Option<Vec<Vec<u8>>>)
    ensures
        match r {
            Some(v) => parse_frames_spec(bytes@) == Some(v.deep_view()),
            None => parse_frames_spec(bytes@) is None,
        },
{
    let len = bytes.len();
    let mut out: Vec<Vec<u8>> = Vec::new();
    let mut off: usize = 0;
    proof {
        assert(bytes@.skip(0) =~= bytes@);
        assert(out.deep_view() =~= Seq::<Seq<u8>>::empty());
    }
    loop
        invariant
            off <= len,
            len == bytes@.len(),
            parse_frames_spec(bytes@) == opt_prepend(
                out.deep_view(),
                parse_frames_spec(bytes@.skip(off as int)),
            ),
        decreases len - off,
    {
        let ghost rem = bytes@.skip(off as int);
        if len - off < 8 {
            return None;
        }
        let l = read_u64(bytes, off);
        proof {
            assert(rem.take(8) =~= bytes@.subrange(off as int, off + 8));
        }
        if l == 0 {
            proof {
                assert(out.deep_view() + Seq::<Seq<u8>>::empty() =~= out.deep_view());
            }
            return Some(out);
        }
        let rest64 = (len - off - 8) as u64;
        if l > rest64 {
            proof {
                assert(rem.len() < 8 + l);
            }
            return None;
        }
        let lu = l as usize;
        let mut chunk: Vec<u8> = Vec::new();
        let mut i: usize = 0;
        while i < lu
            invariant
                i <= lu,
                off + 8 + lu <= len,
                len == bytes@.len(),
                chunk@ == bytes@.subrange(off + 8, off + 8 + i as int),
            decreases lu - i,
        {
            chunk.push(bytes[off + 8 + i]);
            proof {
                assert(bytes@.subrange(off + 8, off + 8 + (i + 1)) =~= bytes@.subrange(
                    off + 8,
                    off + 8 + i as int,
                ).push(bytes@[off + 8 + i]));
            }
            i = i + 1;
        }
        let ghost pre = out.deep_view();
        out.push(chunk);
        proof {
            assert(out.deep_view() =~~= pre.push(bytes@.subrange(off + 8, off + 8 + lu as int)));
            assert(rem.subrange(8, 8 + l as int) =~= bytes@.subrange(off + 8, off + 8 + lu as int));
            assert(rem.skip(8 + l as int) =~= bytes@.skip(off + 8 + lu as int));
            assert forall|o: Option<Seq<Seq<u8>>>|
                opt_prepend(pre, opt_prepend(seq![rem.subrange(8, 8 + l as int)], o))
                    == opt_prepend(out.deep_view(), o) by {
                match o {
                    None => {},
                    Some(rr) => {
                        assert(pre + (seq![rem.subrange(8, 8 + l as int)] + rr)
                            =~= out.deep_view() + rr);
                    },
                }
            }
        }
        off = off + 8 + lu;
    }
}

/// Split raw input into windows of `size` bytes; the last may be shorter.
pub open spec fn chunks_of(s: Seq<u8>, size: nat) -> Seq<Seq<u8>>
    recommends
        size >= 1,
    decreases s.len(),
{
    if s.len() == 0 {
        Seq::empty()
    } else if s.len() <= size || size == 0 {
        seq![s]
    } else {
        seq![s.take(size as int)] + chunks_of(s.skip(size as int), size)
    }
}

/// Split a buffer into fixed-size windows.
pub fn split_chunks(input: &[u8], size: usize) -> (r: Vec<Vec<u8>>)
    requires
        size >= 1,
    ensures
        r.deep_view() == chunks_of(input@, size as nat),
{
    let mut out: Vec<Vec<u8>> = Vec::new();
    let len = input.len();
    let mut off: usize = 0;
    proof {
        assert(input@.skip(0) =~= input@);
        assert(out.deep_view() + Seq::<Seq<u8>>::empty() =~= out.deep_view());
    }
    while off < len
        invariant
            off <= len,
            len == input@.len(),
            size >= 1,
            out.deep_view() + chunks_of(input@.skip(off as int), size as nat) == chunks_of(
                input@,
                size as nat,
            ),
        decreases len - off,
    {
        let ghost rem = input@.skip(off as int);
        let step = if len - off < size {
            len - off
        } else {
            size
        };
        let mut chunk: Vec<u8> = Vec::new();
        let mut i: usize = 0;
        while i < step
            invariant
                i <= step,
                off + step <= len,
                len == input@.len(),
                chunk@ == input@.subrange(off as int, off + i as int),
            decreases step - i,
        {
            chunk.push(input[off + i]);
            proof {
                assert(input@.subrange(off as int, off + (i + 1)) =~= input@.subrange(
                    off as int,
                    off + i as int,
                ).push(input@[off + i]));
            }
            i = i + 1;
        }
        let ghost pre = out.deep_view();
        out.push(chunk);
        proof {
            if rem.len() <= size {
                assert(chunk@ == rem) by {
                    assert(input@.subrange(off as int, off + step as int) =~= rem);
                }
                assert(chunks_of(rem, size as nat) == seq![rem]);
                assert(out.deep_view() =~~= pre.push(rem));
                assert(input@.skip(off + step) =~= Seq::<u8>::empty());
                assert(chunks_of(input@.skip(off + step), size as nat)
                    == Seq::<Seq<u8>>::empty());
                assert(out.deep_view() + chunks_of(input@.skip(off + step), size as nat)
                    =~= pre + chunks_of(rem, size as nat));
            } else {
                assert(chunk@ == rem.take(size as int)) by {
                    assert(input@.subrange(off as int, off + step as int) =~= rem.take(
                        size as int,
                    ));
                }
                assert(chunks_of(rem, size as nat) == seq![rem.take(size as int)] + chunks_of(
                    rem.skip(size as int),
                    size as nat,
                ));
                assert(out.deep_view() =~~= pre.push(rem.take(size as int)));
                assert(rem.skip(size as int) =~= input@.skip(off + step));
                assert(out.deep_view() + chunks_of(input@.skip(off + step), size as nat)
                    =~= pre + chunks_of(rem, size as nat));
            }
        }
        off = off + step;
    }
    proof {
        assert(input@.skip(len as int).len() == 0);
        assert(chunks_of(input@.skip(len as int), size as nat) == Seq::<Seq<u8>>::empty());
        assert(out.deep_view() + Seq::<Seq<u8>>::empty() =~= out.deep_view());
    }
    out
}

/// Splitting loses no bytes: the windows concatenate back to the input.
pub proof fn lemma_chunks_of_flatten(s: Seq<u8>, size: nat)
    requires
        size >= 1,
    ensures
        chunks_of(s, size).flatten() == s,
    decreases s.len(),
{
    if s.len() == 0 {
        assert(chunks_of(s, size).flatten() =~= s);
    } else if s.len() <= size {
        assert(chunks_of(s, size) == seq![s]);
        assert(seq![s].flatten() == seq![s].first() + seq![s].drop_first().flatten());
        assert(seq![s].drop_first() =~= Seq::<Seq<u8>>::empty());
        assert(seq![s].flatten() =~= s);
    } else {
        lemma_chunks_of_flatten(s.skip(size as int), size);
        let cs = chunks_of(s, size);
        assert(cs == seq![s.take(size as int)] + chunks_of(s.skip(size as int), size));
        assert(cs.len() >= 1);
        assert(cs.first() == s.take(size as int));
        assert(cs.drop_first() =~= chunks_of(s.skip(size as int), size));
        assert(cs.flatten() == cs.first() + cs.drop_first().flatten());
        assert(s.take(size as int) + s.skip(size as int) =~= s);
    }
}

/// Framing round trip: a framed chunk list reads back as itself, and the
/// zero-length terminator can never be one of its frames.
pub proof fn lemma_framing_round_trip(chunks: Seq<Seq<u8>>)
    requires
        forall|i: int|
            0 <= i < chunks.len() ==> 1 <= (#[trigger] chunks[i]).len()
                < 0x1_0000_0000_0000_0000,
    ensures
        parse_frames_spec(frame_bytes(chunks)) == Some(chunks),
{
    lemma_frames_from_rt(chunks, 0);
    assert(chunks.skip(0) =~= chunks);
}

proof fn lemma_frames_from_rt(chunks: Seq<Seq<u8>>, j: int)
    requires
        0 <= j <= chunks.len(),
        forall|i: int|
            0 <= i < chunks.len() ==> 1 <= (#[trigger] chunks[i]).len()
                < 0x1_0000_0000_0000_0000,
    ensures
        parse_frames_spec(frames_from(chunks, j)) == Some(chunks.skip(j)),
    decreases chunks.len() - j,
{
    let bytes = frames_from(chunks, j);
    if j == chunks.len() {
        lemma_be64_bytes(0);
        assert(bytes.take(8) =~= u64_bytes(0));
        assert(chunks.skip(j) =~= Seq::<Seq<u8>>::empty());
    } else {
        lemma_frames_from_rt(chunks, j + 1);
        let l = chunks[j].len() as u64;
        lemma_be64_bytes(l);
        assert(bytes.take(8) =~= u64_bytes(l));
        assert(be64(bytes.take(8)) == l);
        assert(l >= 1);
        assert(bytes.subrange(8, 8 + l as int) =~= chunks[j]);
        assert(bytes.skip(8 + l as int) =~= frames_from(chunks, j + 1));
        assert(seq![chunks[j]] + chunks.skip(j + 1) =~= chunks.skip(j));
    }
}

} // verus!
