//! Size-capped capture of streamed output.
//!
//! A child process's stdout and stderr arrive in chunks.  Each stream is
//! captured into a buffer that stops growing at a byte cap, and the
//! interleaved aggregate is captured the same way.  What is captured is
//! always a prefix of what arrived, and nothing is dropped without the
//! truncation flag being raised.

use vstd::prelude::*;

verus! {

/// One capture step: append as much of `chunk` as still fits under `max`,
/// raising the truncation flag when anything is dropped or the buffer was
/// already full.
pub open spec fn capture_step(
    buf: Seq<u8>,
    truncated: bool,
    chunk: Seq<u8>,
    max: int,
) -> (Seq<u8>, bool) {
    if buf.len() < max {
        let room = max - buf.len();
        let take = if room < chunk.len() { room } else { chunk.len() as int };
        (buf + chunk.subrange(0, take), truncated || take < chunk.len())
    } else {
        (buf, true)
    }
}

/// The capture of a whole chunk sequence, folded left to right from an
/// empty buffer.
pub open spec fn capture_fold(chunks: Seq<Seq<u8>>, max: int) -> (Seq<u8>, bool)
    decreases chunks.len(),
{
    if chunks.len() == 0 {
        (Seq::empty(), false)
    } else {
        let prev = capture_fold(chunks.drop_last(), max);
        capture_step(prev.0, prev.1, chunks.last(), max)
    }
}

/// The concatenation of all chunks: every byte the stream carried.
pub open spec fn concat_chunks(chunks: Seq<Seq<u8>>) -> Seq<u8>
    decreases chunks.len(),
{
    if chunks.len() == 0 {
        Seq::empty()
    } else {
        concat_chunks(chunks.drop_last()) + chunks.last()
    }
}

/// Appends as much of `chunk` to `buf` as still fits under `max_bytes`.
/// Returns the new truncation flag; the buffer's contents follow
/// [`capture_step`] exactly.
pub fn capture_chunk(buf: &mut Vec<u8>, truncated: bool, chunk: &[u8], max_bytes: usize)
    -> (t: bool)
    ensures
        (final(buf)@, t) == capture_step(old(buf)@, truncated, chunk@, max_bytes as int),
{
    if buf.len() < max_bytes {
        let room = max_bytes - buf.len();
        let take = if room < chunk.len() { room } else { chunk.len() };
        let part = slice_prefix(chunk, take);
        buf.extend_from_slice(part);
        proof {
            assert(buf@ =~= old(buf)@ + chunk@.subrange(0, take as int));
        }
        truncated || take < chunk.len()
    } else {
        true
    }
}

/// The first `take` bytes of a slice.
fn slice_prefix<'a>(chunk: &'a [u8], take: usize) -> (r: &'a [u8])
    requires
        take <= chunk@.len(),
    ensures
        r@ == chunk@.subrange(0, take as int),
{
    let (head, _) = chunk.split_at(take);
    head
}

/// The captured bytes are a prefix of the bytes the stream carried; when
/// the truncation flag stays down the capture holds every byte, and a
/// raised flag means the buffer stands exactly at the cap.
pub proof fn lemma_capture_is_prefix(chunks: Seq<Seq<u8>>, max: int)
    requires
        max >= 0,
    ensures
        ({
            let (cap, tr) = capture_fold(chunks, max);
            &&& cap.len() <= max
            &&& cap.len() <= concat_chunks(chunks).len()
            &&& cap == concat_chunks(chunks).subrange(0, cap.len() as int)
            &&& !tr ==> cap == concat_chunks(chunks)
            &&& tr ==> cap.len() == max
        }),
    decreases chunks.len(),
{
    if chunks.len() == 0 {
        let (cap, tr) = capture_fold(chunks, max);
        assert(cap =~= concat_chunks(chunks).subrange(0, cap.len() as int));
    } else {
        lemma_capture_is_prefix(chunks.drop_last(), max);
        let (cap0, tr0) = capture_fold(chunks.drop_last(), max);
        let flat0 = concat_chunks(chunks.drop_last());
        let (cap, tr) = capture_fold(chunks, max);
        let flat = concat_chunks(chunks);
        let last = chunks.last();
        if cap0.len() < max {
            // The previous capture held everything; this step may clip.
            assert(!tr0);
            assert(cap0 == flat0);
            let room = max - cap0.len();
            let take = if room < last.len() { room } else { last.len() as int };
            assert(cap == cap0 + last.subrange(0, take));
            assert(cap =~= flat.subrange(0, cap.len() as int));
            if !tr {
                assert(take == last.len());
                assert(last.subrange(0, take) =~= last);
                assert(cap =~= flat);
            }
        } else {
            assert(cap == cap0 && tr);
            assert(flat.subrange(0, cap.len() as int)
                =~= flat0.subrange(0, cap.len() as int));
        }
    }
}

} // verus!
