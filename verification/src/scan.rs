//! The scan operation: the driving loop that repeatedly peeks a region from
//! the source, runs the matcher over it, appends the scanned bytes to the
//! output buffer, and consumes them from the source, until a match completes
//! or the source reaches end of stream.
use vstd::prelude::*;

use crate::matcher::find_match;
use crate::matcher::lemma_find_match_append;
use crate::matcher::lemma_find_match_bounds;
use crate::matcher::lemma_state_after_append;
use crate::matcher::lemma_state_after_bound;
use crate::matcher::memchr;
use crate::matcher::scan_len;
use crate::matcher::state_after;
use crate::source::ChunkedSource;

verus! {

/// Appends the first `n` bytes of `bytes` to `buf`; the bytes already in `buf`
/// stay untouched as a prefix.
fn append_prefix(buf: &mut Vec<u8>, bytes: &[u8], n: usize)
    requires
        n <= bytes@.len(),
    ensures
        final(buf)@ == old(buf)@ + bytes@.take(n as int),
{
    proof {
        assert(old(buf)@ + bytes@.take(0) =~= old(buf)@);
    }
    let mut j: usize = 0;
    while j < n
        invariant
            j <= n <= bytes@.len(),
            buf@ == old(buf)@ + bytes@.take(j as int),
        decreases n - j,
    {
        let b = bytes[j];
        buf.push(b);
        proof {
            assert(bytes@.take(j + 1) =~= bytes@.take(j as int).push(bytes@[j as int]));
            assert(buf@ =~= old(buf)@ + bytes@.take(j + 1));
        }
        j += 1;
    }
}

/// One turn of the driving loop, given the peeked region: runs the matcher
/// over `available` threading the partial-match counter, and appends to `buf`
/// the bytes the scan consumes from the region. Returns whether a match
/// completed, and how many bytes of the region were consumed: everything up to
/// and including the delimiter's last byte on a match, the whole region
/// otherwise. The caller consumes that many bytes from its source.
pub fn scan_step(delimiter: &[u8], available: &[u8], buf: &mut Vec<u8>, match_len: &mut usize) -> (r:
    (bool, usize))
    requires
        delimiter@.len() >= 1,
        *old(match_len) < delimiter@.len(),
    ensures
        r.1 <= available@.len(),
        final(buf)@ == old(buf)@ + available@.take(r.1 as int),
        (r.0 <==> find_match(delimiter@, available@, *old(match_len) as int) is Some),
        r.0 ==> find_match(delimiter@, available@, *old(match_len) as int) == Some(r.1 as int)
            && 1 <= r.1 && *final(match_len) == delimiter@.len(),
        !r.0 ==> r.1 == available@.len() && *final(match_len) as int == state_after(
            delimiter@,
            available@,
            *old(match_len) as int,
        ) && *final(match_len) < delimiter@.len(),
{
    match memchr(delimiter, available, match_len) {
        Some(i) => {
            append_prefix(buf, available, i);
            (true, i)
        },
        None => {
            let n = available.len();
            append_prefix(buf, available, n);
            proof {
                assert(available@.take(n as int) =~= available@);
            }
            (false, n)
        },
    }
}

/// Reads bytes from the source into `buf` until the first complete delimiter
/// match or end of stream, and returns how many bytes were read. The bytes
/// already in `buf` stay untouched as a prefix; the appended bytes are exactly
/// the stream bytes up to and including the delimiter when a match completes,
/// or the whole stream when the source runs out first; everything after the
/// consumed bytes stays unconsumed in the source for a later call.
///
/// The result does not depend on how the stream is split into regions: the
/// count, the buffer, and the bytes left unconsumed are functions of the
/// delimiter and of the remaining stream alone.
pub fn scan(src: &mut ChunkedSource, delimiter: &[u8], buf: &mut Vec<u8>) -> (n: usize)
    requires
        delimiter@.len() >= 1,
        old(src).wf(),
        old(buf)@.len() + old(src).remaining().len() <= usize::MAX,
    ensures
        final(src).wf(),
        n <= old(src).remaining().len(),
        n as int == scan_len(delimiter@, old(src).remaining()),
        final(buf)@ == old(buf)@ + old(src).remaining().take(n as int),
        final(src).remaining() == old(src).remaining().skip(n as int),
{
    let ghost stream = old(src).remaining();
    let mut read: usize = 0;
    let mut match_len: usize = 0;
    proof {
        assert(stream.take(0) =~= Seq::<u8>::empty());
        assert(old(buf)@ + stream.take(0) =~= old(buf)@);
    }
    loop
        invariant
            src.wf(),
            delimiter@.len() >= 1,
            stream == old(src).remaining(),
            old(buf)@.len() + stream.len() <= usize::MAX,
            read <= stream.len(),
            buf@ == old(buf)@ + stream.take(read as int),
            src.remaining() == stream.skip(read as int),
            match_len < delimiter@.len(),
            match_len as int == state_after(delimiter@, stream.take(read as int), 0),
            find_match(delimiter@, stream.take(read as int), 0) is None,
        decreases stream.len() - read,
    {
        if src.exhausted() {
            proof {
                assert(stream.skip(read as int).len() == 0);
                assert(stream.take(read as int) =~= stream);
            }
            return read;
        }
        let region = src.peek();
        let ghost read0 = read as int;
        let ghost ml0 = match_len as int;
        let ghost rest = stream.skip(read0).skip(region@.len() as int);
        proof {
            assert(region@ =~= stream.skip(read0).take(region@.len() as int));
            assert(stream.skip(read0) =~= region@ + rest);
            assert(stream =~= stream.take(read0) + stream.skip(read0));
            lemma_find_match_append(delimiter@, stream.take(read0), stream.skip(read0), 0);
            lemma_state_after_append(delimiter@, stream.take(read0), stream.skip(read0), 0);
            lemma_find_match_append(delimiter@, region@, rest, ml0);
            lemma_state_after_append(delimiter@, region@, rest, ml0);
        }
        let (done, used) = scan_step(delimiter, region, buf, &mut match_len);
        src.consume(used);
        proof {
            assert(read0 + used <= stream.len());
            assert(stream.take(read0 + used) =~= stream.take(read0) + stream.skip(read0).take(
                used as int,
            ));
            assert(region@.take(used as int) =~= stream.skip(read0).take(used as int));
            assert(stream.skip(read0).skip(used as int) =~= stream.skip(read0 + used));
        }
        read = read + used;
        if done {
            proof {
                lemma_find_match_append(delimiter@, stream.take(read0), stream.skip(read0), 0);
                assert(find_match(delimiter@, stream.skip(read0), ml0) == Some(used as int));
                assert(find_match(delimiter@, stream, 0) == Some(read0 + used));
            }
            return read;
        }
        proof {
            lemma_find_match_append(delimiter@, stream.take(read0), region@, 0);
            lemma_state_after_append(delimiter@, stream.take(read0), region@, 0);
            assert(stream.take(read as int) =~= stream.take(read0) + region@);
        }
    }
}

/// How many bytes the driving loop consumes when the stream arrives split into
/// the given regions, fed one at a time with the partial-match counter carried
/// across region boundaries from `s`.
pub open spec fn chunked_scan_len(delim: Seq<u8>, chunks: Seq<Seq<u8>>, s: int) -> int
    decreases chunks.len(),
{
    if chunks.len() == 0 {
        0
    } else {
        match find_match(delim, chunks[0], s) {
            Some(i) => i,
            None => chunks[0].len() + chunked_scan_len(
                delim,
                chunks.drop_first(),
                state_after(delim, chunks[0], s),
            ),
        }
    }
}

/// The bytes the driving loop appends to the output buffer when the stream
/// arrives split into the given regions, fed one at a time with the
/// partial-match counter carried across region boundaries from `s`.
pub open spec fn chunked_scan_out(delim: Seq<u8>, chunks: Seq<Seq<u8>>, s: int) -> Seq<u8>
    decreases chunks.len(),
{
    if chunks.len() == 0 {
        Seq::empty()
    } else {
        match find_match(delim, chunks[0], s) {
            Some(i) => chunks[0].take(i),
            None => chunks[0] + chunked_scan_out(
                delim,
                chunks.drop_first(),
                state_after(delim, chunks[0], s),
            ),
        }
    }
}

proof fn lemma_chunked_scan_from(delim: Seq<u8>, chunks: Seq<Seq<u8>>, s: int)
    requires
        delim.len() >= 1,
        0 <= s < delim.len(),
    ensures
        chunked_scan_len(delim, chunks, s) == (match find_match(delim, chunks.flatten(), s) {
            Some(i) => i,
            None => chunks.flatten().len() as int,
        }),
        chunked_scan_out(delim, chunks, s) == chunks.flatten().take(
            chunked_scan_len(delim, chunks, s),
        ),
    decreases chunks.len(),
{
    if chunks.len() == 0 {
        assert(chunks.flatten() =~= Seq::<u8>::empty());
        assert(chunks.flatten().take(0) =~= Seq::<u8>::empty());
    } else {
        let c0 = chunks[0];
        let rest = chunks.drop_first();
        assert(chunks.flatten() == c0 + rest.flatten());
        lemma_find_match_append(delim, c0, rest.flatten(), s);
        match find_match(delim, c0, s) {
            Some(i) => {
                lemma_find_match_bounds(delim, c0, s);
                assert(c0.take(i) =~= (c0 + rest.flatten()).take(i));
            },
            None => {
                lemma_state_after_bound(delim, c0, s);
                lemma_state_after_append(delim, c0, rest.flatten(), s);
                let s2 = state_after(delim, c0, s);
                lemma_chunked_scan_from(delim, rest, s2);
                let k = chunked_scan_len(delim, rest, s2);
                assert(0 <= k <= rest.flatten().len()) by {
                    if find_match(delim, rest.flatten(), s2) is Some {
                        lemma_find_match_bounds(delim, rest.flatten(), s2);
                    }
                }
                assert(c0 + rest.flatten().take(k) =~= (c0 + rest.flatten()).take(
                    c0.len() + k,
                ));
            },
        }
    }
}

/// Chunk-boundary invariance: however a byte stream is split into regions fed
/// one at a time to the driving loop, the bytes-read count and the bytes
/// appended to the output buffer equal those of scanning the whole stream as a
/// single region.
pub proof fn lemma_chunk_boundary_invariance(delim: Seq<u8>, chunks: Seq<Seq<u8>>)
    requires
        delim.len() >= 1,
    ensures
        chunked_scan_len(delim, chunks, 0) == scan_len(delim, chunks.flatten()),
        chunked_scan_out(delim, chunks, 0) == chunks.flatten().take(
            scan_len(delim, chunks.flatten()),
        ),
{
    lemma_chunked_scan_from(delim, chunks, 0);
}

} // verus!
