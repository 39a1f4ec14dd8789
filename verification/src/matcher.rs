//! The delimiter matcher: a stateless-per-call scan of a byte region against a
//! delimiter pattern, threading an externally held partial-match counter.
use vstd::prelude::*;

verus! {

/// One step of the matching rule: given the partial-match counter `s` and the
/// next stream byte `b`, the counter after examining `b`.
///
/// If `b` equals the delimiter byte at position `s`, the run extends by one.
/// Otherwise the counter resets to zero and the same byte is re-examined
/// against the delimiter's start (no failure-function lookback: the only
/// restart position is zero).
pub open spec fn step_state(delim: Seq<u8>, s: int, b: u8) -> int {
    if 0 <= s < delim.len() && b == delim[s] {
        s + 1
    } else if delim.len() > 0 && b == delim[0] {
        1
    } else {
        0
    }
}

/// The offset one past the end of the first complete delimiter match inside
/// `hay`, scanning with the matching rule from counter `s`, or `None` if no
/// match completes within `hay`.
pub open spec fn find_match(delim: Seq<u8>, hay: Seq<u8>, s: int) -> Option<int>
    decreases hay.len(),
{
    if hay.len() == 0 {
        None
    } else {
        let s2 = step_state(delim, s, hay[0]);
        if s2 == delim.len() && delim.len() > 0 {
            Some(1)
        } else {
            match find_match(delim, hay.drop_first(), s2) {
                Some(i) => Some(1 + i),
                None => None,
            }
        }
    }
}

/// The partial-match counter after examining every byte of `hay`, scanning
/// with the matching rule from counter `s`.
pub open spec fn state_after(delim: Seq<u8>, hay: Seq<u8>, s: int) -> int
    decreases hay.len(),
{
    if hay.len() == 0 {
        s
    } else {
        state_after(delim, hay.drop_first(), step_state(delim, s, hay[0]))
    }
}

/// How many bytes one whole scan consumes from `stream`: up to and including
/// the first complete delimiter match, or the entire stream if no match
/// completes before end of stream.
pub open spec fn scan_len(delim: Seq<u8>, stream: Seq<u8>) -> int {
    match find_match(delim, stream, 0) {
        Some(i) => i,
        None => stream.len() as int,
    }
}

/// A complete match ends at an offset within the region, and at least one byte
/// past its start.
pub proof fn lemma_find_match_bounds(delim: Seq<u8>, hay: Seq<u8>, s: int)
    ensures
        find_match(delim, hay, s) matches Some(i) ==> 1 <= i <= hay.len(),
    decreases hay.len(),
{
    if hay.len() > 0 {
        lemma_find_match_bounds(delim, hay.drop_first(), step_state(delim, s, hay[0]));
    }
}

/// Examining one more byte after a region advances the counter by one step of
/// the matching rule, and completes a match exactly when that step reaches the
/// delimiter's full length.
proof fn lemma_scan_push(delim: Seq<u8>, t: Seq<u8>, s: int, b: u8)
    ensures
        state_after(delim, t.push(b), s) == step_state(delim, state_after(delim, t, s), b),
        find_match(delim, t, s) is Some ==> find_match(delim, t.push(b), s) == find_match(
            delim,
            t,
            s,
        ),
        find_match(delim, t, s) is None && step_state(delim, state_after(delim, t, s), b)
            == delim.len() && delim.len() > 0 ==> find_match(delim, t.push(b), s) == Some(
            t.len() as int + 1,
        ),
        find_match(delim, t, s) is None && !(step_state(delim, state_after(delim, t, s), b)
            == delim.len() && delim.len() > 0) ==> find_match(delim, t.push(b), s) is None,
    decreases t.len(),
{
    if t.len() == 0 {
        assert(t.push(b)[0] == b);
        assert(t.push(b).drop_first() =~= Seq::<u8>::empty());
        assert(state_after(delim, t.push(b), s) == state_after(
            delim,
            Seq::<u8>::empty(),
            step_state(delim, s, b),
        ));
        assert(find_match(delim, Seq::<u8>::empty(), step_state(delim, s, b)) is None);
    } else {
        assert(t.push(b)[0] == t[0]);
        assert(t.push(b).drop_first() =~= t.drop_first().push(b));
        lemma_scan_push(delim, t.drop_first(), step_state(delim, s, t[0]), b);
        assert(state_after(delim, t.push(b), s) == state_after(
            delim,
            t.drop_first().push(b),
            step_state(delim, s, t[0]),
        ));
        assert(state_after(delim, t, s) == state_after(
            delim,
            t.drop_first(),
            step_state(delim, s, t[0]),
        ));
    }
}

/// Chunk-boundary invariance of the counter: scanning `a` and then `b` with the
/// counter threaded across the boundary leaves the same counter as scanning the
/// concatenation in one piece.
pub proof fn lemma_state_after_append(delim: Seq<u8>, a: Seq<u8>, b: Seq<u8>, s: int)
    ensures
        state_after(delim, a + b, s) == state_after(delim, b, state_after(delim, a, s)),
    decreases a.len(),
{
    if a.len() == 0 {
        assert(a + b =~= b);
    } else {
        assert((a + b)[0] == a[0]);
        assert((a + b).drop_first() =~= a.drop_first() + b);
        lemma_state_after_append(delim, a.drop_first(), b, step_state(delim, s, a[0]));
    }
}

/// Chunk-boundary invariance of the match: a match found in `a` is found at the
/// same offset in the concatenation, and when `a` ends without a match,
/// scanning on into `b` from the carried counter finds exactly the matches of
/// the concatenation, shifted by `a`'s length.
pub proof fn lemma_find_match_append(delim: Seq<u8>, a: Seq<u8>, b: Seq<u8>, s: int)
    ensures
        find_match(delim, a, s) is Some ==> find_match(delim, a + b, s) == find_match(
            delim,
            a,
            s,
        ),
        find_match(delim, a, s) is None ==> find_match(delim, a + b, s) == (match find_match(
            delim,
            b,
            state_after(delim, a, s),
        ) {
            Some(j) => Some(a.len() + j),
            None => None::<int>,
        }),
    decreases a.len(),
{
    if a.len() == 0 {
        assert(a + b =~= b);
    } else {
        assert((a + b)[0] == a[0]);
        assert((a + b).drop_first() =~= a.drop_first() + b);
        let s2 = step_state(delim, s, a[0]);
        if !(s2 == delim.len() && delim.len() > 0) {
            lemma_find_match_append(delim, a.drop_first(), b, s2);
        }
    }
}

/// While no match has completed, the counter stays strictly below the
/// delimiter's length.
pub proof fn lemma_state_after_bound(delim: Seq<u8>, hay: Seq<u8>, s: int)
    requires
        delim.len() >= 1,
        0 <= s < delim.len(),
        find_match(delim, hay, s) is None,
    ensures
        0 <= state_after(delim, hay, s) < delim.len(),
    decreases hay.len(),
{
    if hay.len() > 0 {
        let s2 = step_state(delim, s, hay[0]);
        lemma_state_after_bound(delim, hay.drop_first(), s2);
    }
}

/// A match ending at offset `i` drives the counter to the delimiter's full
/// length exactly when the first `i` bytes have been examined.
proof fn lemma_find_match_state(delim: Seq<u8>, hay: Seq<u8>, s: int, i: int)
    requires
        find_match(delim, hay, s) == Some(i),
    ensures
        1 <= i <= hay.len(),
        delim.len() >= 1,
        state_after(delim, hay.take(i), s) == delim.len(),
    decreases hay.len(),
{
    lemma_find_match_bounds(delim, hay, s);
    let s2 = step_state(delim, s, hay[0]);
    if s2 == delim.len() && delim.len() > 0 {
        assert(hay.take(1)[0] == hay[0]);
        assert(hay.take(1).drop_first() =~= Seq::<u8>::empty());
        assert(state_after(delim, hay.take(1), s) == state_after(
            delim,
            Seq::<u8>::empty(),
            s2,
        ));
    } else {
        lemma_find_match_state(delim, hay.drop_first(), s2, i - 1);
        assert(hay.take(i)[0] == hay[0]);
        assert(hay.take(i).drop_first() =~= hay.drop_first().take(i - 1));
    }
}

/// The partial-match counter is honest: whatever counter a scan from a fresh
/// start reaches, the bytes scanned so far end with exactly that many leading
/// delimiter bytes.
pub proof fn lemma_state_suffix(delim: Seq<u8>, t: Seq<u8>)
    ensures
        0 <= state_after(delim, t, 0) <= t.len(),
        0 <= state_after(delim, t, 0) <= delim.len(),
        t.skip(t.len() - state_after(delim, t, 0)) == delim.take(state_after(delim, t, 0)),
    decreases t.len(),
{
    if t.len() == 0 {
        assert(t.skip(0) =~= delim.take(0));
    } else {
        let t0 = t.drop_last();
        let b = t.last();
        assert(t0.push(b) =~= t);
        lemma_state_suffix(delim, t0);
        lemma_scan_push(delim, t0, 0, b);
        let sp = state_after(delim, t0, 0);
        let s = state_after(delim, t, 0);
        assert(s == step_state(delim, sp, b));
        if 0 <= sp < delim.len() && b == delim[sp] {
            assert(t.skip(t.len() - s) =~= delim.take(s)) by {
                assert(forall|k: int|
                    0 <= k < sp ==> t0.skip(t0.len() - sp)[k] == delim.take(sp)[k]);
            }
        } else if delim.len() > 0 && b == delim[0] {
            assert(t.skip(t.len() - 1) =~= delim.take(1));
        } else {
            assert(t.skip(t.len() - 0) =~= delim.take(0));
        }
    }
}

/// On a completed match the consumed bytes end with the full delimiter: a scan
/// of `stream` from a fresh counter that completes at offset `i` has examined
/// at least the delimiter's length, and the consumed prefix's last bytes are
/// exactly the delimiter.
pub proof fn lemma_match_ends_with_delimiter(delim: Seq<u8>, stream: Seq<u8>, i: int)
    requires
        find_match(delim, stream, 0) == Some(i),
    ensures
        delim.len() >= 1,
        delim.len() <= i <= stream.len(),
        stream.take(i).skip(i - delim.len()) == delim,
{
    lemma_find_match_state(delim, stream, 0, i);
    lemma_state_suffix(delim, stream.take(i));
    assert(stream.take(i).len() == i);
    assert(delim.take(delim.len() as int) =~= delim);
}

/// Returns the offset one past the end of the first complete match of `needle`
/// in `haystack`; `match_len` carries in how many leading bytes of `needle`
/// were already matched by the bytes examined before this region, and carries
/// out the partial-match run still open at the region's end when no match
/// completes.
pub fn memchr(needle: &[u8], haystack: &[u8], match_len: &mut usize) -> (r: Option<usize>)
    requires
        needle@.len() >= 1,
        *old(match_len) < needle@.len(),
    ensures
        match r {
            Some(i) => {
                &&& find_match(needle@, haystack@, *old(match_len) as int) == Some(i as int)
                &&& 1 <= i <= haystack@.len()
                &&& *final(match_len) == needle@.len()
            },
            None => {
                &&& find_match(needle@, haystack@, *old(match_len) as int) is None
                &&& *final(match_len) as int == state_after(
                    needle@,
                    haystack@,
                    *old(match_len) as int,
                )
                &&& *final(match_len) < needle@.len()
            },
        },
{
    let needle_len = needle.len();
    let haystack_len = haystack.len();
    let ghost s0 = *old(match_len) as int;
    let mut i: usize = 0;
    while i < haystack_len
        invariant
            needle_len == needle@.len(),
            haystack_len == haystack@.len(),
            1 <= needle_len,
            i <= haystack_len,
            s0 == *old(match_len) as int,
            *match_len < needle_len,
            state_after(needle@, haystack@.take(i as int), s0) == *match_len as int,
            find_match(needle@, haystack@.take(i as int), s0) is None,
        decreases haystack_len - i,
    {
        let ghost t = haystack@.take(i as int);
        let b = haystack[i];
        proof {
            assert(haystack@.take(i + 1) =~= t.push(haystack@[i as int]));
            lemma_scan_push(needle@, t, s0, b);
        }
        if b == needle[*match_len] {
            *match_len += 1;
            if *match_len == needle_len {
                proof {
                    assert(find_match(needle@, haystack@.take(i + 1), s0) == Some(i + 1));
                    assert(haystack@ =~= haystack@.take(i + 1) + haystack@.skip(i + 1));
                    lemma_find_match_append(
                        needle@,
                        haystack@.take(i + 1),
                        haystack@.skip(i + 1),
                        s0,
                    );
                    assert(find_match(needle@, haystack@, s0) == Some(i + 1));
                }
                return Some(i + 1);
            }
        } else if b == needle[0] {
            *match_len = 1;
        } else {
            *match_len = 0;
        }
        i += 1;
    }
    proof {
        assert(haystack@.take(haystack_len as int) =~= haystack@);
    }
    None
}

} // verus!
