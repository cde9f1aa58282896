//! The chunking policy: how an input of a given length is cut into
//! consecutive chunks of at most `threshold` elements.
//!
//! Chunk boundaries depend on the input length and the threshold alone.
//! Chunk `0` is the one the caller keeps; every later chunk belongs to one
//! worker.

use vstd::arithmetic::div_mod::{lemma_fundamental_div_mod, lemma_mod_bound};
use vstd::prelude::*;
use vstd::slice::{slice_subrange, slice_to_vec};

verus! {

/// The number of chunks an input of `len` elements is cut into: `len`
/// divided by `threshold`, rounded up.
pub open spec fn chunk_count(len: int, threshold: int) -> int
    recommends
        len >= 0,
        threshold >= 1,
{
    if len % threshold == 0 {
        len / threshold
    } else {
        len / threshold + 1
    }
}

/// The number of chunks that are handed to workers: every chunk but the
/// first.
pub open spec fn worker_count(len: int, threshold: int) -> int
    recommends
        len >= 0,
        threshold >= 1,
{
    if chunk_count(len, threshold) >= 1 {
        chunk_count(len, threshold) - 1
    } else {
        0
    }
}

/// The index of the first element of chunk `k`.
pub open spec fn chunk_start(threshold: int, k: int) -> int {
    k * threshold
}

/// The index one past the last element of chunk `k`.
pub open spec fn chunk_end(len: int, threshold: int, k: int) -> int {
    if (k + 1) * threshold <= len {
        (k + 1) * threshold
    } else {
        len
    }
}

/// The elements of chunk `k` of `input`.
pub open spec fn chunk_of<T>(input: Seq<T>, threshold: int, k: int) -> Seq<T> {
    input.subrange(chunk_start(threshold, k), chunk_end(input.len() as int, threshold, k))
}

/// All chunks of `input`, in index order.
pub open spec fn chunks<T>(input: Seq<T>, threshold: int) -> Seq<Seq<T>> {
    Seq::new(
        chunk_count(input.len() as int, threshold) as nat,
        |k: int| chunk_of(input, threshold, k),
    )
}

proof fn lemma_quotient_and_remainder(len: int, threshold: int)
    requires
        len >= 0,
        threshold >= 1,
    ensures
        len == (len / threshold) * threshold + len % threshold,
        0 <= len % threshold < threshold,
        0 <= len / threshold <= len,
{
    lemma_fundamental_div_mod(len, threshold);
    lemma_mod_bound(len, threshold);
    let q = len / threshold;
    let r = len % threshold;
    assert(q * threshold == threshold * q) by (nonlinear_arith);
    assert(0 <= q <= len) by (nonlinear_arith)
        requires
            len == q * threshold + r,
            0 <= r < threshold,
            len >= 0,
            threshold >= 1,
    ;
}

/// `c` is the ceiling of `len / threshold`: the least number of chunks of
/// `threshold` elements that hold `len` elements.
pub open spec fn is_ceiling(c: int, len: int, threshold: int) -> bool {
    (c - 1) * threshold < len <= c * threshold
}

/// `chunk_count` is the ceiling of `len / threshold`, and nothing else is.
pub proof fn lemma_chunk_count_is_ceiling(len: int, threshold: int)
    requires
        len >= 0,
        threshold >= 1,
    ensures
        chunk_count(len, threshold) >= 0,
        is_ceiling(chunk_count(len, threshold), len, threshold),
        forall|c: int| #[trigger] is_ceiling(c, len, threshold) ==> c == chunk_count(len, threshold),
{
    lemma_quotient_and_remainder(len, threshold);
    let q = len / threshold;
    let r = len % threshold;
    let n = chunk_count(len, threshold);
    assert((n - 1) * threshold < len && len <= n * threshold) by (nonlinear_arith)
        requires
            len == q * threshold + r,
            0 <= r < threshold,
            n == (if r == 0 { q } else { q + 1 }),
    ;
    assert forall|c: int| #[trigger] is_ceiling(c, len, threshold) implies c == n by {
        assert(c == n) by (nonlinear_arith)
            requires
                (c - 1) * threshold < len <= c * threshold,
                (n - 1) * threshold < len <= n * threshold,
                threshold >= 1,
        ;
    }
}

/// An input no longer than the threshold needs no worker, and a longer one
/// needs at least one.
pub proof fn lemma_no_split_below_threshold(len: int, threshold: int)
    requires
        len >= 0,
        threshold >= 1,
    ensures
        len <= threshold <==> worker_count(len, threshold) == 0,
        len == 0 <==> chunk_count(len, threshold) == 0,
{
    lemma_chunk_count_is_ceiling(len, threshold);
    let n = chunk_count(len, threshold);
    assert(len <= threshold <==> n <= 1) by (nonlinear_arith)
        requires
            (n - 1) * threshold < len <= n * threshold,
            threshold >= 1,
            len >= 0,
            n >= 0,
    ;
    assert(len == 0 <==> n == 0) by (nonlinear_arith)
        requires
            (n - 1) * threshold < len <= n * threshold,
            threshold >= 1,
            len >= 0,
            n >= 0,
    ;
}

/// Chunk `k` is a non-empty range inside the input. Every chunk but the
/// last holds exactly `threshold` elements and ends where the next one
/// starts; the last one ends at the end of the input and holds the
/// remainder of `len / threshold`, or `threshold` elements where the
/// division is exact.
pub proof fn lemma_chunk_extent(len: int, threshold: int, k: int)
    requires
        len >= 0,
        threshold >= 1,
        0 <= k < chunk_count(len, threshold),
    ensures
        0 <= chunk_start(threshold, k) < chunk_end(len, threshold, k) <= len,
        chunk_end(len, threshold, k) - chunk_start(threshold, k) <= threshold,
        k + 1 < chunk_count(len, threshold) ==> {
            &&& chunk_end(len, threshold, k) == chunk_start(threshold, k + 1)
            &&& chunk_end(len, threshold, k) - chunk_start(threshold, k) == threshold
        },
        k + 1 == chunk_count(len, threshold) ==> {
            &&& chunk_end(len, threshold, k) == len
            &&& chunk_end(len, threshold, k) - chunk_start(threshold, k) == (if len % threshold
                == 0 {
                threshold
            } else {
                len % threshold
            })
        },
{
    lemma_chunk_count_is_ceiling(len, threshold);
    lemma_quotient_and_remainder(len, threshold);
    let n = chunk_count(len, threshold);
    let q = len / threshold;
    let r = len % threshold;
    let start = k * threshold;
    let next = (k + 1) * threshold;
    assert(next == start + threshold) by (nonlinear_arith)
        requires
            start == k * threshold,
            next == (k + 1) * threshold,
    ;
    assert(0 <= start && start <= (n - 1) * threshold) by (nonlinear_arith)
        requires
            0 <= k <= n - 1,
            threshold >= 1,
            start == k * threshold,
    ;
    if k + 1 < n {
        assert(next <= (n - 1) * threshold) by (nonlinear_arith)
            requires
                k + 1 <= n - 1,
                threshold >= 1,
                next == (k + 1) * threshold,
        ;
    } else {
        assert(next == n * threshold);
        assert((n - 1) * threshold == n * threshold - threshold) by (nonlinear_arith);
        assert(n * threshold - len == (if r == 0 { 0 } else { threshold - r })) by (nonlinear_arith)
            requires
                len == q * threshold + r,
                n == (if r == 0 { q } else { q + 1 }),
        ;
    }
}

/// The chunks of an input, taken in index order, make up the input: they
/// neither overlap nor leave a gap.
pub proof fn lemma_chunks_partition<T>(input: Seq<T>, threshold: int)
    requires
        threshold >= 1,
    ensures
        chunks(input, threshold).flatten() == input,
{
    let len = input.len() as int;
    let n = chunk_count(len, threshold);
    lemma_chunk_count_is_ceiling(len, threshold);
    lemma_chunks_prefix(input, threshold, n);
    assert(chunks(input, threshold).take(n) =~= chunks(input, threshold));
    if n == 0 {
        lemma_no_split_below_threshold(len, threshold);
        assert(input.take(0) =~= input);
    } else {
        lemma_chunk_extent(len, threshold, n - 1);
        assert(input.take(len) =~= input);
    }
}

/// The first `m` chunks make up the input up to the end of chunk `m - 1`.
proof fn lemma_chunks_prefix<T>(input: Seq<T>, threshold: int, m: int)
    requires
        threshold >= 1,
        0 <= m <= chunk_count(input.len() as int, threshold),
    ensures
        chunks(input, threshold).take(m).flatten() == input.take(
            if m == 0 {
                0
            } else {
                chunk_end(input.len() as int, threshold, m - 1)
            },
        ),
    decreases m,
{
    let len = input.len() as int;
    let all = chunks(input, threshold);
    if m == 0 {
        assert(all.take(0) =~= Seq::<Seq<T>>::empty());
        assert(all.take(0).flatten() =~= Seq::<T>::empty());
        assert(input.take(0) =~= Seq::<T>::empty());
    } else {
        lemma_chunks_prefix(input, threshold, m - 1);
        lemma_chunk_extent(len, threshold, m - 1);
        if m - 1 > 0 {
            lemma_chunk_extent(len, threshold, m - 2);
        }
        let before = all.take(m - 1);
        let last = chunk_of(input, threshold, m - 1);
        assert(all.take(m) =~= before.push(last));
        before.lemma_flatten_push(last);
        let start = chunk_start(threshold, m - 1);
        let end = chunk_end(len, threshold, m - 1);
        assert(before.flatten() == input.take(start));
        assert(input.take(start) + input.subrange(start, end) =~= input.take(end));
    }
}

/// Counts the chunks of an input of `len` elements.
pub fn count_chunks(len: usize, threshold: usize) -> (n: usize)
    requires
        threshold >= 1,
    ensures
        n == chunk_count(len as int, threshold as int),
{
    proof {
        lemma_quotient_and_remainder(len as int, threshold as int);
        lemma_chunk_count_is_ceiling(len as int, threshold as int);
        let n = chunk_count(len as int, threshold as int);
        assert(n <= len) by (nonlinear_arith)
            requires
                (n - 1) * threshold < len,
                threshold >= 1,
                n >= 0,
                len >= 0,
        ;
    }
    if len % threshold > 0 {
        len / threshold + 1
    } else {
        len / threshold
    }
}

/// Counts the workers an input of `len` elements needs: one for each chunk
/// after the first.
pub fn count_workers(len: usize, threshold: usize) -> (n: usize)
    requires
        threshold >= 1,
    ensures
        n == worker_count(len as int, threshold as int),
        len <= threshold <==> n == 0,
{
    proof {
        lemma_no_split_below_threshold(len as int, threshold as int);
    }
    let chunks = count_chunks(len, threshold);
    if chunks >= 1 {
        chunks - 1
    } else {
        0
    }
}

/// The bounds of chunk `k`: the index of its first element and the index
/// one past its last.
pub fn chunk_bounds(len: usize, threshold: usize, k: usize) -> (bounds: (usize, usize))
    requires
        threshold >= 1,
        k < chunk_count(len as int, threshold as int),
    ensures
        bounds.0 == chunk_start(threshold as int, k as int),
        bounds.1 == chunk_end(len as int, threshold as int, k as int),
        bounds.0 < bounds.1 <= len,
{
    proof {
        lemma_chunk_extent(len as int, threshold as int, k as int);
        assert((k + 1) * threshold == k * threshold + threshold) by (nonlinear_arith);
    }
    let start = k * threshold;
    if len - start >= threshold {
        (start, start + threshold)
    } else {
        (start, len)
    }
}

/// Copies chunk `k` out of `input`, so that a worker can own it.
pub fn copy_chunk<T: Copy>(input: &Vec<T>, threshold: usize, k: usize) -> (chunk: Vec<T>)
    requires
        threshold >= 1,
        k < chunk_count(input.len() as int, threshold as int),
    ensures
        chunk@ == chunk_of(input@, threshold as int, k as int),
{
    let (start, end) = chunk_bounds(input.len(), threshold, k);
    slice_to_vec(slice_subrange(input.as_slice(), start, end))
}

} // verus!
