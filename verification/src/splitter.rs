//! The threshold splitter: maps an input on the calling thread when it is no
//! longer than the threshold, and otherwise keeps the first chunk, hands
//! every other chunk to a worker, and joins the workers' outputs in chunk
//! order.
//!
//! Workers are reached through two functions that the caller supplies:
//! `spawn` takes a chunk and starts a worker on it, returning a handle;
//! `join` waits for the worker behind a handle and returns its output. A
//! worker that fails does not return from `join`.
//!
//! Nothing is assumed of `spawn` and `join` beyond what the contracts ask
//! for, so a function here can call `spawn` only on a chunk that its
//! contract names, and `join` only on a handle that `spawn` returned for
//! such a chunk.

use crate::chunking::{
    chunk_count, chunk_of, chunks, copy_chunk, count_workers, lemma_chunk_extent,
    lemma_chunks_partition, lemma_no_split_below_threshold, worker_count,
};
use crate::transform::{
    accepts_all, is_image, lemma_accepts_subrange, lemma_image_flatten, map_chunk,
};
use vstd::prelude::*;
use vstd::seq_lib::lemma_flatten_concat;
use vstd::slice::slice_subrange;

verus! {

/// The threshold of the stock configuration.
pub const THRESHOLD: usize = 5;

/// `owned` holds the elements of chunk `k` of `input`.
pub open spec fn holds_chunk<T>(owned: Vec<T>, input: Seq<T>, threshold: int, k: int) -> bool {
    owned@ == chunk_of(input, threshold, k)
}

/// `handle` is what `spawn` returned for chunk `k` of `input`.
pub open spec fn spawned_from<T, H, S: Fn(Vec<T>) -> H>(
    spawn: S,
    input: Seq<T>,
    threshold: int,
    k: int,
    handle: H,
) -> bool {
    exists|owned: Vec<T>| #[trigger]
        holds_chunk(owned, input, threshold, k) && call_ensures(spawn, (owned,), handle)
}

/// `spawn` may be called on every chunk of `input` after the first.
pub open spec fn accepts_chunks<T, H, S: Fn(Vec<T>) -> H>(
    spawn: S,
    input: Seq<T>,
    threshold: int,
) -> bool {
    forall|owned: Vec<T>, k: int|
        1 <= k < chunk_count(input.len() as int, threshold) && #[trigger] holds_chunk(
            owned,
            input,
            threshold,
            k,
        ) ==> call_requires(spawn, (owned,))
}

/// `parts` are the outputs that `join` returned for `handles`, one for each
/// handle and in the same order.
pub open spec fn joined<R, H, J: Fn(H) -> Vec<R>>(
    join: J,
    handles: Seq<H>,
    parts: Seq<Vec<R>>,
) -> bool {
    &&& parts.len() == handles.len()
    &&& forall|k: int|
        0 <= k < handles.len() ==> call_ensures(join, (handles[k],), #[trigger] parts[k])
}

/// The contents of `parts`, in order.
pub open spec fn contents<R>(parts: Seq<Vec<R>>) -> Seq<Seq<R>> {
    parts.map_values(|part: Vec<R>| part@)
}

/// `spawn` and `join` run workers for `f` on `input`: `spawn` takes every
/// chunk of `input` after the first, `join` takes every handle that `spawn`
/// returned for such a chunk, and what `join` then returns is that chunk
/// mapped by `f`.
///
/// An input no longer than the threshold has no chunk after the first, and
/// then this asks for nothing.
pub open spec fn is_executor<T, R, H, F, S, J>(
    f: F,
    spawn: S,
    join: J,
    input: Seq<T>,
    threshold: int,
) -> bool where F: Fn(&T) -> R, S: Fn(Vec<T>) -> H, J: Fn(H) -> Vec<R> {
    forall|owned: Vec<T>, k: int|
        1 <= k < chunk_count(input.len() as int, threshold) && #[trigger] holds_chunk(
            owned,
            input,
            threshold,
            k,
        ) ==> {
            &&& call_requires(spawn, (owned,))
            &&& forall|handle: H| #[trigger]
                call_ensures(spawn, (owned,), handle) ==> {
                    &&& call_requires(join, (handle,))
                    &&& forall|output: Vec<R>| #[trigger]
                        call_ensures(join, (handle,), output) ==> is_image(f, owned@, output@)
                }
        }
}

/// A transform that accepts an input accepts each of its chunks.
pub proof fn lemma_accepts_chunk<T, R, F: Fn(&T) -> R>(f: F, input: Seq<T>, threshold: int, k: int)
    requires
        threshold >= 1,
        accepts_all(f, input),
        0 <= k < chunk_count(input.len() as int, threshold),
    ensures
        accepts_all(f, chunk_of(input, threshold, k)),
{
    let len = input.len() as int;
    lemma_chunk_extent(len, threshold, k);
    lemma_accepts_subrange(
        f,
        input,
        crate::chunking::chunk_start(threshold, k),
        crate::chunking::chunk_end(len, threshold, k),
    );
}

/// Mapping each chunk of an input and joining the results in chunk order
/// maps the input.
pub proof fn lemma_chunk_images_merge<T, R, F: Fn(&T) -> R>(
    f: F,
    input: Seq<T>,
    threshold: int,
    parts: Seq<Seq<R>>,
)
    requires
        threshold >= 1,
        parts.len() == chunk_count(input.len() as int, threshold),
        forall|k: int|
            0 <= k < parts.len() ==> is_image(f, chunk_of(input, threshold, k), #[trigger] parts[k]),
    ensures
        is_image(f, input, parts.flatten()),
{
    let pieces = chunks(input, threshold);
    assert forall|k: int| 0 <= k < pieces.len() implies is_image(
        f,
        pieces[k],
        #[trigger] parts[k],
    ) by {
        assert(pieces[k] == chunk_of(input, threshold, k));
    }
    lemma_image_flatten(f, pieces, parts);
    lemma_chunks_partition(input, threshold);
}

/// Starts one worker for each chunk of `input` after the first, in chunk
/// order, and returns their handles in that order. An input no longer than
/// the threshold starts none.
pub fn dispatch<T: Copy, H, S: Fn(Vec<T>) -> H>(input: &Vec<T>, threshold: usize, spawn: &S) -> (handles:
    Vec<H>)
    requires
        threshold >= 1,
        accepts_chunks(*spawn, input@, threshold as int),
    ensures
        handles.len() == worker_count(input.len() as int, threshold as int),
        input.len() <= threshold <==> handles.len() == 0,
        forall|k: int|
            0 <= k < handles.len() ==> spawned_from(
                *spawn,
                input@,
                threshold as int,
                k + 1,
                #[trigger] handles[k],
            ),
{
    let workers = count_workers(input.len(), threshold);
    let mut handles: Vec<H> = Vec::new();
    let mut started: usize = 0;
    while started < workers
        invariant
            threshold >= 1,
            workers == worker_count(input.len() as int, threshold as int),
            accepts_chunks(*spawn, input@, threshold as int),
            started <= workers,
            handles.len() == started,
            forall|k: int|
                0 <= k < handles.len() ==> spawned_from(
                    *spawn,
                    input@,
                    threshold as int,
                    k + 1,
                    #[trigger] handles[k],
                ),
        decreases workers - started,
    {
        let owned = copy_chunk(input, threshold, started + 1);
        let ghost sent = owned;
        assert(holds_chunk(sent, input@, threshold as int, started + 1));
        let handle = spawn(owned);
        assert(call_ensures(*spawn, (sent,), handle));
        handles.push(handle);
        started += 1;
    }
    handles
}

/// Waits for the worker behind each handle, in the order of the handles,
/// and appends each worker's output to `first`.
pub fn collect<R, H, J: Fn(H) -> Vec<R>>(first: Vec<R>, handles: Vec<H>, join: &J) -> (output: Vec<R>)
    requires
        forall|k: int| 0 <= k < handles.len() ==> call_requires(*join, (#[trigger] handles[k],)),
    ensures
        exists|parts: Seq<Vec<R>>| #[trigger]
            joined(*join, handles@, parts) && output@ == first@ + contents(parts).flatten(),
{
    let mut output = first;
    let ghost mut parts: Seq<Vec<R>> = Seq::empty();
    proof {
        assert(contents(parts) =~= Seq::<Seq<R>>::empty());
        assert(first@ + contents(parts).flatten() =~= first@);
    }
    for handle in it: handles
        invariant
            it.seq() == handles@,
            forall|k: int| 0 <= k < handles.len() ==> call_requires(*join, (#[trigger] handles[k],)),
            joined(*join, handles@.take(it.index() as int), parts),
            output@ == first@ + contents(parts).flatten(),
    {
        let mut part = join(handle);
        proof {
            let before = parts;
            parts = parts.push(part);
            assert(contents(parts) =~= contents(before).push(part@));
            contents(before).lemma_flatten_push(part@);
            assert(handles@.take(it.index() + 1) =~= handles@.take(it.index() as int).push(handle));
        }
        output.append(&mut part);
    }
    proof {
        assert(handles@.take(handles.len() as int) =~= handles@);
    }
    output
}

/// Maps `input` by `f`.
///
/// An empty input gives an empty output, and an input of at most
/// `threshold` elements is mapped on the calling thread; neither starts a
/// worker. A longer input is cut into chunks of `threshold` elements (the
/// last may be shorter): the workers for all chunks but the first are
/// started, the first chunk is mapped on the calling thread, and then the
/// workers are joined in chunk order, each output appended to the result.
pub fn split_and_map<T, R, H, F, S, J>(
    input: &Vec<T>,
    f: F,
    threshold: usize,
    spawn: S,
    join: J,
) -> (output: Vec<R>) where T: Copy, F: Fn(&T) -> R, S: Fn(Vec<T>) -> H, J: Fn(H) -> Vec<R>
    requires
        threshold >= 1,
        accepts_all(f, input@),
        is_executor(f, spawn, join, input@, threshold as int),
    ensures
        output.len() == input.len(),
        is_image(f, input@, output@),
{
    if input.len() == 0 {
        return Vec::new();
    }
    if input.len() <= threshold {
        return map_chunk(input.as_slice(), &f);
    }
    let ghost len = input.len() as int;
    let ghost limit = threshold as int;
    let handles = dispatch(input, threshold, &spawn);
    proof {
        lemma_no_split_below_threshold(len, limit);
        lemma_accepts_chunk(f, input@, limit, 0);
        lemma_chunk_extent(len, limit, 0);
        assert(chunk_of(input@, limit, 0) =~= input@.subrange(0, limit));
    }
    let first = map_chunk(slice_subrange(input.as_slice(), 0, threshold), &f);
    proof {
        assert forall|k: int| 0 <= k < handles.len() implies call_requires(
            join,
            (#[trigger] handles[k],),
        ) by {
            assert(spawned_from(spawn, input@, limit, k + 1, handles[k]));
        }
    }
    let output = collect(first, handles, &join);
    proof {
        let parts = choose|parts: Seq<Vec<R>>| #[trigger]
            joined(join, handles@, parts) && output@ == first@ + contents(parts).flatten();
        let all = seq![first@] + contents(parts);
        assert forall|k: int| 0 <= k < all.len() implies is_image(
            f,
            chunk_of(input@, limit, k),
            #[trigger] all[k],
        ) by {
            if k == 0 {
                assert(all[0] == first@);
            } else {
                let handle = handles[k - 1];
                assert(spawned_from(spawn, input@, limit, k, handle));
                assert(call_ensures(join, (handle,), parts[k - 1]));
                assert(all[k] == parts[k - 1]@);
            }
        }
        lemma_chunk_images_merge(f, input@, limit, all);
        lemma_flatten_concat(seq![first@], contents(parts));
        seq![first@].lemma_flatten_one_element();
    }
    output
}

} // verus!
