//! Transforms and their element-wise application.
//!
//! A transform is any `Fn(&T) -> R`. What it may return for an argument is
//! given by its own contract, so the result of mapping is stated as a
//! relation between an input sequence and an output sequence.

use vstd::prelude::*;

verus! {

/// `f` may be called on every element of `input`.
pub open spec fn accepts_all<T, R, F: Fn(&T) -> R>(f: F, input: Seq<T>) -> bool {
    forall|i: int| 0 <= i < input.len() ==> call_requires(f, (&#[trigger] input[i],))
}

/// `output` is `input` mapped by `f`: it has the same length, and its
/// element `i` is a result of `f` on element `i` of `input`.
pub open spec fn is_image<T, R, F: Fn(&T) -> R>(f: F, input: Seq<T>, output: Seq<R>) -> bool {
    &&& output.len() == input.len()
    &&& forall|i: int|
        0 <= i < input.len() ==> call_ensures(f, (&input[i],), #[trigger] output[i])
}

/// `f` has at most one result for each argument.
pub open spec fn is_deterministic<T, R, F: Fn(&T) -> R>(f: F) -> bool {
    forall|x: &T, a: R, b: R|
        #[trigger] call_ensures(f, (x,), a) && #[trigger] call_ensures(f, (x,), b) ==> a == b
}

/// A transform that accepts a sequence accepts each part of it.
pub proof fn lemma_accepts_subrange<T, R, F: Fn(&T) -> R>(
    f: F,
    input: Seq<T>,
    start: int,
    end: int,
)
    requires
        accepts_all(f, input),
        0 <= start <= end <= input.len(),
    ensures
        accepts_all(f, input.subrange(start, end)),
{
    let part = input.subrange(start, end);
    assert forall|i: int| 0 <= i < part.len() implies call_requires(f, (&#[trigger] part[i],)) by {
        assert(part[i] == input[start + i]);
    }
}

/// Mapping two sequences and joining the results maps the joined sequence.
pub proof fn lemma_image_concat<T, R, F: Fn(&T) -> R>(
    f: F,
    left: Seq<T>,
    left_out: Seq<R>,
    right: Seq<T>,
    right_out: Seq<R>,
)
    requires
        is_image(f, left, left_out),
        is_image(f, right, right_out),
    ensures
        is_image(f, left + right, left_out + right_out),
{
    let input = left + right;
    let output = left_out + right_out;
    assert forall|i: int| 0 <= i < input.len() implies call_ensures(
        f,
        (&input[i],),
        #[trigger] output[i],
    ) by {
        if i < left.len() {
            assert(input[i] == left[i]);
            assert(output[i] == left_out[i]);
        } else {
            assert(input[i] == right[i - left.len()]);
            assert(output[i] == right_out[i - left.len()]);
        }
    }
}

/// Mapping each piece of a sequence and joining the results in the order of
/// the pieces maps the whole sequence.
pub proof fn lemma_image_flatten<T, R, F: Fn(&T) -> R>(
    f: F,
    pieces: Seq<Seq<T>>,
    parts: Seq<Seq<R>>,
)
    requires
        parts.len() == pieces.len(),
        forall|k: int| 0 <= k < pieces.len() ==> is_image(f, pieces[k], #[trigger] parts[k]),
    ensures
        is_image(f, pieces.flatten(), parts.flatten()),
    decreases pieces.len(),
{
    if pieces.len() == 0 {
        assert(pieces.flatten() =~= Seq::<T>::empty());
        assert(parts.flatten() =~= Seq::<R>::empty());
    } else {
        let head = pieces.drop_last();
        let head_out = parts.drop_last();
        assert forall|k: int| 0 <= k < head.len() implies is_image(
            f,
            head[k],
            #[trigger] head_out[k],
        ) by {
            assert(head_out[k] == parts[k]);
        }
        lemma_image_flatten(f, head, head_out);
        assert(is_image(f, pieces.last(), parts.last()));
        lemma_image_concat(f, head.flatten(), head_out.flatten(), pieces.last(), parts.last());
        assert(pieces =~= head.push(pieces.last()));
        assert(parts =~= head_out.push(parts.last()));
        head.lemma_flatten_push(pieces.last());
        head_out.lemma_flatten_push(parts.last());
    }
}

/// A deterministic transform has one image of each input: however the
/// mapping was carried out, and in whatever order its parts were finished,
/// the output is the same.
pub proof fn lemma_image_unique<T, R, F: Fn(&T) -> R>(
    f: F,
    input: Seq<T>,
    first: Seq<R>,
    second: Seq<R>,
)
    requires
        is_deterministic(f),
        is_image(f, input, first),
        is_image(f, input, second),
    ensures
        first == second,
{
    assert forall|i: int| 0 <= i < first.len() implies first[i] == second[i] by {
        assert(call_ensures(f, (&input[i],), first[i]));
        assert(call_ensures(f, (&input[i],), second[i]));
    }
    assert(first =~= second);
}

/// Applies `f` to every element of `chunk`, in order. This is the whole
/// work of one worker, and what the caller does with the first chunk.
pub fn map_chunk<T, R, F: Fn(&T) -> R>(chunk: &[T], f: &F) -> (output: Vec<R>)
    requires
        accepts_all(*f, chunk@),
    ensures
        is_image(*f, chunk@, output@),
{
    let mut output: Vec<R> = Vec::new();
    let mut i: usize = 0;
    while i < chunk.len()
        invariant
            i <= chunk.len(),
            accepts_all(*f, chunk@),
            is_image(*f, chunk@.take(i as int), output@),
        decreases chunk.len() - i,
    {
        let mapped = f(&chunk[i]);
        output.push(mapped);
        i += 1;
    }
    assert(chunk@.take(i as int) =~= chunk@);
    output
}

/// Whether the square of `t` fits in an `i32`.
pub open spec fn square_fits(t: int) -> bool {
    t * t <= i32::MAX
}

/// The squares that fit in an `i32` are those of the numbers from `-46340`
/// to `46340`.
pub proof fn lemma_square_fits(t: int)
    ensures
        square_fits(t) <==> -46340 <= t <= 46340,
{
    assert(-46340 <= t <= 46340 ==> t * t <= 46340 * 46340) by (nonlinear_arith);
    assert(t >= 46341 ==> t * t >= 46341 * 46341) by (nonlinear_arith);
    assert(t <= -46341 ==> t * t >= 46341 * 46341) by (nonlinear_arith);
}

/// Tells whether `f` may be called on `t`.
pub fn has_square(t: &i32) -> (fits: bool)
    ensures
        fits == square_fits(*t as int),
{
    proof {
        lemma_square_fits(*t as int);
    }
    -46340 <= *t && *t <= 46340
}

/// The square of `t`.
pub fn f(t: &i32) -> (r: i32)
    requires
        square_fits(*t as int),
    ensures
        r == *t * *t,
{
    assert(0 <= *t * *t) by (nonlinear_arith);
    *t * *t
}

} // verus!
