//! Mathematical model of a single `deframe` step.
//!
//! A step is described by the remainder held before the call, the chunk fed to
//! the call, and the chosen frame end `p` (an exclusive index into the chunk;
//! `p == 0` means no boundary was usable). The functions here say what such a
//! step emits and what remainder it leaves behind; the lemmas state the laws
//! that every step, and every run of steps, obeys.

use vstd::calc;
use vstd::prelude::*;

verus! {

/// The bytes a step emits: the held remainder followed by the chunk up to the
/// chosen frame end, or nothing when no boundary was usable.
pub open spec fn emitted(rem: Seq<u8>, chunk: Seq<u8>, p: int) -> Seq<u8> {
    if p <= 0 {
        Seq::empty()
    } else {
        rem + chunk.take(p)
    }
}

/// The remainder a step leaves behind: the chunk past the chosen frame end,
/// or the whole chunk appended to the held remainder when no boundary was
/// usable.
pub open spec fn remainder_after(rem: Seq<u8>, chunk: Seq<u8>, p: int) -> Seq<u8> {
    if p <= 0 {
        rem + chunk
    } else {
        chunk.skip(p)
    }
}

/// A step fits the capacity `cap` when both what it emits and what it keeps
/// stay within `cap`; a step that does not fit is reported as an overflow.
pub open spec fn step_fits(cap: int, rem: Seq<u8>, chunk: Seq<u8>, p: int) -> bool {
    &&& emitted(rem, chunk, p).len() <= cap
    &&& remainder_after(rem, chunk, p).len() <= cap
}

/// `v[d]` terminates a frame under the frame-end test `is_end`.
pub open spec fn is_boundary_at(is_end: spec_fn(u8) -> bool, v: Seq<u8>, d: int) -> bool {
    0 <= d < v.len() && is_end(v[d])
}

/// `d` is the rightmost position of `v` whose byte passes `is_end`.
pub open spec fn is_last_boundary(is_end: spec_fn(u8) -> bool, v: Seq<u8>, d: int) -> bool {
    &&& is_boundary_at(is_end, v, d)
    &&& forall|j: int| d < j < v.len() ==> !is_end(v[j])
}

/// No byte of a single step is lost: what the step emits, followed by what it
/// keeps, is exactly the held remainder followed by the chunk.
pub proof fn lemma_step_conserves_bytes(rem: Seq<u8>, chunk: Seq<u8>, p: int)
    requires
        0 <= p <= chunk.len(),
    ensures
        emitted(rem, chunk, p) + remainder_after(rem, chunk, p) == rem + chunk,
{
    if p == 0 {
        assert(emitted(rem, chunk, p) + remainder_after(rem, chunk, p) =~= rem + chunk);
    } else {
        assert(emitted(rem, chunk, p) + remainder_after(rem, chunk, p) =~= rem + chunk);
    }
}

/// A step with no usable boundary emits nothing and grows the remainder by
/// exactly the chunk's length.
pub proof fn lemma_no_boundary_accumulates(rem: Seq<u8>, chunk: Seq<u8>)
    ensures
        emitted(rem, chunk, 0).len() == 0,
        remainder_after(rem, chunk, 0) == rem + chunk,
        remainder_after(rem, chunk, 0).len() == rem.len() + chunk.len(),
{
}

/// Rightmost-boundary selection: with no held remainder, a step at the chunk's
/// last boundary emits every complete frame of the chunk in one piece — the
/// emitted bytes run up to and including the last delimiter, and no delimiter
/// lies beyond them.
pub proof fn lemma_rightmost_selection(
    is_end: spec_fn(u8) -> bool,
    chunk: Seq<u8>,
    d: int,
    cap: int,
)
    requires
        is_last_boundary(is_end, chunk, d),
        d + 1 <= cap,
        chunk.len() - (d + 1) <= cap,
    ensures
        step_fits(cap, Seq::empty(), chunk, d + 1),
        emitted(Seq::empty(), chunk, d + 1) == chunk.take(d + 1),
        remainder_after(Seq::empty(), chunk, d + 1) == chunk.skip(d + 1),
        forall|j: int| 0 <= j < chunk.len() && is_end(chunk[j]) ==> j < d + 1,
{
    assert(emitted(Seq::empty(), chunk, d + 1) =~= chunk.take(d + 1));
}

/// All the chunks of a run, concatenated.
pub open spec fn concat_all(chunks: Seq<Seq<u8>>) -> Seq<u8>
    decreases chunks.len(),
{
    if chunks.len() == 0 {
        Seq::empty()
    } else {
        chunks[0] + concat_all(chunks.skip(1))
    }
}

/// Everything a run of steps emits, in order, starting from remainder `rem`
/// and choosing frame end `ends[i]` for `chunks[i]`.
pub open spec fn run_emitted(rem: Seq<u8>, chunks: Seq<Seq<u8>>, ends: Seq<int>) -> Seq<u8>
    decreases chunks.len(),
{
    if chunks.len() == 0 {
        Seq::empty()
    } else {
        emitted(rem, chunks[0], ends[0]) + run_emitted(
            remainder_after(rem, chunks[0], ends[0]),
            chunks.skip(1),
            ends.skip(1),
        )
    }
}

/// The remainder left pending after a run of steps.
pub open spec fn run_remainder(rem: Seq<u8>, chunks: Seq<Seq<u8>>, ends: Seq<int>) -> Seq<u8>
    decreases chunks.len(),
{
    if chunks.len() == 0 {
        rem
    } else {
        run_remainder(remainder_after(rem, chunks[0], ends[0]), chunks.skip(1), ends.skip(1))
    }
}

/// No data loss across calls: over any run of steps, the concatenation of
/// everything emitted, followed by the remainder still pending, is exactly the
/// starting remainder followed by the concatenation of every chunk fed in —
/// bytes are either emitted or pending, never dropped.
pub proof fn lemma_no_data_loss(rem: Seq<u8>, chunks: Seq<Seq<u8>>, ends: Seq<int>)
    requires
        ends.len() == chunks.len(),
        forall|i: int| 0 <= i < chunks.len() ==> 0 <= #[trigger] ends[i] <= chunks[i].len(),
    ensures
        run_emitted(rem, chunks, ends) + run_remainder(rem, chunks, ends) == rem + concat_all(
            chunks,
        ),
    decreases chunks.len(),
{
    if chunks.len() == 0 {
        assert(run_emitted(rem, chunks, ends) + run_remainder(rem, chunks, ends) =~= rem
            + concat_all(chunks));
    } else {
        let e0 = emitted(rem, chunks[0], ends[0]);
        let rem1 = remainder_after(rem, chunks[0], ends[0]);
        lemma_step_conserves_bytes(rem, chunks[0], ends[0]);
        assert forall|i: int| 0 <= i < chunks.skip(1).len() implies 0 <= #[trigger] ends.skip(1)[i]
            <= chunks.skip(1)[i].len() by {
            assert(ends.skip(1)[i] == ends[i + 1]);
            assert(chunks.skip(1)[i] == chunks[i + 1]);
        }
        lemma_no_data_loss(rem1, chunks.skip(1), ends.skip(1));
        calc! {
            (==)
            run_emitted(rem, chunks, ends) + run_remainder(rem, chunks, ends); {
                assert((e0 + run_emitted(rem1, chunks.skip(1), ends.skip(1))) + run_remainder(
                    rem1,
                    chunks.skip(1),
                    ends.skip(1),
                ) =~= e0 + (run_emitted(rem1, chunks.skip(1), ends.skip(1)) + run_remainder(
                    rem1,
                    chunks.skip(1),
                    ends.skip(1),
                )));
            }
            e0 + (rem1 + concat_all(chunks.skip(1))); {
                assert(e0 + (rem1 + concat_all(chunks.skip(1))) =~= (e0 + rem1) + concat_all(
                    chunks.skip(1),
                ));
            }
            (rem + chunks[0]) + concat_all(chunks.skip(1)); {
                assert((rem + chunks[0]) + concat_all(chunks.skip(1)) =~= rem + (chunks[0]
                    + concat_all(chunks.skip(1))));
            }
            rem + concat_all(chunks);
        }
    }
}

} // verus!
