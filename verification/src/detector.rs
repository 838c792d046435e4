//! What the caller-supplied frame-end detector reported during a call.
//!
//! The detector is an arbitrary callable from a byte view to an optional
//! delimiter index; `deframe` shows it prefixes of the current chunk. The
//! predicates here record, purely in terms of the detector's contract, which
//! frame end a call can have chosen, so that `deframe` can promise exactly how
//! its result follows from what the detector answered.

use vstd::prelude::*;

use crate::model::{is_boundary_at, is_last_boundary};

verus! {

/// A detector answer is in bounds: a reported delimiter index lies inside the
/// view it was reported for.
pub open spec fn report_in_bounds(v: Seq<u8>, ro: Option<usize>) -> bool {
    ro matches Some(d) ==> (d as int) < v.len()
}

/// The detector `get_frame_end`, shown a view of the bytes `v`, can answer
/// `ro` according to its own contract.
pub open spec fn boundary_report<F: Fn(&[u8]) -> Option<usize>>(
    get_frame_end: F,
    v: Seq<u8>,
    ro: Option<usize>,
) -> bool {
    exists|s: &[u8]| s@ == v && #[trigger] call_ensures(get_frame_end, (s,), ro)
}

/// The frame end named by a detector answer: one past the reported delimiter,
/// or `0` when no boundary was reported.
pub open spec fn frame_end_of(ro: Option<usize>) -> int {
    match ro {
        Some(d) => d as int + 1,
        None => 0,
    }
}

/// The fit search over the view `chunk.take(limit)` can choose the frame end
/// `p`: the detector answered `None` (then `p == 0`), or it reported a
/// delimiter whose frame end fits within `avail` (then that is `p`), or the
/// reported frame end did not fit and the search went on strictly left of the
/// reported delimiter.
pub open spec fn fit_search_reports<F: Fn(&[u8]) -> Option<usize>>(
    get_frame_end: F,
    chunk: Seq<u8>,
    limit: int,
    avail: int,
    p: int,
) -> bool
    decreases limit,
{
    exists|ro: Option<usize>|
        #[trigger] boundary_report(get_frame_end, chunk.take(limit), ro) && (match ro {
            None => p == 0,
            Some(d) => if d as int + 1 <= avail {
                p == d as int + 1
            } else if 0 <= (d as int) < limit {
                fit_search_reports(get_frame_end, chunk, d as int, avail, p)
            } else {
                false
            },
        })
}

/// How `deframe` chooses the frame end `p` for a chunk, given `rem_len` held
/// bytes and capacity `cap`. With no held remainder, the chunk is scanned once
/// whole and the detector's answer is taken as it stands; with a held
/// remainder, the fit search looks for the rightmost reported boundary whose
/// frame end still fits beside the held bytes.
pub open spec fn boundary_chosen<F: Fn(&[u8]) -> Option<usize>>(
    get_frame_end: F,
    chunk: Seq<u8>,
    rem_len: int,
    cap: int,
    p: int,
) -> bool {
    if rem_len == 0 {
        exists|ro: Option<usize>|
            #[trigger] boundary_report(get_frame_end, chunk, ro) && p == frame_end_of(ro)
    } else {
        fit_search_reports(get_frame_end, chunk, chunk.len() as int, cap - rem_len, p)
    }
}

/// A detector of this shape always answers with the rightmost position of its
/// view whose byte passes `is_end`, or `None` when no byte does.
pub open spec fn reports_last(is_end: spec_fn(u8) -> bool, v: Seq<u8>, ro: Option<usize>) -> bool {
    match ro {
        None => forall|j: int| 0 <= j < v.len() ==> !is_end(v[j]),
        Some(d) => is_last_boundary(is_end, v, d as int),
    }
}

/// The fit search's tie-break, made precise: with a detector that reports the
/// rightmost boundary of its view, the search over `chunk.take(limit)` chooses
/// the rightmost boundary whose frame end fits within `avail` — every boundary
/// to its right has a frame end that does not fit — and chooses none exactly
/// when no boundary of the view fits.
pub proof fn lemma_fit_search_picks_rightmost_fitting<F: Fn(&[u8]) -> Option<usize>>(
    get_frame_end: F,
    is_end: spec_fn(u8) -> bool,
    chunk: Seq<u8>,
    limit: int,
    avail: int,
    p: int,
)
    requires
        forall|s: &[u8], ro: Option<usize>|
            #[trigger] call_ensures(get_frame_end, (s,), ro) ==> reports_last(is_end, s@, ro),
        0 <= limit <= chunk.len(),
        fit_search_reports(get_frame_end, chunk, limit, avail, p),
    ensures
        p == 0 ==> forall|j: int| 0 <= j < limit && is_end(chunk[j]) ==> j + 1 > avail,
        p > 0 ==> {
            &&& is_boundary_at(is_end, chunk, p - 1)
            &&& p <= avail
            &&& p <= limit
            &&& forall|j: int| p - 1 < j < limit && is_end(chunk[j]) ==> j + 1 > avail
        },
    decreases limit,
{
    let ro = choose|ro: Option<usize>|
        #[trigger] boundary_report(get_frame_end, chunk.take(limit), ro) && (match ro {
            None => p == 0,
            Some(d) => if d as int + 1 <= avail {
                p == d as int + 1
            } else if 0 <= (d as int) < limit {
                fit_search_reports(get_frame_end, chunk, d as int, avail, p)
            } else {
                false
            },
        });
    let s = choose|s: &[u8]|
        s@ == chunk.take(limit) && #[trigger] call_ensures(get_frame_end, (s,), ro);
    assert(reports_last(is_end, chunk.take(limit), ro));
    match ro {
        None => {
            assert forall|j: int| 0 <= j < limit && is_end(chunk[j]) implies j + 1 > avail by {
                assert(chunk.take(limit)[j] == chunk[j]);
                assert(!is_end(chunk.take(limit)[j]));
            }
        },
        Some(du) => {
            let d = du as int;
            assert(is_last_boundary(is_end, chunk.take(limit), d));
            assert(chunk.take(limit)[d] == chunk[d]);
            assert forall|j: int| d < j < limit && is_end(chunk[j]) implies false by {
                assert(chunk.take(limit)[j] == chunk[j]);
            }
            if d + 1 <= avail {
                assert(p == d + 1);
            } else {
                lemma_fit_search_picks_rightmost_fitting(
                    get_frame_end,
                    is_end,
                    chunk,
                    d,
                    avail,
                    p,
                );
            }
        },
    }
}

/// With no held remainder and a detector that reports the rightmost boundary,
/// the chosen frame end is exactly one past the chunk's last boundary: the
/// call is split at the last detected boundary and nowhere else.
pub proof fn lemma_exact_detector_picks_last<F: Fn(&[u8]) -> Option<usize>>(
    get_frame_end: F,
    is_end: spec_fn(u8) -> bool,
    chunk: Seq<u8>,
    d: int,
    cap: int,
    p: int,
)
    requires
        forall|s: &[u8], ro: Option<usize>|
            #[trigger] call_ensures(get_frame_end, (s,), ro) ==> reports_last(is_end, s@, ro),
        is_last_boundary(is_end, chunk, d),
        boundary_chosen(get_frame_end, chunk, 0, cap, p),
    ensures
        p == d + 1,
{
    let ro = choose|ro: Option<usize>|
        #[trigger] boundary_report(get_frame_end, chunk, ro) && p == frame_end_of(ro);
    let s = choose|s: &[u8]| s@ == chunk && #[trigger] call_ensures(get_frame_end, (s,), ro);
    assert(reports_last(is_end, chunk, ro));
    match ro {
        None => {
            assert(is_end(chunk[d]));
            assert(false);
        },
        Some(d2) => {
            if d2 as int != d {
                if (d2 as int) < d {
                    assert(!is_end(chunk[d]));
                } else {
                    assert(!is_end(chunk[d2 as int]));
                }
                assert(false);
            }
        },
    }
}

} // verus!
