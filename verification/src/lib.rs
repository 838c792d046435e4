//! A data deframer for chunked byte streams.
//!
//! A [`Deframer`] owns a fixed-capacity buffer and reassembles
//! delimiter-terminated frames from byte chunks whose boundaries bear no
//! relation to frame boundaries. Each call to [`Deframer::deframe`] hands in
//! one chunk and a caller-supplied frame-end detector; the call emits the
//! longest complete run of whole frames seen so far and keeps the trailing
//! partial frame (the remainder) for the next call. Exceeding the fixed
//! capacity is a hard error, never a reason to grow.

use vstd::prelude::*;

pub mod detector;
pub mod model;

use crate::detector::{boundary_chosen, boundary_report, fit_search_reports, report_in_bounds};
use crate::model::{emitted, remainder_after};

verus! {

/// What one `deframe` call promises, given the frame end `p` it chose (which
/// [`boundary_chosen`] ties to the detector's answers). On success the call
/// returns the emitted bytes with their length, and keeps the remainder the
/// step leaves behind; it fails exactly when what the step would emit or keep
/// exceeds the capacity.
pub open spec fn deframe_post<F: Fn(&[u8]) -> Option<usize>, const N: usize>(
    get_frame_end: F,
    old_rem: Seq<u8>,
    chunk: Seq<u8>,
    p: int,
    after: Deframer<N>,
    r: Result<([u8; N], usize), DeframeError>,
) -> bool {
    &&& 0 <= p <= chunk.len()
    &&& boundary_chosen(get_frame_end, chunk, old_rem.len() as int, N as int, p)
    &&& match r {
        Ok((out, len)) => {
            &&& emitted(old_rem, chunk, p).len() <= N
            &&& remainder_after(old_rem, chunk, p).len() <= N
            &&& len == emitted(old_rem, chunk, p).len()
            &&& out@.take(len as int) == emitted(old_rem, chunk, p)
            &&& after@ == remainder_after(old_rem, chunk, p)
        },
        Err(e) => {
            &&& e == DeframeError::Overflow
            &&& emitted(old_rem, chunk, p).len() > N || remainder_after(old_rem, chunk, p).len()
                > N
        },
    }
}

/// The single failure mode: the bytes that would have to be held, either as
/// output or as remainder, exceed the fixed capacity `N`.
#[derive(Clone, Copy, PartialEq, Eq, Debug)]
pub enum DeframeError {
    Overflow,
}

/// Reassembles delimiter-terminated frames from chunks, holding at most `N`
/// bytes of trailing partial frame between calls.
pub struct Deframer<const N: usize> {
    remainder: [u8; N],
    remainder_length: usize,
}

impl<const N: usize> View for Deframer<N> {
    type V = Seq<u8>;

    /// A deframer is abstractly the bytes of the partial frame it holds.
    closed spec fn view(&self) -> Seq<u8> {
        self.remainder@.take(self.remainder_length as int)
    }
}

impl<const N: usize> Deframer<N> {
    /// The held remainder never exceeds the capacity.
    pub closed spec fn wf(&self) -> bool {
        self.remainder_length <= N
    }

    /// Creates a deframer holding no remainder.
    pub fn new() -> (r: Self)
        ensures
            r.wf(),
            r@ == Seq::<u8>::empty(),
    {
        let r = Deframer { remainder: [0; N], remainder_length: 0 };
        proof {
            assert(r@ =~= Seq::<u8>::empty());
        }
        r
    }

    /// The number of remainder bytes currently held.
    pub fn remainder_length(&self) -> (n: usize)
        requires
            self.wf(),
        ensures
            n == self@.len(),
    {
        self.remainder_length
    }

    /// The remainder bytes currently held.
    pub fn remainder(&self) -> (r: &[u8])
        requires
            self.wf(),
        ensures
            r@ == self@,
    {
        vstd::slice::slice_subrange(self.remainder.as_slice(), 0, self.remainder_length)
    }

    /// The capacity invariant in the open: a well-formed deframer never holds
    /// more than `N` remainder bytes.
    pub proof fn lemma_wf_remainder_bounded(&self)
        requires
            self.wf(),
        ensures
            self@.len() <= N,
    {
    }

    /// Appends the whole chunk to the held remainder.
    fn append_remainder(&mut self, data_frame: &[u8])
        requires
            old(self).wf(),
            old(self)@.len() + data_frame@.len() <= N,
        ensures
            final(self).wf(),
            final(self)@ == old(self)@ + data_frame@,
    {
        let base: usize = self.remainder_length;
        let mut i: usize = 0;
        while i < data_frame.len()
            invariant
                i <= data_frame@.len(),
                base == old(self).remainder_length,
                self.remainder_length == base,
                base + data_frame@.len() <= N,
                self.remainder@.take(base as int) == old(self)@,
                forall|j: int| 0 <= j < i ==> self.remainder@[base + j] == data_frame@[j],
            decreases data_frame@.len() - i,
        {
            let b: u8 = data_frame[i];
            self.remainder[base + i] = b;
            proof {
                assert(self.remainder@.take(base as int) =~= old(self)@);
            }
            i += 1;
        }
        self.remainder_length = base + data_frame.len();
        proof {
            assert(self@ =~= old(self)@ + data_frame@);
        }
    }

    /// Replaces the held remainder with the chunk past the frame end.
    fn set_remainder_tail(&mut self, data_frame: &[u8], frame_end_pos: usize)
        requires
            frame_end_pos <= data_frame@.len(),
            data_frame@.len() - frame_end_pos <= N,
        ensures
            final(self).wf(),
            final(self)@ == data_frame@.skip(frame_end_pos as int),
    {
        let count: usize = data_frame.len() - frame_end_pos;
        let mut i: usize = frame_end_pos;
        while i < data_frame.len()
            invariant
                frame_end_pos <= i <= data_frame@.len(),
                count == data_frame@.len() - frame_end_pos,
                count <= N,
                forall|j: int|
                    0 <= j < i - frame_end_pos ==> self.remainder@[j] == data_frame@[frame_end_pos
                        + j],
            decreases data_frame@.len() - i,
        {
            let b: u8 = data_frame[i];
            self.remainder[i - frame_end_pos] = b;
            i += 1;
        }
        self.remainder_length = count;
        proof {
            assert(self@ =~= data_frame@.skip(frame_end_pos as int));
        }
    }

    /// Builds the output buffer: the held remainder followed by the chunk up
    /// to the frame end, with the count of valid leading bytes.
    fn make_output(&self, data_frame: &[u8], frame_end_pos: usize) -> (out: ([u8; N], usize))
        requires
            self.wf(),
            frame_end_pos <= data_frame@.len(),
            self@.len() + frame_end_pos <= N,
        ensures
            out.1 == self@.len() + frame_end_pos,
            out.0@.take(out.1 as int) == self@ + data_frame@.take(frame_end_pos as int),
    {
        let mut buffer: [u8; N] = [0; N];
        let rl: usize = self.remainder_length;
        let mut i: usize = 0;
        while i < rl
            invariant
                i <= rl,
                rl == self.remainder_length,
                self.wf(),
                rl + frame_end_pos <= N,
                forall|j: int| 0 <= j < i ==> buffer@[j] == self@[j],
            decreases rl - i,
        {
            let b: u8 = self.remainder[i];
            buffer[i] = b;
            i += 1;
        }
        let mut k: usize = 0;
        while k < frame_end_pos
            invariant
                k <= frame_end_pos,
                rl == self.remainder_length,
                self.wf(),
                rl + frame_end_pos <= N,
                frame_end_pos <= data_frame@.len(),
                forall|j: int| 0 <= j < rl ==> buffer@[j] == self@[j],
                forall|j: int| 0 <= j < k ==> buffer@[rl + j] == data_frame@[j],
            decreases frame_end_pos - k,
        {
            let b: u8 = data_frame[k];
            buffer[rl + k] = b;
            k += 1;
        }
        proof {
            assert(buffer@.take((rl + frame_end_pos) as int) =~= self@ + data_frame@.take(
                frame_end_pos as int,
            ));
        }
        (buffer, rl + frame_end_pos)
    }

    /// Consumes one chunk. Returns the bytes of every complete frame seen so
    /// far — the held remainder followed by the chunk up to the chosen frame
    /// end — with the count of valid leading bytes; bytes past that count are
    /// unspecified. Afterwards the deframer holds the chunk past the frame
    /// end, or, when no boundary was usable, the old remainder with the whole
    /// chunk appended. Fails with [`DeframeError::Overflow`], leaving the
    /// deframer unchanged, exactly when the bytes to emit or to keep would
    /// exceed `N`.
    ///
    /// `get_frame_end` is shown prefixes of the chunk and must answer the
    /// index of the last byte of a terminating delimiter within the view it
    /// was given, or `None`. With no held remainder the whole chunk is scanned
    /// once; otherwise the fit search walks leftwards from the rightmost
    /// reported boundary until one fits beside the held bytes.
    pub fn deframe<F: Fn(&[u8]) -> Option<usize>>(
        &mut self,
        data_frame: &[u8],
        get_frame_end: F,
    ) -> (r: Result<([u8; N], usize), DeframeError>)
        requires
            old(self).wf(),
            forall|s: &[u8]| #[trigger] call_requires(get_frame_end, (s,)),
            forall|s: &[u8], ro: Option<usize>|
                #[trigger] call_ensures(get_frame_end, (s,), ro) ==> report_in_bounds(s@, ro),
        ensures
            final(self).wf(),
            r is Err ==> *final(self) == *old(self),
            exists|p: int|
                #[trigger] deframe_post(get_frame_end, old(self)@, data_frame@, p, *final(self), r),
    {
        let ghost old_rem: Seq<u8> = self@;
        let frame_end_pos: usize;
        if self.remainder_length == 0 {
            let found = get_frame_end(data_frame);
            let n: usize = data_frame.len();
            frame_end_pos = match found {
                Some(d) => {
                    proof {
                        assert(report_in_bounds(data_frame@, found));
                        assert((d as int) < n as int);
                    }
                    d + 1
                },
                None => 0,
            };
            proof {
                assert(old_rem.len() == 0);
                assert(boundary_report(get_frame_end, data_frame@, found));
                assert(boundary_chosen(
                    get_frame_end,
                    data_frame@,
                    old_rem.len() as int,
                    N as int,
                    frame_end_pos as int,
                ));
            }
        } else {
            let avail: usize = N - self.remainder_length;
            let mut limit: usize = data_frame.len();
            let mut chosen: usize = 0;
            loop
                invariant
                    limit <= data_frame@.len(),
                    forall|s: &[u8], ro: Option<usize>|
                        #[trigger] call_ensures(get_frame_end, (s,), ro) ==> report_in_bounds(
                            s@,
                            ro,
                        ),
                    forall|s: &[u8]| #[trigger] call_requires(get_frame_end, (s,)),
                    forall|q: int|
                        fit_search_reports(
                            get_frame_end,
                            data_frame@,
                            limit as int,
                            avail as int,
                            q,
                        ) ==> fit_search_reports(
                            get_frame_end,
                            data_frame@,
                            data_frame@.len() as int,
                            avail as int,
                            q,
                        ),
                ensures
                    fit_search_reports(
                        get_frame_end,
                        data_frame@,
                        data_frame@.len() as int,
                        avail as int,
                        chosen as int,
                    ),
                    chosen == 0 || (chosen <= avail && chosen <= data_frame@.len()),
                decreases limit,
            {
                let view = vstd::slice::slice_subrange(data_frame, 0, limit);
                let found = get_frame_end(view);
                proof {
                    assert(boundary_report(
                        get_frame_end,
                        data_frame@.take(limit as int),
                        found,
                    ));
                }
                match found {
                    None => {
                        chosen = 0;
                        proof {
                            assert(fit_search_reports(
                                get_frame_end,
                                data_frame@,
                                limit as int,
                                avail as int,
                                0,
                            ));
                        }
                        break ;
                    },
                    Some(d) => {
                        assert((d as int) < limit);
                        if d < avail {
                            chosen = d + 1;
                            proof {
                                assert(fit_search_reports(
                                    get_frame_end,
                                    data_frame@,
                                    limit as int,
                                    avail as int,
                                    chosen as int,
                                ));
                            }
                            break ;
                        } else {
                            proof {
                                assert forall|q: int|
                                    fit_search_reports(
                                        get_frame_end,
                                        data_frame@,
                                        d as int,
                                        avail as int,
                                        q,
                                    ) implies fit_search_reports(
                                    get_frame_end,
                                    data_frame@,
                                    limit as int,
                                    avail as int,
                                    q,
                                ) by {
                                    assert(boundary_report(
                                        get_frame_end,
                                        data_frame@.take(limit as int),
                                        found,
                                    ));
                                }
                            }
                            limit = d;
                        }
                    },
                }
            }
            frame_end_pos = chosen;
            proof {
                assert(boundary_chosen(
                    get_frame_end,
                    data_frame@,
                    old_rem.len() as int,
                    N as int,
                    frame_end_pos as int,
                ));
            }
        }
        let ghost p: int = frame_end_pos as int;
        if frame_end_pos == 0 {
            if data_frame.len() > N - self.remainder_length {
                proof {
                    assert(remainder_after(old_rem, data_frame@, p).len() > N);
                    assert(deframe_post(get_frame_end, old_rem, data_frame@, p, *self, Err::<
                        ([u8; N], usize),
                        _,
                    >(DeframeError::Overflow)));
                }
                return Err(DeframeError::Overflow);
            }
            self.append_remainder(data_frame);
            let out: [u8; N] = [0; N];
            proof {
                assert(emitted(old_rem, data_frame@, p) =~= out@.take(0));
                assert(deframe_post(get_frame_end, old_rem, data_frame@, p, *self, Ok::<
                    _,
                    DeframeError,
                >((out, 0usize))));
            }
            Ok((out, 0))
        } else {
            if frame_end_pos > N - self.remainder_length {
                proof {
                    assert(emitted(old_rem, data_frame@, p).len() > N);
                    assert(deframe_post(get_frame_end, old_rem, data_frame@, p, *self, Err::<
                        ([u8; N], usize),
                        _,
                    >(DeframeError::Overflow)));
                }
                return Err(DeframeError::Overflow);
            }
            if data_frame.len() - frame_end_pos > N {
                proof {
                    assert(remainder_after(old_rem, data_frame@, p).len() > N);
                    assert(deframe_post(get_frame_end, old_rem, data_frame@, p, *self, Err::<
                        ([u8; N], usize),
                        _,
                    >(DeframeError::Overflow)));
                }
                return Err(DeframeError::Overflow);
            }
            let (out, out_len) = self.make_output(data_frame, frame_end_pos);
            self.set_remainder_tail(data_frame, frame_end_pos);
            proof {
                assert(deframe_post(get_frame_end, old_rem, data_frame@, p, *self, Ok::<
                    _,
                    DeframeError,
                >((out, out_len))));
            }
            Ok((out, out_len))
        }
    }
}

} // verus!
