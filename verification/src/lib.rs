//! A line-delimited delaying writer.
//!
//! `DelayWriter` wraps a byte sink and turns each write into a paced one:
//! the buffer is split at newline bytes, every segment is forwarded to the
//! sink (with the separating newlines re-inserted exactly where they were
//! consumed), and one delay period follows every segment.  The content that
//! reaches the sink is byte-for-byte the content that was written; only the
//! timing changes.

use vstd::prelude::*;

pub mod lines;
pub mod sink;

verus! {

use crate::lines::{
    newline_count,
    segments,
    joined,
    NEWLINE,
    lemma_newline_count_add,
    lemma_newline_count_singleton,
    lemma_newline_count_take_skip,
    lemma_newline_count_zero,
    lemma_joined_take,
    lemma_take_le_joined,
    lemma_prefix_trans,
};
use crate::sink::{Sink, Pauser, SinkError};

/// The delay periods of one write call: `count` periods, each of `delay`
/// milliseconds.
pub open spec fn delay_run(delay: u64, count: nat) -> Seq<u64> {
    Seq::new(count, |i: int| delay)
}

/// `count` successful answers of the inner sink, one per forwarded chunk.
pub open spec fn ok_run(count: nat) -> Seq<Result<(), SinkError>> {
    Seq::new(count, |i: int| Ok(()))
}

/// What a write call has forwarded when the sink failed on the newline
/// that separates segment `index` from its predecessor: the earlier
/// segments with their separating newlines — `s` up to `seg_start - 1` —
/// plus whatever prefix `p0` of the failing newline the sink kept.  That
/// gain extends the first `index` segments rejoined and is a prefix of `s`.
proof fn lemma_stop_at_newline(s: Seq<u8>, seg_start: int, index: nat, p0: Seq<u8>)
    requires
        1 <= seg_start <= s.len(),
        s[seg_start - 1] == NEWLINE,
        index == newline_count(s.take(seg_start)),
        p0.is_prefix_of(seq![NEWLINE]),
    ensures
        1 <= index <= newline_count(s),
        joined(segments(s).take(index as int)).is_prefix_of(s.take(seg_start - 1) + p0),
        (s.take(seg_start - 1) + p0).is_prefix_of(s),
        (s.take(seg_start - 1) + p0).is_prefix_of(joined(segments(s).take(index as int + 1))),
{
    let q = seg_start - 1;
    assert(s.take(seg_start) =~= s.take(q) + seq![s[q]]);
    lemma_newline_count_add(s.take(q), seq![s[q]]);
    lemma_newline_count_singleton(s[q]);
    lemma_newline_count_take_skip(s, seg_start);
    lemma_joined_take(s, q);
    let p = s.take(q) + p0;
    assert(s.take(q).is_prefix_of(p)) by {
        assert(p.subrange(0, q) =~= s.take(q));
    };
    if p0.len() == 0 {
        assert(p =~= s.take(q));
        assert(p.is_prefix_of(s)) by {
            assert(s.subrange(0, q) =~= p);
        };
    } else {
        assert(seq![NEWLINE].subrange(0, 1) =~= seq![NEWLINE]);
        assert(p0 =~= seq![NEWLINE]);
        assert(p =~= s.take(seg_start));
        assert(p.is_prefix_of(s)) by {
            assert(s.subrange(0, seg_start) =~= p);
        };
    }
    assert(p.is_prefix_of(s.take(seg_start))) by {
        assert(s.take(seg_start).subrange(0, p.len() as int) =~= p);
    };
    lemma_take_le_joined(s, seg_start, index);
    lemma_prefix_trans(p, s.take(seg_start), joined(segments(s).take(index as int + 1)));
}

/// What a write call has forwarded when the sink failed on the bytes of
/// segment `index` itself, which span `seg_start` to `end`: everything up
/// to `seg_start` plus whatever prefix `p0` of the segment the sink kept.
/// That gain extends the first `index` segments rejoined and is a prefix
/// of `s`.
proof fn lemma_stop_at_segment(s: Seq<u8>, seg_start: int, end: int, index: nat, p0: Seq<u8>)
    requires
        0 <= seg_start <= end <= s.len(),
        index == newline_count(s.take(seg_start)),
        index == 0 ==> seg_start == 0,
        index >= 1 ==> seg_start >= 1 && s[seg_start - 1] == NEWLINE,
        forall|j: int| seg_start <= j < end ==> s[j] != NEWLINE,
        p0.is_prefix_of(s.subrange(seg_start, end)),
    ensures
        index <= newline_count(s),
        joined(segments(s).take(index as int)).is_prefix_of(s.take(seg_start) + p0),
        (s.take(seg_start) + p0).is_prefix_of(s),
        (s.take(seg_start) + p0).is_prefix_of(joined(segments(s).take(index as int + 1))),
{
    let p = s.take(seg_start) + p0;
    lemma_newline_count_take_skip(s, seg_start);
    assert(s.subrange(seg_start, end).subrange(0, p0.len() as int) =~= s.subrange(
        seg_start,
        seg_start + p0.len(),
    ));
    assert(p0 =~= s.subrange(seg_start, seg_start + p0.len()));
    assert(p =~= s.take(seg_start + p0.len()));
    assert(p.is_prefix_of(s)) by {
        assert(s.subrange(0, seg_start + p0.len()) =~= p);
    };
    if index == 0 {
        assert(segments(s).take(0) =~= Seq::<Seq<u8>>::empty());
        assert(joined(segments(s).take(0)) =~= Seq::<u8>::empty());
        assert(Seq::<u8>::empty().is_prefix_of(p)) by {
            assert(p.subrange(0, 0) =~= Seq::<u8>::empty());
        };
    } else {
        let q = seg_start - 1;
        assert(s.take(seg_start) =~= s.take(q) + seq![s[q]]);
        lemma_newline_count_add(s.take(q), seq![s[q]]);
        lemma_newline_count_singleton(s[q]);
        lemma_joined_take(s, q);
        assert(s.take(q).is_prefix_of(p)) by {
            assert(p.subrange(0, q) =~= s.take(q));
        };
    }
    assert(s.take(end) =~= s.take(seg_start) + s.subrange(seg_start, end));
    lemma_newline_count_add(s.take(seg_start), s.subrange(seg_start, end));
    assert(forall|j: int|
        0 <= j < s.subrange(seg_start, end).len() ==> s.subrange(seg_start, end)[j] != NEWLINE) by {
        assert(forall|j: int|
            0 <= j < s.subrange(seg_start, end).len() ==> s.subrange(seg_start, end)[j] == s[
                j + seg_start
            ]);
    };
    lemma_newline_count_zero(s.subrange(seg_start, end));
    assert(p.is_prefix_of(s.take(end))) by {
        assert(s.take(end).subrange(0, p.len() as int) =~= p);
    };
    lemma_take_le_joined(s, end, index);
    lemma_prefix_trans(p, s.take(end), joined(segments(s).take(index as int + 1)));
}

/// Wraps a sink and delays its output after each line.
///
/// A write call splits its buffer at newline bytes, forwards segment after
/// segment to the inner sink — re-inserting the separating newline before
/// every segment but the first — and performs one delay period of `delay`
/// milliseconds after each segment, the first and the last included,
/// whether or not the buffer ends in a newline.
pub struct DelayWriter<W: Sink, P: Pauser> {
    /// The sink every byte is forwarded to.
    pub inner: W,
    /// Performs the delay periods.
    pub pauser: P,
    /// The length of one delay period, in milliseconds; fixed at
    /// construction.  Zero is legal and stands for no observable delay.
    pub delay: u64,
}

impl<W: Sink, P: Pauser> DelayWriter<W, P> {
    /// Creates a new `DelayWriter` that forwards to `inner` and pauses
    /// through `pauser` for `delay` milliseconds after each segment.
    pub fn new(inner: W, pauser: P, delay: u64) -> (r: Self)
        ensures
            r.inner == inner,
            r.pauser == pauser,
            r.delay == delay,
    {
        DelayWriter { inner, pauser, delay }
    }

    /// Forwards `buf` to the inner sink, one newline-separated segment at a
    /// time, with one delay period after every segment.
    ///
    /// On success the sink has received exactly the bytes of `buf`, in
    /// order, after what it already held; one delay period of the
    /// configured length was performed per segment, `newline_count + 1` in
    /// all; and the call returns the length of `buf` — always, when the
    /// sink never fails.  On a sink failure the call stops at once and
    /// surfaces that failure unmodified: the returned error is the failing
    /// answer itself, the sink's last, and every earlier answer of this
    /// call was a success.  Some first `i` segments, rejoined with their
    /// separating newlines, have reached the sink — possibly followed by a
    /// partial forward the sink kept, never by anything past the failing
    /// segment — exactly `i` delay periods took place, and no later segment
    /// was forwarded or followed by a delay period.  No flush is forwarded.
    pub fn write(&mut self, buf: &[u8]) -> (r: Result<usize, SinkError>)
        ensures
            final(self).delay == old(self).delay,
            final(self).inner.flushes() == old(self).inner.flushes(),
            final(self).inner.never_fails() == old(self).inner.never_fails(),
            old(self).inner.never_fails() ==> r is Ok,
            r is Ok ==> ({
                &&& r->Ok_0 == buf@.len()
                &&& final(self).inner.received() == old(self).inner.received() + buf@
                &&& final(self).inner.write_results() == old(self).inner.write_results() + ok_run(
                    2 * newline_count(buf@) + 1,
                )
                &&& final(self).pauser.pauses() == old(self).pauser.pauses() + delay_run(
                    old(self).delay,
                    newline_count(buf@) + 1,
                )
            }),
            r is Err ==> exists|i: nat, p: Seq<u8>, c: nat|
                #![trigger joined(segments(buf@).take(i as int)).is_prefix_of(p), ok_run(c)]
                {
                    &&& i <= newline_count(buf@)
                    &&& c <= 2 * i
                    &&& joined(segments(buf@).take(i as int)).is_prefix_of(p)
                    &&& p.is_prefix_of(joined(segments(buf@).take(i as int + 1)))
                    &&& p.is_prefix_of(buf@)
                    &&& final(self).inner.received() == old(self).inner.received() + p
                    &&& final(self).inner.write_results() == old(self).inner.write_results()
                        + ok_run(c).push(Err(r->Err_0))
                    &&& final(self).pauser.pauses() == old(self).pauser.pauses() + delay_run(
                        old(self).delay,
                        i,
                    )
                },
    {
        let n = buf.len();
        let mut nl: Vec<u8> = Vec::new();
        nl.push(NEWLINE);
        let mut seg_start: usize = 0;
        let mut index: usize = 0;
        proof {
            assert(buf@.take(0) =~= Seq::<u8>::empty());
            assert(newline_count(buf@.take(0)) == 0);
            assert(self.inner.received() =~= old(self).inner.received() + buf@.take(0));
            assert(delay_run(self.delay, 0) =~= Seq::<u64>::empty());
            assert(self.pauser.pauses() =~= old(self).pauser.pauses() + delay_run(self.delay, 0));
            assert(ok_run(0) =~= Seq::<Result<(), SinkError>>::empty());
            assert(self.inner.write_results() =~= old(self).inner.write_results() + ok_run(0));
        }
        loop
            invariant
                n == buf@.len(),
                seg_start <= n,
                index <= seg_start,
                nl@ == seq![NEWLINE],
                index == newline_count(buf@.take(seg_start as int)),
                index == 0 ==> seg_start == 0,
                index >= 1 ==> seg_start >= 1 && buf@[seg_start as int - 1] == NEWLINE,
                self.delay == old(self).delay,
                self.inner.flushes() == old(self).inner.flushes(),
                self.inner.never_fails() == old(self).inner.never_fails(),
                self.inner.write_results() == old(self).inner.write_results() + ok_run(
                    if index == 0 {
                        0nat
                    } else {
                        (2 * index - 1) as nat
                    },
                ),
                self.inner.received() == old(self).inner.received() + buf@.take(
                    if index == 0 {
                        0int
                    } else {
                        seg_start as int - 1
                    },
                ),
                self.pauser.pauses() == old(self).pauser.pauses() + delay_run(
                    old(self).delay,
                    index as nat,
                ),
            decreases n - seg_start,
        {
            let ghost rec_entry = self.inner.received();
            let ghost oks_entry: nat = if index == 0 {
                0nat
            } else {
                (2 * index - 1) as nat
            };
            if index != 0 {
                let res = self.inner.write_all_bytes(nl.as_slice());
                match res {
                    Ok(u) => {
                        proof {
                            assert(res == Ok::<(), SinkError>(u));
                            assert(buf@.take(seg_start as int) =~= buf@.take(seg_start as int - 1)
                                + nl@);
                            assert(self.inner.received() =~= old(self).inner.received()
                                + buf@.take(seg_start as int));
                            assert(ok_run(oks_entry).push(Ok(())) =~= ok_run(oks_entry + 1));
                            assert((old(self).inner.write_results() + ok_run(oks_entry)).push(
                                Ok(()),
                            ) =~= old(self).inner.write_results() + ok_run(oks_entry).push(
                                Ok(()),
                            ));
                            assert(self.inner.write_results() =~= old(self).inner.write_results()
                                + ok_run(oks_entry + 1));
                        }
                    },
                    Err(e) => {
                        proof {
                            let p0 = choose|p0: Seq<u8>|
                                #[trigger] p0.is_prefix_of(nl@) && self.inner.received()
                                    == rec_entry + p0;
                            lemma_stop_at_newline(buf@, seg_start as int, index as nat, p0);
                            let p = buf@.take(seg_start as int - 1) + p0;
                            assert(self.inner.received() =~= old(self).inner.received() + p);
                            assert(joined(segments(buf@).take(index as int)).is_prefix_of(p));
                            assert(self.inner.write_results() =~= old(self).inner.write_results()
                                + ok_run(oks_entry).push(Err(e)));
                        }
                        return Err(e);
                    },
                }
            }
            let mut end: usize = seg_start;
            while end < n && *vstd::slice::slice_index_get(buf, end) != NEWLINE
                invariant
                    n == buf@.len(),
                    seg_start <= end <= n,
                    forall|j: int| seg_start <= j < end ==> buf@[j] != NEWLINE,
                decreases n - end,
            {
                end = end + 1;
            }
            let ghost rec_seg = self.inner.received();
            let ghost oks_seg: nat = if index == 0 {
                0nat
            } else {
                (2 * index) as nat
            };
            proof {
                assert(rec_seg =~= old(self).inner.received() + buf@.take(seg_start as int));
                assert(self.inner.write_results() =~= old(self).inner.write_results() + ok_run(
                    oks_seg,
                ));
            }
            let seg = vstd::slice::slice_subrange(buf, seg_start, end);
            let res = self.inner.write_all_bytes(seg);
            match res {
                Ok(u) => {
                    proof {
                        assert(res == Ok::<(), SinkError>(u));
                        assert(buf@.take(end as int) =~= buf@.take(seg_start as int)
                            + buf@.subrange(seg_start as int, end as int));
                        assert(self.inner.received() =~= old(self).inner.received() + buf@.take(
                            end as int,
                        ));
                        assert(ok_run(oks_seg).push(Ok(())) =~= ok_run(oks_seg + 1));
                        assert((old(self).inner.write_results() + ok_run(oks_seg)).push(Ok(()))
                            =~= old(self).inner.write_results() + ok_run(oks_seg).push(Ok(())));
                        assert(self.inner.write_results() =~= old(self).inner.write_results()
                            + ok_run(oks_seg + 1));
                    }
                },
                Err(e) => {
                    proof {
                        let p0 = choose|p0: Seq<u8>|
                            #[trigger] p0.is_prefix_of(seg@) && self.inner.received() == rec_seg
                                + p0;
                        lemma_stop_at_segment(buf@, seg_start as int, end as int, index as nat,
                            p0);
                        let p = buf@.take(seg_start as int) + p0;
                        assert(self.inner.received() =~= old(self).inner.received() + p);
                        assert(joined(segments(buf@).take(index as int)).is_prefix_of(p));
                        assert(self.inner.write_results() =~= old(self).inner.write_results()
                            + ok_run(oks_seg).push(Err(e)));
                    }
                    return Err(e);
                },
            }
            self.pauser.pause(self.delay);
            proof {
                assert(delay_run(old(self).delay, index as nat + 1) =~= delay_run(
                    old(self).delay,
                    index as nat,
                ).push(old(self).delay));
                assert(self.pauser.pauses() =~= old(self).pauser.pauses() + delay_run(
                    old(self).delay,
                    index as nat + 1,
                ));
            }
            if end == n {
                proof {
                    lemma_newline_count_take_skip(buf@, seg_start as int);
                    assert(forall|j: int|
                        0 <= j < buf@.skip(seg_start as int).len() ==> buf@.skip(
                            seg_start as int,
                        )[j] != NEWLINE) by {
                        assert(forall|j: int|
                            0 <= j < buf@.skip(seg_start as int).len() ==> buf@.skip(
                                seg_start as int,
                            )[j] == buf@[j + seg_start]);
                    };
                    lemma_newline_count_zero(buf@.skip(seg_start as int));
                    assert(newline_count(buf@) == index);
                    assert(buf@.take(n as int) =~= buf@);
                }
                return Ok(n);
            }
            let ghost prev_start: int = seg_start as int;
            index = index + 1;
            seg_start = end + 1;
            proof {
                assert(buf@.take(end as int + 1) =~= buf@.take(end as int) + seq![buf@[
                    end as int
                ]]);
                lemma_newline_count_add(buf@.take(end as int), seq![buf@[end as int]]);
                lemma_newline_count_singleton(buf@[end as int]);
                assert(buf@.take(end as int) =~= buf@.take(prev_start) + buf@.subrange(
                    prev_start,
                    end as int,
                ));
                lemma_newline_count_add(buf@.take(prev_start), buf@.subrange(
                    prev_start,
                    end as int,
                ));
                assert(forall|j: int|
                    0 <= j < buf@.subrange(prev_start, end as int).len() ==> buf@.subrange(
                        prev_start,
                        end as int,
                    )[j] != NEWLINE) by {
                    assert(forall|j: int|
                        0 <= j < buf@.subrange(prev_start, end as int).len() ==> buf@.subrange(
                            prev_start,
                            end as int,
                        )[j] == buf@[j + prev_start]);
                };
                lemma_newline_count_zero(buf@.subrange(prev_start, end as int));
                assert(newline_count(buf@.take(seg_start as int)) == index);
            }
        }
    }

    /// Forwards exactly one flush request to the inner sink and returns
    /// that request's answer unchanged; no delay period occurs and no byte
    /// moves.
    pub fn flush(&mut self) -> (r: Result<(), SinkError>)
        ensures
            r == old(self).inner.flush_result(),
            final(self).inner.flushes() == old(self).inner.flushes().push(r),
            final(self).inner.received() == old(self).inner.received(),
            final(self).inner.write_results() == old(self).inner.write_results(),
            final(self).inner.never_fails() == old(self).inner.never_fails(),
            final(self).pauser == old(self).pauser,
            final(self).delay == old(self).delay,
    {
        self.inner.flush()
    }
}

}
