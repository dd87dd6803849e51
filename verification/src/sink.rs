//! The two collaborators a `DelayWriter` is built on: a byte sink that
//! accepts buffers and flushes, and a pauser that performs one delay period
//! per request.  Both are traits so that a caller can supply a real device;
//! the in-memory implementations here are themselves verified and let the
//! tests observe exactly what a writer forwarded and how often it paused.

use vstd::prelude::*;

verus! {

/// Diagnostic code of a sink that refused a write because it was full.
pub const SINK_FULL: u64 = 1;

/// Diagnostic code of a sink whose flush failed.
pub const FLUSH_FAILED: u64 = 2;

/// A failure reported by a sink.  `code` carries the sink's own diagnostic
/// value, passed through unchanged by whoever propagates the error.
#[derive(Clone, Copy, Debug, PartialEq, Eq, Structural)]
pub struct SinkError {
    pub code: u64,
}

/// A destination that accepts byte buffers and can flush.  Its model has
/// four observables: `received()` is every byte it has accepted so far, in
/// order; `write_results()` and `flushes()` are the answers it has given to
/// write and flush requests, one entry per request, in order; and
/// `never_fails()` says that it accepts every write.
pub trait Sink: Sized {
    /// The default model says nothing was received; every verified
    /// implementation overrides it, and an unverified one, which nothing
    /// checks against this model anyway, may leave it in place.
    open spec fn received(&self) -> Seq<u8> {
        Seq::empty()
    }

    /// The answers given to write requests so far.  The default, like that
    /// of `received`, is for unverified implementations only.
    open spec fn write_results(&self) -> Seq<Result<(), SinkError>> {
        Seq::empty()
    }

    /// The answers given to flush requests so far.  The default, like that
    /// of `received`, is for unverified implementations only.
    open spec fn flushes(&self) -> Seq<Result<(), SinkError>> {
        Seq::empty()
    }

    /// Whether every write request is accepted.  The default promises
    /// nothing; a sink that overrides it with `true` owes success on every
    /// write.
    open spec fn never_fails(&self) -> bool {
        false
    }

    /// The answer the next flush request from this state produces.  The
    /// default says a flush succeeds; a sink whose flush can fail overrides
    /// it.
    open spec fn flush_result(&self) -> Result<(), SinkError> {
        Ok(())
    }

    /// Accepts every byte of `buf`, in order, and answers the request.  On
    /// failure the sink keeps what it had plus some prefix of `buf` (a
    /// partial write); it never loses or reorders bytes already accepted,
    /// and a sink that never fails accepts the whole buffer.
    fn write_all_bytes(&mut self, buf: &[u8]) -> (r: Result<(), SinkError>)
        ensures
            final(self).write_results() == old(self).write_results().push(r),
            final(self).flushes() == old(self).flushes(),
            final(self).never_fails() == old(self).never_fails(),
            old(self).never_fails() ==> r is Ok,
            r is Ok ==> final(self).received() == old(self).received() + buf@,
            r is Err ==> exists|p: Seq<u8>|
                #[trigger] p.is_prefix_of(buf@)
                    && final(self).received() == old(self).received() + p,
    ;

    /// Flushes pending state and answers the request with exactly
    /// `flush_result()`; accepted bytes are neither gained nor lost.
    fn flush(&mut self) -> (r: Result<(), SinkError>)
        ensures
            r == old(self).flush_result(),
            final(self).flushes() == old(self).flushes().push(r),
            final(self).received() == old(self).received(),
            final(self).write_results() == old(self).write_results(),
            final(self).never_fails() == old(self).never_fails(),
    ;
}

/// Performs one delay period per call.  `pauses()` records every delay
/// period performed so far: one entry per period, holding its requested
/// length in milliseconds.
pub trait Pauser: Sized {
    /// The default model says no delay period was performed; every verified
    /// implementation overrides it, and an unverified one, which nothing
    /// checks against this model anyway, may leave it in place.
    open spec fn pauses(&self) -> Seq<u64> {
        Seq::empty()
    }

    fn pause(&mut self, delay: u64)
        ensures
            final(self).pauses() == old(self).pauses().push(delay),
    ;
}

/// Appends every byte of `buf` to `dest`, in order.
fn push_all(dest: &mut Vec<u8>, buf: &[u8])
    ensures
        final(dest)@ == old(dest)@ + buf@,
{
    let mut i: usize = 0;
    while i < buf.len()
        invariant
            i <= buf@.len(),
            dest@ == old(dest)@ + buf@.take(i as int),
        decreases buf@.len() - i,
    {
        let b = *vstd::slice::slice_index_get(buf, i);
        dest.push(b);
        proof {
            assert(buf@.take(i + 1) =~= buf@.take(i as int).push(buf@[i as int]));
            assert(dest@ =~= old(dest)@ + buf@.take(i + 1));
        }
        i += 1;
    }
    proof {
        assert(buf@.take(buf@.len() as int) =~= buf@);
    }
}

/// An in-memory sink that accepts everything and whose flush always
/// succeeds.
pub struct VecSink {
    pub data: Vec<u8>,
    pub write_log: Ghost<Seq<Result<(), SinkError>>>,
    pub flush_log: Ghost<Seq<Result<(), SinkError>>>,
}

impl VecSink {
    /// An empty sink that has answered no request yet.
    pub fn new() -> (r: VecSink)
        ensures
            r.data@ == Seq::<u8>::empty(),
            r.write_log@ == Seq::<Result<(), SinkError>>::empty(),
            r.flush_log@ == Seq::<Result<(), SinkError>>::empty(),
    {
        VecSink { data: Vec::new(), write_log: Ghost(Seq::empty()), flush_log: Ghost(Seq::empty()) }
    }
}

impl Sink for VecSink {
    open spec fn received(&self) -> Seq<u8> {
        self.data@
    }

    open spec fn write_results(&self) -> Seq<Result<(), SinkError>> {
        self.write_log@
    }

    open spec fn flushes(&self) -> Seq<Result<(), SinkError>> {
        self.flush_log@
    }

    open spec fn never_fails(&self) -> bool {
        true
    }

    fn write_all_bytes(&mut self, buf: &[u8]) -> (r: Result<(), SinkError>)
        ensures
            r is Ok,
    {
        push_all(&mut self.data, buf);
        self.write_log = Ghost(self.write_log@.push(Ok(())));
        Ok(())
    }

    fn flush(&mut self) -> (r: Result<(), SinkError>)
        ensures
            r is Ok,
    {
        self.flush_log = Ghost(self.flush_log@.push(Ok(())));
        Ok(())
    }
}

/// An in-memory sink with a capacity: a write whose bytes would not all fit
/// is refused whole, with `SINK_FULL`, and leaves the bytes unchanged.  Its
/// flush succeeds or fails as `flush_ok` says, with `FLUSH_FAILED`.
pub struct LimitedSink {
    pub data: Vec<u8>,
    pub capacity: usize,
    pub flush_ok: bool,
    pub write_log: Ghost<Seq<Result<(), SinkError>>>,
    pub flush_log: Ghost<Seq<Result<(), SinkError>>>,
}

impl LimitedSink {
    /// An empty sink that accepts at most `capacity` bytes in all and has
    /// answered no request yet.
    pub fn new(capacity: usize, flush_ok: bool) -> (r: LimitedSink)
        ensures
            r.data@ == Seq::<u8>::empty(),
            r.capacity == capacity,
            r.flush_ok == flush_ok,
            r.write_log@ == Seq::<Result<(), SinkError>>::empty(),
            r.flush_log@ == Seq::<Result<(), SinkError>>::empty(),
    {
        LimitedSink {
            data: Vec::new(),
            capacity,
            flush_ok,
            write_log: Ghost(Seq::empty()),
            flush_log: Ghost(Seq::empty()),
        }
    }
}

impl Sink for LimitedSink {
    open spec fn received(&self) -> Seq<u8> {
        self.data@
    }

    open spec fn write_results(&self) -> Seq<Result<(), SinkError>> {
        self.write_log@
    }

    open spec fn flushes(&self) -> Seq<Result<(), SinkError>> {
        self.flush_log@
    }

    open spec fn flush_result(&self) -> Result<(), SinkError> {
        if self.flush_ok {
            Ok(())
        } else {
            Err(SinkError { code: FLUSH_FAILED })
        }
    }

    fn write_all_bytes(&mut self, buf: &[u8]) -> (r: Result<(), SinkError>)
        ensures
            r is Ok <==> old(self).data@.len() + buf@.len() <= old(self).capacity,
            r is Err ==> r->Err_0 == (SinkError { code: SINK_FULL }) && final(self).data@ == old(
                self,
            ).data@,
            final(self).capacity == old(self).capacity,
            final(self).flush_ok == old(self).flush_ok,
    {
        if buf.len() <= self.capacity && self.data.len() <= self.capacity - buf.len() {
            push_all(&mut self.data, buf);
            self.write_log = Ghost(self.write_log@.push(Ok(())));
            Ok(())
        } else {
            proof {
                assert(Seq::<u8>::empty().is_prefix_of(buf@));
                assert(self.data@ =~= self.data@ + Seq::<u8>::empty());
            }
            let refusal = SinkError { code: SINK_FULL };
            self.write_log = Ghost(self.write_log@.push(Err(refusal)));
            Err(refusal)
        }
    }

    fn flush(&mut self) -> (r: Result<(), SinkError>)
        ensures
            final(self).data@ == old(self).data@,
            final(self).capacity == old(self).capacity,
            final(self).flush_ok == old(self).flush_ok,
    {
        if self.flush_ok {
            self.flush_log = Ghost(self.flush_log@.push(Ok(())));
            Ok(())
        } else {
            let failure = SinkError { code: FLUSH_FAILED };
            self.flush_log = Ghost(self.flush_log@.push(Err(failure)));
            Err(failure)
        }
    }
}

/// A pauser that records each requested delay period instead of sleeping;
/// the record stands for the delay periods a blocking pauser would perform.
pub struct CountingPauser {
    pub log: Vec<u64>,
}

impl CountingPauser {
    /// A pauser that has performed no delay period yet.
    pub fn new() -> (r: CountingPauser)
        ensures
            r.log@ == Seq::<u64>::empty(),
    {
        CountingPauser { log: Vec::new() }
    }
}

impl Pauser for CountingPauser {
    open spec fn pauses(&self) -> Seq<u64> {
        self.log@
    }

    fn pause(&mut self, delay: u64) {
        self.log.push(delay);
    }
}

}
