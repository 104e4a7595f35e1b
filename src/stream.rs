//! All sources as one stream of bytes, with no boundary between them.
use vstd::prelude::*;

use crate::diamond::{Action, DiamondInner, Event, ReaderState};

verus! {

impl ReaderState {
    /// The state after `n` bytes of the current source are handed out: as many as wait, at
    /// most.
    pub open spec fn consumed(self, n: nat) -> ReaderState {
        let k = if n < self.pending.len() {
            n
        } else {
            self.pending.len()
        };
        ReaderState { pending: self.pending.skip(k as int), ..self }
    }

    /// One step of `fill_buf`: the state after it and the answer, where `Done(n)` means that
    /// `n` bytes wait to be looked at.
    pub open spec fn fill_step(self, e: Event) -> (ReaderState, Action) {
        let (s, a) = self.advance(e);
        match a {
            Some(a) => (s, a),
            None => (s, Action::Done(s.pending.len() as usize)),
        }
    }

    /// One step of `read` into `out`: the state after it, `out` after it, and the answer,
    /// where `Done(n)` means that the first `n` bytes of `out` were filled, as many as fit of
    /// what waits.
    pub open spec fn read_step(self, out: Seq<u8>, e: Event) -> (ReaderState, Seq<u8>, Action) {
        let (s, a) = self.advance(e);
        match a {
            Some(a) => (s, out, a),
            None => {
                let n = if out.len() < s.pending.len() {
                    out.len()
                } else {
                    s.pending.len()
                };
                (s.consumed(n), s.pending.take(n as int) + out.skip(n as int), Action::Done(n as usize))
            },
        }
    }
}

/// The sources read as one stream: the end of a source is not seen, only the end of the last.
pub struct SingleStreamReader {
    inner: DiamondInner,
}

impl View for SingleStreamReader {
    type V = ReaderState;

    closed spec fn view(&self) -> ReaderState {
        self.inner@
    }
}

impl SingleStreamReader {
    /// The reader within is consistent.
    pub closed spec fn inv(&self) -> bool {
        self.inner.inv()
    }

    pub(crate) fn new(inner: DiamondInner) -> (r: SingleStreamReader)
        requires
            inner.inv(),
        ensures
            r.inv(),
            r@ == inner@,
    {
        SingleStreamReader { inner }
    }

    /// The fields agree with a consistent model.
    pub proof fn lemma_inv_wf(&self)
        requires
            self.inv(),
        ensures
            self@.wf(),
    {
        self.inner.lemma_inv_wf();
    }

    /// Tells whether the stream takes `e` in its present state.
    pub fn accepts(&self, e: &Event) -> (r: bool)
        requires
            self.inv(),
        ensures
            r == self@.accepts(*e),
    {
        self.inner.accepts(e)
    }

    /// One step towards bytes to look at: `Done(n)` when `n` bytes wait in `buffer()`, where
    /// none means the end of every source. The end of a source that is not the last one is
    /// passed over.
    pub fn fill_buf(&mut self, event: Event) -> (r: Action)
        requires
            old(self).inv(),
            old(self)@.accepts(event),
        ensures
            final(self).inv(),
            (final(self)@, r) == old(self)@.fill_step(event),
            r == Action::Done(0) ==> final(self)@.is_exhausted(),
            old(self)@.is_exhausted() && event is Start ==> r == Action::Done(0) && final(self)@
                == old(self)@,
    {
        proof {
            self.lemma_inv_wf();
            crate::laws::lemma_end_only_when_exhausted(self@, 10u8, Seq::empty(), event);
            if self@.is_exhausted() {
                crate::laws::lemma_exhausted_reads_nothing(self@, 10u8, Seq::empty(), Seq::empty());
            }
        }
        match self.inner.read_inner(event) {
            Some(a) => a,
            None => Action::Done(self.inner.pending_len()),
        }
    }

    /// The bytes of the current source that wait to be handed out.
    pub fn buffer(&self) -> (r: &[u8])
        requires
            self.inv(),
        ensures
            r@ == self@.pending,
    {
        self.inner.pending()
    }

    /// Hands out `amount` of the waiting bytes, or all of them when fewer wait.
    pub fn consume(&mut self, amount: usize)
        requires
            old(self).inv(),
        ensures
            final(self).inv(),
            final(self)@ == old(self)@.consumed(amount as nat),
    {
        self.inner.consume(amount)
    }

    /// One step of a read into `out`: `Done(n)` when the first `n` bytes of `out` were
    /// filled, as many as fit of what waits, where none means the end of every source (or an
    /// empty `out`).
    pub fn read(&mut self, out: &mut [u8], event: Event) -> (r: Action)
        requires
            old(self).inv(),
            old(self)@.accepts(event),
        ensures
            final(self).inv(),
            (final(self)@, final(out)@, r) == old(self)@.read_step(old(out)@, event),
            r == Action::Done(0) && old(out)@.len() > 0 ==> final(self)@.is_exhausted(),
            old(self)@.is_exhausted() && event is Start ==> r == Action::Done(0) && final(self)@
                == old(self)@ && final(out)@ == old(out)@,
    {
        proof {
            self.lemma_inv_wf();
            crate::laws::lemma_end_only_when_exhausted(self@, 10u8, Seq::empty(), event);
            if self@.is_exhausted() {
                crate::laws::lemma_exhausted_reads_nothing(self@, 10u8, Seq::empty(), Seq::empty());
            }
        }
        match self.inner.read_inner(event) {
            Some(a) => a,
            None => {
                let ghost o0 = out@;
                let src = self.inner.pending();
                let n = if out.len() < src.len() {
                    out.len()
                } else {
                    src.len()
                };
                let mut i: usize = 0;
                while i < n
                    invariant
                        0 <= i <= n,
                        n <= out@.len(),
                        n <= src@.len(),
                        out@.len() == o0.len(),
                        forall|t: int| 0 <= t < i ==> out@[t] == src@[t],
                        forall|t: int| i <= t < out@.len() ==> out@[t] == o0[t],
                    decreases n - i,
                {
                    out[i] = src[i];
                    i = i + 1;
                }
                assert(out@ =~= src@.take(n as int) + o0.skip(n as int));
                self.inner.consume(n);
                Action::Done(n)
            },
        }
    }
}

} // verus!
