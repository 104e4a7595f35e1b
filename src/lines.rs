//! Lines one by one, each in a string of its own.
use vstd::prelude::*;

use crate::diamond::{Action, DiamondInner, Event, ReaderState};

verus! {

/// What a step of a line iterator asks of the caller, or yields.
#[derive(Debug)]
pub enum LineStep {
    /// Release the current source if one is still held, open the source of the token at this
    /// index, and report `Opened` or `OpenFailed`.
    Open(usize),
    /// Read from the current source and report `Filled` or `ReadFailed`.
    Fill,
    /// The next line, with its newline if it has one.
    Line(String),
    /// No line is left.
    End,
    /// Reading failed with the error that the caller met last; no line follows.
    Fail,
    /// The line read is not valid UTF-8; no line follows.
    InvalidData,
}

/// The lines of all sources, each read as `DiamondInner::read_line` reads it into an empty
/// string. The first error ends the iteration.
pub struct LineIter {
    inner: DiamondInner,
    finished: bool,
}

impl View for LineIter {
    /// The reader's model, and whether the iteration is over.
    type V = (ReaderState, bool);

    closed spec fn view(&self) -> (ReaderState, bool) {
        (self.inner@, self.finished)
    }
}

impl LineIter {
    /// The reader within is consistent.
    pub closed spec fn inv(&self) -> bool {
        self.inner.inv()
    }

    pub(crate) fn new(inner: DiamondInner) -> (r: LineIter)
        requires
            inner.inv(),
        ensures
            r.inv(),
            r@ == (inner@, false),
    {
        LineIter { inner, finished: false }
    }

    /// The fields agree with a consistent model.
    pub proof fn lemma_inv_wf(&self)
        requires
            self.inv(),
        ensures
            self@.0.wf(),
    {
        self.inner.lemma_inv_wf();
    }

    /// Tells whether the iterator takes `e` in its present state.
    pub fn accepts(&self, e: &Event) -> (r: bool)
        requires
            self.inv(),
        ensures
            r == (self@.1 || self@.0.accepts(*e)),
    {
        self.finished || self.inner.accepts(e)
    }

    /// One step towards the next line. Once the iteration is over, every step yields `End`
    /// and changes nothing.
    pub fn next(&mut self, event: Event) -> (r: LineStep)
        requires
            old(self).inv(),
            old(self)@.1 || old(self)@.0.accepts(event),
        ensures
            final(self).inv(),
            old(self)@.1 ==> r is End && final(self)@ == old(self)@,
            r is End || r is Fail || r is InvalidData ==> final(self)@.1,
            r is Line ==> !final(self)@.1,
            !old(self)@.1 ==> ({
                let (s, text, a) = old(self)@.0.line_step(Seq::empty(), event);
                &&& final(self)@.0 == s
                &&& final(self)@.1 == !(a is Open || a is Fill || (a is Done && a->Done_0 > 0))
                &&& match a {
                    Action::Open(i) => r matches LineStep::Open(j) && j == i,
                    Action::Fill => r is Fill,
                    Action::Done(n) => if n == 0 {
                        r is End
                    } else {
                        r matches LineStep::Line(t) && t@ == text
                    },
                    Action::Fail => r is Fail,
                    Action::InvalidData => r is InvalidData,
                }
            }),
    {
        if self.finished {
            return LineStep::End;
        }
        let mut text = String::new();
        let a = self.inner.read_line(&mut text, event);
        match a {
            Action::Open(i) => LineStep::Open(i),
            Action::Fill => LineStep::Fill,
            Action::Done(n) => {
                if n == 0 {
                    self.finished = true;
                    LineStep::End
                } else {
                    LineStep::Line(text)
                }
            },
            Action::Fail => {
                self.finished = true;
                LineStep::Fail
            },
            Action::InvalidData => {
                self.finished = true;
                LineStep::InvalidData
            },
        }
    }
}

} // verus!
