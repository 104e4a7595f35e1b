//! The reader's state and its segmented read operations.
use vstd::prelude::*;
use vstd::utf8::{decode_utf8, valid_utf8};

use crate::sources::{tokens_for, views_of};
use crate::lines::LineIter;
use crate::stream::SingleStreamReader;
use crate::text::decode_text;
use vstd::string::StringExecFns;

verus! {

/// The stage of the source slot.
#[derive(PartialEq, Eq, Structural, Clone, Copy, Debug)]
pub enum Slot {
    /// No source is open.
    Empty,
    /// The caller was asked to open the source of the token at this index.
    Opening(usize),
    /// The source of the token at this index is open.
    Open(usize),
    /// The source of the token at this index reported its end, which closed the record that
    /// the last operation handed out. It is not read again; the next operation releases it.
    Ended(usize),
}

/// What the caller reports to the reader.
#[derive(Debug)]
pub enum Event {
    /// An operation begins.
    Start,
    /// The source that was asked for is open.
    Opened,
    /// The source that was asked for could not be opened.
    OpenFailed,
    /// The bytes that one read of the current source gave; none at all means its end.
    Filled(Vec<u8>),
    /// Reading the current source failed.
    ReadFailed,
}

/// What the reader asks of the caller.
#[derive(PartialEq, Eq, Structural, Clone, Copy, Debug)]
pub enum Action {
    /// Release the current source if one is still held, open the source of the token at this
    /// index, and report `Opened` or `OpenFailed`.
    Open(usize),
    /// Read from the current source and report `Filled` or `ReadFailed`.
    Fill,
    /// The operation is over and gave this many bytes; none means that every source is spent.
    Done(usize),
    /// The operation failed with the error that the caller met last.
    Fail,
    /// The operation failed: the line it read is not valid UTF-8.
    InvalidData,
}

/// The model of a reader.
pub struct ReaderState {
    /// The tokens, one per source, in order.
    pub tokens: Seq<Seq<char>>,
    /// The index of the next token to open.
    pub next: nat,
    /// The source slot.
    pub slot: Slot,
    /// Bytes of the current source that were read and not yet handed out.
    pub pending: Seq<u8>,
    /// Bytes that the delimiter read in progress has handed out so far.
    pub taken: nat,
    /// Bytes of the line read in progress.
    pub line: Seq<u8>,
}

/// How many bytes of `p` the next record takes: through the first `delim`, or all of `p` when
/// it holds none.
pub open spec fn record_len(p: Seq<u8>, delim: u8) -> nat
    decreases p.len(),
{
    if p.len() == 0 {
        0
    } else if p[0] == delim {
        1
    } else {
        1 + record_len(p.drop_first(), delim)
    }
}

impl ReaderState {
    /// The state is consistent.
    pub open spec fn wf(self) -> bool {
        &&& self.next <= self.tokens.len() <= usize::MAX
        &&& match self.slot {
            Slot::Empty => true,
            Slot::Opening(i) => i + 1 == self.next,
            Slot::Open(i) => i + 1 == self.next,
            Slot::Ended(i) => i + 1 == self.next,
        }
        &&& !(self.slot is Open) ==> self.pending.len() == 0 && self.taken == 0
        &&& self.taken + self.pending.len() <= usize::MAX
    }

    /// The index of the token whose source the reader holds, if it holds one.
    pub open spec fn current(self) -> Option<usize> {
        match self.slot {
            Slot::Open(i) => Some(i),
            Slot::Ended(i) => Some(i),
            _ => None,
        }
    }

    /// Every source is spent: none is open and no token is left.
    pub open spec fn is_exhausted(self) -> bool {
        &&& self.wf()
        &&& self.slot == Slot::Empty
        &&& self.next == self.tokens.len()
    }

    /// The event fits the state: it answers what the reader asked, or starts an operation.
    pub open spec fn accepts(self, e: Event) -> bool {
        match e {
            Event::Start => !(self.slot is Opening),
            Event::Opened => self.slot is Opening,
            Event::OpenFailed => self.slot is Opening,
            Event::Filled(c) => {
                &&& self.slot is Open
                &&& self.pending.len() == 0
                &&& self.taken + c@.len() <= usize::MAX
            },
            Event::ReadFailed => self.slot is Open,
        }
    }

    /// With no source open: ask for the next token's source, or, with none left, report that
    /// nothing is left to read.
    pub open spec fn open_next(self) -> (ReaderState, Option<Action>) {
        if self.next < self.tokens.len() {
            (
                ReaderState { slot: Slot::Opening(self.next as usize), next: self.next + 1, ..self },
                Some(Action::Open(self.next as usize)),
            )
        } else {
            (ReaderState { slot: Slot::Empty, ..self }, Some(Action::Done(0)))
        }
    }

    /// One step of the walk over the sources. `None` means that bytes of the current source
    /// wait in `pending`; otherwise the action is the answer to the caller. A source that
    /// reports its end is not read again. Its end closes a record that it began: the count is
    /// answered at once, with the source still held (`Ended`) until the next operation
    /// begins; with no such record, the source is released and the walk goes on.
    pub open spec fn advance(self, e: Event) -> (ReaderState, Option<Action>) {
        match e {
            Event::Start => {
                let s = ReaderState { taken: 0, ..self };
                if self.slot is Open {
                    if self.pending.len() > 0 {
                        (s, None)
                    } else {
                        (s, Some(Action::Fill))
                    }
                } else {
                    s.open_next()
                }
            },
            Event::Opened => (
                ReaderState { slot: Slot::Open(self.slot->Opening_0), ..self },
                Some(Action::Fill),
            ),
            Event::OpenFailed => (ReaderState { slot: Slot::Empty, ..self }, Some(Action::Fail)),
            Event::Filled(c) => {
                if c@.len() > 0 {
                    (ReaderState { pending: c@, ..self }, None)
                } else if self.taken > 0 {
                    (
                        ReaderState { slot: Slot::Ended(self.slot->Open_0), taken: 0, ..self },
                        Some(Action::Done(self.taken as usize)),
                    )
                } else {
                    ReaderState { slot: Slot::Empty, ..self }.open_next()
                }
            },
            Event::ReadFailed => (ReaderState { taken: 0, ..self }, Some(Action::Fail)),
        }
    }

    /// One step of a delimiter read into `buf`: the state after it, the buffer after it, and
    /// the answer. Each step appends the next record of the current source, or as much of it
    /// as was read; the operation is done at the delimiter or at the source's end.
    pub open spec fn until_step(self, delim: u8, buf: Seq<u8>, e: Event) -> (
        ReaderState,
        Seq<u8>,
        Action,
    ) {
        let (s, a) = self.advance(e);
        match a {
            Some(a) => (s, buf, a),
            None => {
                let k = record_len(s.pending, delim);
                let rec = s.pending.take(k as int);
                let rest = s.pending.skip(k as int);
                if rec.last() == delim {
                    (
                        ReaderState { pending: rest, taken: 0, ..s },
                        buf + rec,
                        Action::Done((s.taken + k) as usize),
                    )
                } else {
                    (ReaderState { pending: rest, taken: s.taken + k, ..s }, buf + rec, Action::Fill)
                }
            },
        }
    }

    /// One step of a line read into `text`: the bytes of the line are held in `line` until
    /// the line is complete, then decoded and appended to `text`, or refused when they are
    /// not valid UTF-8. When a read fails, the bytes read so far are appended if they are
    /// valid UTF-8, and dropped otherwise.
    pub open spec fn line_step(self, text: Seq<char>, e: Event) -> (
        ReaderState,
        Seq<char>,
        Action,
    ) {
        let held = if e is Start {
            Seq::empty()
        } else {
            self.line
        };
        let (s, bytes, a) = ReaderState { line: Seq::empty(), ..self }.until_step(
            newline(),
            held,
            e,
        );
        match a {
            Action::Done(n) => {
                if n == 0 {
                    (s, text, a)
                } else if valid_utf8(bytes) {
                    (s, text + decode_utf8(bytes), a)
                } else {
                    (s, text, Action::InvalidData)
                }
            },
            Action::Fail => {
                if valid_utf8(bytes) {
                    (s, text + decode_utf8(bytes), a)
                } else {
                    (s, text, a)
                }
            },
            _ => (ReaderState { line: bytes, ..s }, text, a),
        }
    }
}

/// The line delimiter.
pub open spec fn newline() -> u8 {
    10u8
}

/// The reader's state: the tokens, the next one to open, and at most one open source with the
/// bytes read from it that wait to be handed out.
pub struct DiamondInner {
    tokens: Vec<String>,
    next: usize,
    slot: Slot,
    buffer: Vec<u8>,
    pos: usize,
    taken: usize,
    line: Vec<u8>,
}

impl View for DiamondInner {
    type V = ReaderState;

    closed spec fn view(&self) -> ReaderState {
        ReaderState {
            tokens: views_of(self.tokens@),
            next: self.next as nat,
            slot: self.slot,
            pending: self.buffer@.subrange(self.pos as int, self.buffer@.len() as int),
            taken: self.taken as nat,
            line: self.line@,
        }
    }
}

proof fn lemma_record_len_step(q: Seq<u8>, delim: u8, j: int, n: int)
    requires
        0 <= j < n <= q.len(),
        q[j] != delim,
    ensures
        record_len(q.subrange(j, n), delim) == 1 + record_len(q.subrange(j + 1, n), delim),
{
    assert(q.subrange(j, n).drop_first() =~= q.subrange(j + 1, n));
}

impl DiamondInner {
    /// The fields agree with the model, and the model is consistent.
    pub closed spec fn inv(&self) -> bool {
        &&& self.pos <= self.buffer@.len()
        &&& self@.wf()
    }

    /// A reader over the sources that the command-line arguments `args` name.
    pub fn new(args: Vec<String>) -> (r: DiamondInner)
        ensures
            r.inv(),
            r@.tokens == tokens_for(views_of(args@)),
            r@.next == 0,
            r@.slot == Slot::Empty,
            r@.pending == Seq::<u8>::empty(),
            r@.taken == 0,
            r@.line == Seq::<u8>::empty(),
    {
        let tokens = crate::sources::source_tokens(args);
        let count = tokens.len();
        assert(views_of(tokens@).len() == count);
        let r = DiamondInner {
            tokens,
            next: 0,
            slot: Slot::Empty,
            buffer: Vec::new(),
            pos: 0,
            taken: 0,
            line: Vec::new(),
        };
        assert(r@.pending =~= Seq::<u8>::empty());
        r
    }

    /// The number of tokens.
    pub fn token_count(&self) -> (r: usize)
        ensures
            r == self@.tokens.len(),
    {
        self.tokens.len()
    }

    /// The token at index `i`.
    pub fn token(&self, i: usize) -> (r: &String)
        requires
            i < self@.tokens.len(),
        ensures
            r@ == self@.tokens[i as int],
    {
        &self.tokens[i]
    }

    /// The index of the token whose source the reader holds, if it holds one.
    pub fn current_token(&self) -> (r: Option<usize>)
        ensures
            r == self@.current(),
    {
        match self.slot {
            Slot::Open(i) => Some(i),
            Slot::Ended(i) => Some(i),
            _ => None,
        }
    }

    /// The fields agree with a consistent model.
    pub proof fn lemma_inv_wf(&self)
        requires
            self.inv(),
        ensures
            self@.wf(),
    {
    }

    /// Tells whether the reader takes `e` in its present state.
    pub fn accepts(&self, e: &Event) -> (r: bool)
        requires
            self.inv(),
        ensures
            r == self@.accepts(*e),
    {
        match e {
            Event::Start => !matches!(self.slot, Slot::Opening(_)),
            Event::Opened => matches!(self.slot, Slot::Opening(_)),
            Event::OpenFailed => matches!(self.slot, Slot::Opening(_)),
            Event::Filled(c) => {
                matches!(self.slot, Slot::Open(_)) && self.pos == self.buffer.len() && c.len()
                    <= usize::MAX - self.taken
            },
            Event::ReadFailed => matches!(self.slot, Slot::Open(_)),
        }
    }

    fn open_next(&mut self) -> (r: Option<Action>)
        requires
            old(self).inv(),
            !(old(self)@.slot is Open),
        ensures
            final(self).inv(),
            (final(self)@, r) == old(self)@.open_next(),
    {
        if self.next < self.tokens.len() {
            let i = self.next;
            self.slot = Slot::Opening(i);
            self.next = i + 1;
            Some(Action::Open(i))
        } else {
            self.slot = Slot::Empty;
            Some(Action::Done(0))
        }
    }

    /// One step of the walk over the sources: `None` when bytes of the current source wait to
    /// be handed out, otherwise the answer to the caller. Sources are opened one at a time,
    /// only when the one before is spent. A token whose source cannot be opened is reported
    /// once and passed over: the operation after the failed one goes on with the next token.
    /// A failed read leaves the source open, so that the caller may try again.
    pub fn read_inner(&mut self, event: Event) -> (r: Option<Action>)
        requires
            old(self).inv(),
            old(self)@.accepts(event),
        ensures
            final(self).inv(),
            (final(self)@, r) == old(self)@.advance(event),
            r == Some(Action::Done(0)) ==> final(self)@.is_exhausted(),
            r matches Some(Action::Done(n)) && n > 0 ==> final(self)@.current() == old(
                self,
            )@.current() && final(self)@.current() is Some,
    {
        proof {
            crate::laws::lemma_end_only_when_exhausted(self@, 10u8, Seq::empty(), event);
            crate::laws::lemma_count_keeps_source(self@, 10u8, Seq::empty(), event);
        }
        match event {
            Event::Start => {
                self.taken = 0;
                if matches!(self.slot, Slot::Open(_)) {
                    if self.pos < self.buffer.len() {
                        None
                    } else {
                        Some(Action::Fill)
                    }
                } else {
                    self.open_next()
                }
            },
            Event::Opened => {
                if let Slot::Opening(i) = self.slot {
                    self.slot = Slot::Open(i);
                }
                Some(Action::Fill)
            },
            Event::OpenFailed => {
                self.slot = Slot::Empty;
                Some(Action::Fail)
            },
            Event::Filled(chunk) => {
                if chunk.len() > 0 {
                    self.buffer = chunk;
                    self.pos = 0;
                    assert(self@.pending =~= chunk@);
                    None
                } else if self.taken > 0 {
                    if let Slot::Open(i) = self.slot {
                        self.slot = Slot::Ended(i);
                    }
                    let n = self.taken;
                    self.taken = 0;
                    Some(Action::Done(n))
                } else {
                    self.slot = Slot::Empty;
                    self.open_next()
                }
            },
            Event::ReadFailed => {
                self.taken = 0;
                Some(Action::Fail)
            },
        }
    }

    /// One step of a read of the next record, through the byte `byte`, into `buf`. The
    /// record's bytes are appended to `buf`; when the operation is done, its count is all that
    /// it appended. A record ends at the end of its source even without `byte`.
    pub fn read_until(&mut self, byte: u8, buf: &mut Vec<u8>, event: Event) -> (r: Action)
        requires
            old(self).inv(),
            old(self)@.accepts(event),
        ensures
            final(self).inv(),
            (final(self)@, final(buf)@, r) == old(self)@.until_step(byte, old(buf)@, event),
            r == Action::Done(0) ==> final(self)@.is_exhausted(),
            r matches Action::Done(n) && n > 0 ==> final(self)@.current() == old(self)@.current()
                && final(self)@.current() is Some,
    {
        proof {
            crate::laws::lemma_end_only_when_exhausted(self@, byte, buf@, event);
            crate::laws::lemma_count_keeps_source(self@, byte, buf@, event);
        }
        match self.read_inner(event) {
            Some(a) => a,
            None => {
                let ghost s1 = self@;
                let ghost q = self.buffer@;
                let ghost b0 = buf@;
                let start = self.pos;
                let end = self.buffer.len();
                let mut j: usize = start;
                let mut found = false;
                while j < end && !found
                    invariant
                        start <= j <= end,
                        start < end,
                        end == q.len(),
                        self.buffer@ == q,
                        buf@ == b0 + q.subrange(start as int, j as int),
                        !found ==> record_len(q.subrange(start as int, end as int), byte) == (j
                            - start) + record_len(q.subrange(j as int, end as int), byte),
                        !found ==> forall|t: int| start <= t < j ==> q[t] != byte,
                        found ==> j > start && q[j - 1] == byte && record_len(
                            q.subrange(start as int, end as int),
                            byte,
                        ) == j - start,
                    decreases end - j,
                {
                    let b = self.buffer[j];
                    buf.push(b);
                    proof {
                        if b == byte {
                            assert(q.subrange(j as int, end as int)[0] == byte);
                        } else {
                            lemma_record_len_step(q, byte, j as int, end as int);
                        }
                        assert(buf@ =~= b0 + q.subrange(start as int, j + 1));
                    }
                    j = j + 1;
                    if b == byte {
                        found = true;
                    }
                }
                let k = j - start;
                proof {
                    let p = s1.pending;
                    assert(p =~= q.subrange(start as int, end as int));
                    if !found {
                        assert(q.subrange(end as int, end as int).len() == 0);
                    }
                    assert(p.take(k as int) =~= q.subrange(start as int, j as int));
                    assert(p.skip(k as int) =~= q.subrange(j as int, end as int));
                }
                self.pos = j;
                if found {
                    let n = self.taken + k;
                    self.taken = 0;
                    Action::Done(n)
                } else {
                    self.taken = self.taken + k;
                    Action::Fill
                }
            },
        }
    }

    /// One step of a read of the next line into `buf`. The line ends after its newline or at
    /// the end of its source; once it is complete, it is decoded and appended to `buf`, or
    /// refused with `InvalidData`, leaving `buf` as it was, when it is not valid UTF-8. When a
    /// read fails, the part of the line read so far is appended if it is valid UTF-8.
    pub fn read_line(&mut self, buf: &mut String, event: Event) -> (r: Action)
        requires
            old(self).inv(),
            old(self)@.accepts(event),
        ensures
            final(self).inv(),
            (final(self)@, final(buf)@, r) == old(self)@.line_step(old(buf)@, event),
            r == Action::Done(0) ==> final(self)@.is_exhausted(),
            r matches Action::Done(n) && n > 0 ==> final(self)@.current() == old(self)@.current()
                && final(self)@.current() is Some,
    {
        let start = matches!(event, Event::Start);
        let mut line: Vec<u8> = Vec::new();
        std::mem::swap(&mut line, &mut self.line);
        if start {
            line.clear();
        }
        let a = self.read_until(10u8, &mut line, event);
        match a {
            Action::Done(n) => {
                if n == 0 {
                    a
                } else {
                    match decode_text(line) {
                        Some(t) => {
                            buf.append(t.as_str());
                            a
                        },
                        None => Action::InvalidData,
                    }
                }
            },
            Action::Fail => {
                if let Some(t) = decode_text(line) {
                    buf.append(t.as_str());
                }
                a
            },
            _ => {
                self.line = line;
                a
            },
        }
    }

    /// The lines of all sources, one by one; the reader is consumed.
    pub fn line_iter(self) -> (r: LineIter)
        requires
            self.inv(),
        ensures
            r.inv(),
            r@ == (self@, false),
    {
        LineIter::new(self)
    }

    /// All sources as one stream; the reader is consumed.
    pub fn reader(self) -> (r: SingleStreamReader)
        requires
            self.inv(),
        ensures
            r.inv(),
            r@ == self@,
    {
        SingleStreamReader::new(self)
    }

    /// The number of bytes of the current source that wait to be handed out.
    pub fn pending_len(&self) -> (r: usize)
        requires
            self.inv(),
        ensures
            r == self@.pending.len(),
    {
        self.buffer.len() - self.pos
    }

    /// The bytes of the current source that wait to be handed out.
    pub fn pending(&self) -> (r: &[u8])
        requires
            self.inv(),
        ensures
            r@ == self@.pending,
    {
        let all = self.buffer.as_slice();
        &all[self.pos..self.buffer.len()]
    }

    /// Hands out `amount` of the waiting bytes, or all of them when fewer wait.
    pub fn consume(&mut self, amount: usize)
        requires
            old(self).inv(),
        ensures
            final(self).inv(),
            final(self)@ == old(self)@.consumed(amount as nat),
    {
        let waiting = self.buffer.len() - self.pos;
        let k = if amount < waiting {
            amount
        } else {
            waiting
        };
        self.pos = self.pos + k;
        assert(self@.pending =~= old(self)@.consumed(amount as nat).pending);
    }
}

} // verus!
