//! What holds of every run of the reader.
use vstd::prelude::*;

use crate::diamond::{Action, Event, ReaderState, Slot};

verus! {

/// Once every source is spent, each operation answers that no byte is left, asks for no
/// outside work (so it neither opens, nor reads, nor fails), leaves the caller's buffer as it
/// was, and leaves the reader spent: calling it again gives the same answer.
pub proof fn lemma_exhausted_reads_nothing(
    s: ReaderState,
    delim: u8,
    bytes: Seq<u8>,
    text: Seq<char>,
)
    requires
        s.is_exhausted(),
    ensures
        s.advance(Event::Start) == (s, Some(Action::Done(0))),
        s.until_step(delim, bytes, Event::Start) == (s, bytes, Action::Done(0)),
        s.line_step(text, Event::Start).1 == text,
        s.line_step(text, Event::Start).2 == Action::Done(0),
        s.line_step(text, Event::Start).0.is_exhausted(),
{
}

/// A delimiter read only appends to the buffer it is given. What the operation has appended
/// is counted from its start: the count it ends with is every byte that its steps appended.
pub proof fn lemma_read_until_appends(s: ReaderState, delim: u8, buf: Seq<u8>, e: Event)
    requires
        s.wf(),
        s.accepts(e),
    ensures
        ({
            let (t, out, a) = s.until_step(delim, buf, e);
            let before = if e is Start {
                0
            } else {
                s.taken
            };
            &&& buf.len() <= out.len()
            &&& out.take(buf.len() as int) == buf
            &&& a is Open ==> t.taken == before && out == buf
            &&& a is Fill ==> t.taken == before + (out.len() - buf.len())
            &&& a matches Action::Done(n) ==> n == before + (out.len() - buf.len())
            &&& t.wf()
        }),
{
    let (t, out, a) = s.until_step(delim, buf, e);
    let (s1, a1) = s.advance(e);
    if a1 is None {
        record_len_bounds(s1.pending, delim);
        assert(out.take(buf.len() as int) =~= buf);
    } else {
        assert(out.take(buf.len() as int) =~= buf);
    }
}

/// The record length is at least one byte of a non-empty sequence and at most all of it, and
/// the record ends with the delimiter exactly when the sequence holds one.
proof fn record_len_bounds(p: Seq<u8>, delim: u8) -> (k: nat)
    ensures
        k == crate::diamond::record_len(p, delim),
        k <= p.len(),
        p.len() > 0 ==> k > 0,
    decreases p.len(),
{
    let k = crate::diamond::record_len(p, delim);
    if p.len() > 0 && p[0] != delim {
        record_len_bounds(p.drop_first(), delim);
    }
    k
}

/// The reader only moves forward: the tokens stay as they are, and none is opened twice.
pub proof fn lemma_advance_moves_forward(s: ReaderState, e: Event)
    requires
        s.wf(),
        s.accepts(e),
    ensures
        s.advance(e).0.tokens == s.tokens,
        s.advance(e).0.next >= s.next,
        s.advance(e).1 matches Some(Action::Open(i)) ==> i == s.advance(e).0.next - 1 && i
            >= s.next,
        s.advance(e).0.wf(),
{
}

/// No operation reports the end while a source is left: a step answers that no byte is left
/// only when every source is spent. So the end of one source is never the end of the stream.
pub proof fn lemma_end_only_when_exhausted(s: ReaderState, delim: u8, buf: Seq<u8>, e: Event)
    requires
        s.wf(),
        s.accepts(e),
    ensures
        s.advance(e).1 == Some(Action::Done(0)) ==> s.advance(e).0.is_exhausted(),
        s.advance(e).1 is None ==> s.advance(e).0.pending.len() > 0,
        s.until_step(delim, buf, e).2 == Action::Done(0) ==> s.until_step(
            delim,
            buf,
            e,
        ).0.is_exhausted(),
{
    let (s1, a1) = s.advance(e);
    if a1 is None {
        record_len_bounds(s1.pending, delim);
    }
}

/// A positive count comes with the source it was read from: the reader still holds that
/// source when the count is answered, also when the record ended at the source's end.
pub proof fn lemma_count_keeps_source(s: ReaderState, delim: u8, buf: Seq<u8>, e: Event)
    requires
        s.wf(),
        s.accepts(e),
    ensures
        s.advance(e).1 matches Some(Action::Done(n)) && n > 0 ==> s.advance(e).0.current()
            == s.current() && s.current() is Some,
        s.until_step(delim, buf, e).2 matches Action::Done(n) && n > 0 ==> s.until_step(
            delim,
            buf,
            e,
        ).0.current() == s.current() && s.current() is Some,
{
}

/// The state and buffer after the steps of `events`, one after the other, and the last answer.
pub open spec fn until_steps(s: ReaderState, delim: u8, buf: Seq<u8>, events: Seq<Event>) -> (
    ReaderState,
    Seq<u8>,
    Action,
)
    recommends
        events.len() > 0,
    decreases events.len(),
{
    let (t, b, a) = s.until_step(delim, buf, events[0]);
    if events.len() <= 1 {
        (t, b, a)
    } else {
        until_steps(t, delim, b, events.drop_first())
    }
}

/// `events` is one delimiter read, in progress or over: each event fits the state it meets,
/// no event but the first starts an operation, and every answer but the last asks the caller
/// to open or to read.
pub open spec fn is_until_run(s: ReaderState, delim: u8, buf: Seq<u8>, events: Seq<Event>) -> bool
    decreases events.len(),
{
    &&& events.len() > 0
    &&& s.accepts(events[0])
    &&& forall|k: int| 1 <= k < events.len() ==> !(#[trigger] events[k] is Start)
    &&& events.len() > 1 ==> {
        let (t, b, a) = s.until_step(delim, buf, events[0]);
        &&& (a is Open || a is Fill)
        &&& is_until_run(t, delim, b, events.drop_first())
    }
}

/// A whole delimiter read only appends to the buffer it is given, and the count it ends with
/// is the number of bytes it appended: after it, the buffer is the old one followed by `n`
/// bytes.
pub proof fn lemma_read_until_operation_appends(
    s: ReaderState,
    delim: u8,
    buf: Seq<u8>,
    events: Seq<Event>,
)
    requires
        s.wf(),
        events.len() > 0,
        events[0] is Start,
        is_until_run(s, delim, buf, events),
    ensures
        ({
            let (t, out, a) = until_steps(s, delim, buf, events);
            &&& buf.len() <= out.len()
            &&& out.take(buf.len() as int) == buf
            &&& a matches Action::Done(n) ==> out.len() == buf.len() + n
            &&& t.wf()
        }),
{
    assert(buf.take(buf.len() as int) =~= buf);
    lemma_until_run_counts(s, delim, buf, buf, events);
}

proof fn lemma_until_run_counts(
    s: ReaderState,
    delim: u8,
    base: Seq<u8>,
    buf: Seq<u8>,
    events: Seq<Event>,
)
    requires
        s.wf(),
        is_until_run(s, delim, buf, events),
        base.len() <= buf.len(),
        buf.take(base.len() as int) == base,
        if events[0] is Start {
            buf == base
        } else {
            s.taken == buf.len() - base.len()
        },
    ensures
        ({
            let (t, out, a) = until_steps(s, delim, buf, events);
            &&& base.len() <= out.len()
            &&& out.take(base.len() as int) == base
            &&& a matches Action::Done(n) ==> out.len() == base.len() + n
            &&& t.wf()
        }),
    decreases events.len(),
{
    lemma_read_until_appends(s, delim, buf, events[0]);
    let (t, b, a) = s.until_step(delim, buf, events[0]);
    assert(b.take(base.len() as int) =~= b.take(buf.len() as int).take(base.len() as int));
    if events.len() > 1 {
        let rest = events.drop_first();
        assert(rest[0] == events[1]);
        assert forall|k: int| 1 <= k < rest.len() implies !(#[trigger] rest[k] is Start) by {
            assert(rest[k] == events[k + 1]);
        }
        lemma_until_run_counts(t, delim, base, b, rest);
    }
}

/// The bytes of the sources from index `i` on, one after the other.
pub open spec fn concat_from(contents: Seq<Seq<u8>>, i: nat) -> Seq<u8>
    decreases contents.len() - i,
{
    if i < contents.len() {
        contents[i as int] + concat_from(contents, i + 1)
    } else {
        Seq::empty()
    }
}

/// The sources hold `contents`, one per token, and `unread` is what the held source has not
/// given yet (nothing, unless a source is open).
pub open spec fn world_fits(s: ReaderState, contents: Seq<Seq<u8>>, unread: Seq<u8>) -> bool {
    &&& contents.len() == s.tokens.len()
    &&& !(s.slot is Open) ==> unread.len() == 0
}

/// What the stream has still to hand out: the bytes that wait in the reader, what the open
/// source has not given yet, and every later source.
pub open spec fn still_to_come(s: ReaderState, contents: Seq<Seq<u8>>, unread: Seq<u8>) -> Seq<
    u8,
> {
    match s.slot {
        Slot::Opening(i) => concat_from(contents, i as nat),
        _ => s.pending + unread + concat_from(contents, s.next),
    }
}

/// The event is what the world gives when every open and every read succeeds: an opened
/// source starts at its first byte, and a read gives the next bytes of the source, none only
/// at its end.
pub open spec fn is_faithful(e: Event, unread: Seq<u8>) -> bool {
    match e {
        Event::Filled(c) => {
            &&& c@.len() <= unread.len()
            &&& c@ == unread.take(c@.len() as int)
            &&& c@.len() == 0 ==> unread.len() == 0
        },
        Event::Start => true,
        Event::Opened => true,
        _ => false,
    }
}

/// What the held source has not given yet, after the event.
pub open spec fn unread_after(
    s: ReaderState,
    contents: Seq<Seq<u8>>,
    unread: Seq<u8>,
    e: Event,
) -> Seq<u8> {
    match e {
        Event::Opened => contents[s.slot->Opening_0 as int],
        Event::Filled(c) => unread.skip(c@.len() as int),
        _ => unread,
    }
}

/// The stream is all sources, one after the other, with no boundary between them. A stream
/// counts no record, so `taken` stays zero. At the outset, all of them are still to come. Each read, when every open and read succeeds, hands
/// out the first bytes of what is still to come and leaves the rest to come. When a read with
/// room for a byte answers `Done(0)`, nothing is left to come. So a run of reads hands out, in
/// order, exactly the bytes of the sources, one after the other.
pub proof fn lemma_stream_is_concatenation(
    s: ReaderState,
    contents: Seq<Seq<u8>>,
    unread: Seq<u8>,
    out: Seq<u8>,
    e: Event,
)
    requires
        s.wf(),
        s.accepts(e),
        s.taken == 0,
        world_fits(s, contents, unread),
        is_faithful(e, unread),
    ensures
        s.next == 0 && s.slot == Slot::Empty ==> still_to_come(s, contents, unread) == concat_from(
            contents,
            0,
        ),
        ({
            let (t, o, a) = s.read_step(out, e);
            let n: nat = if a is Done {
                a->Done_0 as nat
            } else {
                0
            };
            let u = unread_after(s, contents, unread, e);
            &&& world_fits(t, contents, u)
            &&& t.wf()
            &&& t.taken == 0
            &&& n <= o.len()
            &&& o.take(n as int) + still_to_come(t, contents, u) == still_to_come(s, contents, unread)
            &&& a == Action::Done(0) && out.len() > 0 ==> still_to_come(t, contents, u).len() == 0
        }),
{
    let (t, o, a) = s.read_step(out, e);
    let u = unread_after(s, contents, unread, e);
    let (s1, a1) = s.advance(e);
    lemma_end_only_when_exhausted(s, 10u8, Seq::empty(), e);
    lemma_advance_moves_forward(s, e);
    if s.next == 0 && s.slot == Slot::Empty {
        assert(s.pending.len() == 0);
        assert(s.pending + unread + concat_from(contents, 0) =~= concat_from(contents, 0));
    }
    if a1 is None {
        let k = if out.len() < s1.pending.len() {
            out.len()
        } else {
            s1.pending.len()
        };
        assert(o.take(k as int) =~= s1.pending.take(k as int));
        assert(s1.pending.take(k as int) + s1.pending.skip(k as int) =~= s1.pending);
        if e is Filled {
            assert(unread.take(s1.pending.len() as int) + unread.skip(s1.pending.len() as int)
                =~= unread);
        }
        assert(o.take(k as int) + still_to_come(t, contents, u) =~= still_to_come(
            s,
            contents,
            unread,
        ));
    } else {
        assert(o.take(0) + still_to_come(t, contents, u) =~= still_to_come(t, contents, u));
        match e {
            Event::Opened => {
                assert(contents[s.slot->Opening_0 as int] + concat_from(contents, s.next) =~= s1.pending
                    + u + concat_from(contents, s1.next));
            },
            Event::Start => {
                if !(s.slot is Open) {
                    assert(s.pending + unread + concat_from(contents, s.next) =~= concat_from(
                        contents,
                        s.next,
                    ));
                }
            },
            _ => {
                assert(s.pending + unread =~= Seq::<u8>::empty());
                assert(s.pending + unread + concat_from(contents, s.next) =~= concat_from(
                    contents,
                    s.next,
                ));
            },
        }
        if a == Action::Done(0) {
            assert(still_to_come(t, contents, u) =~= Seq::<u8>::empty());
        }
    }
}

/// How many bytes a read step handed out.
pub open spec fn handed_count(a: Action) -> nat {
    if a is Done {
        a->Done_0 as nat
    } else {
        0
    }
}

/// `events` and `outs` are a run of stream reads in a world where every open and every read
/// succeeds: the `k`-th read is into `outs[k]` and takes `events[k]`, and each event fits the
/// state it meets.
pub open spec fn is_stream_run(
    s: ReaderState,
    contents: Seq<Seq<u8>>,
    unread: Seq<u8>,
    outs: Seq<Seq<u8>>,
    events: Seq<Event>,
) -> bool
    decreases events.len(),
{
    &&& events.len() > 0
    &&& outs.len() == events.len()
    &&& s.accepts(events[0])
    &&& is_faithful(events[0], unread)
    &&& events.len() > 1 ==> is_stream_run(
        s.read_step(outs[0], events[0]).0,
        contents,
        unread_after(s, contents, unread, events[0]),
        outs.drop_first(),
        events.drop_first(),
    )
}

/// The bytes that the reads of a run hand out, one after the other, and the last answer.
pub open spec fn stream_run(
    s: ReaderState,
    contents: Seq<Seq<u8>>,
    unread: Seq<u8>,
    outs: Seq<Seq<u8>>,
    events: Seq<Event>,
) -> (Seq<u8>, Action)
    recommends
        events.len() > 0,
    decreases events.len(),
{
    let (t, o, a) = s.read_step(outs[0], events[0]);
    let got = o.take(handed_count(a) as int);
    if events.len() <= 1 {
        (got, a)
    } else {
        let (rest, last) = stream_run(
            t,
            contents,
            unread_after(s, contents, unread, events[0]),
            outs.drop_first(),
            events.drop_first(),
        );
        (got + rest, last)
    }
}

/// Read as one stream until it reports its end, a fresh reader hands out the bytes of all
/// its sources, one after the other, with nothing between them and nothing left out.
pub proof fn lemma_stream_run_is_concatenation(
    s: ReaderState,
    contents: Seq<Seq<u8>>,
    outs: Seq<Seq<u8>>,
    events: Seq<Event>,
)
    requires
        s.wf(),
        s.next == 0,
        s.slot == Slot::Empty,
        contents.len() == s.tokens.len(),
        is_stream_run(s, contents, Seq::empty(), outs, events),
        stream_run(s, contents, Seq::empty(), outs, events).1 == Action::Done(0),
        outs.last().len() > 0,
    ensures
        stream_run(s, contents, Seq::empty(), outs, events).0 == concat_from(contents, 0),
{
    lemma_stream_is_concatenation(s, contents, Seq::empty(), outs[0], events[0]);
    lemma_stream_run_rest(s, contents, Seq::empty(), outs, events);
}

proof fn lemma_stream_run_rest(
    s: ReaderState,
    contents: Seq<Seq<u8>>,
    unread: Seq<u8>,
    outs: Seq<Seq<u8>>,
    events: Seq<Event>,
)
    requires
        s.wf(),
        s.taken == 0,
        world_fits(s, contents, unread),
        is_stream_run(s, contents, unread, outs, events),
        stream_run(s, contents, unread, outs, events).1 == Action::Done(0),
        outs.last().len() > 0,
    ensures
        stream_run(s, contents, unread, outs, events).0 == still_to_come(s, contents, unread),
    decreases events.len(),
{
    lemma_stream_is_concatenation(s, contents, unread, outs[0], events[0]);
    let (t, o, a) = s.read_step(outs[0], events[0]);
    let u = unread_after(s, contents, unread, events[0]);
    if events.len() <= 1 {
        assert(outs.last() == outs[0]);
        assert(o.take(handed_count(a) as int) + still_to_come(t, contents, u) =~= o.take(
            handed_count(a) as int,
        ));
    } else {
        assert(outs.drop_first().last() == outs.last());
        lemma_stream_run_rest(t, contents, u, outs.drop_first(), events.drop_first());
    }
}

} // verus!
