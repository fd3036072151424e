//! The append engine: the table of requests in flight and the write cursor,
//! as a state machine. Each event gives the next state and says what has to
//! be done outside: seal a range, create one, wait, or hand requests on.

use crate::error::StreamError;
use crate::range::RangeMetadata;
use crate::request::{Completion, StreamAppendRequest};
use crate::stream::{Stream, StreamView};
use crate::table::{
    ascending, lemma_rank_parts, lemma_with_entry_ascending, rank, with_entry, Entry, OffsetMap,
};
use vstd::prelude::*;

verus! {

/// How many requests may wait between the callers and the engine; beyond
/// that an append fails at once.
pub const APPEND_QUEUE_CAPACITY: usize = 1024;

/// How long to wait after a failed seal or a failed creation of a range.
pub const RETRY_BACKOFF_MILLIS: u64 = 1000;

/// What wakes the engine.
#[derive(Clone, Copy, Debug, PartialEq, Eq, Structural)]
pub enum Event {
    RequestArrived(StreamAppendRequest),
    WakeSignal,
    ShutdownSignal,
}

/// What the engine asks for after an event.
#[derive(Debug, PartialEq, Eq)]
pub enum Step {
    /// The engine has stopped for good. `failed` holds every request that was
    /// in flight, each completed with "stream closed" if it was pending.
    Stopped { failed: Vec<StreamAppendRequest> },
    /// The stream needs a writable range of this index from this offset on.
    CreateRange { index: i32, start: u64 },
    /// The last range, under this key, takes no more writes: seal it.
    SealRange { range: u64 },
    /// `acked` are confirmed and left the table, completed with success if
    /// they were pending; `forwarded` go to the writable range, in this order.
    Progress { acked: Vec<StreamAppendRequest>, forwarded: Vec<StreamAppendRequest> },
    /// Wake the engine again at once.
    Retrigger,
    /// Wake the engine again after this many milliseconds.
    Backoff { millis: u64 },
}

/// The engine as a value.
pub struct EngineView {
    pub inflight: Seq<Entry<StreamAppendRequest>>,
    pub next_append_start_offset: u64,
    pub stopped: bool,
}

/// The table after the event's request, if it brought one, was entered.
pub open spec fn absorbed(table: Seq<Entry<StreamAppendRequest>>, event: Event) -> Seq<
    Entry<StreamAppendRequest>,
> {
    match event {
        Event::RequestArrived(request) => with_entry(
            table,
            Entry { key: request.base_offset, value: request },
        ),
        _ => table,
    }
}

/// The requests of `entries`, in order.
pub open spec fn requests(entries: Seq<Entry<StreamAppendRequest>>) -> Seq<StreamAppendRequest> {
    Seq::new(entries.len(), |i: int| entries[i].value)
}

/// The requests of `entries`, in order, after each was completed with
/// `outcome` if it was pending.
pub open spec fn settled(entries: Seq<Entry<StreamAppendRequest>>, outcome: Completion) -> Seq<
    StreamAppendRequest,
> {
    Seq::new(entries.len(), |i: int| entries[i].value.resolved(outcome))
}

/// How many entries of `table`, from position `at` on, follow each other
/// without a gap when the first of them has to start at `cursor`.
pub open spec fn run_length(table: Seq<Entry<StreamAppendRequest>>, at: int, cursor: int) -> nat
    decreases table.len() - at,
{
    if 0 <= at < table.len() && table[at].key == cursor {
        1 + run_length(table, at + 1, cursor + table[at].value.count)
    } else {
        0
    }
}

/// The entries that go to the writable range: the one that starts at the
/// cursor and those that follow it without a gap.
pub open spec fn forwardable(table: Seq<Entry<StreamAppendRequest>>, cursor: u64) -> Seq<
    Entry<StreamAppendRequest>,
> {
    let from = rank(table, cursor as int) as int;
    table.subrange(from, from + run_length(table, from, cursor as int))
}

/// The cursor after those entries went out: behind the last of them.
pub open spec fn cursor_after(table: Seq<Entry<StreamAppendRequest>>, cursor: u64) -> u64 {
    let out = forwardable(table, cursor);
    if out.len() > 0 {
        out.last().value.end_offset() as u64
    } else {
        cursor
    }
}

/// Every entry stands under its base offset and ends within the offset space.
pub open spec fn keyed_by_base(table: Seq<Entry<StreamAppendRequest>>) -> bool {
    forall|i: int|
        0 <= i < table.len() ==> (#[trigger] table[i]).key == table[i].value.base_offset
            && table[i].value.wf()
}

impl EngineView {
    pub open spec fn wf(self) -> bool {
        ascending(self.inflight) && keyed_by_base(self.inflight)
    }

    /// Whether the engine stops on this event: on the shutdown signal, on a
    /// closed stream, and once stopped on every event.
    pub open spec fn stops(self, stream: StreamView, event: Event) -> bool {
        event == Event::ShutdownSignal || stream.closed || self.stopped
    }

    /// The engine after the answer of a seal: a sealed range moves the cursor
    /// to its end; a failed seal changes nothing.
    pub open spec fn after_seal(self, sealed: Result<u64, StreamError>) -> EngineView {
        match sealed {
            Ok(end) => EngineView { next_append_start_offset: end, ..self },
            Err(_) => self,
        }
    }

    /// `after` and `step` are what the event makes of `self`.
    pub open spec fn follows(self, stream: StreamView, event: Event, after: EngineView, step: Step)
        -> bool {
        let table = absorbed(self.inflight, event);
        if self.stops(stream, event) {
            &&& after == (EngineView { inflight: Seq::empty(), stopped: true, ..self })
            &&& step matches Step::Stopped { failed }
            &&& failed@ == settled(table, Completion::Failed(StreamError::StreamAlreadyClosed))
        } else if stream.last().is_none() {
            &&& after == (EngineView { inflight: table, ..self })
            &&& step == (Step::CreateRange { index: 0, start: 0 })
        } else if !stream.last().unwrap().writable {
            &&& after == (EngineView { inflight: table, ..self })
            &&& step == (Step::SealRange { range: stream.last_key().unwrap() })
        } else {
            let done = rank(table, stream.last().unwrap().confirm_offset as int) as int;
            let rest = table.subrange(done, table.len() as int);
            &&& after == (EngineView {
                inflight: rest,
                next_append_start_offset: cursor_after(rest, self.next_append_start_offset),
                ..self
            })
            &&& step matches Step::Progress { acked, forwarded }
            &&& acked@ == settled(table.subrange(0, done), Completion::Succeeded)
            &&& forwarded@ == requests(forwardable(rest, self.next_append_start_offset))
        }
    }
}

/// Completes each request of `entries` with `outcome` if it is pending.
fn settle_all(entries: &Vec<Entry<StreamAppendRequest>>, outcome: Completion) -> (out: Vec<
    StreamAppendRequest,
>)
    ensures
        out@ == settled(entries@, outcome),
{
    let mut out: Vec<StreamAppendRequest> = Vec::new();
    let mut i: usize = 0;
    while i < entries.len()
        invariant
            i <= entries@.len(),
            out@.len() == i,
            forall|j: int| 0 <= j < i ==> out@[j] == entries@[j].value.resolved(outcome),
        decreases entries@.len() - i,
    {
        let mut request: StreamAppendRequest = entries[i].value;
        match outcome {
            Completion::Pending => {},
            Completion::Succeeded => {
                request.success();
            },
            Completion::Failed(err) => {
                request.fail(err);
            },
        }
        out.push(request);
        i = i + 1;
    }
    assert(out@ =~= settled(entries@, outcome));
    out
}

pub struct AppendEngine {
    pub inflight: OffsetMap<StreamAppendRequest>,
    pub next_append_start_offset: u64,
    pub stopped: bool,
}

impl AppendEngine {
    pub open spec fn view(&self) -> EngineView {
        EngineView {
            inflight: self.inflight@,
            next_append_start_offset: self.next_append_start_offset,
            stopped: self.stopped,
        }
    }

    pub open spec fn wf(&self) -> bool {
        self@.wf()
    }

    /// An engine with nothing in flight and the cursor at 0.
    pub fn new() -> (engine: AppendEngine)
        ensures
            engine.wf(),
            engine@ == (EngineView {
                inflight: Seq::empty(),
                next_append_start_offset: 0,
                stopped: false,
            }),
    {
        let engine = AppendEngine {
            inflight: OffsetMap::new(),
            next_append_start_offset: 0,
            stopped: false,
        };
        assert(engine@.inflight =~= Seq::empty());
        engine
    }

    /// How many requests are in flight.
    pub fn inflight_count(&self) -> (n: usize)
        ensures
            n == self@.inflight.len(),
    {
        self.inflight.len()
    }

    /// One turn of the engine. The request of the event, if it brought one,
    /// enters the table. On the shutdown signal, on a closed stream, or once
    /// stopped, everything in flight fails with "stream closed" and the
    /// engine stops. Without a range the engine asks for range 0 at offset 0.
    /// With a last range that takes no writes it asks for the seal. Else the
    /// requests below the confirmed offset of the range leave the table as
    /// succeeded, and the request that starts at the cursor goes to the
    /// range, with those that follow it without a gap, in ascending order,
    /// the cursor moving behind the last of them.
    pub fn on_event(&mut self, stream: &Stream, event: Event) -> (step: Step)
        requires
            old(self).wf(),
            stream.wf(),
            event matches Event::RequestArrived(request) ==> request.wf(),
        ensures
            final(self).wf(),
            old(self)@.follows(stream@, event, final(self)@, step),
    {
        let mut shutdown: bool = false;
        match event {
            Event::RequestArrived(request) => {
                proof {
                    let e = Entry { key: request.base_offset, value: request };
                    lemma_with_entry_ascending(self.inflight@, e);
                    lemma_entered_keyed(self.inflight@, request);
                }
                self.inflight.insert(request.base_offset, request);
            },
            Event::WakeSignal => {},
            Event::ShutdownSignal => {
                shutdown = true;
            },
        }
        let ghost table = self.inflight@;
        assert(table == absorbed(old(self)@.inflight, event));
        if shutdown || stream.closed || self.stopped {
            let taken = self.inflight.take_all();
            let failed = settle_all(&taken, Completion::Failed(StreamError::StreamAlreadyClosed));
            self.stopped = true;
            assert(self@.inflight =~= Seq::empty());
            return Step::Stopped { failed };
        }
        let last_at: usize = match stream.last_range {
            Some(i) => i,
            None => {
                return Step::CreateRange { index: 0, start: 0 };
            },
        };
        let last = stream.ranges.get(last_at);
        if !last.value.writable {
            return Step::SealRange { range: last.key };
        }
        let taken = self.inflight.take_below(last.value.confirm_offset);
        let acked = settle_all(&taken, Completion::Succeeded);
        let ghost rest = self.inflight@;
        let ghost cursor = self.next_append_start_offset;
        proof {
            lemma_rank_parts(table, last.value.confirm_offset as int);
            lemma_part_keyed(table, rank(table, last.value.confirm_offset as int) as int);
        }
        let from: usize = self.inflight.lower_bound(self.next_append_start_offset);
        let ghost total = run_length(rest, from as int, cursor as int);
        let mut forwarded: Vec<StreamAppendRequest> = Vec::new();
        let mut at: usize = from;
        while at < self.inflight.len() && self.inflight.get(at).key
            == self.next_append_start_offset
            invariant
                from <= at <= rest.len(),
                self.inflight@ == rest,
                self.stopped == old(self).stopped,
                keyed_by_base(rest),
                forwarded@.len() == at - from,
                forall|j: int| 0 <= j < at - from ==> forwarded@[j] == rest[from + j].value,
                self.next_append_start_offset == if at > from {
                    rest[at - 1].value.end_offset() as u64
                } else {
                    cursor
                },
                total == (at - from) + run_length(
                    rest,
                    at as int,
                    self.next_append_start_offset as int,
                ),
            decreases rest.len() - at,
        {
            let request: StreamAppendRequest = self.inflight.get(at).value;
            forwarded.push(request);
            self.next_append_start_offset = request.base_offset + request.count as u64;
            at = at + 1;
        }
        assert(forwarded@ =~= requests(forwardable(rest, cursor)));
        Step::Progress { acked, forwarded }
    }

    /// Takes the answer of the seal that the engine asked for. A sealed range
    /// moves the cursor back to its end, and the engine asks for the
    /// successor: the next index, from that end on. A failed seal changes
    /// nothing and asks for a wait.
    pub fn on_sealed(&mut self, stream: &mut Stream, sealed: Result<u64, StreamError>) -> (step:
        Step)
        requires
            old(self).wf(),
            old(stream).wf(),
            old(stream)@.last().is_some(),
            sealed.is_ok() ==> old(stream)@.last().unwrap().metadata.index < i32::MAX,
        ensures
            final(self).wf(),
            final(stream).wf(),
            final(self)@ == old(self)@.after_seal(sealed),
            match sealed {
                Ok(end) => final(stream)@ == old(stream)@.with_last(
                    old(stream)@.last().unwrap().sealed_at(end),
                ) && step == (Step::CreateRange {
                    index: (old(stream)@.last().unwrap().metadata.index + 1) as i32,
                    start: end,
                }),
                Err(_) => final(stream)@ == old(stream)@ && step == (Step::Backoff {
                    millis: RETRY_BACKOFF_MILLIS,
                }),
            },
    {
        match sealed {
            Ok(end) => {
                let index: i32 = match stream.last_range {
                    Some(i) => stream.ranges.get(i).value.metadata.index,
                    None => 0,
                };
                stream.seal_last(end);
                self.next_append_start_offset = end;
                Step::CreateRange { index: index + 1, start: end }
            },
            Err(_) => Step::Backoff { millis: RETRY_BACKOFF_MILLIS },
        }
    }

    /// Takes the answer of the creation that the engine asked for, for the
    /// start offset it had named. A created range enters the directory under
    /// that offset as the writable last range, and the engine is to be woken
    /// at once. A failed creation changes nothing and asks for a wait.
    pub fn on_range_created(
        stream: &mut Stream,
        start: u64,
        created: Result<RangeMetadata, StreamError>,
    ) -> (step: Step)
        requires
            old(stream).wf(),
        ensures
            final(stream).wf(),
            match created {
                Ok(metadata) => final(stream)@ == old(stream)@.with_new_range(start, metadata)
                    && step == Step::Retrigger,
                Err(_) => final(stream)@ == old(stream)@ && step == (Step::Backoff {
                    millis: RETRY_BACKOFF_MILLIS,
                }),
            },
    {
        match created {
            Ok(metadata) => {
                stream.new_range(start, metadata);
                Step::Retrigger
            },
            Err(_) => Step::Backoff { millis: RETRY_BACKOFF_MILLIS },
        }
    }
}

/// A table keyed by base offset stays so when a request enters it.
pub proof fn lemma_entered_keyed(
    table: Seq<Entry<StreamAppendRequest>>,
    request: StreamAppendRequest,
)
    requires
        ascending(table),
        keyed_by_base(table),
        request.wf(),
    ensures
        keyed_by_base(with_entry(table, (Entry { key: request.base_offset, value: request }))),
{
    let e = Entry { key: request.base_offset, value: request };
    lemma_rank_parts(table, e.key as int);
    let r = rank(table, e.key as int) as int;
    let n = with_entry(table, e);
    assert forall|i: int| 0 <= i < n.len() implies (#[trigger] n[i]).key
        == n[i].value.base_offset && n[i].value.wf() by {
        if i < r {
            assert(n[i] == table[i]);
        } else if i == r {
            assert(n[i] == e);
        } else {
            let next = if r < table.len() && table[r].key == e.key {
                r + 1
            } else {
                r
            };
            assert(n[i] == table[next + (i - r - 1)]);
        }
    }
}

/// What is left of a table keyed by base offset after its first `done`
/// entries are gone is keyed by base offset, and ascending if the table was.
pub proof fn lemma_part_keyed(table: Seq<Entry<StreamAppendRequest>>, done: int)
    requires
        keyed_by_base(table),
        0 <= done <= table.len(),
    ensures
        keyed_by_base(table.subrange(done, table.len() as int)),
        ascending(table) ==> ascending(table.subrange(done, table.len() as int)),
{
    let rest = table.subrange(done, table.len() as int);
    assert forall|i: int| 0 <= i < rest.len() implies (#[trigger] rest[i]).key
        == rest[i].value.base_offset && rest[i].value.wf() by {
        assert(rest[i] == table[done + i]);
    }
    if ascending(table) {
        assert forall|i: int, j: int| 0 <= i < j < rest.len() implies rest[i].key
            < rest[j].key by {
            assert(rest[i] == table[done + i] && rest[j] == table[done + j]);
        }
    }
}

/// A run of entries without a gap stays within the table, starts at the
/// cursor it was asked for, and each of its entries starts where the one
/// before it ends.
pub proof fn lemma_run_has_no_gap(table: Seq<Entry<StreamAppendRequest>>, at: int, cursor: int)
    requires
        0 <= at <= table.len(),
    ensures
        at + run_length(table, at, cursor) <= table.len(),
        run_length(table, at, cursor) > 0 ==> table[at].key == cursor,
        forall|j: int|
            0 <= j < run_length(table, at, cursor) - 1 ==> (#[trigger] table[at + j + 1]).key
                == table[at + j].key + table[at + j].value.count,
    decreases table.len() - at,
{
    if at < table.len() && table[at].key == cursor {
        let next = cursor + table[at].value.count;
        lemma_run_has_no_gap(table, at + 1, next);
        assert forall|j: int| 0 <= j < run_length(table, at, cursor) - 1 implies (
        #[trigger] table[at + j + 1]).key == table[at + j].key + table[at + j].value.count by {
            if j > 0 {
                assert(table[(at + 1) + (j - 1) + 1] == table[at + j + 1]);
            }
        }
    }
}

/// Requests go to the writable range in offset order, each once, none left
/// out: what is handed on starts at the cursor, every further request starts
/// where the one before it ended, and the cursor ends behind the last. A
/// request above a gap waits until the gap is filled.
pub proof fn lemma_forwarded_in_order(table: Seq<Entry<StreamAppendRequest>>, cursor: u64)
    requires
        ascending(table),
        keyed_by_base(table),
    ensures
        forwardable(table, cursor).len() > 0 ==> forwardable(table, cursor)[0].value.base_offset
            == cursor,
        forall|j: int|
            0 <= j < forwardable(table, cursor).len() - 1 ==> (#[trigger] forwardable(
                table,
                cursor,
            )[j + 1]).value.base_offset == forwardable(table, cursor)[j].value.end_offset(),
        forall|j: int|
            0 <= j < forwardable(table, cursor).len() ==> #[trigger] forwardable(table, cursor)[j]
                == table[rank(table, cursor as int) + j],
        forall|j: int|
            0 <= j < forwardable(table, cursor).len() ==> (#[trigger] forwardable(
                table,
                cursor,
            )[j]).value.base_offset >= cursor,
        cursor_after(table, cursor) >= cursor,
{
    lemma_rank_parts(table, cursor as int);
    let from = rank(table, cursor as int) as int;
    lemma_run_has_no_gap(table, from, cursor as int);
    let out = forwardable(table, cursor);
    assert forall|j: int| 0 <= j < out.len() - 1 implies (#[trigger] out[j + 1]).value.base_offset
        == out[j].value.end_offset() by {
        assert(out[j + 1] == table[from + j + 1]);
        assert(out[j] == table[from + j]);
    }
    assert forall|j: int| 0 <= j < out.len() implies (#[trigger] out[j]).value.base_offset
        >= cursor by {
        assert(out[j] == table[from + j]);
        assert(table[from + j].key >= cursor);
    }
    if out.len() > 0 {
        assert(out.last() == out[out.len() - 1]);
    }
}

/// Rollover resumes at the end of the sealed range. A seal that answers
/// with the end `end` moves the cursor to `end` and leaves the table alone.
/// From then on, whatever the events, no turn hands on a request below
/// `end`: a turn that starts with the cursor at or above `end` forwards only
/// requests at or above `end`, and ends with the cursor at or above `end`.
pub proof fn lemma_rollover_resumes_at_end(
    engine: EngineView,
    end: u64,
    stream: StreamView,
    event: Event,
    after: EngineView,
    step: Step,
)
    requires
        engine.wf(),
        event matches Event::RequestArrived(request) ==> request.wf(),
        engine.next_append_start_offset >= end,
        engine.follows(stream, event, after, step),
    ensures
        engine.after_seal(Ok(end)).next_append_start_offset == end,
        engine.after_seal(Ok(end)).inflight == engine.inflight,
        engine.after_seal(Ok(end)).wf(),
        after.wf(),
        after.next_append_start_offset >= end,
        step matches Step::Progress { acked, forwarded } ==> forall|i: int|
            0 <= i < forwarded@.len() ==> (#[trigger] forwarded@[i]).base_offset >= end,
{
    let cursor = engine.next_append_start_offset;
    let table = absorbed(engine.inflight, event);
    if let Event::RequestArrived(request) = event {
        lemma_with_entry_ascending(
            engine.inflight,
            Entry { key: request.base_offset, value: request },
        );
        lemma_entered_keyed(engine.inflight, request);
    }
    if !engine.stops(stream, event) && stream.last().is_some()
        && stream.last().unwrap().writable {
        let done = rank(table, stream.last().unwrap().confirm_offset as int) as int;
        lemma_rank_parts(table, stream.last().unwrap().confirm_offset as int);
        let rest = table.subrange(done, table.len() as int);
        lemma_part_keyed(table, done);
        lemma_forwarded_in_order(rest, cursor);
        let out = forwardable(rest, cursor);
        if let Step::Progress { acked, forwarded } = step {
            assert forall|i: int| 0 <= i < forwarded@.len() implies (
            #[trigger] forwarded@[i]).base_offset >= end by {
                assert(forwarded@[i] == out[i].value);
            }
        }
    }
}

/// A request that was answered with success has left the table, so no later
/// turn finds it there to answer it again: every request handed back as
/// confirmed is settled and lies below everything still in flight.
pub proof fn lemma_acked_leave_table(
    engine: EngineView,
    stream: StreamView,
    event: Event,
    after: EngineView,
    step: Step,
)
    requires
        engine.wf(),
        event matches Event::RequestArrived(request) ==> request.wf(),
        engine.follows(stream, event, after, step),
    ensures
        step matches Step::Progress { acked, forwarded } ==> forall|i: int, j: int|
            0 <= i < acked@.len() && 0 <= j < after.inflight.len() ==> !(
            #[trigger] acked@[i]).is_pending() && acked@[i].base_offset < (
            #[trigger] after.inflight[j]).key,
{
    let table = absorbed(engine.inflight, event);
    if let Event::RequestArrived(request) = event {
        lemma_with_entry_ascending(
            engine.inflight,
            Entry { key: request.base_offset, value: request },
        );
        lemma_entered_keyed(engine.inflight, request);
    }
    if let Step::Progress { acked, forwarded } = step {
        if !engine.stops(stream, event) && stream.last().is_some()
            && stream.last().unwrap().writable {
            let bound = stream.last().unwrap().confirm_offset as int;
            lemma_rank_parts(table, bound);
            let done = rank(table, bound) as int;
            assert forall|i: int, j: int|
                0 <= i < acked@.len() && 0 <= j < after.inflight.len() implies !(
            #[trigger] acked@[i]).is_pending() && acked@[i].base_offset < (
            #[trigger] after.inflight[j]).key by {
                assert(acked@[i] == table.subrange(0, done)[i].value.resolved(
                    Completion::Succeeded,
                ));
                assert(table.subrange(0, done)[i] == table[i]);
                assert(after.inflight[j] == table[done + j]);
                assert(table[i].key < table[done + j].key);
            }
        }
    }
}

/// A failed seal leaves the table and the cursor as they were, and a seal
/// that answers again with the same end changes nothing more: however often
/// the engine has to try, no request in flight is lost, doubled or moved.
pub proof fn lemma_retry_keeps_requests(engine: EngineView, err: StreamError, end: u64)
    ensures
        engine.after_seal(Err(err)) == engine,
        engine.after_seal(Ok(end)).inflight == engine.inflight,
        engine.after_seal(Ok(end)).after_seal(Ok(end)) == engine.after_seal(Ok(end)),
        engine.after_seal(Ok(end)).after_seal(Err(err)) == engine.after_seal(Ok(end)),
{
}

/// A turn that can only ask for a seal or for a new range touches no
/// request: the table holds what it held, with the request of the event if
/// it brought one, and the cursor stands where it stood.
pub proof fn lemma_waiting_turn_keeps_requests(
    engine: EngineView,
    stream: StreamView,
    event: Event,
    after: EngineView,
    step: Step,
)
    requires
        engine.follows(stream, event, after, step),
        step is CreateRange || step is SealRange,
    ensures
        after.inflight == absorbed(engine.inflight, event),
        after.next_append_start_offset == engine.next_append_start_offset,
        after.stopped == engine.stopped,
{
}

/// When the engine stops, every request that was in flight gets its one
/// answer: the table is empty afterwards, and the requests handed back are
/// those of the table, in order, none of them pending.
pub proof fn lemma_stop_settles_all(
    engine: EngineView,
    stream: StreamView,
    event: Event,
    after: EngineView,
    step: Step,
)
    requires
        engine.stops(stream, event),
        engine.follows(stream, event, after, step),
    ensures
        after.inflight.len() == 0,
        after.stopped,
        step matches Step::Stopped { failed } && failed@.len() == absorbed(
            engine.inflight,
            event,
        ).len() && forall|i: int|
            0 <= i < failed@.len() ==> !(#[trigger] failed@[i]).is_pending() && failed@[i]
                == absorbed(engine.inflight, event)[i].value.resolved(
                Completion::Failed(StreamError::StreamAlreadyClosed),
            ),
{
}

} // verus!
