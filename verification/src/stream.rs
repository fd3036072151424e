//! The stream as its callers see it: the directory of its ranges, the cursor
//! that hands out offsets, and the plan of a fetch.

use crate::error::StreamError;
use crate::range::{is_sorted_by_index, sort_by_index, Range, RangeMetadata};
use crate::request::{Completion, StreamAppendRequest};
use crate::table::{lemma_with_entry_ascending, rank, with_entry, Entry, OffsetMap};
use vstd::prelude::*;

verus! {

/// What a range hands back for a fetch: all that was asked for, a part of it,
/// blocks together with references to objects stored elsewhere, or references
/// only.
#[derive(Debug, PartialEq, Eq)]
pub enum FetchDataset<B, O> {
    Full(Vec<B>),
    Partial(Vec<B>),
    Mixin(Vec<B>, Vec<O>),
    Overflow(Vec<O>),
}

/// Which range a fetch goes to, and with which window. `range` is the key of
/// the range in the directory.
#[derive(Clone, Copy, Debug, PartialEq, Eq, Structural)]
pub enum FetchPlan {
    /// The window is empty: no range is asked.
    Empty,
    /// The writable range covers the start: its answer is the answer.
    Whole { range: u64, start: u64, end: u64, batch_max_bytes: u32 },
    /// An earlier range covers the start: its answer is a part at most.
    Part { range: u64, start: u64, end: u64, batch_max_bytes: u32 },
}

/// The stream as a value: its ranges in ascending order of key, the next
/// offset to hand out, the position of the last range, and the closed mark.
pub struct StreamView {
    pub id: i64,
    pub epoch: u64,
    pub ranges: Seq<Entry<Range>>,
    pub next_offset: u64,
    pub last_range: Option<usize>,
    pub closed: bool,
}

/// The directory after the ranges of `metas` were entered one after the
/// other, each under its start offset and not writable.
pub open spec fn loaded(dir: Seq<Entry<Range>>, metas: Seq<RangeMetadata>) -> Seq<Entry<Range>>
    decreases metas.len(),
{
    if metas.len() == 0 {
        dir
    } else {
        with_entry(
            loaded(dir, metas.drop_last()),
            Entry { key: metas.last().start, value: Range::fresh(metas.last(), false) },
        )
    }
}

/// The offset reached from `start` after batches of the sizes `counts`.
pub open spec fn offset_after(start: int, counts: Seq<u32>) -> int
    decreases counts.len(),
{
    if counts.len() == 0 {
        start
    } else {
        offset_after(start, counts.drop_last()) + counts.last()
    }
}

/// What a fetch that asked one earlier range returns for that range's answer.
pub open spec fn part_of<B, O>(fetched: Option<Result<FetchDataset<B, O>, StreamError>>) -> Result<
    FetchDataset<B, O>,
    StreamError,
> {
    match fetched {
        Some(Ok(FetchDataset::Full(blocks))) => Ok(FetchDataset::Partial(blocks)),
        Some(Ok(FetchDataset::Mixin(blocks, objects))) => Ok(FetchDataset::Mixin(blocks, objects)),
        Some(Ok(_)) => Err(StreamError::Unexpected),
        Some(Err(e)) => Err(e),
        None => Err(StreamError::Unexpected),
    }
}

impl StreamView {
    pub open spec fn wf(self) -> bool {
        &&& crate::table::ascending(self.ranges)
        &&& match self.last_range {
            Some(i) => i < self.ranges.len(),
            None => true,
        }
    }

    /// The range that takes the writes, if the stream has one.
    pub open spec fn last(self) -> Option<Range> {
        match self.last_range {
            Some(i) => Some(self.ranges[i as int].value),
            None => None,
        }
    }

    /// The key of that range in the directory.
    pub open spec fn last_key(self) -> Option<u64> {
        match self.last_range {
            Some(i) => Some(self.ranges[i as int].key),
            None => None,
        }
    }

    /// The stream after the ranges of `order` were entered and the greatest
    /// of the directory was made the last range.
    pub open spec fn opened_with(self, order: Seq<RangeMetadata>) -> StreamView {
        let ranges = loaded(self.ranges, order);
        StreamView {
            ranges,
            last_range: if ranges.len() > 0 {
                Some((ranges.len() - 1) as usize)
            } else {
                None
            },
            ..self
        }
    }

    /// The stream after a batch of `count` records was given its offsets.
    pub open spec fn appended(self, count: u32) -> StreamView {
        StreamView { next_offset: (self.next_offset + count) as u64, ..self }
    }

    /// The stream after its last range, if it has one, was replaced by `range`.
    pub open spec fn with_last(self, range: Range) -> StreamView {
        match self.last_range {
            Some(i) => StreamView {
                ranges: self.ranges.update(
                    i as int,
                    Entry { key: self.ranges[i as int].key, value: range },
                ),
                ..self
            },
            None => self,
        }
    }

    /// The stream after the range under `key`, if there is one, was found
    /// to report this of itself.
    pub open spec fn observed(self, key: u64, writable: bool, confirm_offset: u64) -> StreamView {
        let r = rank(self.ranges, key as int) as int;
        if r < self.ranges.len() && self.ranges[r].key == key {
            StreamView {
                ranges: self.ranges.update(
                    r,
                    Entry {
                        key,
                        value: Range { writable, confirm_offset, ..self.ranges[r].value },
                    },
                ),
                ..self
            }
        } else {
            self
        }
    }

    /// The stream after a writable range of `metadata` was entered under
    /// `start_offset` and made the last range.
    pub open spec fn with_new_range(self, start_offset: u64, metadata: RangeMetadata)
        -> StreamView {
        StreamView {
            ranges: with_entry(
                self.ranges,
                Entry { key: start_offset, value: Range::fresh(metadata, true) },
            ),
            last_range: Some(rank(self.ranges, start_offset as int) as usize),
            ..self
        }
    }

    /// Where a fetch of `[start, end)` goes, or why it fails.
    pub open spec fn fetch_plan(self, start: u64, end: u64, batch_max_bytes: u32) -> Result<
        FetchPlan,
        StreamError,
    > {
        if start == end {
            Ok(FetchPlan::Empty)
        } else if self.last().is_none() {
            Err(StreamError::OffsetOutOfRangeBounds)
        } else if self.last().unwrap().confirm_offset < end {
            Err(StreamError::OffsetOutOfRangeBounds)
        } else if self.last().unwrap().metadata.start <= start {
            Ok(FetchPlan::Whole { range: self.last_key().unwrap(), start, end, batch_max_bytes })
        } else {
            let below = rank(self.ranges, start + 1);
            if below == 0 {
                Err(StreamError::OffsetOutOfRangeBounds)
            } else {
                let covering = self.ranges[below - 1];
                if covering.value.metadata.start > start {
                    Err(StreamError::OffsetOutOfRangeBounds)
                } else {
                    Ok(
                        FetchPlan::Part {
                            range: covering.key,
                            start,
                            end: if end <= covering.value.confirm_offset {
                                end
                            } else {
                                covering.value.confirm_offset
                            },
                            batch_max_bytes,
                        },
                    )
                }
            }
        }
    }
}

pub struct Stream {
    pub id: i64,
    pub epoch: u64,
    pub ranges: OffsetMap<Range>,
    pub next_offset: u64,
    pub last_range: Option<usize>,
    pub closed: bool,
}

impl Stream {
    pub open spec fn view(&self) -> StreamView {
        StreamView {
            id: self.id,
            epoch: self.epoch,
            ranges: self.ranges@,
            next_offset: self.next_offset,
            last_range: self.last_range,
            closed: self.closed,
        }
    }

    pub open spec fn wf(&self) -> bool {
        self@.wf()
    }

    /// An open stream without ranges, whose first offset is 0.
    pub fn new(id: i64, epoch: u64) -> (stream: Stream)
        ensures
            stream.wf(),
            stream@ == (StreamView {
                id,
                epoch,
                ranges: Seq::empty(),
                next_offset: 0,
                last_range: None,
                closed: false,
            }),
    {
        let stream = Stream {
            id,
            epoch,
            ranges: OffsetMap::new(),
            next_offset: 0,
            last_range: None,
            closed: false,
        };
        assert(stream@.ranges =~= Seq::empty());
        stream
    }

    /// Enters the ranges in the order given, each under its start offset.
    fn load(&mut self, order: &Vec<RangeMetadata>)
        requires
            old(self).wf(),
        ensures
            final(self).ranges.wf(),
            final(self)@ == (StreamView {
                ranges: loaded(old(self)@.ranges, order@),
                ..old(self)@
            }),
    {
        let mut i: usize = 0;
        assert(order@.subrange(0, 0) =~= Seq::empty());
        while i < order.len()
            invariant
                i <= order@.len(),
                self.ranges.wf(),
                self@ == (StreamView {
                    ranges: loaded(old(self)@.ranges, order@.subrange(0, i as int)),
                    ..old(self)@
                }),
            decreases order@.len() - i,
        {
            let metadata: RangeMetadata = order[i];
            proof {
                assert(order@.subrange(0, i + 1).drop_last() =~= order@.subrange(0, i as int));
                assert(order@.subrange(0, i + 1).last() == metadata);
            }
            self.ranges.insert(metadata.start, Range::new(metadata, false));
            i = i + 1;
        }
        assert(order@.subrange(0, i as int) =~= order@);
    }

    /// The first half of opening: takes the listing of the stream's ranges,
    /// enters them by ascending index, so that of two ranges with one start
    /// offset the one of the higher index stays, and makes the range with the
    /// greatest start offset the last range. Hands back the key of the range
    /// that has to be sealed before the stream takes appends, if there is one.
    /// A failed listing fails the opening and changes nothing.
    pub fn open(&mut self, listed: Result<Vec<RangeMetadata>, StreamError>) -> (to_seal: Result<
        Option<u64>,
        StreamError,
    >)
        requires
            old(self).wf(),
        ensures
            final(self).wf(),
            match listed {
                Err(e) => to_seal == Err::<Option<u64>, StreamError>(e) && final(self)@ == old(
                    self,
                )@,
                Ok(ranges) => exists|order: Seq<RangeMetadata>|
                    #![trigger is_sorted_by_index(ranges@, order)]
                    is_sorted_by_index(ranges@, order) && final(self)@ == old(self)@.opened_with(
                        order,
                    ) && to_seal == Ok::<Option<u64>, StreamError>(final(self)@.last_key()),
            },
    {
        match listed {
            Err(e) => Err(e),
            Ok(ranges) => {
                let order = sort_by_index(ranges);
                self.load(&order);
                let n: usize = self.ranges.len();
                if n == 0 {
                    self.last_range = None;
                    assert(self@ == old(self)@.opened_with(order@));
                    Ok(None)
                } else {
                    self.last_range = Some(n - 1);
                    let key: u64 = self.ranges.get(n - 1).key;
                    assert(self@ == old(self)@.opened_with(order@));
                    Ok(Some(key))
                }
            },
        }
    }

    /// The second half of opening: takes the answer of the seal of the last
    /// range. The offset it confirmed is the next offset of the stream, and
    /// the last range is sealed there. A failed seal fails the opening and
    /// changes nothing.
    pub fn finish_open(&mut self, sealed: Result<u64, StreamError>) -> (opened: Result<
        (),
        StreamError,
    >)
        requires
            old(self).wf(),
        ensures
            final(self).wf(),
            match sealed {
                Err(e) => opened == Err::<(), StreamError>(e) && final(self)@ == old(self)@,
                Ok(confirm_offset) => opened.is_ok() && final(self)@ == (StreamView {
                    next_offset: confirm_offset,
                    ..old(self)@.with_last(old(self)@.last().unwrap().sealed_at(confirm_offset))
                }),
            },
    {
        match sealed {
            Err(e) => Err(e),
            Ok(confirm_offset) => {
                self.seal_last(confirm_offset);
                self.next_offset = confirm_offset;
                Ok(())
            },
        }
    }

    /// Records that the last range, if there is one, was sealed at `end`.
    pub fn seal_last(&mut self, end: u64)
        requires
            old(self).wf(),
        ensures
            final(self).wf(),
            final(self)@ == old(self)@.with_last(old(self)@.last().unwrap().sealed_at(end)),
    {
        match self.last_range {
            Some(i) => {
                let range: Range = self.ranges.get(i).value;
                self.ranges.set_value(i, range.seal(end));
            },
            None => {},
        }
    }

    /// Records what the last range, if there is one, reports of itself.
    pub fn observe_last(&mut self, writable: bool, confirm_offset: u64)
        requires
            old(self).wf(),
        ensures
            final(self).wf(),
            final(self)@ == old(self)@.with_last(
                (Range { writable, confirm_offset, ..old(self)@.last().unwrap() }),
            ),
    {
        match self.last_range {
            Some(i) => {
                let range: Range = self.ranges.get(i).value;
                self.ranges.set_value(
                    i,
                    Range { metadata: range.metadata, writable, confirm_offset },
                );
            },
            None => {},
        }
    }

    /// Records what the range under `key`, if there is one, reports of
    /// itself.
    pub fn observe(&mut self, key: u64, writable: bool, confirm_offset: u64)
        requires
            old(self).wf(),
        ensures
            final(self).wf(),
            final(self)@ == old(self)@.observed(key, writable, confirm_offset),
    {
        let at: usize = self.ranges.lower_bound(key);
        if at < self.ranges.len() && self.ranges.get(at).key == key {
            let range: Range = self.ranges.get(at).value;
            self.ranges.set_value(at, Range { metadata: range.metadata, writable, confirm_offset });
        }
    }

    /// Enters a writable range of `metadata` under `start_offset` and makes
    /// it the last range.
    pub fn new_range(&mut self, start_offset: u64, metadata: RangeMetadata)
        requires
            old(self).wf(),
        ensures
            final(self).wf(),
            final(self)@ == old(self)@.with_new_range(start_offset, metadata),
            final(self)@.last() == Some(Range::fresh(metadata, true)),
            final(self)@.last_key() == Some(start_offset),
    {
        let at: usize = self.ranges.lower_bound(start_offset);
        let range = Range::new(metadata, true);
        proof {
            lemma_with_entry_ascending(self.ranges@, Entry { key: start_offset, value: range });
        }
        self.ranges.insert(start_offset, range);
        self.last_range = Some(at);
    }

    /// Marks the stream closed and hands back the key of the range to seal,
    /// if there is one. Nothing else changes.
    pub fn close(&mut self) -> (to_seal: Option<u64>)
        requires
            old(self).wf(),
        ensures
            final(self)@ == (StreamView { closed: true, ..old(self)@ }),
            to_seal == old(self)@.last_key(),
    {
        self.closed = true;
        match self.last_range {
            Some(i) => Some(self.ranges.get(i).key),
            None => None,
        }
    }

    pub fn is_closed(&self) -> (closed: bool)
        ensures
            closed == self@.closed,
    {
        self.closed
    }

    /// The smallest start offset in the directory, 0 while it is empty.
    pub fn start_offset(&self) -> (offset: u64)
        ensures
            offset == if self@.ranges.len() > 0 {
                self@.ranges[0].key
            } else {
                0
            },
    {
        match self.ranges.first() {
            Some(entry) => entry.key,
            None => 0,
        }
    }

    /// How far the last range has confirmed, 0 while there is none.
    pub fn confirm_offset(&self) -> (offset: u64)
        requires
            self.wf(),
        ensures
            offset == match self@.last() {
                Some(range) => range.confirm_offset,
                None => 0,
            },
    {
        match self.last_range {
            Some(i) => self.ranges.get(i).value.confirm_offset,
            None => 0,
        }
    }

    /// The next offset to hand out.
    pub fn next_offset(&self) -> (offset: u64)
        ensures
            offset == self@.next_offset,
    {
        self.next_offset
    }

    /// Gives a batch of `count` records its offsets: the request owns
    /// `[next_offset, next_offset + count)` and the cursor moves behind it.
    /// A closed stream refuses and changes nothing.
    pub fn append(&mut self, count: u32) -> (request: Result<StreamAppendRequest, StreamError>)
        requires
            !old(self).closed ==> old(self).next_offset + count <= u64::MAX,
        ensures
            old(self)@.closed ==> request == Err::<StreamAppendRequest, StreamError>(
                StreamError::StreamAlreadyClosed,
            ) && final(self)@ == old(self)@,
            !old(self)@.closed ==> request == Ok::<StreamAppendRequest, StreamError>(
                StreamAppendRequest {
                    base_offset: old(self)@.next_offset,
                    count,
                    completion: Completion::Pending,
                },
            ) && final(self)@ == old(self)@.appended(count),
    {
        if self.closed {
            return Err(StreamError::StreamAlreadyClosed);
        }
        let base_offset: u64 = self.next_offset;
        self.next_offset = base_offset + count as u64;
        Ok(StreamAppendRequest::new(base_offset, count))
    }

    /// Plans a fetch of `[start_offset, end_offset)`.
    pub fn fetch(&self, start_offset: u64, end_offset: u64, batch_max_bytes: u32) -> (plan: Result<
        FetchPlan,
        StreamError,
    >)
        requires
            self.wf(),
        ensures
            plan == self@.fetch_plan(start_offset, end_offset, batch_max_bytes),
    {
        if start_offset == end_offset {
            return Ok(FetchPlan::Empty);
        }
        let last_at: usize = match self.last_range {
            Some(i) => i,
            None => {
                return Err(StreamError::OffsetOutOfRangeBounds);
            },
        };
        let last = self.ranges.get(last_at);
        if last.value.confirm_offset < end_offset {
            return Err(StreamError::OffsetOutOfRangeBounds);
        }
        if last.value.metadata.start <= start_offset {
            return Ok(
                FetchPlan::Whole {
                    range: last.key,
                    start: start_offset,
                    end: end_offset,
                    batch_max_bytes,
                },
            );
        }
        match self.ranges.floor(start_offset) {
            Some(i) => {
                let covering = self.ranges.get(i);
                if covering.value.metadata.start > start_offset {
                    Err(StreamError::OffsetOutOfRangeBounds)
                } else {
                    let end: u64 = if end_offset <= covering.value.confirm_offset {
                        end_offset
                    } else {
                        covering.value.confirm_offset
                    };
                    Ok(
                        FetchPlan::Part {
                            range: covering.key,
                            start: start_offset,
                            end,
                            batch_max_bytes,
                        },
                    )
                }
            },
            None => Err(StreamError::OffsetOutOfRangeBounds),
        }
    }
}

/// What the caller of an append gets once its completion is known: the base
/// offset for a success, the error for a failure, and "closed" where the
/// completion was dropped without an answer.
pub fn append_result(base_offset: u64, signal: Option<Result<(), StreamError>>) -> (result: Result<
    u64,
    StreamError,
>)
    ensures
        result == match signal {
            Some(Ok(_)) => Ok::<u64, StreamError>(base_offset),
            Some(Err(e)) => Err(e),
            None => Err(StreamError::StreamAlreadyClosed),
        },
{
    match signal {
        Some(Ok(_)) => Ok(base_offset),
        Some(Err(e)) => Err(e),
        None => Err(StreamError::StreamAlreadyClosed),
    }
}

/// What the caller of a fetch gets for the answer of the range the plan
/// named; `None` stands for "no range was asked". An empty window gives an
/// empty part. The writable range's answer is handed on as it is. An earlier
/// range's full answer is a part of what was asked; blocks with object
/// references stay; any other shape is a defect.
pub fn conclude<B, O>(
    plan: FetchPlan,
    fetched: Option<Result<FetchDataset<B, O>, StreamError>>,
) -> (result: Result<FetchDataset<B, O>, StreamError>)
    ensures
        match plan {
            FetchPlan::Empty => result matches Ok(FetchDataset::Partial(blocks)) && blocks@.len()
                == 0,
            FetchPlan::Whole { .. } => result == match fetched {
                Some(answer) => answer,
                None => Err(StreamError::Unexpected),
            },
            FetchPlan::Part { .. } => result == part_of(fetched),
        },
{
    match plan {
        FetchPlan::Empty => Ok(FetchDataset::Partial(Vec::new())),
        FetchPlan::Whole { .. } => match fetched {
            Some(answer) => answer,
            None => Err(StreamError::Unexpected),
        },
        FetchPlan::Part { .. } => match fetched {
            Some(Ok(FetchDataset::Full(blocks))) => Ok(FetchDataset::Partial(blocks)),
            Some(Ok(FetchDataset::Mixin(blocks, objects))) => Ok(
                FetchDataset::Mixin(blocks, objects),
            ),
            Some(Ok(_)) => Err(StreamError::Unexpected),
            Some(Err(e)) => Err(e),
            None => Err(StreamError::Unexpected),
        },
    }
}

/// A fetch of an empty window asks no range, whatever the offset.
pub proof fn lemma_fetch_empty_window(stream: StreamView, offset: u64, batch_max_bytes: u32)
    ensures
        stream.fetch_plan(offset, offset, batch_max_bytes) == Ok::<FetchPlan, StreamError>(
            FetchPlan::Empty,
        ),
{
}

/// A fetch that ends beyond what the last range has confirmed, or on a stream
/// without ranges, is out of bounds.
pub proof fn lemma_fetch_beyond_confirmed(
    stream: StreamView,
    start: u64,
    end: u64,
    batch_max_bytes: u32,
)
    requires
        start != end,
        match stream.last() {
            Some(range) => range.confirm_offset < end,
            None => true,
        },
    ensures
        stream.fetch_plan(start, end, batch_max_bytes) == Err::<FetchPlan, StreamError>(
            StreamError::OffsetOutOfRangeBounds,
        ),
{
}

/// A fetch that goes to an earlier range asks it for the start that was
/// asked, and for no more than was asked and than that range has confirmed.
/// The range it names stands in the directory at or below the start, and no
/// other range stands between it and the start.
pub proof fn lemma_part_stays_in_one_range(
    stream: StreamView,
    start: u64,
    end: u64,
    batch_max_bytes: u32,
)
    requires
        stream.wf(),
        stream.fetch_plan(start, end, batch_max_bytes) matches Ok(FetchPlan::Part { .. }),
    ensures
        stream.fetch_plan(start, end, batch_max_bytes) matches Ok(
            FetchPlan::Part { range, start: from, end: to, batch_max_bytes: bytes },
        ) && from == start && to <= end && bytes == batch_max_bytes && range <= start && exists|
            i: int,
        |
            0 <= i < stream.ranges.len() && (#[trigger] stream.ranges[i]).key == range
                && stream.ranges[i].value.metadata.start <= start && to
                <= stream.ranges[i].value.confirm_offset && forall|j: int|
                i < j < stream.ranges.len() ==> (#[trigger] stream.ranges[j]).key > start,
{
    crate::table::lemma_rank_parts(stream.ranges, start + 1);
    let below = rank(stream.ranges, start + 1);
    assert(stream.ranges[below - 1].key <= start);
}

/// A fetch that goes to the writable range asks it for exactly the window
/// that was asked, which that range has confirmed to its end.
pub proof fn lemma_whole_is_covered(
    stream: StreamView,
    start: u64,
    end: u64,
    batch_max_bytes: u32,
)
    requires
        stream.fetch_plan(start, end, batch_max_bytes) matches Ok(FetchPlan::Whole { .. }),
    ensures
        stream.last().is_some(),
        stream.fetch_plan(start, end, batch_max_bytes) == Ok::<FetchPlan, StreamError>(
            FetchPlan::Whole { range: stream.last_key().unwrap(), start, end, batch_max_bytes },
        ),
        stream.last().unwrap().metadata.start <= start,
        end <= stream.last().unwrap().confirm_offset,
{
}

/// A rollover leaves no gap: when the last range, the one with the greatest
/// key, is sealed at an end beyond its key and the successor is entered at
/// that end, the directory grows by one range, the sealed range ends where
/// the successor starts, the successor is the last range, and every earlier
/// range is as it was.
pub proof fn lemma_rollover_is_contiguous(stream: StreamView, end: u64, metadata: RangeMetadata)
    requires
        stream.wf(),
        stream.ranges.len() < usize::MAX,
        stream.last_range matches Some(i) && i + 1 == stream.ranges.len(),
        stream.ranges[stream.ranges.len() - 1].key < end,
    ensures
        ({
            let n = stream.ranges.len() as int;
            let rolled = stream.with_last(stream.last().unwrap().sealed_at(end)).with_new_range(
                end,
                metadata,
            );
            &&& rolled.wf()
            &&& rolled.ranges.len() == n + 1
            &&& rolled.last_range matches Some(i) && i == n
            &&& rolled.ranges[n - 1].key == stream.ranges[n - 1].key
            &&& rolled.ranges[n - 1].value.metadata.end == Some(end)
            &&& rolled.ranges[n] == (Entry { key: end, value: Range::fresh(metadata, true) })
            &&& forall|i: int| 0 <= i < n - 1 ==> rolled.ranges[i] == stream.ranges[i]
        }),
{
    let n = stream.ranges.len() as int;
    let sealed = stream.with_last(stream.last().unwrap().sealed_at(end));
    let e = Entry { key: end, value: Range::fresh(metadata, true) };
    assert(crate::table::ascending(sealed.ranges)) by {
        assert forall|i: int, j: int| 0 <= i < j < sealed.ranges.len() implies sealed.ranges[i].key
            < sealed.ranges[j].key by {
            assert(sealed.ranges[i].key == stream.ranges[i].key);
            assert(sealed.ranges[j].key == stream.ranges[j].key);
        }
    }
    assert(crate::table::parts_at(sealed.ranges, end as int, n)) by {
        assert forall|j: int| 0 <= j < n implies (#[trigger] sealed.ranges[j]).key < end by {
            assert(sealed.ranges[j].key == stream.ranges[j].key);
            if j < n - 1 {
                assert(stream.ranges[j].key < stream.ranges[n - 1].key);
            }
        }
    }
    crate::table::lemma_rank_is_part(sealed.ranges, end as int, n);
    lemma_with_entry_ascending(sealed.ranges, e);
    assert(with_entry(sealed.ranges, e) =~= sealed.ranges.push(e));
}

/// The offsets that successive appends hand out part the offset space
/// without gap or overlap, in the order of the calls: the batch after batch
/// `i` starts where batch `i` ends, and every later batch starts at or after
/// that end.
pub proof fn lemma_appends_partition(start: int, counts: Seq<u32>, i: int, j: int)
    requires
        0 <= i < j <= counts.len(),
    ensures
        offset_after(start, counts.take(0)) == start,
        offset_after(start, counts.take(i + 1)) == offset_after(start, counts.take(i))
            + counts[i],
        offset_after(start, counts.take(i)) + counts[i] <= offset_after(start, counts.take(j)),
        counts[i] > 0 ==> offset_after(start, counts.take(i)) < offset_after(
            start,
            counts.take(j),
        ),
    decreases j - i,
{
    assert(counts.take(i + 1).drop_last() =~= counts.take(i));
    assert(counts.take(0).len() == 0);
    if j > i + 1 {
        lemma_appends_partition(start, counts, i, j - 1);
        assert(counts.take(j).drop_last() =~= counts.take(j - 1));
    }
}

/// The cursor of a stream after appends of the sizes `counts` stands at the
/// offset reached from its cursor before, as long as that offset fits; so
/// the base offset that the append after them hands out is that offset.
/// Nothing but the cursor changes.
pub proof fn lemma_cursor_follows(stream: StreamView, counts: Seq<u32>)
    requires
        offset_after(stream.next_offset as int, counts) <= u64::MAX,
    ensures
        after_appends(stream, counts).next_offset == offset_after(
            stream.next_offset as int,
            counts,
        ),
        after_appends(stream, counts) == (StreamView {
            next_offset: after_appends(stream, counts).next_offset,
            ..stream
        }),
    decreases counts.len(),
{
    if counts.len() > 0 {
        lemma_cursor_follows(stream, counts.drop_last());
    }
}

/// The stream after appends of the sizes `counts`, one after the other.
pub open spec fn after_appends(stream: StreamView, counts: Seq<u32>) -> StreamView
    decreases counts.len(),
{
    if counts.len() == 0 {
        stream
    } else {
        after_appends(stream, counts.drop_last()).appended(counts.last())
    }
}

} // verus!
