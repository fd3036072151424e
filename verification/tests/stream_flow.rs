use stream_core::engine::{AppendEngine, Event, Step, RETRY_BACKOFF_MILLIS};
use stream_core::error::StreamError;
use stream_core::range::{sort_by_index, Range, RangeMetadata};
use stream_core::request::{Completion, StreamAppendRequest};
use stream_core::stream::{append_result, conclude, FetchDataset, FetchPlan, Stream};

fn meta(index: i32, start: u64, end: Option<u64>) -> RangeMetadata {
    RangeMetadata { stream_id: 7, epoch: 3, index, start, end }
}

/// A stream with the sealed range [0, 100) and a writable range from 100 on.
fn rolled_stream() -> (Stream, AppendEngine) {
    let mut stream = Stream::new(7, 3);
    let mut engine = AppendEngine::new();
    assert_eq!(stream.open(Ok(vec![meta(0, 0, None)])), Ok(Some(0)));
    assert_eq!(stream.finish_open(Ok(100)), Ok(()));
    assert_eq!(stream.next_offset(), 100);
    assert_eq!(engine.on_event(&stream, Event::WakeSignal), Step::SealRange { range: 0 });
    assert_eq!(
        engine.on_sealed(&mut stream, Ok(100)),
        Step::CreateRange { index: 1, start: 100 }
    );
    assert_eq!(
        AppendEngine::on_range_created(&mut stream, 100, Ok(meta(1, 100, None))),
        Step::Retrigger
    );
    (stream, engine)
}

#[test]
fn new_stream_is_empty_and_open() {
    let stream = Stream::new(7, 3);
    assert_eq!(stream.start_offset(), 0);
    assert_eq!(stream.confirm_offset(), 0);
    assert_eq!(stream.next_offset(), 0);
    assert!(!stream.is_closed());
    assert_eq!(stream.ranges.len(), 0);
}

#[test]
fn appends_hand_out_contiguous_offsets() {
    let mut stream = Stream::new(1, 1);
    let counts: Vec<u32> = vec![10, 1, 5, 100];
    let mut expected: u64 = 0;
    for count in counts {
        let request = stream.append(count).unwrap();
        assert_eq!(request.base_offset(), expected);
        assert_eq!(request.count(), count);
        assert_eq!(request.completion(), Completion::Pending);
        expected += count as u64;
        assert_eq!(stream.next_offset(), expected);
    }
    assert_eq!(expected, 116);
}

#[test]
fn append_after_reopen_starts_at_sealed_end() {
    let (mut stream, _engine) = rolled_stream();
    let request = stream.append(10).unwrap();
    assert_eq!(request.base_offset(), 100);
    assert_eq!(stream.next_offset(), 110);
}

#[test]
fn append_resolves_once_range_confirms() {
    let (mut stream, mut engine) = rolled_stream();
    let request = stream.append(10).unwrap();
    let step = engine.on_event(&stream, Event::RequestArrived(request));
    assert_eq!(step, Step::Progress { acked: vec![], forwarded: vec![request] });
    assert_eq!(engine.next_append_start_offset, 110);
    assert_eq!(engine.inflight_count(), 1);

    // Nothing confirmed yet: the request stays and is not sent twice.
    let step = engine.on_event(&stream, Event::WakeSignal);
    assert_eq!(step, Step::Progress { acked: vec![], forwarded: vec![] });
    assert_eq!(engine.inflight_count(), 1);

    stream.observe_last(true, 110);
    let step = engine.on_event(&stream, Event::WakeSignal);
    let done =
        StreamAppendRequest { base_offset: 100, count: 10, completion: Completion::Succeeded };
    assert_eq!(step, Step::Progress { acked: vec![done], forwarded: vec![] });
    assert_eq!(engine.inflight_count(), 0);
    assert_eq!(append_result(100, Some(Ok(()))), Ok(100));
}

#[test]
fn fetch_across_two_ranges_comes_in_parts() {
    let (mut stream, _engine) = rolled_stream();
    stream.observe_last(true, 150);
    let plan = stream.fetch(50, 150, 4096).unwrap();
    assert_eq!(plan, FetchPlan::Part { range: 0, start: 50, end: 100, batch_max_bytes: 4096 });
    let answer: Result<FetchDataset<u8, u8>, StreamError> =
        conclude(plan, Some(Ok(FetchDataset::Full(vec![1, 2, 3]))));
    assert_eq!(answer, Ok(FetchDataset::Partial(vec![1, 2, 3])));

    let plan = stream.fetch(100, 150, 4096).unwrap();
    assert_eq!(plan, FetchPlan::Whole { range: 100, start: 100, end: 150, batch_max_bytes: 4096 });
    let answer: Result<FetchDataset<u8, u8>, StreamError> =
        conclude(plan, Some(Ok(FetchDataset::Full(vec![4, 5]))));
    assert_eq!(answer, Ok(FetchDataset::Full(vec![4, 5])));
}

#[test]
fn fetch_of_empty_window_is_empty() {
    let stream = Stream::new(1, 1);
    for x in [0u64, 5, u64::MAX] {
        let plan = stream.fetch(x, x, 1).unwrap();
        assert_eq!(plan, FetchPlan::Empty);
        let answer: Result<FetchDataset<u8, u8>, StreamError> = conclude(plan, None);
        assert_eq!(answer, Ok(FetchDataset::Partial(vec![])));
    }
    let (stream, _engine) = rolled_stream();
    assert_eq!(stream.fetch(42, 42, 0), Ok(FetchPlan::Empty));
}

#[test]
fn fetch_beyond_confirmed_is_out_of_bounds() {
    let stream = Stream::new(1, 1);
    assert_eq!(stream.fetch(0, 1, 10), Err(StreamError::OffsetOutOfRangeBounds));
    let (mut stream, _engine) = rolled_stream();
    stream.observe_last(true, 120);
    assert_eq!(stream.fetch(100, 121, 10), Err(StreamError::OffsetOutOfRangeBounds));
    assert_eq!(stream.fetch(10, 200, 10), Err(StreamError::OffsetOutOfRangeBounds));
    assert!(stream.fetch(100, 120, 10).is_ok());
}

#[test]
fn fetch_below_first_range_is_out_of_bounds() {
    let mut stream = Stream::new(1, 1);
    assert_eq!(stream.open(Ok(vec![meta(0, 50, Some(80)), meta(1, 80, None)])), Ok(Some(80)));
    assert_eq!(stream.finish_open(Ok(90)), Ok(()));
    assert_eq!(stream.start_offset(), 50);
    assert_eq!(stream.confirm_offset(), 90);
    assert_eq!(stream.fetch(10, 60, 1), Err(StreamError::OffsetOutOfRangeBounds));
    assert_eq!(
        stream.fetch(50, 90, 1),
        Ok(FetchPlan::Part { range: 50, start: 50, end: 80, batch_max_bytes: 1 })
    );
    assert_eq!(
        stream.fetch(79, 80, 1),
        Ok(FetchPlan::Part { range: 50, start: 79, end: 80, batch_max_bytes: 1 })
    );
}

#[test]
fn single_range_answer_shapes() {
    let plan = FetchPlan::Part { range: 0, start: 1, end: 2, batch_max_bytes: 3 };
    let mixin: Result<FetchDataset<u8, u16>, StreamError> =
        conclude(plan, Some(Ok(FetchDataset::Mixin(vec![1], vec![2]))));
    assert_eq!(mixin, Ok(FetchDataset::Mixin(vec![1], vec![2])));
    let partial: Result<FetchDataset<u8, u16>, StreamError> =
        conclude(plan, Some(Ok(FetchDataset::Partial(vec![1]))));
    assert_eq!(partial, Err(StreamError::Unexpected));
    let overflow: Result<FetchDataset<u8, u16>, StreamError> =
        conclude(plan, Some(Ok(FetchDataset::Overflow(vec![9]))));
    assert_eq!(overflow, Err(StreamError::Unexpected));
    let failed: Result<FetchDataset<u8, u16>, StreamError> =
        conclude(plan, Some(Err(StreamError::Transport(503))));
    assert_eq!(failed, Err(StreamError::Transport(503)));
    let unasked: Result<FetchDataset<u8, u16>, StreamError> = conclude(plan, None);
    assert_eq!(unasked, Err(StreamError::Unexpected));
    let whole = FetchPlan::Whole { range: 0, start: 1, end: 2, batch_max_bytes: 3 };
    let passed: Result<FetchDataset<u8, u16>, StreamError> =
        conclude(whole, Some(Ok(FetchDataset::Partial(vec![1]))));
    assert_eq!(passed, Ok(FetchDataset::Partial(vec![1])));
}

#[test]
fn close_fails_everything_in_flight() {
    let (mut stream, mut engine) = rolled_stream();
    let a = stream.append(1).unwrap();
    let b = stream.append(2).unwrap();
    let c = stream.append(3).unwrap();
    engine.on_event(&stream, Event::RequestArrived(a));
    engine.on_event(&stream, Event::RequestArrived(b));
    engine.on_event(&stream, Event::RequestArrived(c));
    assert_eq!(engine.inflight_count(), 3);

    assert_eq!(stream.close(), Some(100));
    assert!(stream.is_closed());
    let step = engine.on_event(&stream, Event::ShutdownSignal);
    let closed = Completion::Failed(StreamError::StreamAlreadyClosed);
    let expected: Vec<StreamAppendRequest> = vec![
        StreamAppendRequest { base_offset: 100, count: 1, completion: closed },
        StreamAppendRequest { base_offset: 101, count: 2, completion: closed },
        StreamAppendRequest { base_offset: 103, count: 3, completion: closed },
    ];
    assert_eq!(step, Step::Stopped { failed: expected });
    assert_eq!(engine.inflight_count(), 0);
    assert!(engine.stopped);

    assert_eq!(stream.append(4), Err(StreamError::StreamAlreadyClosed));
    assert_eq!(stream.next_offset(), 106);
    assert_eq!(
        append_result(100, Some(Err(StreamError::StreamAlreadyClosed))),
        Err(StreamError::StreamAlreadyClosed)
    );
    assert_eq!(append_result(100, None), Err(StreamError::StreamAlreadyClosed));
}

#[test]
fn closed_mark_stops_the_engine_on_any_event() {
    let (mut stream, mut engine) = rolled_stream();
    let a = stream.append(1).unwrap();
    stream.close();
    let step = engine.on_event(&stream, Event::RequestArrived(a));
    let failed = StreamAppendRequest {
        base_offset: 100,
        count: 1,
        completion: Completion::Failed(StreamError::StreamAlreadyClosed),
    };
    assert_eq!(step, Step::Stopped { failed: vec![failed] });
    // Terminal: a later event finds nothing and changes nothing.
    assert_eq!(engine.on_event(&stream, Event::WakeSignal), Step::Stopped { failed: vec![] });
    assert!(engine.stopped);
}

#[test]
fn request_completes_only_once() {
    let mut request = StreamAppendRequest::new(5, 2);
    assert_eq!(request.base_offset(), 5);
    assert_eq!(request.count(), 2);
    assert!(request.success());
    assert_eq!(request.completion(), Completion::Succeeded);
    assert!(!request.fail(StreamError::StreamAlreadyClosed));
    assert!(!request.success());
    assert_eq!(request.completion(), Completion::Succeeded);

    let mut other = StreamAppendRequest::new(9, 1);
    assert!(other.fail(StreamError::StreamAlreadyClosed));
    assert!(!other.success());
    assert_eq!(other.completion(), Completion::Failed(StreamError::StreamAlreadyClosed));
}

#[test]
fn engine_creates_first_range_when_stream_has_none() {
    let mut stream = Stream::new(1, 1);
    let mut engine = AppendEngine::new();
    let request = stream.append(4).unwrap();
    assert_eq!(
        engine.on_event(&stream, Event::RequestArrived(request)),
        Step::CreateRange { index: 0, start: 0 }
    );
    // A failed creation waits and leaves the request where it is.
    assert_eq!(
        AppendEngine::on_range_created(&mut stream, 0, Err(StreamError::Transport(1))),
        Step::Backoff { millis: 1000 }
    );
    assert_eq!(RETRY_BACKOFF_MILLIS, 1000);
    assert_eq!(engine.inflight_count(), 1);
    assert_eq!(
        engine.on_event(&stream, Event::WakeSignal),
        Step::CreateRange { index: 0, start: 0 }
    );
    assert_eq!(
        AppendEngine::on_range_created(&mut stream, 0, Ok(meta(0, 0, None))),
        Step::Retrigger
    );
    assert_eq!(
        engine.on_event(&stream, Event::WakeSignal),
        Step::Progress { acked: vec![], forwarded: vec![request] }
    );
    assert_eq!(engine.next_append_start_offset, 4);
}

#[test]
fn rollover_resumes_at_sealed_end() {
    let (mut stream, mut engine) = rolled_stream();
    let a = stream.append(10).unwrap();
    let b = stream.append(10).unwrap();
    let c = stream.append(10).unwrap();
    let step = engine.on_event(&stream, Event::RequestArrived(a));
    assert_eq!(step, Step::Progress { acked: vec![], forwarded: vec![a] });
    let step = engine.on_event(&stream, Event::RequestArrived(b));
    assert_eq!(step, Step::Progress { acked: vec![], forwarded: vec![b] });
    let step = engine.on_event(&stream, Event::RequestArrived(c));
    assert_eq!(step, Step::Progress { acked: vec![], forwarded: vec![c] });
    assert_eq!(engine.next_append_start_offset, 130);

    // The range confirmed up to 110 and then stopped taking writes.
    stream.observe_last(false, 110);
    assert_eq!(engine.on_event(&stream, Event::WakeSignal), Step::SealRange { range: 100 });
    // Failed attempts change nothing.
    assert_eq!(
        engine.on_sealed(&mut stream, Err(StreamError::Transport(9))),
        Step::Backoff { millis: 1000 }
    );
    assert_eq!(engine.next_append_start_offset, 130);
    assert_eq!(engine.inflight_count(), 3);
    assert_eq!(engine.on_event(&stream, Event::WakeSignal), Step::SealRange { range: 100 });
    assert_eq!(
        engine.on_sealed(&mut stream, Ok(110)),
        Step::CreateRange { index: 2, start: 110 }
    );
    assert_eq!(engine.next_append_start_offset, 110);
    assert_eq!(
        AppendEngine::on_range_created(&mut stream, 110, Err(StreamError::Unexpected)),
        Step::Backoff { millis: 1000 }
    );
    assert_eq!(engine.on_event(&stream, Event::WakeSignal), Step::SealRange { range: 100 });
    assert_eq!(
        engine.on_sealed(&mut stream, Ok(110)),
        Step::CreateRange { index: 2, start: 110 }
    );
    assert_eq!(
        AppendEngine::on_range_created(&mut stream, 110, Ok(meta(2, 110, None))),
        Step::Retrigger
    );
    assert_eq!(stream.ranges.len(), 3);
    assert_eq!(stream.confirm_offset(), 110);

    // The first batch is below the new range's confirmed offset: it succeeded
    // in the old range. The two others go to the successor, in offset order.
    let step = engine.on_event(&stream, Event::WakeSignal);
    let done =
        StreamAppendRequest { base_offset: 100, count: 10, completion: Completion::Succeeded };
    assert_eq!(step, Step::Progress { acked: vec![done], forwarded: vec![b, c] });
    assert_eq!(engine.next_append_start_offset, 130);
    assert_eq!(engine.inflight_count(), 2);
}

#[test]
fn request_above_a_gap_waits_for_the_gap() {
    let (mut stream, mut engine) = rolled_stream();
    let a = stream.append(1).unwrap();
    let b = stream.append(2).unwrap();
    let c = stream.append(3).unwrap();
    let step = engine.on_event(&stream, Event::RequestArrived(b));
    assert_eq!(step, Step::Progress { acked: vec![], forwarded: vec![] });
    assert_eq!(engine.next_append_start_offset, 100);
    let step = engine.on_event(&stream, Event::RequestArrived(c));
    assert_eq!(step, Step::Progress { acked: vec![], forwarded: vec![] });
    let step = engine.on_event(&stream, Event::RequestArrived(a));
    assert_eq!(step, Step::Progress { acked: vec![], forwarded: vec![a, b, c] });
    assert_eq!(engine.next_append_start_offset, 106);
    assert_eq!(engine.inflight_count(), 3);
}

#[test]
fn open_fails_with_the_listing_or_the_seal() {
    let mut stream = Stream::new(1, 1);
    assert_eq!(stream.open(Err(StreamError::Transport(17))), Err(StreamError::Transport(17)));
    assert_eq!(stream.ranges.len(), 0);
    assert_eq!(stream.open(Ok(vec![])), Ok(None));
    assert_eq!(stream.open(Ok(vec![meta(0, 0, None)])), Ok(Some(0)));
    assert_eq!(stream.finish_open(Err(StreamError::Transport(3))), Err(StreamError::Transport(3)));
    assert_eq!(stream.next_offset(), 0);
}

#[test]
fn open_keeps_the_higher_index_of_two_ranges_with_one_start() {
    let mut stream = Stream::new(1, 1);
    let listed = vec![meta(2, 30, None), meta(1, 30, Some(30)), meta(0, 0, Some(30))];
    assert_eq!(stream.open(Ok(listed)), Ok(Some(30)));
    assert_eq!(stream.ranges.len(), 2);
    assert_eq!(stream.ranges.get(0).value, Range::new(meta(0, 0, Some(30)), false));
    assert_eq!(stream.ranges.get(1).value, Range::new(meta(2, 30, None), false));
    assert_eq!(stream.last_range, Some(1));
}

#[test]
fn sort_by_index_is_stable() {
    let listed = vec![meta(2, 1, None), meta(0, 2, None), meta(2, 3, None), meta(1, 4, None)];
    let sorted = sort_by_index(listed);
    let starts: Vec<u64> = sorted.iter().map(|m| m.start).collect();
    assert_eq!(starts, vec![2, 4, 1, 3]);
}

#[test]
fn fresh_range_confirms_its_recorded_end() {
    let sealed = Range::new(meta(0, 10, Some(25)), false);
    assert_eq!(sealed.confirm_offset(), 25);
    assert_eq!(sealed.start_offset(), 10);
    assert!(!sealed.is_writable());
    let open = Range::new(meta(1, 25, None), true);
    assert_eq!(open.confirm_offset(), 25);
    assert!(open.is_writable());
    let closed = open.seal(40);
    assert_eq!(closed.metadata().end, Some(40));
    assert_eq!(closed.confirm_offset(), 40);
    assert!(!closed.is_writable());
}

#[test]
fn observe_updates_the_named_range_only() {
    let (mut stream, _engine) = rolled_stream();
    stream.observe(0, false, 90);
    assert_eq!(stream.ranges.get(0).value.confirm_offset(), 90);
    assert_eq!(stream.ranges.get(1).value.confirm_offset(), 100);
    stream.observe(55, true, 1);
    assert_eq!(stream.ranges.get(0).value.confirm_offset(), 90);
    assert_eq!(stream.ranges.get(1).value.confirm_offset(), 100);
    stream.observe(100, true, 130);
    assert_eq!(stream.confirm_offset(), 130);
    assert_eq!(
        stream.fetch(50, 95, 8),
        Ok(FetchPlan::Part { range: 0, start: 50, end: 90, batch_max_bytes: 8 })
    );
}
