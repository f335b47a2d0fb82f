//! The stream consumption engine, driven record by record: windows,
//! out-of-order acknowledgments, checkpoints, redelivery, trimming, stream
//! deletion and replicated checkpoints.

use redisgears::api::StreamRecordAck;
use redisgears::stream_reader::{RecordId, StreamReaderCtx, StreamStep};

fn rid(ms: u64, seq: u64) -> RecordId {
    RecordId::new(ms, seq)
}

#[test]
fn window_full_blocks_and_ack_order_gates_checkpoint() {
    // window=2, stream records [1,2,3,4]: 1 and 2 dispatched (window full),
    // 3 unread; Ack(2) first leaves the checkpoint untouched (1 pending);
    // Ack(1) moves it to 2 and frees capacity to read record 3.
    let mut ctx = StreamReaderCtx::new();
    let c = ctx.add_consumer(b"s", 7, 2, false);
    let matched = ctx.on_stream_touched("created", "s1");
    assert_eq!(matched, vec![c]);

    match ctx.poll_stream(c, "s1") {
        StreamStep::ReadFrom(None) => {}
        other => panic!("expected read from the beginning, got {:?}", other),
    }
    assert!(ctx.deliver_record(c, "s1", rid(1, 0)));
    match ctx.poll_stream(c, "s1") {
        StreamStep::ReadFrom(Some(p)) => assert_eq!(p, rid(1, 0)),
        other => panic!("expected read after 1-0, got {:?}", other),
    }
    assert!(ctx.deliver_record(c, "s1", rid(2, 0)));

    // Window full: record 3 stays unread.
    assert!(matches!(ctx.poll_stream(c, "s1"), StreamStep::Idle));
    assert_eq!(ctx.stream_inflight(c, "s1"), 2);
    assert!(!ctx.deliver_record(c, "s1", rid(3, 0)));

    // Ack(2) arrives first: 1 still pending, checkpoint stays at the start.
    let eff = ctx.handle_ack(c, "s1", rid(2, 0), StreamRecordAck::Ack, 10, 1);
    assert_eq!(eff.checkpoint, None);
    assert_eq!(ctx.stream_checkpoint(c, "s1"), Some(None));

    // Ack(1): checkpoint becomes 2, capacity is free again.
    let eff = ctx.handle_ack(c, "s1", rid(1, 0), StreamRecordAck::Ack, 10, 1);
    assert_eq!(eff.checkpoint, Some(rid(2, 0)));
    assert_eq!(ctx.stream_checkpoint(c, "s1"), Some(Some(rid(2, 0))));
    assert_eq!(ctx.stream_inflight(c, "s1"), 0);

    match ctx.poll_stream(c, "s1") {
        StreamStep::ReadFrom(Some(p)) => assert_eq!(p, rid(2, 0)),
        other => panic!("expected read after 2-0, got {:?}", other),
    }
    assert!(ctx.deliver_record(c, "s1", rid(3, 0)));
    assert!(ctx.deliver_record(c, "s1", rid(4, 0)));
    assert!(matches!(ctx.poll_stream(c, "s1"), StreamStep::Idle));
}

#[test]
fn nack_blocks_checkpoint_and_redelivers_on_next_touch() {
    let mut ctx = StreamReaderCtx::new();
    let c = ctx.add_consumer(b"s", 7, 3, false);
    ctx.on_stream_touched("created", "s1");
    assert!(ctx.deliver_record(c, "s1", rid(1, 0)));
    assert!(ctx.deliver_record(c, "s1", rid(2, 0)));

    // Record 1 fails: it leaves the window but blocks the checkpoint.
    let eff = ctx.handle_ack(
        c,
        "s1",
        rid(1, 0),
        StreamRecordAck::Nack("handler failed".to_string()),
        10,
        1,
    );
    assert_eq!(eff.checkpoint, None);
    assert_eq!(ctx.stream_inflight(c, "s1"), 1);
    assert_eq!(ctx.stream_last_error(c, "s1").as_deref(), Some("handler failed"));

    // Record 2 succeeds, but the checkpoint must not skip the failed 1.
    let eff = ctx.handle_ack(c, "s1", rid(2, 0), StreamRecordAck::Ack, 10, 1);
    assert_eq!(eff.checkpoint, None);
    assert_eq!(ctx.stream_checkpoint(c, "s1"), Some(None));

    // The next touch redelivers record 1.
    ctx.on_stream_touched("created", "s1");
    match ctx.poll_stream(c, "s1") {
        StreamStep::Redeliver(id) => assert_eq!(id, rid(1, 0)),
        other => panic!("expected redelivery of 1-0, got {:?}", other),
    }
    assert_eq!(ctx.stream_inflight(c, "s1"), 1);

    // Its eventual success releases the whole prefix.
    let eff = ctx.handle_ack(c, "s1", rid(1, 0), StreamRecordAck::Ack, 10, 1);
    assert_eq!(eff.checkpoint, Some(rid(2, 0)));
}

#[test]
fn trim_follows_checkpoint_only_when_enabled() {
    let mut ctx = StreamReaderCtx::new();
    let trimming = ctx.add_consumer(b"s", 1, 4, true);
    let plain = ctx.add_consumer(b"s", 2, 4, false);
    ctx.on_stream_touched("created", "s1");
    assert!(ctx.deliver_record(trimming, "s1", rid(1, 0)));
    assert!(ctx.deliver_record(plain, "s1", rid(1, 0)));

    let eff = ctx.handle_ack(trimming, "s1", rid(1, 0), StreamRecordAck::Ack, 10, 1);
    assert_eq!(eff.checkpoint, Some(rid(1, 0)));
    assert_eq!(eff.trim, Some(rid(1, 0)));

    let eff = ctx.handle_ack(plain, "s1", rid(1, 0), StreamRecordAck::Ack, 10, 1);
    assert_eq!(eff.checkpoint, Some(rid(1, 0)));
    assert_eq!(eff.trim, None);
}

#[test]
fn stats_track_times_and_lag() {
    let mut ctx = StreamReaderCtx::new();
    let c = ctx.add_consumer(b"s", 7, 4, false);
    ctx.on_stream_touched("created", "s1");
    assert!(ctx.deliver_record(c, "s1", rid(100, 0)));
    assert!(ctx.deliver_record(c, "s1", rid(120, 0)));
    // acknowledged at 150ms, having taken 7ms: lag of record 100-0 is 50
    ctx.handle_ack(c, "s1", rid(100, 0), StreamRecordAck::Ack, 150, 7);
    // acknowledged at 160ms, having taken 3ms: lag of record 120-0 is 40
    ctx.handle_ack(c, "s1", rid(120, 0), StreamRecordAck::Ack, 160, 3);
    let (processed, total_time, last_time, total_lag, last_lag) =
        ctx.stream_stats(c, "s1").unwrap();
    assert_eq!(processed, 2);
    assert_eq!(total_time, 10);
    assert_eq!(last_time, 3);
    assert_eq!(total_lag, 90);
    assert_eq!(last_lag, 40);
}

#[test]
fn late_ack_for_missing_state_is_a_noop() {
    let mut ctx = StreamReaderCtx::new();
    let c = ctx.add_consumer(b"s", 7, 4, false);
    ctx.on_stream_touched("created", "s1");
    assert!(ctx.deliver_record(c, "s1", rid(1, 0)));

    // The stream is deleted while the record is in flight.
    ctx.on_stream_deleted("del", "s1");
    let eff = ctx.handle_ack(c, "s1", rid(1, 0), StreamRecordAck::Ack, 10, 1);
    assert_eq!(eff.checkpoint, None);
    assert_eq!(eff.trim, None);

    // Same for a registration that is gone entirely.
    ctx.remove_consumer(c);
    let eff = ctx.handle_ack(c, "s1", rid(1, 0), StreamRecordAck::Ack, 10, 1);
    assert_eq!(eff.checkpoint, None);
}

#[test]
fn prefix_matching_selects_consumers() {
    let mut ctx = StreamReaderCtx::new();
    let orders = ctx.add_consumer(b"orders:", 1, 4, false);
    let all = ctx.add_consumer(b"", 2, 4, false);
    let users = ctx.add_consumer(b"users:", 3, 4, false);

    let matched = ctx.on_stream_touched("created", "orders:42");
    assert_eq!(matched, vec![orders, all]);
    let matched = ctx.on_stream_touched("created", "users:7");
    assert_eq!(matched, vec![all, users]);
    let matched = ctx.on_stream_touched("created", "other");
    assert_eq!(matched, vec![all]);
}

#[test]
fn replicated_checkpoint_moves_forward_only() {
    let mut ctx = StreamReaderCtx::new();
    let c = ctx.add_consumer(b"s", 7, 4, false);
    // A replica learns positions without ever touching the stream.
    ctx.update_stream_for_consumer(c, "s1", 5, 3);
    assert_eq!(ctx.stream_checkpoint(c, "s1"), Some(Some(rid(5, 3))));
    ctx.update_stream_for_consumer(c, "s1", 9, 0);
    assert_eq!(ctx.stream_checkpoint(c, "s1"), Some(Some(rid(9, 0))));
    // An older command never moves the cursor back.
    ctx.update_stream_for_consumer(c, "s1", 7, 2);
    assert_eq!(ctx.stream_checkpoint(c, "s1"), Some(Some(rid(9, 0))));
    // Reading resumes strictly after the replicated position.
    match ctx.poll_stream(c, "s1") {
        StreamStep::ReadFrom(Some(p)) => assert_eq!(p, rid(9, 0)),
        other => panic!("expected read after 9-0, got {:?}", other),
    }
}

#[test]
fn flush_clears_cursors_but_keeps_registrations() {
    let mut ctx = StreamReaderCtx::new();
    let c = ctx.add_consumer(b"s", 7, 4, true);
    ctx.on_stream_touched("created", "s1");
    assert!(ctx.deliver_record(c, "s1", rid(1, 0)));
    ctx.handle_ack(c, "s1", rid(1, 0), StreamRecordAck::Ack, 10, 1);
    assert_eq!(ctx.stream_checkpoint(c, "s1"), Some(Some(rid(1, 0))));

    ctx.clear_tracked_streams();
    // The registration survives with its configuration ...
    assert_eq!(ctx.consumer_config(c), Some((7, 4, true)));
    // ... but position and statistics are gone.
    assert_eq!(ctx.stream_checkpoint(c, "s1"), Some(None));
    assert_eq!(ctx.stream_stats(c, "s1"), Some((0, 0, 0, 0, 0)));
}

#[test]
fn record_ids_order_lexicographically() {
    let mut ctx = StreamReaderCtx::new();
    let c = ctx.add_consumer(b"s", 7, 8, false);
    ctx.on_stream_touched("created", "s1");
    assert!(ctx.deliver_record(c, "s1", rid(1, 5)));
    // same timestamp, higher sequence: accepted
    assert!(ctx.deliver_record(c, "s1", rid(1, 6)));
    // not beyond the last delivered id: refused
    assert!(!ctx.deliver_record(c, "s1", rid(1, 6)));
    assert!(!ctx.deliver_record(c, "s1", rid(0, 9)));
    assert!(ctx.deliver_record(c, "s1", rid(2, 0)));
}
