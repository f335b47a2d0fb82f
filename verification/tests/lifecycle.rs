//! The library lifecycle transaction: header parsing, load, hot upgrade with
//! rollback, commit, delete, and the bulk-load and flush events.

use redisgears::api::{GearsApiError, RegisteredKeys, StreamRecordAck};
use redisgears::lifecycle::{library_extract_metadata, GearsCtx};
use redisgears::stream_reader::{RecordId, StreamStep};

fn rid(ms: u64, seq: u64) -> RecordId {
    RecordId::new(ms, seq)
}

fn msg(e: &GearsApiError) -> &str {
    e.get_msg()
}

#[test]
fn header_parses_engine_and_name() {
    let m = library_extract_metadata("#!js name=mylib\nvar x = 1;").unwrap();
    assert_eq!(m.engine, b"js".to_vec());
    assert_eq!(m.name, b"mylib".to_vec());
    assert_eq!(m.code, b"#!js name=mylib\nvar x = 1;".to_vec());
}

#[test]
fn header_without_newline_is_accepted() {
    let m = library_extract_metadata("#!v8 name=a").unwrap();
    assert_eq!(m.engine, b"v8".to_vec());
    assert_eq!(m.name, b"a".to_vec());
}

#[test]
fn header_engine_token_may_be_empty() {
    let m = library_extract_metadata("#! name=x\n").unwrap();
    assert_eq!(m.engine, b"".to_vec());
    assert_eq!(m.name, b"x".to_vec());
}

#[test]
fn header_name_property_is_case_insensitive() {
    let m = library_extract_metadata("#!js NAME=lib\n").unwrap();
    assert_eq!(m.name, b"lib".to_vec());
}

#[test]
fn header_name_value_stops_at_second_equals() {
    let m = library_extract_metadata("#!js name=a=b\n").unwrap();
    assert_eq!(m.name, b"a".to_vec());
}

#[test]
fn header_rejections_name_their_cause() {
    let e = library_extract_metadata("no shebang here").unwrap_err();
    assert_eq!(msg(&e), "could not find #! syntax");
    let e = library_extract_metadata("#!js\ncode").unwrap_err();
    assert_eq!(msg(&e), "Failed find 'name' property");
    let e = library_extract_metadata("#!js name\n").unwrap_err();
    assert_eq!(msg(&e), "could not extract property value");
    let e = library_extract_metadata("#!js other=x\n").unwrap_err();
    assert_eq!(msg(&e), "unknown property");
}

fn load_simple_library(g: &mut GearsCtx) {
    let meta = library_extract_metadata("#!js name=lib1\ncode v1").unwrap();
    g.function_load_begin(meta, false).unwrap();
    g.register_function("f1", 100).unwrap();
    assert!(g.register_stream_consumer("c1", "orders:", 1, 5, true).unwrap());
    g.register_key_space_notification_consumer("n1", RegisteredKeys::Prefix("user:"), 200)
        .unwrap();
    g.function_load_commit().unwrap();
}

#[test]
fn load_publishes_functions_and_consumers() {
    let mut g = GearsCtx::new();
    load_simple_library(&mut g);
    assert_eq!(g.get_function("lib1", "f1").unwrap(), 100);
    assert_eq!(msg(&g.get_function("lib1", "nope").unwrap_err()), "Unknown function");
    assert_eq!(msg(&g.get_function("lib2", "f1").unwrap_err()), "Unknown library");

    let matched = g.stream_ctx.on_stream_touched("created", "orders:1");
    assert_eq!(matched.len(), 1);
    assert_eq!(g.stream_ctx.consumer_config(matched[0]), Some((1, 5, true)));

    let fired = g.notifications_ctx.on_key_touched("set", "user:a");
    assert_eq!(fired.len(), 1);
    assert_eq!(fired[0].1, 200);
}

#[test]
fn duplicate_names_within_one_load_are_rejected() {
    let mut g = GearsCtx::new();
    let meta = library_extract_metadata("#!js name=lib1\n").unwrap();
    g.function_load_begin(meta, false).unwrap();
    g.register_function("f", 1).unwrap();
    assert_eq!(msg(&g.register_function("f", 2).unwrap_err()), "Function already exists");
    g.register_stream_consumer("c", "p", 1, 2, false).unwrap();
    assert_eq!(
        msg(&g.register_stream_consumer("c", "p", 1, 2, false).unwrap_err()),
        "Stream registration already exists"
    );
    g.register_key_space_notification_consumer("n", RegisteredKeys::Key("k"), 1).unwrap();
    assert_eq!(
        msg(
            &g.register_key_space_notification_consumer("n", RegisteredKeys::Key("k"), 2)
                .unwrap_err()
        ),
        "Notification consumer already exists"
    );
    g.function_load_abort();
}

#[test]
fn second_load_of_same_name_needs_upgrade() {
    let mut g = GearsCtx::new();
    load_simple_library(&mut g);
    let meta = library_extract_metadata("#!js name=lib1\ncode v2").unwrap();
    let e = g.function_load_begin(meta, false).unwrap_err();
    assert_eq!(msg(&e), "Library already exists");
    // the active library is untouched
    assert_eq!(g.get_function("lib1", "f1").unwrap(), 100);
}

#[test]
fn empty_library_is_rejected_with_no_retained_state() {
    let mut g = GearsCtx::new();
    let meta = library_extract_metadata("#!js name=empty\n").unwrap();
    g.function_load_begin(meta, false).unwrap();
    let e = g.function_load_commit().unwrap_err();
    assert_eq!(msg(&e), "No function nor registrations was registered");
    // nothing was retained: the name is free again, and nothing dispatches
    assert_eq!(msg(&g.get_function("empty", "f").unwrap_err()), "Unknown library");
    assert_eq!(g.stream_ctx.on_stream_touched("created", "anything"), vec![]);
    let meta = library_extract_metadata("#!js name=empty\n").unwrap();
    g.function_load_begin(meta, false).unwrap();
    g.register_function("f", 1).unwrap();
    g.function_load_commit().unwrap();
    assert_eq!(g.get_function("empty", "f").unwrap(), 1);
}

#[test]
fn prefix_change_on_upgrade_is_rejected_and_consumer_kept() {
    // register_stream_consumer("c1", "orders:", h, 5, true), then an upgrade
    // attempting prefix "orders2:" is rejected; c1 stays bound to "orders:"
    // with its original handler.
    let mut g = GearsCtx::new();
    load_simple_library(&mut g);

    let meta = library_extract_metadata("#!js name=lib1\ncode v2").unwrap();
    g.function_load_begin(meta, true).unwrap();
    let e = g.register_stream_consumer("c1", "orders2:", 9, 5, true).unwrap_err();
    assert_eq!(msg(&e), "Can not upgrade an existing consumer with different prefix");
    g.function_load_abort();

    let matched = g.stream_ctx.on_stream_touched("created", "orders:1");
    assert_eq!(matched.len(), 1);
    assert!(g.stream_ctx.consumer_prefix_is(matched[0], b"orders:"));
    assert_eq!(g.stream_ctx.consumer_config(matched[0]), Some((1, 5, true)));
    assert_eq!(g.stream_ctx.on_stream_touched("created", "orders2:1"), vec![]);
}

#[test]
fn failed_upgrade_rolls_back_registrations_cursors_and_stats() {
    let mut g = GearsCtx::new();
    load_simple_library(&mut g);

    // Build up observable state: a cursor with a checkpoint and statistics,
    // and notification statistics.
    let matched = g.stream_ctx.on_stream_touched("created", "orders:1");
    let slot = matched[0];
    assert!(g.stream_ctx.deliver_record(slot, "orders:1", rid(3, 0)));
    assert!(g.stream_ctx.deliver_record(slot, "orders:1", rid(4, 0)));
    g.stream_ctx.handle_ack(slot, "orders:1", rid(3, 0), StreamRecordAck::Ack, 10, 2);
    let fired = g.notifications_ctx.on_key_touched("set", "user:a");
    let nslot = fired[0].0;
    g.notifications_ctx.on_notification_done(nslot, Err("first".to_string()));

    let checkpoint = g.stream_ctx.stream_checkpoint(slot, "orders:1");
    let inflight = g.stream_ctx.stream_inflight(slot, "orders:1");
    let stats = g.stream_ctx.stream_stats(slot, "orders:1");
    let nstats_before = g.notifications_ctx.stats_of(nslot).unwrap();

    // Upgrade: mutate everything in place, add new registrations, then fail.
    let meta = library_extract_metadata("#!js name=lib1\ncode v2").unwrap();
    g.function_load_begin(meta, true).unwrap();
    g.register_function("f2", 300).unwrap();
    assert!(!g.register_stream_consumer("c1", "orders:", 9, 2, false).unwrap());
    g.register_key_space_notification_consumer("n1", RegisteredKeys::Prefix("user:"), 400)
        .unwrap();
    g.register_key_space_notification_consumer("n2", RegisteredKeys::Prefix("audit:"), 500)
        .unwrap();
    assert!(g.register_stream_consumer("c2", "extra:", 5, 1, false).unwrap());
    // force the failure the backend would report: a duplicate registration
    let e = g.register_stream_consumer("c2", "extra:", 5, 1, false).unwrap_err();
    assert_eq!(msg(&e), "Stream registration already exists");
    g.function_load_abort();

    // Registrations, cursors and statistics are exactly as before.
    assert_eq!(g.stream_ctx.consumer_config(slot), Some((1, 5, true)));
    assert_eq!(g.stream_ctx.stream_checkpoint(slot, "orders:1"), checkpoint);
    assert_eq!(g.stream_ctx.stream_inflight(slot, "orders:1"), inflight);
    assert_eq!(g.stream_ctx.stream_stats(slot, "orders:1"), stats);
    let nstats_after = g.notifications_ctx.stats_of(nslot).unwrap();
    assert_eq!(nstats_after.num_trigger, nstats_before.num_trigger);
    assert_eq!(nstats_after.num_failed, nstats_before.num_failed);
    assert_eq!(nstats_after.last_error, nstats_before.last_error);
    // the old handlers fire, not the upgraded ones
    assert_eq!(g.notifications_ctx.on_key_touched("set", "user:b"), vec![(nslot, 200)]);
    // the new registrations are gone
    assert_eq!(g.stream_ctx.on_stream_touched("created", "extra:1"), vec![]);
    assert_eq!(g.notifications_ctx.on_key_touched("set", "audit:1"), vec![]);
    // the old library is active again
    assert_eq!(g.get_function("lib1", "f1").unwrap(), 100);
    assert_eq!(msg(&g.get_function("lib1", "f2").unwrap_err()), "Unknown function");
}

#[test]
fn successful_upgrade_swaps_in_place_and_keeps_cursors() {
    let mut g = GearsCtx::new();
    load_simple_library(&mut g);
    let matched = g.stream_ctx.on_stream_touched("created", "orders:1");
    let slot = matched[0];
    assert!(g.stream_ctx.deliver_record(slot, "orders:1", rid(3, 0)));
    g.stream_ctx.handle_ack(slot, "orders:1", rid(3, 0), StreamRecordAck::Ack, 10, 2);

    let meta = library_extract_metadata("#!js name=lib1\ncode v2").unwrap();
    g.function_load_begin(meta, true).unwrap();
    g.register_function("f2", 300).unwrap();
    assert!(!g.register_stream_consumer("c1", "orders:", 9, 2, false).unwrap());
    g.function_load_commit().unwrap();

    // Same registration, new configuration, cursor kept (never reset).
    assert_eq!(g.stream_ctx.consumer_config(slot), Some((9, 2, false)));
    assert_eq!(g.stream_ctx.stream_checkpoint(slot, "orders:1"), Some(Some(rid(3, 0))));
    // The old library's unclaimed notification consumer is gone.
    assert_eq!(g.notifications_ctx.on_key_touched("set", "user:a"), vec![]);
    // The new function set replaces the old one.
    assert_eq!(g.get_function("lib1", "f2").unwrap(), 300);
    assert_eq!(msg(&g.get_function("lib1", "f1").unwrap_err()), "Unknown function");
}

#[test]
fn delete_stops_dispatch_for_former_registrations() {
    let mut g = GearsCtx::new();
    load_simple_library(&mut g);
    assert_eq!(g.stream_ctx.on_stream_touched("created", "orders:1").len(), 1);
    assert_eq!(g.notifications_ctx.on_key_touched("set", "user:a").len(), 1);

    g.function_del("lib1").unwrap();

    // Subsequent touches of previously matched streams and keys dispatch
    // nothing.
    assert_eq!(g.stream_ctx.on_stream_touched("created", "orders:1"), vec![]);
    assert_eq!(g.notifications_ctx.on_key_touched("set", "user:a"), vec![]);
    assert_eq!(msg(&g.get_function("lib1", "f1").unwrap_err()), "Unknown library");
    assert_eq!(msg(&g.function_del("lib1").unwrap_err()), "library does not exists");
}

#[test]
fn replicated_checkpoint_command_finds_library_and_consumer() {
    let mut g = GearsCtx::new();
    load_simple_library(&mut g);
    g.update_stream_last_read_id("lib1", "c1", "orders:9", 5, 1).unwrap();
    let matched = g.stream_ctx.on_stream_touched("created", "orders:9");
    assert_eq!(g.stream_ctx.stream_checkpoint(matched[0], "orders:9"), Some(Some(rid(5, 1))));

    let e = g.update_stream_last_read_id("nope", "c1", "s", 1, 1).unwrap_err();
    assert_eq!(msg(&e), "No such library");
    let e = g.update_stream_last_read_id("lib1", "nope", "s", 1, 1).unwrap_err();
    assert_eq!(msg(&e), "No such consumer");
}

#[test]
fn bulk_load_drops_everything_and_flush_keeps_registrations() {
    let mut g = GearsCtx::new();
    load_simple_library(&mut g);
    let matched = g.stream_ctx.on_stream_touched("created", "orders:1");
    let slot = matched[0];
    assert!(g.stream_ctx.deliver_record(slot, "orders:1", rid(1, 0)));
    g.stream_ctx.handle_ack(slot, "orders:1", rid(1, 0), StreamRecordAck::Ack, 5, 1);

    // Flush: registrations stay, per-stream state is cleared.
    g.on_flush_started();
    assert_eq!(g.stream_ctx.consumer_config(slot), Some((1, 5, true)));
    assert_eq!(g.stream_ctx.stream_checkpoint(slot, "orders:1"), Some(None));
    assert_eq!(g.get_function("lib1", "f1").unwrap(), 100);

    // Bulk load: libraries and registrations are dropped outright.
    g.on_loading_started();
    assert_eq!(msg(&g.get_function("lib1", "f1").unwrap_err()), "Unknown library");
    assert_eq!(g.stream_ctx.on_stream_touched("created", "orders:1"), vec![]);
    assert_eq!(g.notifications_ctx.on_key_touched("set", "user:a"), vec![]);
}

#[test]
fn poll_on_dead_slot_is_idle() {
    let mut g = GearsCtx::new();
    load_simple_library(&mut g);
    let matched = g.stream_ctx.on_stream_touched("created", "orders:1");
    let slot = matched[0];
    assert!(g.stream_ctx.deliver_record(slot, "orders:1", rid(1, 0)));
    g.function_del("lib1").unwrap();
    assert!(matches!(g.stream_ctx.poll_stream(slot, "orders:1"), StreamStep::Idle));
    assert!(!g.stream_ctx.deliver_record(slot, "orders:1", rid(2, 0)));
}
