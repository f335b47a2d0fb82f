//! The key-notification engine: matching, trigger/success/failure counters,
//! handler swaps and lazy pruning of dead registry entries.

use redisgears::keys_notifications::{ConsumerKey, KeysNotificationsCtx, NotificationConsumer};

#[test]
fn nacking_prefix_consumer_counts_five_failures() {
    // A consumer on prefix "user:" whose handler always fails: after 5
    // triggers the stats show 5 triggers, no success, 5 failures, and the
    // latest error text.
    let mut ctx = KeysNotificationsCtx::new();
    let slot = ctx.add_consumer_on_prefix("user:", 42);
    for i in 0..5 {
        let fired = ctx.on_key_touched("set", "user:alice");
        assert_eq!(fired, vec![(slot, 42)]);
        ctx.on_notification_done(slot, Err(format!("boom {}", i)));
    }
    let stats = ctx.stats_of(slot).unwrap();
    assert_eq!(stats.num_trigger, 5);
    assert_eq!(stats.num_success, 0);
    assert_eq!(stats.num_failed, 5);
    assert_eq!(stats.last_error.as_deref(), Some("boom 4"));
}

#[test]
fn exact_key_consumer_fires_only_on_its_key() {
    let mut ctx = KeysNotificationsCtx::new();
    let slot = ctx.add_consumer_on_key("user:bob", 7);
    assert_eq!(ctx.on_key_touched("set", "user:bob"), vec![(slot, 7)]);
    assert_eq!(ctx.on_key_touched("set", "user:bobby"), vec![]);
    assert_eq!(ctx.on_key_touched("set", "user:bo"), vec![]);
    let stats = ctx.stats_of(slot).unwrap();
    assert_eq!(stats.num_trigger, 1);
}

#[test]
fn success_and_failure_update_distinct_counters() {
    let mut ctx = KeysNotificationsCtx::new();
    let slot = ctx.add_consumer_on_prefix("k", 1);
    ctx.on_key_touched("set", "k1");
    ctx.on_notification_done(slot, Ok(()));
    ctx.on_key_touched("set", "k2");
    ctx.on_notification_done(slot, Err("late failure".to_string()));
    let stats = ctx.stats_of(slot).unwrap();
    assert_eq!(stats.num_trigger, 2);
    assert_eq!(stats.num_success, 1);
    assert_eq!(stats.num_failed, 1);
    assert_eq!(stats.last_error.as_deref(), Some("late failure"));
}

#[test]
fn trigger_counts_even_without_final_outcome() {
    // The trigger counter is bumped before the handler runs, so a handler
    // that never reports back still shows the attempt.
    let mut ctx = KeysNotificationsCtx::new();
    let slot = ctx.add_consumer_on_prefix("x", 3);
    ctx.on_key_touched("set", "x1");
    let stats = ctx.stats_of(slot).unwrap();
    assert_eq!(stats.num_trigger, 1);
    assert_eq!(stats.num_success, 0);
    assert_eq!(stats.num_failed, 0);
}

#[test]
fn dead_consumers_stop_firing_and_are_pruned() {
    let mut ctx = KeysNotificationsCtx::new();
    let a = ctx.add_consumer_on_prefix("p", 1);
    let b = ctx.add_consumer_on_prefix("p", 2);
    assert_eq!(ctx.on_key_touched("set", "p1"), vec![(a, 1), (b, 2)]);
    ctx.remove_consumer(a);
    assert_eq!(ctx.on_key_touched("set", "p1"), vec![(b, 2)]);
    // a late outcome for the dead slot is a harmless no-op
    ctx.on_notification_done(a, Err("stale".to_string()));
    assert!(ctx.stats_of(a).is_none());
    let stats = ctx.stats_of(b).unwrap();
    assert_eq!(stats.num_trigger, 2);
}

#[test]
fn swapped_handler_keeps_binding_and_stats() {
    let mut ctx = KeysNotificationsCtx::new();
    let slot = ctx.add_consumer_on_prefix("user:", 1);
    ctx.on_key_touched("set", "user:a");
    ctx.on_notification_done(slot, Ok(()));

    let prior = ctx.set_callback_of(slot, 9);
    assert_eq!(prior, Some(Some(1)));
    // Fires with the new handler, statistics carried over.
    assert_eq!(ctx.on_key_touched("set", "user:a"), vec![(slot, 9)]);
    let stats = ctx.stats_of(slot).unwrap();
    assert_eq!(stats.num_trigger, 2);
    assert_eq!(stats.num_success, 1);
}

#[test]
fn consumer_get_stats_copies_current_values() {
    let mut c = NotificationConsumer::new(ConsumerKey::Prefix(b"user:".to_vec()), 5);
    let cb = redisgears::keys_notifications::fire_event(&mut c, "set", "user:x");
    assert_eq!(cb, Some(5));
    c.notification_done(Err("nope".to_string()));
    let stats = c.get_stats();
    assert_eq!(stats.num_trigger, 1);
    assert_eq!(stats.num_failed, 1);
    assert_eq!(stats.last_error.as_deref(), Some("nope"));
    let old = c.set_callback(6);
    assert_eq!(old, Some(5));
}
