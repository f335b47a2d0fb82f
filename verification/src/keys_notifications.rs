//! The key-notification engine.
//!
//! A notification consumer binds a handler to one exact key or to a key
//! prefix. When the host reports a key mutation, every matching live
//! consumer fires: its trigger counter is bumped first (so a crash inside
//! the handler still shows the attempt), the handler reference is handed to
//! the embedding program to invoke, and the eventual outcome comes back
//! through [`KeysNotificationsCtx::on_notification_done`] to update the
//! success/failure counters and the last error. There is no backlog and no
//! checkpoint: a mutation seen before a consumer registered is never
//! delivered to it.
//!
//! Consumers are owned by their library. The registry holds an owning slot
//! table plus a non-owning index; deleting a library kills the slots, and
//! the index sheds dead entries lazily while scanning.

use vstd::prelude::*;
use vstd::string::StringSliceAdditionalSpecFns;

use crate::keys::{bytes_eq, bytes_starts_with};

verus! {

/// What a notification consumer is bound to: one exact key, or every key
/// carrying a prefix.
pub enum ConsumerKey {
    Key(Vec<u8>),
    Prefix(Vec<u8>),
}

/// Mathematical form of a binding.
pub ghost enum ConsumerKeyView {
    Key(Seq<u8>),
    Prefix(Seq<u8>),
}

impl View for ConsumerKey {
    type V = ConsumerKeyView;

    open spec fn view(&self) -> ConsumerKeyView {
        match self {
            ConsumerKey::Key(s) => ConsumerKeyView::Key(s@),
            ConsumerKey::Prefix(p) => ConsumerKeyView::Prefix(p@),
        }
    }
}

/// Whether a binding matches a touched key.
pub open spec fn key_matches(k: ConsumerKeyView, key: Seq<u8>) -> bool {
    match k {
        ConsumerKeyView::Key(s) => s == key,
        ConsumerKeyView::Prefix(p) => p.is_prefix_of(key),
    }
}

/// Per-consumer delivery statistics.
pub struct NotificationConsumerStats {
    pub num_trigger: usize,
    pub num_success: usize,
    pub num_failed: usize,
    pub last_error: Option<String>,
}

/// Mathematical state of the statistics.
#[verifier::ext_equal]
pub ghost struct NotificationStatsView {
    pub num_trigger: usize,
    pub num_success: usize,
    pub num_failed: usize,
    pub last_error: Option<Seq<char>>,
}

impl View for NotificationConsumerStats {
    type V = NotificationStatsView;

    open spec fn view(&self) -> NotificationStatsView {
        NotificationStatsView {
            num_trigger: self.num_trigger,
            num_success: self.num_success,
            num_failed: self.num_failed,
            last_error: match self.last_error {
                Some(ref s) => Some(s@),
                None => None,
            },
        }
    }
}

/// Counting that pins at the largest representable value instead of
/// overflowing.
pub open spec fn sat_inc(x: usize) -> usize {
    if x < usize::MAX {
        (x + 1) as usize
    } else {
        x
    }
}

fn sat_inc_exec(x: usize) -> (r: usize)
    ensures
        r == sat_inc(x),
{
    if x < usize::MAX {
        x + 1
    } else {
        x
    }
}

/// One key-notification consumer: its binding, the handler reference it
/// currently dispatches to, and its statistics.
pub struct NotificationConsumer {
    pub key: ConsumerKey,
    pub callback: Option<u64>,
    pub stats: NotificationConsumerStats,
}

/// Mathematical state of one consumer.
#[verifier::ext_equal]
pub ghost struct NotificationConsumerView {
    pub key: ConsumerKeyView,
    pub callback: Option<u64>,
    pub stats: NotificationStatsView,
}

impl View for NotificationConsumer {
    type V = NotificationConsumerView;

    open spec fn view(&self) -> NotificationConsumerView {
        NotificationConsumerView { key: self.key@, callback: self.callback, stats: self.stats@ }
    }
}

/// Statistics of a consumer that has never fired.
pub open spec fn fresh_stats_view() -> NotificationStatsView {
    NotificationStatsView { num_trigger: 0, num_success: 0, num_failed: 0, last_error: None }
}

/// A consumer right after one more trigger was counted.
pub open spec fn bump_trigger(c: NotificationConsumerView) -> NotificationConsumerView {
    NotificationConsumerView {
        stats: NotificationStatsView { num_trigger: sat_inc(c.stats.num_trigger), ..c.stats },
        ..c
    }
}

/// A consumer after its handler reported an outcome: a success bumps
/// `num_success`; a failure bumps `num_failed` and records the error.
pub open spec fn apply_outcome(
    c: NotificationConsumerView,
    res: Result<(), Seq<char>>,
) -> NotificationConsumerView {
    match res {
        Ok(_) => NotificationConsumerView {
            stats: NotificationStatsView {
                num_success: sat_inc(c.stats.num_success),
                ..c.stats
            },
            ..c
        },
        Err(e) => NotificationConsumerView {
            stats: NotificationStatsView {
                num_failed: sat_inc(c.stats.num_failed),
                last_error: Some(e),
                ..c.stats
            },
            ..c
        },
    }
}

impl NotificationConsumer {
    /// A consumer bound to `key`, dispatching to `callback`, with zeroed
    /// statistics.
    pub fn new(key: ConsumerKey, callback: u64) -> (c: NotificationConsumer)
        ensures
            c@ == (NotificationConsumerView {
                key: key@,
                callback: Some(callback),
                stats: fresh_stats_view(),
            }),
    {
        let c = NotificationConsumer {
            key,
            callback: Some(callback),
            stats: NotificationConsumerStats {
                num_trigger: 0,
                num_success: 0,
                num_failed: 0,
                last_error: None,
            },
        };
        proof {
            assert(c@ =~= (NotificationConsumerView {
                key: c.key@,
                callback: Some(callback),
                stats: fresh_stats_view(),
            }));
        }
        c
    }

    /// Swap the handler in place (a hot upgrade), returning the previous one
    /// so the swap can be undone exactly; binding and statistics stay.
    pub fn set_callback(&mut self, callback: u64) -> (old_callback: Option<u64>)
        ensures
            old_callback == old(self)@.callback,
            final(self)@ == (NotificationConsumerView { callback: Some(callback), ..old(self)@ }),
    {
        let old_cb = self.callback;
        self.callback = Some(callback);
        proof {
            assert(final(self)@ =~= (NotificationConsumerView {
                callback: Some(callback),
                ..old(self)@
            }));
        }
        old_cb
    }

    /// A copy of the current statistics.
    pub fn get_stats(&self) -> (stats: NotificationConsumerStats)
        ensures
            stats@ == self@.stats,
    {
        let stats = NotificationConsumerStats {
            num_trigger: self.stats.num_trigger,
            num_success: self.stats.num_success,
            num_failed: self.stats.num_failed,
            last_error: match &self.stats.last_error {
                Some(s) => Some(s.clone()),
                None => None,
            },
        };
        proof {
            assert(stats@ =~= self@.stats);
        }
        stats
    }

    /// Whether this consumer's binding matches `key`.
    pub fn matches_key(&self, key: &[u8]) -> (r: bool)
        ensures
            r == key_matches(self@.key, key@),
    {
        match &self.key {
            ConsumerKey::Key(s) => bytes_eq(s.as_slice(), key),
            ConsumerKey::Prefix(p) => bytes_starts_with(key, p.as_slice()),
        }
    }

    /// Record the outcome the handler (or its post-processing) reported.
    pub fn notification_done(&mut self, res: Result<(), String>)
        ensures
            final(self)@ == apply_outcome(
                old(self)@,
                match res {
                    Ok(_) => Result::<(), Seq<char>>::Ok(()),
                    Err(ref e) => Result::<(), Seq<char>>::Err(e@),
                },
            ),
    {
        match res {
            Ok(_) => {
                self.stats.num_success = sat_inc_exec(self.stats.num_success);
                proof {
                    assert(final(self)@ =~= apply_outcome(old(self)@, Result::<(), Seq<char>>::Ok(())));
                }
            },
            Err(e) => {
                let ghost ev = e@;
                self.stats.num_failed = sat_inc_exec(self.stats.num_failed);
                self.stats.last_error = Some(e);
                proof {
                    assert(final(self)@ =~= apply_outcome(old(self)@, Result::<(), Seq<char>>::Err(ev)));
                }
            },
        }
    }
}

/// Fire one consumer for a key event: the trigger counter is bumped first,
/// and the handler reference is returned for the caller to invoke with
/// `(event, key)`; the outcome is reported later through
/// [`NotificationConsumer::notification_done`].
pub fn fire_event(consumer: &mut NotificationConsumer, event: &str, key: &str) -> (cb: Option<u64>)
    ensures
        cb == old(consumer)@.callback,
        final(consumer)@ == bump_trigger(old(consumer)@),
{
    let _ = (event, key);
    consumer.stats.num_trigger = sat_inc_exec(consumer.stats.num_trigger);
    proof {
        assert(final(consumer)@ =~= bump_trigger(old(consumer)@));
    }
    consumer.callback
}

/// A slot after a touch of `key`: a live matching consumer with a handler
/// counts one more trigger; everything else is unchanged.
pub open spec fn touch_slot(o: Option<NotificationConsumerView>, key: Seq<u8>) -> Option<
    NotificationConsumerView,
> {
    match o {
        Some(c) => Some(
            if key_matches(c.key, key) && c.callback is Some {
                bump_trigger(c)
            } else {
                c
            },
        ),
        None => None,
    }
}

/// The whole table after a touch of `key`.
pub open spec fn notif_touch_table(t: Seq<Option<NotificationConsumerView>>, key: Seq<u8>) -> Seq<
    Option<NotificationConsumerView>,
> {
    Seq::new(t.len(), |i: int| touch_slot(t[i], key))
}

/// The index once dead entries are shed: entries whose slot is gone drop
/// out, the rest keep their order.
pub open spec fn pruned_index(ix: Seq<usize>, t: Seq<Option<NotificationConsumerView>>) -> Seq<
    usize,
>
    decreases ix.len(),
{
    if ix.len() == 0 {
        Seq::empty()
    } else {
        let rest = pruned_index(ix.drop_last(), t);
        let e = ix.last();
        if e < t.len() && t[e as int] is Some {
            rest.push(e)
        } else {
            rest
        }
    }
}

/// The `(slot, handler)` pairs fired by a touch of `key`, in index order:
/// the live consumers whose binding matches and that have a handler.
pub open spec fn fired_list(
    ix: Seq<usize>,
    t: Seq<Option<NotificationConsumerView>>,
    key: Seq<u8>,
) -> Seq<(usize, u64)>
    decreases ix.len(),
{
    if ix.len() == 0 {
        Seq::empty()
    } else {
        let rest = fired_list(ix.drop_last(), t, key);
        let e = ix.last();
        if e < t.len() {
            match t[e as int] {
                Some(c) => if key_matches(c.key, key) {
                    match c.callback {
                        Some(cb) => rest.push((e, cb)),
                        None => rest,
                    }
                } else {
                    rest
                },
                None => rest,
            }
        } else {
            rest
        }
    }
}

proof fn lemma_pruned_take_succ(ix: Seq<usize>, t: Seq<Option<NotificationConsumerView>>, i: int)
    requires
        0 <= i < ix.len(),
    ensures
        pruned_index(ix.take(i + 1), t) == (if ix[i] < t.len() && t[ix[i] as int] is Some {
            pruned_index(ix.take(i), t).push(ix[i])
        } else {
            pruned_index(ix.take(i), t)
        }),
{
    assert(ix.take(i + 1).drop_last() =~= ix.take(i));
    assert(ix.take(i + 1).last() == ix[i]);
}

proof fn lemma_fired_take_succ(
    ix: Seq<usize>,
    t: Seq<Option<NotificationConsumerView>>,
    key: Seq<u8>,
    i: int,
)
    requires
        0 <= i < ix.len(),
    ensures
        fired_list(ix.take(i + 1), t, key) == (if ix[i] < t.len() {
            match t[ix[i] as int] {
                Some(c) => if key_matches(c.key, key) {
                    match c.callback {
                        Some(cb) => fired_list(ix.take(i), t, key).push((ix[i], cb)),
                        None => fired_list(ix.take(i), t, key),
                    }
                } else {
                    fired_list(ix.take(i), t, key)
                },
                None => fired_list(ix.take(i), t, key),
            }
        } else {
            fired_list(ix.take(i), t, key)
        }),
{
    assert(ix.take(i + 1).drop_last() =~= ix.take(i));
    assert(ix.take(i + 1).last() == ix[i]);
}

/// Only live slots ever fire: every pair a key scan reports names a slot the
/// table holds a consumer in.
pub proof fn lemma_fired_slots_live(
    ix: Seq<usize>,
    t: Seq<Option<NotificationConsumerView>>,
    key: Seq<u8>,
)
    ensures
        forall|a: int|
            0 <= a < fired_list(ix, t, key).len() ==> (#[trigger] fired_list(ix, t, key)[a]).0
                < t.len() && t[fired_list(ix, t, key)[a].0 as int] is Some,
    decreases ix.len(),
{
    if ix.len() > 0 {
        lemma_fired_slots_live(ix.drop_last(), t, key);
        let f = fired_list(ix, t, key);
        let fd = fired_list(ix.drop_last(), t, key);
        assert forall|a: int| 0 <= a < f.len() implies (#[trigger] f[a]).0 < t.len() && t[f[
            a].0 as int] is Some by {
            if a < fd.len() {
                assert(f[a] == fd[a]);
            }
        }
    }
}

proof fn lemma_pruned_index_props(ix: Seq<usize>, t: Seq<Option<NotificationConsumerView>>)
    requires
        forall|a: int, b: int| 0 <= a < b < ix.len() ==> ix[a] != ix[b],
    ensures
        forall|e: usize|
            #[trigger] pruned_index(ix, t).contains(e) <==> (ix.contains(e) && e < t.len()
                && t[e as int] is Some),
        forall|a: int, b: int|
            0 <= a < b < pruned_index(ix, t).len() ==> pruned_index(ix, t)[a] != pruned_index(
                ix,
                t,
            )[b],
        forall|a: int|
            0 <= a < pruned_index(ix, t).len() ==> (#[trigger] pruned_index(ix, t)[a]) < t.len(),
    decreases ix.len(),
{
    if ix.len() > 0 {
        let d = ix.drop_last();
        let e = ix.last();
        lemma_pruned_index_props(d, t);
        assert forall|x: usize| #[trigger] ix.contains(x) implies (d.contains(x) || x == e) by {
            let a = choose|a: int| 0 <= a < ix.len() && ix[a] == x;
            if a < ix.len() - 1 {
                assert(d[a] == x);
            }
        }
        assert forall|x: usize| d.contains(x) implies ix.contains(x) by {
            let a = choose|a: int| 0 <= a < d.len() && d[a] == x;
            assert(ix[a] == x);
        }
        assert(ix.contains(e)) by {
            assert(ix[ix.len() - 1] == e);
        }
        assert(!d.contains(e)) by {
            if d.contains(e) {
                let a = choose|a: int| 0 <= a < d.len() && d[a] == e;
                assert(ix[a] == ix[ix.len() - 1]);
            }
        }
        let p = pruned_index(ix, t);
        let pd = pruned_index(d, t);
        if e < t.len() && t[e as int] is Some {
            assert(p == pd.push(e));
            assert forall|x: usize| #[trigger] p.contains(x) implies (ix.contains(x) && x < t.len()
                && t[x as int] is Some) by {
                let a = choose|a: int| 0 <= a < p.len() && p[a] == x;
                if a < pd.len() {
                    assert(pd[a] == x);
                    assert(pd.contains(x));
                }
            }
            assert forall|x: usize|
                ix.contains(x) && x < t.len() && t[x as int] is Some implies #[trigger] p.contains(
                x,
            ) by {
                if d.contains(x) {
                    assert(pd.contains(x));
                    let a = choose|a: int| 0 <= a < pd.len() && pd[a] == x;
                    assert(p[a] == x);
                } else {
                    assert(x == e);
                    assert(p[p.len() - 1] == x);
                }
            }
            assert forall|a: int, b: int| 0 <= a < b < p.len() implies p[a] != p[b] by {
                if b < pd.len() {
                } else {
                    assert(p[b] == e);
                    assert(pd.contains(pd[a]));
                }
            }
        } else {
            assert(p == pd);
            assert forall|x: usize| #[trigger] p.contains(x) implies (ix.contains(x) && x < t.len()
                && t[x as int] is Some) by {}
            assert forall|x: usize|
                ix.contains(x) && x < t.len() && t[x as int] is Some implies #[trigger] p.contains(
                x,
            ) by {
                if !d.contains(x) {
                    assert(x == e);
                }
            }
        }
    }
}

/// The registry of key-notification consumers: an owning slot table (one
/// slot per consumer, owned by the consumer's library through its slot id)
/// and a non-owning scan index. Dead slots are shed from the index lazily
/// while scanning.
pub struct KeysNotificationsCtx {
    pub table: Vec<Option<NotificationConsumer>>,
    pub consumers: Vec<usize>,
}

/// Mathematical state of the registry.
#[verifier::ext_equal]
pub ghost struct KeysNotificationsView {
    pub table: Seq<Option<NotificationConsumerView>>,
    pub index: Seq<usize>,
}

impl View for KeysNotificationsCtx {
    type V = KeysNotificationsView;

    open spec fn view(&self) -> KeysNotificationsView {
        KeysNotificationsView {
            table: self.table@.map_values(
                |c: Option<NotificationConsumer>| match c {
                    Some(d) => Some(d@),
                    None => None,
                },
            ),
            index: self.consumers@,
        }
    }
}

/// Index entries are in range and distinct, and every live slot is indexed,
/// so one scan fires each matching consumer exactly once.
pub open spec fn notif_wf(v: KeysNotificationsView) -> bool {
    &&& (forall|a: int| 0 <= a < v.index.len() ==> (#[trigger] v.index[a]) < v.table.len())
    &&& (forall|a: int, b: int| 0 <= a < b < v.index.len() ==> v.index[a] != v.index[b])
    &&& (forall|s: usize|
        s < v.table.len() && (#[trigger] v.table[s as int]) is Some ==> v.index.contains(s))
}

impl KeysNotificationsCtx {
    pub open spec fn wf(&self) -> bool {
        notif_wf(self@)
    }

    /// An empty registry.
    pub fn new() -> (ctx: KeysNotificationsCtx)
        ensures
            ctx@.table == Seq::<Option<NotificationConsumerView>>::empty(),
            ctx@.index == Seq::<usize>::empty(),
            ctx.wf(),
    {
        let ctx = KeysNotificationsCtx { table: Vec::new(), consumers: Vec::new() };
        proof {
            assert(ctx@.table =~= Seq::<Option<NotificationConsumerView>>::empty());
        }
        ctx
    }

    fn add_consumer(&mut self, key: ConsumerKey, callback: u64) -> (id: usize)
        requires
            old(self).wf(),
        ensures
            final(self).wf(),
            id == old(self)@.table.len(),
            final(self)@.table == old(self)@.table.push(
                Some(
                    (NotificationConsumerView {
                        key: key@,
                        callback: Some(callback),
                        stats: fresh_stats_view(),
                    }),
                ),
            ),
            final(self)@.index == old(self)@.index.push(id),
    {
        let id = self.table.len();
        let ghost kv = key@;
        let c = NotificationConsumer::new(key, callback);
        self.table.push(Some(c));
        self.consumers.push(id);
        proof {
            assert(final(self)@.table =~= old(self)@.table.push(
                Some(
                    (NotificationConsumerView {
                        key: kv,
                        callback: Some(callback),
                        stats: fresh_stats_view(),
                    }),
                ),
            ));
            let v = final(self)@;
            assert forall|s: usize|
                s < v.table.len() && (#[trigger] v.table[s as int]) is Some implies v
                .index
                .contains(s) by {
                if s < old(self)@.table.len() {
                    assert(old(self)@.table[s as int] is Some);
                    assert(old(self)@.index.contains(s));
                    let a = choose|a: int|
                        0 <= a < old(self)@.index.len() && old(self)@.index[a] == s;
                    assert(v.index[a] == s);
                } else {
                    assert(v.index[v.index.len() - 1] == s);
                }
            }
        }
        id
    }

    /// Register a consumer fired for every key that starts with `prefix`.
    /// The returned slot id owns the consumer from then on.
    pub fn add_consumer_on_prefix(&mut self, prefix: &str, callback: u64) -> (id: usize)
        requires
            old(self).wf(),
        ensures
            final(self).wf(),
            id == old(self)@.table.len(),
            final(self)@.table == old(self)@.table.push(
                Some(
                    (NotificationConsumerView {
                        key: ConsumerKeyView::Prefix(prefix.spec_bytes()),
                        callback: Some(callback),
                        stats: fresh_stats_view(),
                    }),
                ),
            ),
            final(self)@.index == old(self)@.index.push(id),
    {
        self.add_consumer(ConsumerKey::Prefix(vstd::slice::slice_to_vec(prefix.as_bytes())), callback)
    }

    /// Register a consumer fired for exactly the key `key`.
    pub fn add_consumer_on_key(&mut self, key: &str, callback: u64) -> (id: usize)
        requires
            old(self).wf(),
        ensures
            final(self).wf(),
            id == old(self)@.table.len(),
            final(self)@.table == old(self)@.table.push(
                Some(
                    (NotificationConsumerView {
                        key: ConsumerKeyView::Key(key.spec_bytes()),
                        callback: Some(callback),
                        stats: fresh_stats_view(),
                    }),
                ),
            ),
            final(self)@.index == old(self)@.index.push(id),
    {
        self.add_consumer(ConsumerKey::Key(vstd::slice::slice_to_vec(key.as_bytes())), callback)
    }

    /// Scan for a touched key: dead index entries are shed, each live
    /// matching consumer counts one trigger, and the `(slot, handler)` pairs
    /// to invoke are returned in scan order. The outcome of each invocation
    /// comes back later through `on_notification_done`.
    pub fn on_key_touched(&mut self, event: &str, key: &str) -> (fired: Vec<(usize, u64)>)
        requires
            old(self).wf(),
        ensures
            final(self).wf(),
            final(self)@.table == notif_touch_table(old(self)@.table, key.spec_bytes()),
            final(self)@.index == pruned_index(old(self)@.index, old(self)@.table),
            fired@ == fired_list(old(self)@.index, old(self)@.table, key.spec_bytes()),
    {
        let kb = key.as_bytes();
        let tlen = self.table.len();
        proof {
            assert(old(self)@.table.len() == tlen as int);
        }
        let n = self.consumers.len();
        let mut new_index: Vec<usize> = Vec::new();
        let mut fired: Vec<(usize, u64)> = Vec::new();
        let mut i: usize = 0;
        while i < n
            invariant
                notif_wf(old(self)@),
                old(self)@.table.len() <= usize::MAX as int,
                n == old(self)@.index.len(),
                i <= n,
                kb@ == key.spec_bytes(),
                self@.index == old(self)@.index,
                self@.table.len() == old(self)@.table.len(),
                forall|s: int|
                    0 <= s < old(self)@.table.len() ==> #[trigger] self@.table[s] == (
                    if old(self)@.index.take(i as int).contains(s as usize) {
                        touch_slot(old(self)@.table[s], kb@)
                    } else {
                        old(self)@.table[s]
                    }),
                new_index@ == pruned_index(old(self)@.index.take(i as int), old(self)@.table),
                fired@ == fired_list(old(self)@.index.take(i as int), old(self)@.table, kb@),
            decreases n - i,
        {
            let ghost t0 = old(self)@.table;
            let ghost ix0 = old(self)@.index;
            let e = self.consumers[i];
            proof {
                lemma_pruned_take_succ(ix0, t0, i as int);
                lemma_fired_take_succ(ix0, t0, kb@, i as int);
                assert(ix0.take(i as int + 1) =~= ix0.take(i as int).push(e));
                // this index entry has not been processed yet
                assert(!ix0.take(i as int).contains(e)) by {
                    if ix0.take(i as int).contains(e) {
                        let a = choose|a: int|
                            0 <= a < i && ix0.take(i as int)[a] == e;
                        assert(ix0[a] == ix0[i as int]);
                    }
                }
                assert(e < t0.len());
            }
            let ghost pre = self@;
            let mut live = false;
            let mut cb_fired: Option<u64> = None;
            if e < self.table.len() {
                let slot = &mut self.table[e];
                match slot {
                    Some(c) => {
                        live = true;
                        if c.matches_key(kb) && c.callback.is_some() {
                            cb_fired = fire_event(c, event, key);
                        }
                    },
                    None => {},
                }
                proof {
                    assert(self@.table =~= pre.table.update(e as int, self@.table[e as int]));
                }
            }
            if live {
                new_index.push(e);
            }
            match cb_fired {
                Some(cb) => {
                    fired.push((e, cb));
                },
                None => {},
            }
            i = i + 1;
            proof {
                assert(self@.table =~= pre.table.update(e as int, self@.table[e as int]));
                assert(pre.table[e as int] == t0[e as int]);
                assert(self@.table[e as int] == touch_slot(t0[e as int], kb@));
                assert forall|s: int|
                    0 <= s < t0.len() implies #[trigger] self@.table[s] == (
                if ix0.take(i as int).contains(s as usize) {
                    touch_slot(t0[s], kb@)
                } else {
                    t0[s]
                }) by {
                    if s == e as int {
                        assert(ix0.take(i as int)[i - 1] == e);
                        assert(ix0.take(i as int).contains(s as usize));
                    } else {
                        assert(self@.table[s] == pre.table[s]);
                        if ix0.take(i as int).contains(s as usize) {
                            let a = choose|a: int|
                                0 <= a < i && (#[trigger] ix0.take(i as int)[a]) == s as usize;
                            assert(a < i - 1 || ix0.take(i as int)[i - 1] == e);
                            assert(a < i - 1);
                            assert(ix0.take(i as int - 1)[a] == s as usize);
                            assert(ix0.take(i as int - 1).contains(s as usize));
                        } else {
                            assert(!ix0.take(i as int - 1).contains(s as usize)) by {
                                if ix0.take(i as int - 1).contains(s as usize) {
                                    let a = choose|a: int|
                                        0 <= a < i - 1 && (#[trigger] ix0.take(i as int - 1)[a])
                                            == s as usize;
                                    assert(ix0.take(i as int)[a] == s as usize);
                                }
                            }
                        }
                    }
                }
            }
        }
        self.consumers = new_index;
        proof {
            let t0 = old(self)@.table;
            let ix0 = old(self)@.index;
            assert(ix0.take(n as int) =~= ix0);
            assert(final(self)@.table =~= notif_touch_table(t0, key.spec_bytes())) by {
                assert forall|s: int|
                    0 <= s < t0.len() implies final(self)@.table[s] == touch_slot(
                    t0[s],
                    key.spec_bytes(),
                ) by {
                    if !ix0.contains(s as usize) {
                        assert((s as usize) as int == s);
                        assert(!(t0[s] is Some)) by {
                            if t0[s] is Some {
                                assert(t0[(s as usize) as int] is Some);
                            }
                        }
                    }
                }
            }
            lemma_pruned_index_props(ix0, t0);
            let v = final(self)@;
            assert(v.index == pruned_index(ix0, t0));
            assert forall|s: usize|
                s < v.table.len() && (#[trigger] v.table[s as int]) is Some implies v
                .index
                .contains(s) by {
                assert(v.table[s as int] == touch_slot(t0[s as int], key.spec_bytes()));
                assert(t0[s as int] is Some);
                assert(ix0.contains(s));
                assert(pruned_index(ix0, t0).contains(s));
            }
        }
        fired
    }

    /// Record the outcome of one fired notification. An outcome for a dead
    /// slot (the owning library is gone) is a harmless no-op.
    pub fn on_notification_done(&mut self, slot: usize, res: Result<(), String>)
        requires
            old(self).wf(),
        ensures
            final(self).wf(),
            final(self)@.index == old(self)@.index,
            final(self)@.table == (if slot < old(self)@.table.len() {
                match old(self)@.table[slot as int] {
                    Some(c) => old(self)@.table.update(
                        slot as int,
                        Some(
                            apply_outcome(
                                c,
                                match res {
                                    Ok(_) => Result::<(), Seq<char>>::Ok(()),
                                    Err(ref e) => Result::<(), Seq<char>>::Err(e@),
                                },
                            ),
                        ),
                    ),
                    None => old(self)@.table,
                }
            } else {
                old(self)@.table
            }),
    {
        let ghost resv = match res {
            Ok(_) => Result::<(), Seq<char>>::Ok(()),
            Err(ref e) => Result::<(), Seq<char>>::Err(e@),
        };
        if slot >= self.table.len() {
            proof {
                assert(final(self)@.table =~= old(self)@.table);
            }
            return ;
        }
        let ghost pre = self@;
        let s = &mut self.table[slot];
        match s {
            Some(c) => {
                c.notification_done(res);
            },
            None => {},
        }
        proof {
            assert(self@.table =~= pre.table.update(slot as int, self@.table[slot as int]));
            match pre.table[slot as int] {
                Some(c) => {
                    assert(final(self)@.table =~= pre.table.update(
                        slot as int,
                        Some(apply_outcome(c, resv)),
                    ));
                },
                None => {
                    assert(final(self)@.table =~= pre.table);
                },
            }
        }
    }

    /// Swap the handler of a live consumer in place, returning the previous
    /// handler so an upgrade can undo the swap; binding and statistics stay.
    pub fn set_callback_of(&mut self, slot: usize, callback: u64) -> (prior: Option<Option<u64>>)
        requires
            old(self).wf(),
        ensures
            final(self).wf(),
            final(self)@.index == old(self)@.index,
            prior == (if slot < old(self)@.table.len() {
                match old(self)@.table[slot as int] {
                    Some(c) => Some(c.callback),
                    None => Option::<Option<u64>>::None,
                }
            } else {
                Option::<Option<u64>>::None
            }),
            final(self)@.table == (if slot < old(self)@.table.len() {
                match old(self)@.table[slot as int] {
                    Some(c) => old(self)@.table.update(
                        slot as int,
                        Some((NotificationConsumerView { callback: Some(callback), ..c })),
                    ),
                    None => old(self)@.table,
                }
            } else {
                old(self)@.table
            }),
    {
        if slot >= self.table.len() {
            proof {
                assert(final(self)@.table =~= old(self)@.table);
            }
            return None;
        }
        let ghost pre = self@;
        let s = &mut self.table[slot];
        let prior = match s {
            Some(c) => Some(c.set_callback(callback)),
            None => None,
        };
        proof {
            assert(self@.table =~= pre.table.update(slot as int, self@.table[slot as int]));
            match pre.table[slot as int] {
                Some(c) => {
                    assert(final(self)@.table =~= pre.table.update(
                        slot as int,
                        Some((NotificationConsumerView { callback: Some(callback), ..c })),
                    ));
                },
                None => {
                    assert(final(self)@.table =~= pre.table);
                },
            }
        }
        prior
    }

    /// Restore a consumer's handler to a recorded prior value (rollback of
    /// an in-place swap).
    pub fn restore_callback_of(&mut self, slot: usize, callback: Option<u64>)
        requires
            old(self).wf(),
        ensures
            final(self).wf(),
            final(self)@.index == old(self)@.index,
            final(self)@.table == (if slot < old(self)@.table.len() {
                match old(self)@.table[slot as int] {
                    Some(c) => old(self)@.table.update(
                        slot as int,
                        Some((NotificationConsumerView { callback, ..c })),
                    ),
                    None => old(self)@.table,
                }
            } else {
                old(self)@.table
            }),
    {
        if slot >= self.table.len() {
            proof {
                assert(final(self)@.table =~= old(self)@.table);
            }
            return ;
        }
        let ghost pre = self@;
        let s = &mut self.table[slot];
        match s {
            Some(c) => {
                c.callback = callback;
            },
            None => {},
        }
        proof {
            assert(self@.table =~= pre.table.update(slot as int, self@.table[slot as int]));
            match pre.table[slot as int] {
                Some(c) => {
                    assert(final(self)@.table =~= pre.table.update(
                        slot as int,
                        Some((NotificationConsumerView { callback, ..c })),
                    ));
                },
                None => {
                    assert(final(self)@.table =~= pre.table);
                },
            }
        }
    }

    /// Kill a slot: its library dropped the consumer. The index sheds the
    /// dead entry lazily on the next scan.
    pub fn remove_consumer(&mut self, slot: usize)
        requires
            old(self).wf(),
        ensures
            final(self).wf(),
            final(self)@.index == old(self)@.index,
            final(self)@.table == (if slot < old(self)@.table.len() {
                old(self)@.table.update(slot as int, Option::<NotificationConsumerView>::None)
            } else {
                old(self)@.table
            }),
    {
        if slot < self.table.len() {
            self.table[slot] = None;
            proof {
                assert(final(self)@.table =~= old(self)@.table.update(
                    slot as int,
                    Option::<NotificationConsumerView>::None,
                ));
                assert(final(self)@.index == old(self)@.index);
                let v = final(self)@;
                assert forall|s: usize|
                    s < v.table.len() && (#[trigger] v.table[s as int]) is Some implies v
                    .index
                    .contains(s) by {
                    assert(v.table[s as int] == old(self)@.table.update(
                        slot as int,
                        Option::<NotificationConsumerView>::None,
                    )[s as int]);
                    assert(s as int != slot as int);
                    assert(old(self)@.table[s as int] is Some);
                    assert(old(self)@.index.contains(s));
                }
            }
        } else {
            proof {
                assert(final(self)@ =~= old(self)@);
            }
        }
    }

    /// A copy of the statistics of the consumer in `slot`, if it is alive.
    pub fn stats_of(&self, slot: usize) -> (r: Option<NotificationConsumerStats>)
        ensures
            match r {
                Some(stats) => slot < self@.table.len() && (self@.table[slot as int]
                    matches Some(c) && stats@ == c.stats),
                None => !(slot < self@.table.len() && self@.table[slot as int] is Some),
            },
    {
        if slot >= self.table.len() {
            return None;
        }
        match &self.table[slot] {
            Some(c) => Some(c.get_stats()),
            None => None,
        }
    }

    /// Forget everything (bulk load replaces the whole dataset).
    pub fn clear(&mut self)
        ensures
            final(self).wf(),
            final(self)@.table == Seq::<Option<NotificationConsumerView>>::empty(),
            final(self)@.index == Seq::<usize>::empty(),
    {
        self.table = Vec::new();
        self.consumers = Vec::new();
        proof {
            assert(final(self)@.table =~= Seq::<Option<NotificationConsumerView>>::empty());
        }
    }
}

} // verus!
