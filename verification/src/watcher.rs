//! Watcher-side logic: classifying raw file-system events and debouncing
//! them per path. The observer threads live outside the library; they
//! feed events in and carry the flushed work out.
use vstd::prelude::*;
use crate::text::str_eq;
use crate::vault::{is_markdown_name, is_placeholder_name};

verus! {

/// The raw kinds of file-system event the watcher distinguishes.
#[derive(Debug, Clone, Copy, PartialEq, Eq, Structural)]
pub enum WatchEventKind {
    Create,
    Modify,
    Remove,
    Other,
}

/// What the watcher does with one event.
#[derive(Debug, Clone, Copy, PartialEq, Eq, Structural)]
pub enum WatchDecision {
    Changed,
    Removed,
    FullSweepRequested,
    Ignore,
}

/// The name of the control file whose touch requests a full sweep.
pub open spec fn trigger_name() -> Seq<char> {
    ".bruin-sync-trigger"@
}

/// Classify a raw event by its kind and the leaf name it touches: the
/// control file requests a sweep, cloud placeholders are discarded,
/// creates and modifies of enumerated markdown files are changes, removes
/// of them are removals, and everything else is ignored.
pub fn classify_event(kind: WatchEventKind, leaf: &str) -> (r: WatchDecision)
    ensures
        r == classify_spec(kind, leaf@),
        is_placeholder_name(leaf@) ==> r != WatchDecision::Changed && r
            != WatchDecision::Removed,
{
    if (matches!(kind, WatchEventKind::Create) || matches!(kind, WatchEventKind::Modify))
        && str_eq(leaf, ".bruin-sync-trigger") {
        WatchDecision::FullSweepRequested
    } else if crate::vault::is_icloud_placeholder(leaf) {
        WatchDecision::Ignore
    } else if !crate::vault::is_markdown_leaf(leaf) {
        WatchDecision::Ignore
    } else {
        match kind {
            WatchEventKind::Create => WatchDecision::Changed,
            WatchEventKind::Modify => WatchDecision::Changed,
            WatchEventKind::Remove => WatchDecision::Removed,
            WatchEventKind::Other => WatchDecision::Ignore,
        }
    }
}

pub open spec fn classify_spec(kind: WatchEventKind, leaf: Seq<char>) -> WatchDecision {
    if (kind == WatchEventKind::Create || kind == WatchEventKind::Modify) && leaf
        == trigger_name() {
        WatchDecision::FullSweepRequested
    } else if is_placeholder_name(leaf) {
        WatchDecision::Ignore
    } else if !is_markdown_name(leaf) {
        WatchDecision::Ignore
    } else if kind == WatchEventKind::Create || kind == WatchEventKind::Modify {
        WatchDecision::Changed
    } else if kind == WatchEventKind::Remove {
        WatchDecision::Removed
    } else {
        WatchDecision::Ignore
    }
}

/// A placeholder never reaches the reconciler: no classification of one
/// is a change or a removal.
pub proof fn lemma_placeholder_never_reconciled(kind: WatchEventKind, leaf: Seq<char>)
    ensures
        is_placeholder_name(leaf) ==> classify_spec(kind, leaf) != WatchDecision::Changed
            && classify_spec(kind, leaf) != WatchDecision::Removed,
{
    if is_placeholder_name(leaf) {
        crate::vault::lemma_markdown_never_placeholder(leaf);
        reveal_strlit(".bruin-sync-trigger");
        if leaf == trigger_name() {
            assert(trigger_name()[0] == '.');
        }
    }
}

/// The map holds an entry for `path` stamped `now`.
pub open spec fn has_entry(entries: Seq<PendingEvent>, path: Seq<char>, now: u64) -> bool {
    exists|i: int|
        0 <= i < entries.len() && (#[trigger] entries[i]).path@ == path && entries[i].stamp == now
}

/// A pending entry is ripe when its most recent event is at least the
/// window old.
pub open spec fn is_ripe(e: PendingEvent, now: u64, window: u64) -> bool {
    now >= window && e.stamp <= now - window
}

/// The ripe entries of the map, in map order.
pub open spec fn ripe_of(es: Seq<PendingEvent>, now: u64, window: u64) -> Seq<PendingEvent>
    decreases es.len(),
{
    if es.len() == 0 {
        Seq::empty()
    } else {
        (if is_ripe(es[0], now, window) {
            seq![es[0]]
        } else {
            Seq::empty()
        }) + ripe_of(es.subrange(1, es.len() as int), now, window)
    }
}

/// The entries still too young to flush, in map order.
pub open spec fn fresh_of(es: Seq<PendingEvent>, now: u64, window: u64) -> Seq<PendingEvent>
    decreases es.len(),
{
    if es.len() == 0 {
        Seq::empty()
    } else {
        (if !is_ripe(es[0], now, window) {
            seq![es[0]]
        } else {
            Seq::empty()
        }) + fresh_of(es.subrange(1, es.len() as int), now, window)
    }
}

proof fn lemma_ripe_snoc(es: Seq<PendingEvent>, e: PendingEvent, now: u64, window: u64)
    ensures
        ripe_of(es.push(e), now, window) == ripe_of(es, now, window) + (if is_ripe(
            e,
            now,
            window,
        ) {
            seq![e]
        } else {
            Seq::<PendingEvent>::empty()
        }),
        fresh_of(es.push(e), now, window) == fresh_of(es, now, window) + (if !is_ripe(
            e,
            now,
            window,
        ) {
            seq![e]
        } else {
            Seq::<PendingEvent>::empty()
        }),
    decreases es.len(),
{
    let t = es.push(e);
    if es.len() == 0 {
        assert(t =~= seq![e]);
        assert(t[0] == e);
        assert(t.subrange(1, t.len() as int) =~= Seq::<PendingEvent>::empty());
        assert(ripe_of(es, now, window) == Seq::<PendingEvent>::empty());
        assert(fresh_of(es, now, window) == Seq::<PendingEvent>::empty());
        assert(ripe_of(t.subrange(1, t.len() as int), now, window) == Seq::<
            PendingEvent,
        >::empty());
        assert(fresh_of(t.subrange(1, t.len() as int), now, window) == Seq::<
            PendingEvent,
        >::empty());
        assert(ripe_of(t, now, window) =~= ripe_of(es, now, window) + (if is_ripe(
            e,
            now,
            window,
        ) {
            seq![e]
        } else {
            Seq::<PendingEvent>::empty()
        }));
        assert(fresh_of(t, now, window) =~= fresh_of(es, now, window) + (if !is_ripe(
            e,
            now,
            window,
        ) {
            seq![e]
        } else {
            Seq::<PendingEvent>::empty()
        }));
    } else {
        assert(t[0] == es[0]);
        assert(t.subrange(1, t.len() as int) =~= es.subrange(1, es.len() as int).push(e));
        lemma_ripe_snoc(es.subrange(1, es.len() as int), e, now, window);
        assert(ripe_of(t, now, window) =~= ripe_of(es, now, window) + (if is_ripe(
            e,
            now,
            window,
        ) {
            seq![e]
        } else {
            Seq::<PendingEvent>::empty()
        }));
        assert(fresh_of(t, now, window) =~= fresh_of(es, now, window) + (if !is_ripe(
            e,
            now,
            window,
        ) {
            seq![e]
        } else {
            Seq::<PendingEvent>::empty()
        }));
    }
}

/// The paths of a run of entries, in order.
pub open spec fn paths_of(es: Seq<PendingEvent>) -> Seq<Seq<char>> {
    es.map_values(|e: PendingEvent| e.path@)
}

/// Every entry of another path survives unchanged.
pub open spec fn keeps_others(
    pre: Seq<PendingEvent>,
    post: Seq<PendingEvent>,
    path: Seq<char>,
) -> bool {
    forall|i: int|
        0 <= i < pre.len() && (#[trigger] pre[i]).path@ != path ==> exists|j: int|
            0 <= j < post.len() && (#[trigger] post[j]) == pre[i]
}

/// One pending path and the time of its most recent event.
#[derive(Debug)]
pub struct PendingEvent {
    pub path: String,
    pub stamp: u64,
}

/// The pending change map of the debounce loop: for each path, the time
/// of its most recent event.
#[derive(Debug)]
pub struct DebounceQueue {
    pub entries: Vec<PendingEvent>,
}

impl DebounceQueue {
    /// Paths are unique: a burst of events on one path holds one entry.
    pub open spec fn wf(&self) -> bool {
        forall|i: int, j: int|
            0 <= i < j < self.entries@.len() ==> (#[trigger] self.entries@[i]).path@ != (
            #[trigger] self.entries@[j]).path@
    }

    pub fn new() -> (r: DebounceQueue)
        ensures
            r.wf(),
            r.entries@.len() == 0,
    {
        DebounceQueue { entries: Vec::new() }
    }

    /// Record an event: the path's entry is created or refreshed to `now`,
    /// so repeated events within a window collapse into one entry.
    pub fn record(&mut self, path: String, now: u64)
        requires
            old(self).wf(),
        ensures
            final(self).wf(),
            has_entry(final(self).entries@, path@, now),
            keeps_others(old(self).entries@, final(self).entries@, path@),
            final(self).entries@.len() <= old(self).entries@.len() + 1,
    {
        let mut i: usize = 0;
        let ghost pre = self.entries@;
        while i < self.entries.len()
            invariant
                self.wf(),
                self.entries@ == pre,
                pre == old(self).entries@,
                i <= pre.len(),
                forall|j: int| 0 <= j < i ==> (#[trigger] pre[j]).path@ != path@,
            decreases pre.len() - i,
        {
            let same = str_eq(self.entries[i].path.as_str(), path.as_str());
            proof {
                if !same {
                    assert(pre[i as int].path@ != path@);
                    assert(pre[i as int].path@ != path@);
                }
            }
            if same {
                let refreshed = PendingEvent { path: path.clone(), stamp: now };
                self.entries.set(i, refreshed);
                proof {
                    assert((self.entries@[i as int]).path@ == path@);
                    assert(has_entry(self.entries@, path@, now));
                    assert forall|k: int|
                        0 <= k < pre.len() && (#[trigger] pre[k]).path@ != path@ implies exists|
                        j: int|
                            0 <= j < self.entries@.len() && (#[trigger] self.entries@[j])
                                == pre[k] by {
                        assert(self.entries@[k] == pre[k]);
                    }
                    assert(keeps_others(pre, self.entries@, path@));
                    assert forall|a: int, b: int|
                        0 <= a < b < self.entries@.len() implies (#[trigger] self.entries@[
                        a
                    ]).path@ != (#[trigger] self.entries@[b]).path@ by {
                        if a != i && b != i {
                            assert(self.entries@[a] == pre[a] && self.entries@[b] == pre[b]);
                        } else if a == i {
                            assert(self.entries@[b] == pre[b]);
                            assert(pre[b].path@ != pre[i as int].path@);
                        } else {
                            assert(self.entries@[a] == pre[a]);
                            assert(pre[a].path@ != pre[i as int].path@);
                        }
                    }
                }
                return;
            }
            i = i + 1;
        }
        self.entries.push(PendingEvent { path: path.clone(), stamp: now });
        proof {
            assert((self.entries@[self.entries@.len() - 1]).path@ == path@);
            assert(has_entry(self.entries@, path@, now));
            assert forall|k: int|
                0 <= k < pre.len() && (#[trigger] pre[k]).path@ != path@ implies exists|j: int|
                    0 <= j < self.entries@.len() && (#[trigger] self.entries@[j]) == pre[k] by {
                assert(self.entries@[k] == pre[k]);
            }
            assert(keeps_others(pre, self.entries@, path@));
            assert forall|a: int, b: int|
                0 <= a < b < self.entries@.len() implies (#[trigger] self.entries@[a]).path@ != (
            #[trigger] self.entries@[b]).path@ by {
                if b < self.entries@.len() - 1 {
                    assert(self.entries@[a] == pre[a] && self.entries@[b] == pre[b]);
                } else {
                    assert(self.entries@[a] == pre[a]);
                }
            }
        }
    }

    /// Flush the paths whose most recent event is at least `window` old:
    /// they leave the map and come back once each, so a burst of events on
    /// one path triggers exactly one reconciliation.
    pub fn take_ready(&mut self, now: u64, window: u64) -> (r: Vec<String>)
        requires
            old(self).wf(),
        ensures
            final(self).wf(),
            forall|a: int, b: int|
                0 <= a < b < r@.len() ==> (#[trigger] r@[a])@ != (#[trigger] r@[b])@,
            crate::note::str_views(r@) == paths_of(ripe_of(old(self).entries@, now, window)),
            final(self).entries@ == fresh_of(old(self).entries@, now, window),
    {
        let mut keep: Vec<PendingEvent> = Vec::new();
        let mut ready: Vec<String> = Vec::new();
        let mut i: usize = 0;
        let ghost pre = self.entries@;
        proof {
            assert(pre.subrange(0, 0) =~= Seq::<PendingEvent>::empty());
            assert(crate::note::str_views(ready@) =~= paths_of(
                ripe_of(pre.subrange(0, 0), now, window),
            ));
            assert(keep@ =~= fresh_of(pre.subrange(0, 0), now, window));
        }
        while i < self.entries.len()
            invariant
                self.wf(),
                self.entries@ == pre,
                i <= pre.len(),
                forall|a: int|
                    0 <= a < ready@.len() ==> exists|k: int|
                        0 <= k < i && (#[trigger] pre[k]).path@ == (#[trigger] ready@[a])@,
                forall|j: int|
                    0 <= j < keep@.len() ==> exists|k: int|
                        0 <= k < i && (#[trigger] pre[k]).path@ == (#[trigger] keep@[j]).path@,
                forall|a: int, b: int|
                    0 <= a < b < ready@.len() ==> (#[trigger] ready@[a])@ != (
                    #[trigger] ready@[b])@,
                forall|a: int, b: int|
                    0 <= a < b < keep@.len() ==> (#[trigger] keep@[a]).path@ != (
                    #[trigger] keep@[b]).path@,
                crate::note::str_views(ready@) == paths_of(
                    ripe_of(pre.subrange(0, i as int), now, window),
                ),
                keep@ == fresh_of(pre.subrange(0, i as int), now, window),
            decreases pre.len() - i,
        {
            let entry_time = self.entries[i].stamp;
            let path_copy = self.entries[i].path.clone();
            let ghost entry_path = pre[i as int].path@;
            proof {
                lemma_ripe_snoc(pre.subrange(0, i as int), pre[i as int], now, window);
                assert(pre.subrange(0, i + 1) =~= pre.subrange(0, i as int).push(
                    pre[i as int],
                ));
            }
            if now >= window && entry_time <= now - window {
                let ghost prev_ready = ready@;
                ready.push(path_copy);
                proof {
                    assert((ready@[ready@.len() - 1])@ == entry_path);
                    assert(is_ripe(pre[i as int], now, window));
                    assert(crate::note::str_views(ready@) =~= crate::note::str_views(
                        prev_ready,
                    ) + seq![entry_path]);
                    assert(paths_of(ripe_of(pre.subrange(0, i + 1), now, window)) =~= paths_of(
                        ripe_of(pre.subrange(0, i as int), now, window),
                    ) + seq![entry_path]);
                    assert(crate::note::str_views(ready@) =~= paths_of(
                        ripe_of(pre.subrange(0, i + 1), now, window),
                    ));
                    assert(keep@ =~= fresh_of(pre.subrange(0, i + 1), now, window));
                    assert forall|a: int|
                        0 <= a < ready@.len() implies exists|k: int|
                        0 <= k < i + 1 && (#[trigger] pre[k]).path@ == (#[trigger] ready@[a])@
                        by {
                        if a < prev_ready.len() {
                            assert(ready@[a] == prev_ready[a]);
                            let k0 = choose|k0: int|
                                0 <= k0 < i && (#[trigger] pre[k0]).path@ == prev_ready[a]@;
                            assert(0 <= k0 < i + 1 && pre[k0].path@ == ready@[a]@);
                        } else {
                            assert(pre[i as int].path@ == ready@[a]@);
                        }
                    }
                    assert forall|a: int, b: int|
                        0 <= a < b < ready@.len() implies (#[trigger] ready@[a])@ != (
                    #[trigger] ready@[b])@ by {
                        if b < ready@.len() - 1 {
                            assert(ready@[a] == prev_ready[a] && ready@[b] == prev_ready[b]);
                        } else {
                            assert(ready@[a] == prev_ready[a]);
                            let ka = choose|ka: int|
                                0 <= ka < i && (#[trigger] pre[ka]).path@ == prev_ready[a]@;
                            assert(pre[ka].path@ != pre[i as int].path@);
                        }
                    }
                    assert forall|j: int|
                        0 <= j < keep@.len() implies exists|k: int|
                        0 <= k < i + 1 && (#[trigger] pre[k]).path@ == (#[trigger] keep@[j]).path@
                        by {
                        let k0 = choose|k0: int|
                            0 <= k0 < i && (#[trigger] pre[k0]).path@ == keep@[j].path@;
                        assert(0 <= k0 < i + 1 && pre[k0].path@ == keep@[j].path@);
                    }
                }
            } else {
                let ghost prev_keep = keep@;
                keep.push(PendingEvent { path: path_copy, stamp: entry_time });
                proof {
                    assert((keep@[keep@.len() - 1]).path@ == entry_path);
                    assert((keep@[keep@.len() - 1]).stamp == pre[i as int].stamp);
                    assert(keep@[keep@.len() - 1] == pre[i as int]);
                    assert(!is_ripe(pre[i as int], now, window));
                    assert(keep@ =~= fresh_of(pre.subrange(0, i + 1), now, window));
                    assert(crate::note::str_views(ready@) =~= paths_of(
                        ripe_of(pre.subrange(0, i + 1), now, window),
                    ));
                    assert forall|j: int|
                        0 <= j < keep@.len() implies exists|k: int|
                        0 <= k < i + 1 && (#[trigger] pre[k]).path@ == (#[trigger] keep@[j]).path@
                        by {
                        if j < prev_keep.len() {
                            assert(keep@[j] == prev_keep[j]);
                            let k0 = choose|k0: int|
                                0 <= k0 < i && (#[trigger] pre[k0]).path@ == prev_keep[j].path@;
                            assert(0 <= k0 < i + 1 && pre[k0].path@ == keep@[j].path@);
                        } else {
                            assert(pre[i as int].path@ == keep@[j].path@);
                        }
                    }
                    assert forall|a: int, b: int|
                        0 <= a < b < keep@.len() implies (#[trigger] keep@[a]).path@ != (
                    #[trigger] keep@[b]).path@ by {
                        if b < keep@.len() - 1 {
                            assert(keep@[a] == prev_keep[a] && keep@[b] == prev_keep[b]);
                        } else {
                            assert(keep@[a] == prev_keep[a]);
                            let ka = choose|ka: int|
                                0 <= ka < i && (#[trigger] pre[ka]).path@ == prev_keep[a].path@;
                            assert(pre[ka].path@ != pre[i as int].path@);
                        }
                    }
                    assert forall|a: int|
                        0 <= a < ready@.len() implies exists|k: int|
                        0 <= k < i + 1 && (#[trigger] pre[k]).path@ == (#[trigger] ready@[a])@
                        by {
                        let k0 = choose|k0: int|
                            0 <= k0 < i && (#[trigger] pre[k0]).path@ == ready@[a]@;
                        assert(0 <= k0 < i + 1 && pre[k0].path@ == ready@[a]@);
                    }
                }
            }
            i = i + 1;
        }
        proof {
            assert(pre.subrange(0, pre.len() as int) =~= pre);
        }
        self.entries = keep;
        ready
    }
}

} // verus!
