//! The event-dispatch core: a keyed table of listeners kept in registration
//! order, with once-semantics, prepend ordering, a snapshot-based emit pass,
//! and an enumeration hook for the host engine's garbage collector.
//!
//! Guest-heap objects enter the table by identity: a guest callable and a
//! guest unique symbol are each represented by the identity the value
//! bridge assigned them (a `u64`). Listener removal compares callables by
//! that identity, exactly as guest reference equality does.

use crate::lookup::{first_where, lemma_first_where, lemma_first_where_is, some_where};
use vstd::prelude::*;

verus! {

/// A key under which listeners register: a guest unique symbol (compared by
/// identity) or a string (compared by value).
#[derive(Debug)]
pub enum EventKey {
    Symbol(u64),
    Str(String),
}

/// Key equality: same variant, and symbol identity or string value equality.
pub open spec fn key_eq(a: EventKey, b: EventKey) -> bool {
    match (a, b) {
        (EventKey::Symbol(x), EventKey::Symbol(y)) => x == y,
        (EventKey::Str(x), EventKey::Str(y)) => x@ == y@,
        _ => false,
    }
}

/// The host-side image of a guest value, keeping only the distinctions the
/// dispatcher reads: the value bridge produces this from the live guest value.
#[derive(Debug)]
pub enum GuestValue {
    Str(String),
    Symbol(u64),
    Int(i64),
    Undefined,
}

/// The error a wrong key type raises; the guest observes it as a thrown
/// exception.
#[derive(Debug)]
pub struct TypeError;

impl TypeError {
    /// The diagnostic text the thrown guest exception carries.
    pub fn message(&self) -> (m: &'static str)
        ensures
            m@ == "Expected a string or symbol"@,
    {
        "Expected a string or symbol"
    }
}

impl EventKey {
    /// Classifies a guest value as an event key: strings and unique symbols
    /// are accepted, every other guest type is refused.
    pub fn from_value(value: GuestValue) -> (r: Result<EventKey, TypeError>)
        ensures
            match value {
                GuestValue::Str(s) => r matches Ok(EventKey::Str(s2)) && s2@ == s@,
                GuestValue::Symbol(id) => r matches Ok(k) && k == EventKey::Symbol(id),
                _ => r matches Err(_),
            },
    {
        match value {
            GuestValue::Str(s) => Ok(EventKey::Str(s)),
            GuestValue::Symbol(id) => Ok(EventKey::Symbol(id)),
            _ => Err(TypeError),
        }
    }

    /// Decides `key_eq` on two keys.
    pub fn eq_key(&self, other: &EventKey) -> (r: bool)
        ensures
            r == key_eq(*self, *other),
    {
        match (self, other) {
            (EventKey::Symbol(x), EventKey::Symbol(y)) => *x == *y,
            (EventKey::Str(x), EventKey::Str(y)) => x.eq(y),
            _ => false,
        }
    }
}

impl Clone for EventKey {
    fn clone(&self) -> (r: Self)
        ensures
            r == *self,
    {
        match self {
            EventKey::Symbol(id) => EventKey::Symbol(*id),
            EventKey::Str(s) => EventKey::Str(s.clone()),
        }
    }
}

/// One registered listener: the identity of the guest callable, and whether
/// the entry is consumed by its first dispatch.
#[derive(Clone, Copy, PartialEq, Eq, Structural, Debug)]
pub struct EventItem {
    pub callback: u64,
    pub once: bool,
}

/// The mathematical image of the listener table: keyed entries in storage
/// order, each with its listeners in registration order.
pub type EventTable = Seq<(EventKey, Seq<EventItem>)>;

/// Index of the first entry stored under a key equal to `k`, or `t.len()`.
pub open spec fn key_index(t: EventTable, k: EventKey) -> int {
    first_where(t, |e: (EventKey, Seq<EventItem>)| key_eq(e.0, k))
}

/// Whether some entry is stored under a key equal to `k`.
pub open spec fn has_key(t: EventTable, k: EventKey) -> bool {
    key_index(t, k) < t.len()
}

/// The listeners currently stored under `k`, empty when `k` is absent.
pub open spec fn items_of(t: EventTable, k: EventKey) -> Seq<EventItem> {
    if has_key(t, k) {
        t[key_index(t, k)].1
    } else {
        Seq::empty()
    }
}

/// The callback identities of a listener list, in order.
pub open spec fn cbs_of_items(items: Seq<EventItem>) -> Seq<u64> {
    items.map_values(|it: EventItem| it.callback)
}

/// The callbacks an emit pass for `k` would fire, in order.
pub open spec fn cbs_of(t: EventTable, k: EventKey) -> Seq<u64> {
    cbs_of_items(items_of(t, k))
}

/// The keys of the table, in storage order.
pub open spec fn keys_of(t: EventTable) -> Seq<EventKey> {
    t.map_values(|e: (EventKey, Seq<EventItem>)| e.0)
}

/// Index of the first entry of `items` holding the callback `cb`, or
/// `items.len()`.
pub open spec fn first_cb(items: Seq<EventItem>, cb: u64) -> int {
    first_where(items, |it: EventItem| it.callback == cb)
}

/// Whether some entry of `items` holds the callback `cb`.
pub open spec fn has_cb(items: Seq<EventItem>, cb: u64) -> bool {
    first_cb(items, cb) < items.len()
}

/// Table well-formedness: no two entries share a key, and no entry has an
/// empty listener list.
pub open spec fn wf_table(t: EventTable) -> bool {
    &&& forall|i: int, j: int|
        0 <= i < j < t.len() ==> !key_eq(#[trigger] t[i].0, #[trigger] t[j].0)
    &&& forall|i: int| 0 <= i < t.len() ==> (#[trigger] t[i]).1.len() > 0
}

/// The table after registering `cb` under `k`: appended (or prepended) to
/// the existing entry, or stored as a fresh entry at the back.
pub open spec fn spec_add(t: EventTable, k: EventKey, cb: u64, prepend: bool, once: bool) -> EventTable {
    let item = EventItem { callback: cb, once: once };
    if has_key(t, k) {
        let i = key_index(t, k);
        t.update(i, (t[i].0, if prepend {
            seq![item] + t[i].1
        } else {
            t[i].1.push(item)
        }))
    } else {
        t.push((k, seq![item]))
    }
}

/// The table after removing the first listener under `k` whose callback is
/// `cb`; unchanged when no such listener exists; the whole entry is dropped
/// when its list empties.
pub open spec fn spec_remove(t: EventTable, k: EventKey, cb: u64) -> EventTable {
    if has_key(t, k) {
        let i = key_index(t, k);
        let items = t[i].1;
        if has_cb(items, cb) {
            let j = first_cb(items, cb);
            if items.len() == 1 {
                t.remove(i)
            } else {
                t.update(i, (t[i].0, items.remove(j)))
            }
        } else {
            t
        }
    } else {
        t
    }
}

/// The listeners that survive an emit pass: the once-flagged entries are
/// consumed, the rest stay in order.
pub open spec fn kept_of(items: Seq<EventItem>) -> Seq<EventItem>
    decreases items.len(),
{
    if items.len() == 0 {
        Seq::empty()
    } else {
        let rest = kept_of(items.drop_last());
        if items.last().once {
            rest
        } else {
            rest.push(items.last())
        }
    }
}

/// The table after the snapshot-and-filter phase of an emit pass for `k`:
/// once-listeners under `k` are consumed, and the entry is dropped entirely
/// when nothing survives; emitting an absent key changes nothing.
pub open spec fn spec_emit_table(t: EventTable, k: EventKey) -> EventTable {
    if has_key(t, k) {
        let i = key_index(t, k);
        let kept = kept_of(t[i].1);
        if kept.len() == 0 {
            t.remove(i)
        } else {
            t.update(i, (t[i].0, kept))
        }
    } else {
        t
    }
}

/// Every guest-heap reference one table entry holds: its key when the key
/// is a symbol, then its callbacks in order.
pub open spec fn refs_of_entry(e: (EventKey, Seq<EventItem>)) -> Seq<u64> {
    (match e.0 {
        EventKey::Symbol(id) => seq![id],
        EventKey::Str(_) => Seq::<u64>::empty(),
    }) + cbs_of_items(e.1)
}

/// Every guest-heap reference the table holds, entry by entry.
pub open spec fn refs_of_table(t: EventTable) -> Seq<u64>
    decreases t.len(),
{
    if t.len() == 0 {
        Seq::empty()
    } else {
        refs_of_table(t.drop_last()) + refs_of_entry(t.last())
    }
}

/// A key-preserving update leaves every `key_index` unchanged.
pub proof fn lemma_key_index_same_keys(t: EventTable, t2: EventTable, k: EventKey)
    requires
        t.len() == t2.len(),
        forall|j: int| 0 <= j < t.len() ==> t2[j].0 == t[j].0,
    ensures
        key_index(t2, k) == key_index(t, k),
{
    let pred = |e: (EventKey, Seq<EventItem>)| key_eq(e.0, k);
    lemma_first_where(t, pred);
    lemma_first_where(t2, pred);
    let f = key_index(t, k);
    if f < t.len() {
        lemma_first_where_is(t2, pred, f);
    } else {
        if key_index(t2, k) < t2.len() {
            let x = key_index(t2, k);
            assert(pred(t2[x]));
            assert(pred(t[x]));
            assert(some_where(t, pred));
            assert(false);
        }
    }
}

/// Replacing one entry's listeners (key kept, list nonempty) preserves
/// well-formedness.
pub proof fn lemma_wf_update(t: EventTable, i: int, items: Seq<EventItem>)
    requires
        wf_table(t),
        0 <= i < t.len(),
        items.len() > 0,
    ensures
        wf_table(t.update(i, (t[i].0, items))),
{
    let t2 = t.update(i, (t[i].0, items));
    assert forall|a: int, b: int| 0 <= a < b < t2.len() implies !key_eq(t2[a].0, t2[b].0) by {
        assert(t2[a].0 == t[a].0);
        assert(t2[b].0 == t[b].0);
    }
    assert forall|a: int| 0 <= a < t2.len() implies (#[trigger] t2[a]).1.len() > 0 by {
        if a != i {
            assert(t2[a] == t[a]);
        }
    }
}

/// Dropping one entry preserves well-formedness.
pub proof fn lemma_wf_remove(t: EventTable, i: int)
    requires
        wf_table(t),
        0 <= i < t.len(),
    ensures
        wf_table(t.remove(i)),
{
    let t2 = t.remove(i);
    assert forall|a: int, b: int| 0 <= a < b < t2.len() implies !key_eq(t2[a].0, t2[b].0) by {
        let a0: int = if a < i { a } else { a + 1 };
        let b0: int = if b < i { b } else { b + 1 };
        assert(t2[a] == t[a0]);
        assert(t2[b] == t[b0]);
    }
    assert forall|a: int| 0 <= a < t2.len() implies (#[trigger] t2[a]).1.len() > 0 by {
        let a0: int = if a < i { a } else { a + 1 };
        assert(t2[a] == t[a0]);
    }
}

/// The dispatcher: one table of keyed listener lists. Guest code holds it
/// through the host class that owns it; every mutation goes through the
/// methods below, and the emit pass hands its snapshot back to the caller
/// so that no callback ever runs while the table is borrowed.
pub struct EventEmitter {
    pub events: Vec<(EventKey, Vec<EventItem>)>,
}

impl EventEmitter {
    /// The mathematical table this dispatcher stores.
    pub open spec fn table(&self) -> EventTable {
        self.events@.map_values(|e: (EventKey, Vec<EventItem>)| (e.0, e.1@))
    }

    pub open spec fn wf(&self) -> bool {
        wf_table(self.table())
    }

    /// A fresh dispatcher with no listeners.
    pub fn new() -> (r: EventEmitter)
        ensures
            r.wf(),
            r.table() == Seq::<(EventKey, Seq<EventItem>)>::empty(),
    {
        let r = EventEmitter { events: Vec::new() };
        proof {
            assert(r.table() =~= Seq::<(EventKey, Seq<EventItem>)>::empty());
        }
        r
    }

    /// Index of the first entry stored under `key`, or the table length.
    fn position_of_key(&self, key: &EventKey) -> (r: usize)
        ensures
            r == key_index(self.table(), *key),
    {
        let mut i: usize = 0;
        while i < self.events.len()
            invariant
                0 <= i <= self.events.len(),
                self.table().len() == self.events.len(),
                forall|j: int| 0 <= j < i ==> !key_eq(self.table()[j].0, *key),
            decreases self.events.len() - i,
        {
            if self.events[i].0.eq_key(key) {
                proof {
                    assert(self.table()[i as int].0 == self.events@[i as int].0);
                    lemma_first_where_is(
                        self.table(),
                        |e: (EventKey, Seq<EventItem>)| key_eq(e.0, *key),
                        i as int,
                    );
                }
                return i;
            }
            i += 1;
        }
        proof {
            lemma_first_where(self.table(), |e: (EventKey, Seq<EventItem>)| key_eq(e.0, *key));
        }
        i
    }

    /// Registers `callback` under `key`: appended to (or, with `prepend`,
    /// put in front of) the key's listener list, which is created when
    /// absent; `once` marks the entry consumed by its first dispatch.
    pub fn add_event_listener(&mut self, key: EventKey, callback: u64, prepend: bool, once: bool)
        requires
            old(self).wf(),
        ensures
            final(self).wf(),
            final(self).table() == spec_add(old(self).table(), key, callback, prepend, once),
    {
        let ghost t0 = self.table();
        let item = EventItem { callback: callback, once: once };
        let n = self.position_of_key(&key);
        proof {
            lemma_first_where(t0, |e: (EventKey, Seq<EventItem>)| key_eq(e.0, key));
        }
        if n < self.events.len() {
            let ghost i = n as int;
            let mut entry = self.events.remove(n);
            if prepend {
                entry.1.insert(0, item);
            } else {
                entry.1.push(item);
            }
            proof {
                assert(entry.1@ =~= if prepend {
                    seq![item] + t0[i].1
                } else {
                    t0[i].1.push(item)
                });
            }
            self.events.insert(n, entry);
            proof {
                let t2 = spec_add(t0, key, callback, prepend, once);
                assert forall|j: int| 0 <= j < t0.len() && j != i implies self.events@[j]
                    == old(self).events@[j] by {
                    assert(self.events@[j] == old(self).events@.remove(i)[if j < i {
                        j
                    } else {
                        j - 1
                    }]);
                }
                assert(self.table() =~= t2);
                lemma_wf_update(t0, i, t2[i].1);
            }
        } else {
            let mut items: Vec<EventItem> = Vec::new();
            items.push(item);
            self.events.push((key, items));
            proof {
                let t2 = spec_add(t0, key, callback, prepend, once);
                assert(self.table() =~= t2);
                assert forall|a: int, b: int| 0 <= a < b < t2.len() implies !key_eq(
                    t2[a].0,
                    t2[b].0,
                ) by {
                    if b == t0.len() {
                        assert(!key_eq(t0[a].0, key));
                        key_eq_properties(t0[a].0, key, t2[b].0);
                    }
                }
                assert forall|a: int| 0 <= a < t2.len() implies (#[trigger] t2[a]).1.len() > 0 by {
                    if a < t0.len() {
                        assert(t2[a] == t0[a]);
                    }
                }
            }
        }
    }

    /// Appends a listener that stays registered across dispatches.
    pub fn on(&mut self, key: EventKey, callback: u64)
        requires
            old(self).wf(),
        ensures
            final(self).wf(),
            final(self).table() == spec_add(old(self).table(), key, callback, false, false),
    {
        self.add_event_listener(key, callback, false, false)
    }

    /// Appends a listener that is consumed by its first dispatch.
    pub fn once(&mut self, key: EventKey, callback: u64)
        requires
            old(self).wf(),
        ensures
            final(self).wf(),
            final(self).table() == spec_add(old(self).table(), key, callback, false, true),
    {
        self.add_event_listener(key, callback, false, true)
    }

    /// Puts a listener in front of the key's list.
    pub fn prepend_listener(&mut self, key: EventKey, callback: u64)
        requires
            old(self).wf(),
        ensures
            final(self).wf(),
            final(self).table() == spec_add(old(self).table(), key, callback, true, false),
    {
        self.add_event_listener(key, callback, true, false)
    }

    /// Puts a once-listener in front of the key's list.
    pub fn prepend_once_listener(&mut self, key: EventKey, callback: u64)
        requires
            old(self).wf(),
        ensures
            final(self).wf(),
            final(self).table() == spec_add(old(self).table(), key, callback, true, true),
    {
        self.add_event_listener(key, callback, true, true)
    }

    /// Removes the first listener under `key` whose callback identity is
    /// `callback`; a miss (no such key, or no such listener) is a no-op,
    /// and a list that empties takes its key entry with it.
    pub fn remove_event_listener(&mut self, key: &EventKey, callback: u64)
        requires
            old(self).wf(),
        ensures
            final(self).wf(),
            final(self).table() == spec_remove(old(self).table(), *key, callback),
    {
        let ghost t0 = self.table();
        let n = self.position_of_key(key);
        proof {
            lemma_first_where(t0, |e: (EventKey, Seq<EventItem>)| key_eq(e.0, *key));
        }
        if n < self.events.len() {
            let ghost i = n as int;
            let mut entry = self.events.remove(n);
            proof {
                assert(self.events@ == old(self).events@.remove(i));
            }
            let m = position_of_cb(&entry.1, callback);
            if m < entry.1.len() {
                entry.1.remove(m);
                if entry.1.len() > 0 {
                    proof {
                        assert(entry.1@ == t0[i].1.remove(m as int));
                    }
                    self.events.insert(n, entry);
                    proof {
                        let t2 = spec_remove(t0, *key, callback);
                        assert forall|j: int| 0 <= j < t0.len() && j != i implies self.events@[j]
                            == old(self).events@[j] by {
                            assert(self.events@[j] == old(self).events@.remove(i)[if j < i {
                                j
                            } else {
                                j - 1
                            }]);
                        }
                        assert(self.table() =~= t2);
                        lemma_wf_update(t0, i, t2[i].1);
                    }
                } else {
                    proof {
                        let t2 = spec_remove(t0, *key, callback);
                        assert(t0[i].1.len() == 1);
                        assert(self.table() =~= t0.remove(i));
                        assert(self.table() =~= t2);
                        lemma_wf_remove(t0, i);
                    }
                }
            } else {
                self.events.insert(n, entry);
                proof {
                    assert forall|j: int| 0 <= j < t0.len() && j != i implies self.events@[j]
                        == old(self).events@[j] by {
                        assert(self.events@[j] == old(self).events@.remove(i)[if j < i {
                            j
                        } else {
                            j - 1
                        }]);
                    }
                    assert(self.events@[i] == old(self).events@[i]);
                    assert(self.table() =~= t0);
                }
            }
        }
    }

    /// The snapshot-and-filter phase of an emit pass for `key`: returns the
    /// callbacks to fire, in order, while consuming the once-listeners in
    /// the live list (dropping the key entry when nothing survives). The
    /// caller invokes the snapshot only after this method returns, so no
    /// guest callback ever runs while the table is held exclusively, and
    /// mutations a callback makes affect future passes, never this one.
    /// An absent key yields an empty snapshot and changes nothing.
    pub fn emit(&mut self, key: &EventKey) -> (snapshot: Vec<u64>)
        requires
            old(self).wf(),
        ensures
            final(self).wf(),
            snapshot@ == cbs_of(old(self).table(), *key),
            final(self).table() == spec_emit_table(old(self).table(), *key),
    {
        let ghost t0 = self.table();
        let n = self.position_of_key(key);
        proof {
            lemma_first_where(t0, |e: (EventKey, Seq<EventItem>)| key_eq(e.0, *key));
        }
        let mut snapshot: Vec<u64> = Vec::new();
        if n < self.events.len() {
            let ghost i = n as int;
            let entry = self.events.remove(n);
            proof {
                assert(self.events@ == old(self).events@.remove(i));
            }
            let ghost items = t0[i].1;
            let mut kept: Vec<EventItem> = Vec::new();
            let mut m: usize = 0;
            while m < entry.1.len()
                invariant
                    0 <= m <= entry.1.len(),
                    entry.1@ == items,
                    snapshot@ == cbs_of_items(items.take(m as int)),
                    kept@ == kept_of(items.take(m as int)),
                decreases entry.1.len() - m,
            {
                let it = entry.1[m];
                snapshot.push(it.callback);
                if !it.once {
                    kept.push(it);
                }
                proof {
                    let taken = items.take(m + 1);
                    assert(taken.drop_last() =~= items.take(m as int));
                    assert(taken.last() == items[m as int]);
                    assert(snapshot@ =~= cbs_of_items(taken));
                    assert(kept@ =~= kept_of(taken));
                }
                m += 1;
            }
            proof {
                assert(items.take(items.len() as int) =~= items);
                assert(snapshot@ == cbs_of_items(items));
                assert(kept@ == kept_of(items));
                assert(cbs_of(t0, *key) == cbs_of_items(items));
            }
            if kept.len() > 0 {
                self.events.insert(n, (entry.0, kept));
                proof {
                    let t2 = spec_emit_table(t0, *key);
                    assert forall|j: int| 0 <= j < t0.len() && j != i implies self.events@[j]
                        == old(self).events@[j] by {
                        assert(self.events@[j] == old(self).events@.remove(i)[if j < i {
                            j
                        } else {
                            j - 1
                        }]);
                    }
                    assert(self.events@[i].0 == old(self).events@[i].0);
                    assert(self.table() =~= t2);
                    lemma_wf_update(t0, i, t2[i].1);
                }
            } else {
                proof {
                    assert(self.table() =~= t0.remove(i));
                    assert(self.table() =~= spec_emit_table(t0, *key));
                    lemma_wf_remove(t0, i);
                }
            }
        } else {
            proof {
                assert(items_of(t0, *key) == Seq::<EventItem>::empty());
                assert(snapshot@ =~= cbs_of(t0, *key));
            }
        }
        snapshot
    }

    /// All currently registered keys, in storage order, as guest values
    /// are handed back to `eventNames`.
    pub fn get_event_names(&self) -> (names: Vec<EventKey>)
        ensures
            names@ == keys_of(self.table()),
    {
        let mut names: Vec<EventKey> = Vec::new();
        let mut i: usize = 0;
        while i < self.events.len()
            invariant
                0 <= i <= self.events.len(),
                names@ == keys_of(self.table().take(i as int)),
            decreases self.events.len() - i,
        {
            names.push(self.events[i].0.clone());
            proof {
                assert(names@ =~= keys_of(self.table().take(i + 1)));
            }
            i += 1;
        }
        proof {
            assert(self.table().take(self.table().len() as int) =~= self.table());
        }
        names
    }

    /// The trace-enumeration hook for the host garbage collector: every
    /// guest-heap reference the table holds — each symbol key and each
    /// callback — entry by entry, so that the collector's mark phase sees
    /// all of them for as long as the dispatcher is reachable.
    pub fn trace_event_emitter(&self) -> (refs: Vec<u64>)
        ensures
            refs@ == refs_of_table(self.table()),
    {
        let mut refs: Vec<u64> = Vec::new();
        let mut i: usize = 0;
        while i < self.events.len()
            invariant
                0 <= i <= self.events.len(),
                refs@ == refs_of_table(self.table().take(i as int)),
            decreases self.events.len() - i,
        {
            let ghost before = refs@;
            let ghost e = self.table()[i as int];
            match &self.events[i].0 {
                EventKey::Symbol(id) => {
                    refs.push(*id);
                },
                EventKey::Str(_) => {},
            }
            proof {
                assert(refs@ =~= before + (match e.0 {
                    EventKey::Symbol(id) => seq![id],
                    EventKey::Str(_) => Seq::<u64>::empty(),
                }));
            }
            let ghost mid = refs@;
            let items = &self.events[i].1;
            let mut m: usize = 0;
            while m < items.len()
                invariant
                    0 <= m <= items.len(),
                    items@ == e.1,
                    refs@ == mid + cbs_of_items(e.1.take(m as int)),
                decreases items.len() - m,
            {
                refs.push(items[m].callback);
                proof {
                    assert(refs@ =~= mid + cbs_of_items(e.1.take(m + 1)));
                }
                m += 1;
            }
            proof {
                assert(e.1.take(e.1.len() as int) =~= e.1);
                assert(refs@ == before + refs_of_entry(e));
                let taken = self.table().take(i + 1);
                assert(taken.drop_last() =~= self.table().take(i as int));
                assert(taken.last() == e);
                assert(refs@ == refs_of_table(taken));
            }
            i += 1;
        }
        proof {
            assert(self.table().take(self.table().len() as int) =~= self.table());
        }
        refs
    }

    /// The stored listener table itself, as the shared handle the host
    /// class hands to each operation.
    pub fn get_events(&self) -> (r: &Vec<(EventKey, Vec<EventItem>)>)
        ensures
            *r == self.events,
    {
        &self.events
    }
}

/// What one registration does to the table: the key's callback list gains
/// `cb` at the back (or the front, with `prepend`), every other key keeps
/// its listeners, and well-formedness is preserved.
pub proof fn lemma_add_effect(t: EventTable, k: EventKey, cb: u64, prepend: bool, once: bool)
    requires
        wf_table(t),
    ensures
        wf_table(spec_add(t, k, cb, prepend, once)),
        has_key(spec_add(t, k, cb, prepend, once), k),
        items_of(spec_add(t, k, cb, prepend, once), k) == (if prepend {
            seq![EventItem { callback: cb, once: once }] + items_of(t, k)
        } else {
            items_of(t, k).push(EventItem { callback: cb, once: once })
        }),
        cbs_of(spec_add(t, k, cb, prepend, once), k) == (if prepend {
            seq![cb] + cbs_of(t, k)
        } else {
            cbs_of(t, k).push(cb)
        }),
        forall|k2: EventKey|
            !key_eq(k2, k) ==> #[trigger] items_of(spec_add(t, k, cb, prepend, once), k2)
                == items_of(t, k2),
        forall|k2: EventKey|
            !key_eq(k2, k) ==> (#[trigger] has_key(spec_add(t, k, cb, prepend, once), k2)
                <==> has_key(t, k2)),
{
    let item = EventItem { callback: cb, once: once };
    let t2 = spec_add(t, k, cb, prepend, once);
    let pred = |e: (EventKey, Seq<EventItem>)| key_eq(e.0, k);
    lemma_first_where(t, pred);
    if has_key(t, k) {
        let i = key_index(t, k);
        lemma_key_index_same_keys(t, t2, k);
        assert(items_of(t2, k) == t2[i].1);
        assert(cbs_of_items(t2[i].1) =~= if prepend {
            seq![cb] + cbs_of_items(t[i].1)
        } else {
            cbs_of_items(t[i].1).push(cb)
        });
        lemma_wf_update(t, i, t2[i].1);
        assert forall|k2: EventKey| !key_eq(k2, k) implies #[trigger] items_of(
            spec_add(t, k, cb, prepend, once),
            k2,
        ) == items_of(t, k2) && (has_key(spec_add(t, k, cb, prepend, once), k2) <==> has_key(
            t,
            k2,
        )) by {
            lemma_key_index_same_keys(t, t2, k2);
            if has_key(t, k2) {
                let i2 = key_index(t, k2);
                lemma_first_where(t, |e: (EventKey, Seq<EventItem>)| key_eq(e.0, k2));
                assert(key_eq(t[i2].0, k2));
                if i2 == i {
                    assert(key_eq(t[i].0, k));
                    assert(key_eq(k2, k));
                    assert(false);
                }
                assert(t2[i2] == t[i2]);
            }
            assert(items_of(t2, k2) == items_of(t, k2));
        }
    } else {
        assert(key_index(t, k) == t.len());
        assert(t2 == t.push((k, seq![item])));
        lemma_first_where_is(t2, pred, t.len() as int);
        assert(items_of(t2, k) == seq![item]);
        assert(items_of(t, k) == Seq::<EventItem>::empty());
        assert(seq![item] + Seq::<EventItem>::empty() =~= seq![item]);
        assert(Seq::<EventItem>::empty().push(item) =~= seq![item]);
        assert(cbs_of_items(seq![item]) =~= seq![cb]);
        assert(cbs_of_items(Seq::<EventItem>::empty()) =~= Seq::<u64>::empty());
        assert(seq![cb] + Seq::<u64>::empty() =~= seq![cb]);
        assert(Seq::<u64>::empty().push(cb) =~= seq![cb]);
        assert forall|a: int, b: int| 0 <= a < b < t2.len() implies !key_eq(t2[a].0, t2[b].0) by {
            if b == t.len() {
                assert(!key_eq(t[a].0, k));
                key_eq_properties(t[a].0, k, t2[b].0);
            }
        }
        assert forall|a: int| 0 <= a < t2.len() implies (#[trigger] t2[a]).1.len() > 0 by {
            if a < t.len() {
                assert(t2[a] == t[a]);
            }
        }
        assert forall|k2: EventKey| !key_eq(k2, k) implies #[trigger] items_of(
            spec_add(t, k, cb, prepend, once),
            k2,
        ) == items_of(t, k2) && (has_key(spec_add(t, k, cb, prepend, once), k2) <==> has_key(
            t,
            k2,
        )) by {
            let pred2 = |e: (EventKey, Seq<EventItem>)| key_eq(e.0, k2);
            lemma_first_where(t, pred2);
            lemma_first_where(t2, pred2);
            if has_key(t, k2) {
                let i2 = key_index(t, k2);
                lemma_first_where_is(t2, pred2, i2);
                assert(t2[i2] == t[i2]);
            } else {
                if key_index(t2, k2) < t2.len() {
                    let x = key_index(t2, k2);
                    assert(pred2(t2[x]));
                    if x < t.len() {
                        assert(pred2(t[x]));
                        assert(some_where(t, pred2));
                        assert(false);
                    } else {
                        assert(key_eq(k, k2));
                        assert(key_eq(k2, k));
                        assert(false);
                    }
                }
            }
            assert(items_of(t2, k2) == items_of(t, k2));
        }
    }
    assert forall|k2: EventKey| !key_eq(k2, k) implies (#[trigger] has_key(
        spec_add(t, k, cb, prepend, once),
        k2,
    ) <==> has_key(t, k2)) by {
        assert(items_of(spec_add(t, k, cb, prepend, once), k2) == items_of(t, k2));
    }
}

/// What one removal does to the table: a miss changes nothing; a hit drops
/// exactly the first matching listener (and the key entry, when the list
/// empties); every other key keeps its listeners.
pub proof fn lemma_remove_effect(t: EventTable, k: EventKey, cb: u64)
    requires
        wf_table(t),
    ensures
        wf_table(spec_remove(t, k, cb)),
        !has_key(t, k) ==> spec_remove(t, k, cb) == t,
        has_key(t, k) && !has_cb(items_of(t, k), cb) ==> spec_remove(t, k, cb) == t,
        has_key(t, k) && has_cb(items_of(t, k), cb) ==> ({
            let items = items_of(t, k);
            let j = first_cb(items, cb);
            &&& 0 <= j < items.len()
            &&& items[j].callback == cb
            &&& forall|m: int| 0 <= m < j ==> items[m].callback != cb
            &&& items_of(spec_remove(t, k, cb), k) == items.remove(j)
            &&& cbs_of(spec_remove(t, k, cb), k) == cbs_of(t, k).remove(j)
            &&& (items.len() == 1 ==> !has_key(spec_remove(t, k, cb), k))
        }),
        forall|k2: EventKey|
            !key_eq(k2, k) ==> #[trigger] items_of(spec_remove(t, k, cb), k2) == items_of(t, k2),
        forall|k2: EventKey|
            !key_eq(k2, k) ==> (#[trigger] has_key(spec_remove(t, k, cb), k2) <==> has_key(
                t,
                k2,
            )),
{
    let t2 = spec_remove(t, k, cb);
    let pred = |e: (EventKey, Seq<EventItem>)| key_eq(e.0, k);
    lemma_first_where(t, pred);
    if !has_key(t, k) {
        assert(t2 == t);
    } else {
        let i = key_index(t, k);
        let items = t[i].1;
        lemma_first_where(items, |it: EventItem| it.callback == cb);
        if !has_cb(items, cb) {
            assert(t2 == t);
        } else {
            let j = first_cb(items, cb);
            if items.len() == 1 {
                // the entry is dropped whole
                lemma_wf_remove(t, i);
                assert(items.remove(j) =~= Seq::<EventItem>::empty());
                lemma_removed_entry_leaves_no_match(t, k, i);
                assert(cbs_of(t2, k) =~= cbs_of(t, k).remove(j));
                lemma_items_after_entry_removal(t, k, i);
                assert forall|k2: EventKey| !key_eq(k2, k) implies #[trigger] items_of(
                    spec_remove(t, k, cb),
                    k2,
                ) == items_of(t, k2) && (has_key(spec_remove(t, k, cb), k2) <==> has_key(
                    t,
                    k2,
                )) by {
                    assert(items_of(t.remove(i), k2) == items_of(t, k2));
                    assert(has_key(t.remove(i), k2) <==> has_key(t, k2));
                    assert(spec_remove(t, k, cb) == t.remove(i));
                }
            } else {
                lemma_key_index_same_keys(t, t2, k);
                assert(items_of(t2, k) == items.remove(j));
                assert(cbs_of_items(items.remove(j)) =~= cbs_of_items(items).remove(j));
                lemma_wf_update(t, i, items.remove(j));
                assert forall|k2: EventKey| !key_eq(k2, k) implies #[trigger] items_of(
                    spec_remove(t, k, cb),
                    k2,
                ) == items_of(t, k2) && (has_key(spec_remove(t, k, cb), k2) <==> has_key(
                    t,
                    k2,
                )) by {
                    lemma_key_index_same_keys(t, t2, k2);
                    if has_key(t, k2) {
                        let i2 = key_index(t, k2);
                        lemma_first_where(t, |e: (EventKey, Seq<EventItem>)| key_eq(e.0, k2));
                        assert(key_eq(t[i2].0, k2));
                        if i2 == i {
                            assert(key_eq(t[i].0, k));
                            assert(key_eq(k2, k));
                            assert(false);
                        }
                        assert(t2[i2] == t[i2]);
                    }
                    assert(items_of(t2, k2) == items_of(t, k2));
                }
            }
        }
    }
    assert forall|k2: EventKey| !key_eq(k2, k) implies (#[trigger] has_key(
        spec_remove(t, k, cb),
        k2,
    ) <==> has_key(t, k2)) by {
        assert(items_of(spec_remove(t, k, cb), k2) == items_of(t, k2));
    }
}

/// After the only entry under `k` (at index `i`) is removed, no entry
/// matches `k` any more.
proof fn lemma_removed_entry_leaves_no_match(t: EventTable, k: EventKey, i: int)
    requires
        wf_table(t),
        0 <= i < t.len(),
        key_eq(t[i].0, k),
    ensures
        !has_key(t.remove(i), k),
{
    let t2 = t.remove(i);
    let pred = |e: (EventKey, Seq<EventItem>)| key_eq(e.0, k);
    lemma_first_where(t2, pred);
    if key_index(t2, k) < t2.len() {
        let x = key_index(t2, k);
        let x0: int = if x < i {
            x
        } else {
            x + 1
        };
        assert(t2[x] == t[x0]);
        assert(key_eq(t[x0].0, k));
        assert(key_eq(t[x0].0, t[i].0));
        assert(false);
    }
}

/// Removing the entry at `i` (whose key matches `k`) leaves the listeners
/// of every other key untouched.
proof fn lemma_items_after_entry_removal(t: EventTable, k: EventKey, i: int)
    requires
        wf_table(t),
        0 <= i < t.len(),
        key_eq(t[i].0, k),
    ensures
        forall|k2: EventKey|
            !key_eq(k2, k) ==> #[trigger] items_of(t.remove(i), k2) == items_of(t, k2),
        forall|k2: EventKey|
            !key_eq(k2, k) ==> (#[trigger] has_key(t.remove(i), k2) <==> has_key(t, k2)),
{
    let t2 = t.remove(i);
    assert forall|k2: EventKey| !key_eq(k2, k) implies #[trigger] items_of(t.remove(i), k2)
        == items_of(t, k2) && (has_key(t.remove(i), k2) <==> has_key(t, k2)) by {
        let pred2 = |e: (EventKey, Seq<EventItem>)| key_eq(e.0, k2);
        lemma_first_where(t, pred2);
        lemma_first_where(t2, pred2);
        if has_key(t, k2) {
            let i2 = key_index(t, k2);
            assert(key_eq(t[i2].0, k2));
            if i2 == i {
                assert(key_eq(k2, k));
                assert(false);
            }
            let i2new: int = if i2 < i {
                i2
            } else {
                i2 - 1
            };
            assert(t2[i2new] == t[i2]);
            assert forall|j: int| 0 <= j < i2new implies !pred2(t2[j]) by {
                let j0: int = if j < i {
                    j
                } else {
                    j + 1
                };
                assert(t2[j] == t[j0]);
            }
            lemma_first_where_is(t2, pred2, i2new);
        } else {
            if key_index(t2, k2) < t2.len() {
                let x = key_index(t2, k2);
                let x0: int = if x < i {
                    x
                } else {
                    x + 1
                };
                assert(t2[x] == t[x0]);
                assert(some_where(t, pred2));
                assert(false);
            }
        }
    }
    assert forall|k2: EventKey| !key_eq(k2, k) implies (#[trigger] has_key(t.remove(i), k2)
        <==> has_key(t, k2)) by {
        assert(items_of(t.remove(i), k2) == items_of(t, k2));
    }
}

/// What one emit pass does to the table: the key's once-listeners are
/// consumed (the key entry itself, when nothing survives), and every other
/// key keeps its listeners.
pub proof fn lemma_emit_effect(t: EventTable, k: EventKey)
    requires
        wf_table(t),
    ensures
        wf_table(spec_emit_table(t, k)),
        !has_key(t, k) ==> spec_emit_table(t, k) == t && cbs_of(t, k) == Seq::<u64>::empty(),
        has_key(t, k) ==> items_of(spec_emit_table(t, k), k) == kept_of(items_of(t, k)),
        has_key(t, k) ==> (has_key(spec_emit_table(t, k), k) <==> kept_of(items_of(t, k)).len()
            > 0),
        forall|k2: EventKey|
            !key_eq(k2, k) ==> #[trigger] items_of(spec_emit_table(t, k), k2) == items_of(t, k2),
        forall|k2: EventKey|
            !key_eq(k2, k) ==> (#[trigger] has_key(spec_emit_table(t, k), k2) <==> has_key(
                t,
                k2,
            )),
{
    let t2 = spec_emit_table(t, k);
    let pred = |e: (EventKey, Seq<EventItem>)| key_eq(e.0, k);
    lemma_first_where(t, pred);
    if !has_key(t, k) {
        assert(items_of(t, k) == Seq::<EventItem>::empty());
        assert(cbs_of_items(Seq::<EventItem>::empty()) =~= Seq::<u64>::empty());
    } else {
        let i = key_index(t, k);
        let kept = kept_of(t[i].1);
        if kept.len() == 0 {
            lemma_wf_remove(t, i);
            lemma_removed_entry_leaves_no_match(t, k, i);
            lemma_items_after_entry_removal(t, k, i);
            assert(items_of(t2, k) =~= kept);
            assert forall|k2: EventKey| !key_eq(k2, k) implies #[trigger] items_of(
                spec_emit_table(t, k),
                k2,
            ) == items_of(t, k2) && (has_key(spec_emit_table(t, k), k2) <==> has_key(t, k2)) by {
                assert(items_of(t.remove(i), k2) == items_of(t, k2));
                assert(has_key(t.remove(i), k2) <==> has_key(t, k2));
                assert(spec_emit_table(t, k) == t.remove(i));
            }
        } else {
            lemma_key_index_same_keys(t, t2, k);
            lemma_wf_update(t, i, kept);
            assert forall|k2: EventKey| !key_eq(k2, k) implies #[trigger] items_of(
                spec_emit_table(t, k),
                k2,
            ) == items_of(t, k2) && (has_key(spec_emit_table(t, k), k2) <==> has_key(t, k2)) by {
                lemma_key_index_same_keys(t, t2, k2);
                if has_key(t, k2) {
                    let i2 = key_index(t, k2);
                    lemma_first_where(t, |e: (EventKey, Seq<EventItem>)| key_eq(e.0, k2));
                    assert(key_eq(t[i2].0, k2));
                    if i2 == i {
                        assert(key_eq(t[i].0, k));
                        assert(key_eq(k2, k));
                        assert(false);
                    }
                    assert(t2[i2] == t[i2]);
                }
                assert(items_of(t2, k2) == items_of(t, k2));
            }
        }
    }
    assert forall|k2: EventKey| !key_eq(k2, k) implies (#[trigger] has_key(
        spec_emit_table(t, k),
        k2,
    ) <==> has_key(t, k2)) by {
        assert(items_of(spec_emit_table(t, k), k2) == items_of(t, k2));
    }
}

/// The table after registering each callback of `cbs` in order as a plain
/// appended listener under `k`.
pub open spec fn add_all(t: EventTable, k: EventKey, cbs: Seq<u64>) -> EventTable
    decreases cbs.len(),
{
    if cbs.len() == 0 {
        t
    } else {
        spec_add(add_all(t, k, cbs.drop_last()), k, cbs.last(), false, false)
    }
}

/// The table after prepending each callback of `cbs` in order under `k`.
pub open spec fn prepend_all(t: EventTable, k: EventKey, cbs: Seq<u64>) -> EventTable
    decreases cbs.len(),
{
    if cbs.len() == 0 {
        t
    } else {
        spec_add(prepend_all(t, k, cbs.drop_last()), k, cbs.last(), true, false)
    }
}

/// Law: listeners fire in registration order. After any sequence of
/// `on(k, _)` registrations, the emit pass for `k` fires the callbacks
/// that were already registered and then the new ones, in exactly the
/// order they were registered.
pub proof fn lemma_listeners_fire_in_registration_order(t: EventTable, k: EventKey, cbs: Seq<u64>)
    requires
        wf_table(t),
    ensures
        wf_table(add_all(t, k, cbs)),
        cbs_of(add_all(t, k, cbs), k) == cbs_of(t, k) + cbs,
    decreases cbs.len(),
{
    if cbs.len() == 0 {
        assert(cbs_of(t, k) + cbs =~= cbs_of(t, k));
    } else {
        lemma_listeners_fire_in_registration_order(t, k, cbs.drop_last());
        lemma_add_effect(add_all(t, k, cbs.drop_last()), k, cbs.last(), false, false);
        assert((cbs_of(t, k) + cbs.drop_last()).push(cbs.last()) =~= cbs_of(t, k) + cbs);
    }
}

/// Law: prepended listeners fire before everything already registered, in
/// the reverse of the order they were prepended — prepending reverses
/// order exactly where appending keeps it.
pub proof fn lemma_prepended_listeners_fire_in_reverse(t: EventTable, k: EventKey, cbs: Seq<u64>)
    requires
        wf_table(t),
    ensures
        wf_table(prepend_all(t, k, cbs)),
        cbs_of(prepend_all(t, k, cbs), k) == cbs.reverse() + cbs_of(t, k),
    decreases cbs.len(),
{
    if cbs.len() == 0 {
        assert(cbs.reverse() + cbs_of(t, k) =~= cbs_of(t, k));
    } else {
        lemma_prepended_listeners_fire_in_reverse(t, k, cbs.drop_last());
        lemma_add_effect(prepend_all(t, k, cbs.drop_last()), k, cbs.last(), true, false);
        assert(seq![cbs.last()] + (cbs.drop_last().reverse() + cbs_of(t, k)) =~= cbs.reverse()
            + cbs_of(t, k));
    }
}

/// Law: a once-listener fires exactly once. Registering `cb` once-only
/// under a previously unregistered key `k` makes the next emit pass fire
/// exactly `cb`; that pass drops the key entry (so `eventNames` no longer
/// lists `k`), and a second emit pass fires nothing and changes nothing.
pub proof fn lemma_once_listener_fires_once(t: EventTable, k: EventKey, cb: u64)
    requires
        wf_table(t),
        !has_key(t, k),
    ensures
        cbs_of(spec_add(t, k, cb, false, true), k) == seq![cb],
        !has_key(spec_emit_table(spec_add(t, k, cb, false, true), k), k),
        cbs_of(spec_emit_table(spec_add(t, k, cb, false, true), k), k) == Seq::<u64>::empty(),
        spec_emit_table(spec_emit_table(spec_add(t, k, cb, false, true), k), k)
            == spec_emit_table(spec_add(t, k, cb, false, true), k),
{
    let item = EventItem { callback: cb, once: true };
    lemma_add_effect(t, k, cb, false, true);
    let t1 = spec_add(t, k, cb, false, true);
    assert(items_of(t1, k) =~= seq![item]);
    assert(cbs_of(t1, k) =~= seq![cb]);
    lemma_emit_effect(t1, k);
    assert(seq![item].drop_last() =~= Seq::<EventItem>::empty());
    assert(kept_of(Seq::<EventItem>::empty()) == Seq::<EventItem>::empty());
    assert(kept_of(seq![item]) == Seq::<EventItem>::empty());
    let t2 = spec_emit_table(t1, k);
    assert(!has_key(t2, k));
    assert(items_of(t2, k) == Seq::<EventItem>::empty());
    assert(cbs_of(t2, k) =~= Seq::<u64>::empty());
    lemma_emit_effect(t2, k);
}

/// Law: one `off` removes at most one entry — the first whose callback
/// matches by identity — even when the callback is registered several
/// times; a second `off` then removes the next occurrence.
pub proof fn lemma_off_removes_one_occurrence(t: EventTable, k: EventKey, cb: u64, i: int, j: int)
    requires
        wf_table(t),
        0 <= i < j < cbs_of(t, k).len(),
        cbs_of(t, k)[i] == cb,
        cbs_of(t, k)[j] == cb,
        forall|m: int| 0 <= m < i ==> cbs_of(t, k)[m] != cb,
        forall|m: int| i < m < j ==> cbs_of(t, k)[m] != cb,
    ensures
        cbs_of(spec_remove(t, k, cb), k) == cbs_of(t, k).remove(i),
        cbs_of(spec_remove(spec_remove(t, k, cb), k, cb), k) == cbs_of(t, k).remove(i).remove(
            j - 1,
        ),
{
    let c = cbs_of(t, k);
    let items = items_of(t, k);
    let pred = |it: EventItem| it.callback == cb;
    assert(items.len() == c.len());
    assert(has_key(t, k));
    assert(items[i].callback == c[i]);
    assert forall|m: int| 0 <= m < i implies !pred(items[m]) by {
        assert(c[m] == items[m].callback);
    }
    lemma_first_where_is(items, pred, i);
    lemma_remove_effect(t, k, cb);
    let t1 = spec_remove(t, k, cb);
    assert(cbs_of(t1, k) == c.remove(i));
    let items1 = items_of(t1, k);
    assert(items1 == items.remove(i));
    let c1 = cbs_of(t1, k);
    assert(c1[j - 1] == c[j]);
    assert(items1[j - 1].callback == c1[j - 1]);
    assert forall|m: int| 0 <= m < j - 1 implies c1[m] != cb by {
        if m < i {
            assert(c1[m] == c[m]);
        } else {
            assert(c1[m] == c[m + 1]);
        }
    }
    assert forall|m: int| 0 <= m < j - 1 implies !pred(items1[m]) by {
        assert(c1[m] == items1[m].callback);
    }
    lemma_first_where_is(items1, pred, j - 1);
    lemma_remove_effect(t1, k, cb);
    assert(cbs_of(spec_remove(t1, k, cb), k) == c1.remove(j - 1));
}

/// Law: emitting a key with no listeners is a no-op — nothing fires and
/// the table is unchanged (the emit pass returns normally, it never fails).
pub proof fn lemma_emit_without_listeners(t: EventTable, k: EventKey)
    requires
        wf_table(t),
        !has_key(t, k),
    ensures
        spec_emit_table(t, k) == t,
        cbs_of(t, k) == Seq::<u64>::empty(),
{
    lemma_emit_effect(t, k);
}

/// Law: a key the table does not hold never shows up in `eventNames`.
pub proof fn lemma_absent_key_not_in_names(t: EventTable, k: EventKey)
    requires
        !has_key(t, k),
    ensures
        forall|i: int| 0 <= i < t.len() ==> !key_eq(#[trigger] keys_of(t)[i], k),
{
    let pred = |e: (EventKey, Seq<EventItem>)| key_eq(e.0, k);
    lemma_first_where(t, pred);
    assert forall|i: int| 0 <= i < t.len() implies !key_eq(#[trigger] keys_of(t)[i], k) by {
        assert(keys_of(t)[i] == t[i].0);
        assert(!pred(t[i]));
    }
}

/// Law: the tracing hook hides nothing from the collector. Every callback
/// stored anywhere in the table is among the references it reports, and so
/// is every symbol key.
pub proof fn lemma_trace_reports_every_reference(t: EventTable, i: int, j: int)
    requires
        0 <= i < t.len(),
        0 <= j < t[i].1.len(),
    ensures
        refs_of_table(t).contains(t[i].1[j].callback),
        t[i].0 matches EventKey::Symbol(id) ==> refs_of_table(t).contains(id),
    decreases t.len(),
{
    let prefix = refs_of_table(t.drop_last());
    let e = t.last();
    if i == t.len() - 1 {
        let syms = (match e.0 {
            EventKey::Symbol(id) => seq![id],
            EventKey::Str(_) => Seq::<u64>::empty(),
        });
        assert(refs_of_entry(e)[syms.len() + j] == e.1[j].callback);
        let at = prefix.len() + syms.len() + j;
        assert(refs_of_table(t)[at] == e.1[j].callback);
        assert(refs_of_table(t).contains(t[i].1[j].callback));
        match e.0 {
            EventKey::Symbol(id) => {
                assert(refs_of_entry(e)[0] == id);
                assert(refs_of_table(t)[prefix.len() as int] == id);
                assert(refs_of_table(t).contains(id));
            },
            EventKey::Str(_) => {},
        }
    } else {
        assert(t.drop_last()[i] == t[i]);
        lemma_trace_reports_every_reference(t.drop_last(), i, j);
        let cb = t[i].1[j].callback;
        let w = choose|w: int| 0 <= w < prefix.len() && prefix[w] == cb;
        assert(refs_of_table(t)[w] == cb);
        assert(refs_of_table(t).contains(cb));
        match t[i].0 {
            EventKey::Symbol(id) => {
                let w2 = choose|w2: int| 0 <= w2 < prefix.len() && prefix[w2] == id;
                assert(refs_of_table(t)[w2] == id);
                assert(refs_of_table(t).contains(id));
            },
            EventKey::Str(_) => {},
        }
    }
}

/// The `events` native module, as the host registry binds it: it exports
/// the dispatcher's constructor, under its own name and as the default
/// binding.
pub struct EventsModule;

impl EventsModule {
    /// The names the module declares, in declaration order.
    pub fn declare() -> (names: Vec<String>)
        ensures
            names@.len() == 2,
            names@[0]@ == "EventEmitter"@,
            names@[1]@ == "default"@,
    {
        let mut names: Vec<String> = Vec::new();
        names.push(String::from_str("EventEmitter"));
        names.push(String::from_str("default"));
        names
    }
}

/// Index of the first entry of `items` holding the callback `cb`, or the
/// list length.
fn position_of_cb(items: &Vec<EventItem>, cb: u64) -> (r: usize)
    ensures
        r == first_cb(items@, cb),
{
    let mut i: usize = 0;
    while i < items.len()
        invariant
            0 <= i <= items.len(),
            forall|j: int| 0 <= j < i ==> items@[j].callback != cb,
        decreases items.len() - i,
    {
        if items[i].callback == cb {
            proof {
                lemma_first_where_is(items@, |it: EventItem| it.callback == cb, i as int);
            }
            return i;
        }
        i += 1;
    }
    proof {
        lemma_first_where(items@, |it: EventItem| it.callback == cb);
    }
    i
}

/// `key_eq` is transitive through a shared right-hand side (it is an
/// equivalence on the keys it relates).
pub proof fn key_eq_properties(a: EventKey, k: EventKey, c: EventKey)
    requires
        !key_eq(a, k),
        key_eq(c, k),
    ensures
        !key_eq(a, c),
{
}

} // verus!
