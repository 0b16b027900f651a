//! A time-bounded associative cache.
//!
//! `Cache` maps integer keys to values. Every entry remembers when it was
//! last touched; entries older than the configured timeout are removed by a
//! sweep that runs inside every write (`set`). There is no background timer:
//! between writes, stale entries merely drift until the next sweep.
//!
//! The cache uses the sliding-expiry policy: a successful `get` refreshes the
//! entry's last-touch time, so a key that is read at least once per timeout
//! interval stays alive indefinitely.
//!
//! Time is injected: every operation that consults the clock takes the
//! current time (whole seconds since a fixed reference) as an argument, so
//! callers bind it to a real clock while proofs and tests can pick any value.
//! Elapsed time saturates at zero, so a clock that jumps backwards never ages
//! an entry by a huge wrapped amount.
//!
//! The cache is a passive structure: it spawns nothing and takes no locks. A
//! touch rewrites a single entry's timestamp and nothing else — the
//! touch-locality law below pins that down — and every operation, the touch
//! included, goes through the cache's exclusive reference; callers that share
//! a cache wrap it in synchronization of their own.

use vstd::prelude::*;

verus! {

/// One cache slot: a key, its value, and the time the entry was last touched.
struct CacheEntry<V> {
    key: u64,
    last_touch: u64,
    value: V,
}

/// A mapping from `u64` keys to values whose entries expire `timeout` seconds
/// after their last touch, swept on every write.
pub struct Cache<V> {
    entries: Vec<CacheEntry<V>>,
    timeout: u64,
}

/// Seconds elapsed from `touch` to `now`, saturating at zero when the clock
/// has moved backwards.
pub open spec fn age(now: u64, touch: u64) -> u64 {
    if now >= touch {
        (now - touch) as u64
    } else {
        0
    }
}

/// An entry touched at `touch` is still fresh at `now`: it has been idle for
/// less than `timeout` seconds.
pub open spec fn fresh(timeout: u64, now: u64, touch: u64) -> bool {
    age(now, touch) < timeout
}

/// What a sweep at time `now` leaves of the mapping `m`: exactly the entries
/// that are still fresh.
pub open spec fn sweep_model<V>(m: Map<u64, (V, u64)>, timeout: u64, now: u64) -> Map<
    u64,
    (V, u64),
> {
    Map::new(|k: u64| m.dom().contains(k) && fresh(timeout, now, m[k].1), |k: u64| m[k])
}

/// What `set(key, value)` at time `now` makes of the mapping `m`: a sweep,
/// then the new entry, its clock reset to `now`.
pub open spec fn set_model<V>(
    m: Map<u64, (V, u64)>,
    timeout: u64,
    key: u64,
    value: V,
    now: u64,
) -> Map<u64, (V, u64)> {
    sweep_model(m, timeout, now).insert(key, (value, now))
}

/// What a touch of `key` at time `now` makes of the mapping `m`: the entry's
/// last-touch time moves forward to `now`, and never backwards.
pub open spec fn touch_model<V>(m: Map<u64, (V, u64)>, key: u64, now: u64) -> Map<u64, (V, u64)> {
    if m.dom().contains(key) {
        m.insert(key, (m[key].0, if now >= m[key].1 { now } else { m[key].1 }))
    } else {
        m
    }
}

/// No two slots of `s` share a key.
spec fn keys_unique<V>(s: Seq<CacheEntry<V>>) -> bool {
    forall|i: int, j: int| 0 <= i < j < s.len() ==> s[i].key != s[j].key
}

/// Some slot of `s` holds `key`.
spec fn seq_has_key<V>(s: Seq<CacheEntry<V>>, key: u64) -> bool {
    exists|i: int| 0 <= i < s.len() && s[i].key == key
}

/// The index of the slot of `s` that holds `key` (unique when `keys_unique`).
spec fn seq_index_of<V>(s: Seq<CacheEntry<V>>, key: u64) -> int {
    choose|i: int| 0 <= i < s.len() && s[i].key == key
}

/// The mapping that a sequence of slots represents.
spec fn seq_view<V>(s: Seq<CacheEntry<V>>) -> Map<u64, (V, u64)> {
    Map::new(
        |k: u64| seq_has_key(s, k),
        |k: u64| (s[seq_index_of(s, k)].value, s[seq_index_of(s, k)].last_touch),
    )
}

/// A slot holding `key` represents exactly the mapping's entry for `key`.
proof fn lemma_key_at<V>(s: Seq<CacheEntry<V>>, i: int)
    requires
        keys_unique(s),
        0 <= i < s.len(),
    ensures
        seq_has_key(s, s[i].key),
        seq_index_of(s, s[i].key) == i,
        seq_view(s).dom().contains(s[i].key),
        seq_view(s)[s[i].key] == (s[i].value, s[i].last_touch),
{
    let k = s[i].key;
    assert(seq_has_key(s, k));
    let j = seq_index_of(s, k);
    assert(0 <= j < s.len() && s[j].key == k);
    if j != i {
        assert(s[i].key != s[j].key);
    }
}

/// Removing the slot at `i` removes exactly key `s[i].key` from the mapping.
proof fn lemma_view_remove<V>(s: Seq<CacheEntry<V>>, i: int)
    requires
        keys_unique(s),
        0 <= i < s.len(),
    ensures
        keys_unique(s.remove(i)),
        !seq_has_key(s.remove(i), s[i].key),
        seq_view(s.remove(i)) == seq_view(s).remove(s[i].key),
{
    let r = s.remove(i);
    s.remove_ensures(i);
    assert forall|a: int, b: int| 0 <= a < b < r.len() implies r[a].key != r[b].key by {
        let a0: int = if a < i {
            a
        } else {
            a + 1
        };
        let b0: int = if b < i {
            b
        } else {
            b + 1
        };
        assert(r[a] == s[a0]);
        assert(r[b] == s[b0]);
    }
    assert forall|j: int| 0 <= j < r.len() implies r[j].key != s[i].key by {
        let j0: int = if j < i {
            j
        } else {
            j + 1
        };
        assert(r[j] == s[j0]);
    }
    assert forall|k: u64| #[trigger] seq_has_key(r, k) && k != s[i].key implies seq_has_key(s, k)
        && seq_view(r)[k] == seq_view(s)[k] by {
        let m = seq_index_of(r, k);
        let m0: int = if m < i {
            m
        } else {
            m + 1
        };
        assert(r[m] == s[m0]);
        lemma_key_at(s, m0);
        lemma_key_at(r, m);
    }
    assert forall|k: u64| #[trigger] seq_has_key(s, k) && k != s[i].key implies seq_has_key(
        r,
        k,
    ) by {
        let m0 = seq_index_of(s, k);
        if m0 < i {
            assert(r[m0] == s[m0]);
        } else {
            assert(i < m0 < s.len());
            assert(r[m0 - 1] == s[m0]);
        }
    }
    assert(seq_view(r) =~= seq_view(s).remove(s[i].key));
}

/// Appending a slot with an unused key inserts exactly that entry into the
/// mapping.
proof fn lemma_view_push<V>(s: Seq<CacheEntry<V>>, e: CacheEntry<V>)
    requires
        keys_unique(s),
        !seq_has_key(s, e.key),
    ensures
        keys_unique(s.push(e)),
        seq_view(s.push(e)) == seq_view(s).insert(e.key, (e.value, e.last_touch)),
{
    let p = s.push(e);
    assert forall|a: int, b: int| 0 <= a < b < p.len() implies p[a].key != p[b].key by {
        if b < s.len() {
            assert(p[a] == s[a] && p[b] == s[b]);
        } else {
            assert(p[a] == s[a] && p[b] == e);
            assert(s[a].key != e.key) by {
                if s[a].key == e.key {
                    assert(seq_has_key(s, e.key));
                }
            }
        }
    }
    assert forall|k: u64| #[trigger] seq_has_key(p, k) && k != e.key implies seq_has_key(s, k)
        && seq_view(p)[k] == seq_view(s)[k] by {
        let m = seq_index_of(p, k);
        assert(m < s.len() && p[m] == s[m]);
        lemma_key_at(s, m);
        lemma_key_at(p, m);
    }
    assert forall|k: u64| #[trigger] seq_has_key(s, k) implies seq_has_key(p, k) by {
        let m = seq_index_of(s, k);
        assert(p[m] == s[m]);
    }
    assert(p[s.len() as int] == e);
    lemma_key_at(p, s.len() as int);
    assert(seq_view(p) =~= seq_view(s).insert(e.key, (e.value, e.last_touch)));
}

/// Slot `m` of `s1` repeats one of the first `bound` slots of `s0`, one that
/// is still fresh.
spec fn slot_kept<V>(
    s1: Seq<CacheEntry<V>>,
    m: int,
    s0: Seq<CacheEntry<V>>,
    bound: int,
    timeout: u64,
    now: u64,
) -> bool {
    exists|l: int| 0 <= l < bound && s1[m] == s0[l] && fresh(timeout, now, s0[l].last_touch)
}

/// Slot `l` of `s0` still stands among the first `bound` slots of `s1`.
spec fn slot_survives<V>(s0: Seq<CacheEntry<V>>, l: int, s1: Seq<CacheEntry<V>>, bound: int) -> bool {
    exists|m: int| 0 <= m < bound && s1[m] == s0[l]
}

/// A sweep's slot-level effect, stated on the mapping: when the surviving
/// slots are exactly the fresh slots of the original storage, the surviving
/// mapping is exactly the fresh part of the original mapping.
proof fn lemma_view_after_sweep<V>(
    s0: Seq<CacheEntry<V>>,
    s1: Seq<CacheEntry<V>>,
    timeout: u64,
    now: u64,
)
    requires
        keys_unique(s0),
        keys_unique(s1),
        forall|m: int|
            0 <= m < s1.len() ==> #[trigger] slot_kept(s1, m, s0, s0.len() as int, timeout, now),
        forall|l: int|
            0 <= l < s0.len() && fresh(timeout, now, s0[l].last_touch) ==> #[trigger] slot_survives(
                s0,
                l,
                s1,
                s1.len() as int,
            ),
    ensures
        seq_view(s1) == sweep_model(seq_view(s0), timeout, now),
{
    let v0 = seq_view(s0);
    let v1 = seq_view(s1);
    let sw = sweep_model(v0, timeout, now);
    assert forall|k: u64| #[trigger] sw.dom().contains(k) implies v1.dom().contains(k) && v1[k]
        == sw[k] by {
        let l = seq_index_of(s0, k);
        lemma_key_at(s0, l);
        assert(fresh(timeout, now, s0[l].last_touch));
        assert(slot_survives(s0, l, s1, s1.len() as int));
        let m = choose|m: int| 0 <= m < s1.len() && s1[m] == s0[l];
        lemma_key_at(s1, m);
    }
    assert forall|k: u64| #[trigger] v1.dom().contains(k) implies sw.dom().contains(k) by {
        let m = seq_index_of(s1, k);
        lemma_key_at(s1, m);
        assert(slot_kept(s1, m, s0, s0.len() as int, timeout, now));
        let l = choose|l: int|
            0 <= l < s0.len() && s1[m] == s0[l] && fresh(timeout, now, s0[l].last_touch);
        lemma_key_at(s0, l);
    }
    assert(v1 =~= sw);
}

impl<V> Cache<V> {
    /// The cache's storage holds each key at most once.
    pub closed spec fn wf(&self) -> bool {
        keys_unique(self.entries@)
    }

    /// The staleness bound, in whole seconds.
    pub closed spec fn timeout(&self) -> u64 {
        self.timeout
    }

    /// The mapping the cache represents: key to (value, last touch).
    pub closed spec fn view(&self) -> Map<u64, (V, u64)> {
        seq_view(self.entries@)
    }

    /// An empty cache whose entries will go stale `secs` seconds after their
    /// last touch.
    pub fn new(secs: u64) -> (c: Self)
        ensures
            c.wf(),
            c.timeout() == secs,
            c@ == Map::<u64, (V, u64)>::empty(),
    {
        let c = Cache { entries: Vec::new(), timeout: secs };
        proof {
            assert(c@ =~= Map::<u64, (V, u64)>::empty());
        }
        c
    }

    /// The position of `key`'s slot, if the key is present.
    #[verifier::loop_isolation(false)]
    fn find_index(&self, key: u64) -> (r: Option<usize>)
        ensures
            match r {
                Some(i) => i < self.entries@.len() && self.entries@[i as int].key == key,
                None => !seq_has_key(self.entries@, key),
            },
    {
        let mut i: usize = 0;
        while i < self.entries.len()
            invariant
                i <= self.entries@.len(),
                forall|j: int| 0 <= j < i ==> self.entries@[j].key != key,
            decreases self.entries@.len() - i,
        {
            if self.entries[i].key == key {
                return Some(i);
            }
            i += 1;
        }
        None
    }

    /// Looks `key` up. If the key is present, returns its value and — the
    /// sliding-expiry policy — refreshes the entry's last touch to `now`;
    /// a touch never moves the clock backwards. An absent key is not an
    /// error: the call returns nothing and changes nothing. No entry is
    /// created or removed; in particular a stale entry is still returned,
    /// since only the sweep inside `set` (or an explicit `shrink`) evicts.
    pub fn get(&mut self, key: u64, now: u64) -> (r: Option<&V>)
        requires
            old(self).wf(),
        ensures
            final(self).wf(),
            final(self).timeout() == old(self).timeout(),
            final(self)@ == touch_model(old(self)@, key, now),
            match r {
                Some(v) => old(self)@.dom().contains(key) && *v == old(self)@[key].0,
                None => !old(self)@.dom().contains(key),
            },
    {
        let ghost s0 = self.entries@;
        match self.find_index(key) {
            None => {
                proof {
                    assert(!old(self)@.dom().contains(key));
                    assert(self@ == touch_model(old(self)@, key, now));
                }
                None
            },
            Some(i) => {
                proof {
                    lemma_key_at(s0, i as int);
                    lemma_view_remove(s0, i as int);
                }
                let e = self.entries.remove(i);
                let touch = if now >= e.last_touch {
                    now
                } else {
                    e.last_touch
                };
                let refreshed = CacheEntry { key: e.key, last_touch: touch, value: e.value };
                proof {
                    lemma_view_push(s0.remove(i as int), refreshed);
                }
                self.entries.push(refreshed);
                proof {
                    assert(self@ =~= touch_model(old(self)@, key, now));
                }
                let last = self.entries.len() - 1;
                proof {
                    lemma_key_at(self.entries@, last as int);
                }
                Some(&self.entries[last].value)
            },
        }
    }

    /// Removes every entry that has been idle for `timeout` seconds or more,
    /// judged against the single time value `now`, and nothing else. `set`
    /// runs this sweep before every insertion; it is also available on its
    /// own. Entries whose last touch lies in the future (a clock that jumped
    /// backwards) age zero seconds and are kept.
    #[verifier::loop_isolation(false)]
    pub fn shrink(&mut self, now: u64)
        requires
            old(self).wf(),
        ensures
            final(self).wf(),
            final(self).timeout() == old(self).timeout(),
            final(self)@ == sweep_model(old(self)@, old(self).timeout(), now),
    {
        let ghost s0 = self.entries@;
        let mut i: usize = 0;
        let ghost mut processed: int = 0;
        while i < self.entries.len()
            invariant
                self.timeout == old(self).timeout,
                i <= self.entries@.len(),
                0 <= processed <= s0.len(),
                self.entries@.len() - i == s0.len() - processed,
                self.entries@.skip(i as int) == s0.skip(processed),
                keys_unique(self.entries@),
                forall|m: int|
                    0 <= m < i ==> #[trigger] slot_kept(
                        self.entries@,
                        m,
                        s0,
                        processed,
                        self.timeout,
                        now,
                    ),
                forall|l: int|
                    0 <= l < processed && fresh(self.timeout, now, s0[l].last_touch)
                        ==> #[trigger] slot_survives(s0, l, self.entries@, i as int),
            decreases s0.len() - processed,
        {
            proof {
                assert(self.entries@.skip(i as int)[0] == s0.skip(processed)[0]);
                assert(self.entries@[i as int] == s0[processed]);
            }
            let touch = self.entries[i].last_touch;
            let elapsed = if now >= touch {
                now - touch
            } else {
                0
            };
            if elapsed >= self.timeout {
                let ghost pre = self.entries@;
                proof {
                    lemma_view_remove(pre, i as int);
                    pre.remove_ensures(i as int);
                    assert(age(now, s0[processed].last_touch) == elapsed);
                    assert(!fresh(self.timeout, now, s0[processed].last_touch));
                }
                let _ = self.entries.remove(i);
                proof {
                    let cur = self.entries@;
                    assert forall|j: int| 0 <= j < cur.skip(i as int).len() implies #[trigger] cur.skip(
                        i as int,
                    )[j] == s0.skip(processed + 1)[j] by {
                        assert(cur[i as int + j] == pre[i as int + j + 1]);
                        assert(pre.skip(i as int)[j + 1] == pre[i as int + j + 1]);
                        assert(s0.skip(processed)[j + 1] == s0[processed + 1 + j]);
                        assert(s0.skip(processed + 1)[j] == s0[processed + 1 + j]);
                    }
                    assert(cur.skip(i as int) =~= s0.skip(processed + 1));
                    assert forall|m: int| 0 <= m < i implies #[trigger] slot_kept(
                        cur,
                        m,
                        s0,
                        processed + 1,
                        self.timeout,
                        now,
                    ) by {
                        assert(slot_kept(pre, m, s0, processed, self.timeout, now));
                        let l = choose|l: int|
                            0 <= l < processed && pre[m] == s0[l] && fresh(
                                self.timeout,
                                now,
                                s0[l].last_touch,
                            );
                        assert(cur[m] == pre[m]);
                        assert(0 <= l < processed + 1 && cur[m] == s0[l] && fresh(
                            self.timeout,
                            now,
                            s0[l].last_touch,
                        ));
                    }
                    assert forall|l: int|
                        0 <= l < processed + 1 && fresh(
                            self.timeout,
                            now,
                            s0[l].last_touch,
                        ) implies #[trigger] slot_survives(s0, l, cur, i as int) by {
                        assert(l != processed);
                        assert(slot_survives(s0, l, pre, i as int));
                        let m = choose|m: int| 0 <= m < i && pre[m] == s0[l];
                        assert(cur[m] == pre[m]);
                        assert(0 <= m < i && cur[m] == s0[l]);
                    }
                    processed = processed + 1;
                }
            } else {
                proof {
                    let cur = self.entries@;
                    assert(age(now, s0[processed].last_touch) == elapsed);
                    assert(fresh(self.timeout, now, s0[processed].last_touch));
                    assert forall|j: int| 0 <= j < cur.skip(i as int + 1).len() implies #[trigger] cur.skip(
                        i as int + 1,
                    )[j] == s0.skip(processed + 1)[j] by {
                        assert(cur.skip(i as int)[j + 1] == cur[i as int + j + 1]);
                        assert(s0.skip(processed)[j + 1] == s0[processed + 1 + j]);
                        assert(s0.skip(processed + 1)[j] == s0[processed + 1 + j]);
                    }
                    assert(cur.skip(i as int + 1) =~= s0.skip(processed + 1));
                    assert forall|m: int| 0 <= m < i + 1 implies #[trigger] slot_kept(
                        cur,
                        m,
                        s0,
                        processed + 1,
                        self.timeout,
                        now,
                    ) by {
                        if m < i {
                            assert(slot_kept(cur, m, s0, processed, self.timeout, now));
                            let l = choose|l: int|
                                0 <= l < processed && cur[m] == s0[l] && fresh(
                                    self.timeout,
                                    now,
                                    s0[l].last_touch,
                                );
                            assert(0 <= l < processed + 1 && cur[m] == s0[l] && fresh(
                                self.timeout,
                                now,
                                s0[l].last_touch,
                            ));
                        } else {
                            assert(cur[m] == s0[processed]);
                        }
                    }
                    assert forall|l: int|
                        0 <= l < processed + 1 && fresh(
                            self.timeout,
                            now,
                            s0[l].last_touch,
                        ) implies #[trigger] slot_survives(s0, l, cur, i as int + 1) by {
                        if l < processed {
                            assert(slot_survives(s0, l, cur, i as int));
                            let m = choose|m: int| 0 <= m < i && cur[m] == s0[l];
                            assert(0 <= m < i + 1 && cur[m] == s0[l]);
                        } else {
                            assert(cur[i as int] == s0[processed]);
                        }
                    }
                    processed = processed + 1;
                }
                i += 1;
            }
        }
        proof {
            assert(processed == s0.len());
            let s1 = self.entries@;
            assert forall|m: int| 0 <= m < s1.len() implies #[trigger] slot_kept(
                s1,
                m,
                s0,
                s0.len() as int,
                self.timeout,
                now,
            ) by {
                assert(slot_kept(s1, m, s0, processed, self.timeout, now));
            }
            assert forall|l: int|
                0 <= l < s0.len() && fresh(self.timeout, now, s0[l].last_touch) implies #[trigger] slot_survives(
                s0,
                l,
                s1,
                s1.len() as int,
            ) by {
                assert(slot_survives(s0, l, s1, i as int));
            }
            lemma_view_after_sweep(s0, self.entries@, self.timeout, now);
        }
    }

    /// Removes `key`'s slot if there is one; the mapping loses exactly `key`.
    fn remove_key(&mut self, key: u64)
        requires
            old(self).wf(),
        ensures
            final(self).wf(),
            final(self).timeout == old(self).timeout,
            final(self)@ == old(self)@.remove(key),
            !seq_has_key(final(self).entries@, key),
    {
        let ghost s0 = self.entries@;
        match self.find_index(key) {
            None => {
                proof {
                    assert(!self@.dom().contains(key));
                    assert(self@ =~= old(self)@.remove(key));
                }
            },
            Some(i) => {
                proof {
                    lemma_key_at(s0, i as int);
                    lemma_view_remove(s0, i as int);
                }
                let _ = self.entries.remove(i);
            },
        }
    }

    /// Inserts `key` with `value`, replacing any previous entry for `key` and
    /// resetting its clock: the new entry's last touch is `now`, the single
    /// time value of the whole call. Before inserting, sweeps the whole cache,
    /// removing every entry idle for `timeout` seconds or more — the only
    /// point at which the cache evicts on its own. Never fails; capacity is
    /// unbounded by design.
    pub fn set(&mut self, key: u64, value: V, now: u64)
        requires
            old(self).wf(),
        ensures
            final(self).wf(),
            final(self).timeout() == old(self).timeout(),
            final(self)@ == set_model(old(self)@, old(self).timeout(), key, value, now),
    {
        self.shrink(now);
        let ghost swept = self@;
        self.remove_key(key);
        proof {
            lemma_view_push(self.entries@, CacheEntry { key, last_touch: now, value });
        }
        self.entries.push(CacheEntry { key, last_touch: now, value });
        proof {
            assert(self@ =~= swept.insert(key, (value, now)));
        }
    }
}

/// Expiry law. `set(k, v)` at `t0` leaves the entry holding `v` with its
/// clock at `t0`, and while an entry is present `get` returns its value, so
/// `get` returns `v` at any time until a sweep runs. A sweep at `t1` (run by
/// `shrink` or by the next `set`) keeps the entry exactly when it has been
/// idle for less than the timeout: untouched, it is still there before
/// `t0 + timeout` and gone from `t0 + timeout` on.
pub proof fn lemma_expiry<V>(m: Map<u64, (V, u64)>, timeout: u64, k: u64, v: V, t0: u64, t1: u64)
    requires
        timeout > 0,
        t0 <= t1,
    ensures
        ({
            let after_set = set_model(m, timeout, k, v, t0);
            &&& after_set.dom().contains(k)
            &&& after_set[k] == (v, t0)
            &&& t1 - t0 < timeout ==> sweep_model(after_set, timeout, t1).dom().contains(k)
                && sweep_model(after_set, timeout, t1)[k] == (v, t0)
            &&& t1 - t0 >= timeout ==> !sweep_model(after_set, timeout, t1).dom().contains(k)
        }),
{
}

/// Sliding-refresh law. A touch at `t1` (what a successful `get` does) moves
/// the entry's clock forward and never back, so after the touch the entry's
/// idle time at any later `t2` is at most the idle time measured from `t1`:
/// reads spaced less than the timeout apart keep the key alive through every
/// sweep. Once reads stop, a write of any other key at a time `timeout` or
/// more past the entry's last touch evicts it.
pub proof fn lemma_sliding_refresh<V>(
    m: Map<u64, (V, u64)>,
    timeout: u64,
    k: u64,
    t1: u64,
    t2: u64,
    k2: u64,
    v2: V,
)
    requires
        m.dom().contains(k),
    ensures
        ({
            let touched = touch_model(m, k, t1);
            &&& touched.dom().contains(k)
            &&& touched[k].0 == m[k].0
            &&& touched[k].1 >= m[k].1
            &&& touched[k].1 >= t1
            &&& age(t2, touched[k].1) <= age(t2, t1)
            &&& age(t2, t1) < timeout ==> sweep_model(touched, timeout, t2).dom().contains(k)
                && sweep_model(touched, timeout, t2)[k].0 == m[k].0
        }),
        k2 != k && age(t2, m[k].1) >= timeout ==> !set_model(
            m,
            timeout,
            k2,
            v2,
            t2,
        ).dom().contains(k),
{
}

/// A touch's clock: forward to `t`, never back.
pub open spec fn touched_clock(touch: u64, t: u64) -> u64 {
    if t >= touch {
        t
    } else {
        touch
    }
}

/// One read epoch for key `k` at time `t`: the touch that `get` performs,
/// followed by a sweep at the same time — the strongest eviction pressure a
/// read can be exposed to.
pub open spec fn read_step<V>(m: Map<u64, (V, u64)>, timeout: u64, k: u64, t: u64) -> Map<
    u64,
    (V, u64),
> {
    sweep_model(touch_model(m, k, t), timeout, t)
}

/// The mapping after reading `k` at each time in `reads`, in order, with a
/// sweep after every read.
pub open spec fn read_run<V>(m: Map<u64, (V, u64)>, timeout: u64, k: u64, reads: Seq<u64>) -> Map<
    u64,
    (V, u64),
>
    decreases reads.len(),
{
    if reads.len() == 0 {
        m
    } else {
        read_run(read_step(m, timeout, k, reads[0]), timeout, k, reads.skip(1))
    }
}

/// Every time in `reads` comes less than `timeout` after the entry's clock as
/// the preceding reads have left it, starting from `touch0`.
pub open spec fn reads_spaced_within(touch0: u64, reads: Seq<u64>, timeout: u64) -> bool
    decreases reads.len(),
{
    if reads.len() == 0 {
        true
    } else {
        age(reads[0], touch0) < timeout && reads_spaced_within(
            touched_clock(touch0, reads[0]),
            reads.skip(1),
            timeout,
        )
    }
}

/// Indefinite-retention law, the sliding-refresh law iterated. However many
/// reads of `k` there are, each spaced less than the timeout after the last,
/// the key stays retrievable with its value intact, even with a sweep run
/// after every single read.
pub proof fn lemma_repeated_reads_keep_alive<V>(
    m: Map<u64, (V, u64)>,
    timeout: u64,
    k: u64,
    reads: Seq<u64>,
)
    requires
        m.dom().contains(k),
        reads_spaced_within(m[k].1, reads, timeout),
    ensures
        read_run(m, timeout, k, reads).dom().contains(k),
        read_run(m, timeout, k, reads)[k].0 == m[k].0,
        read_run(m, timeout, k, reads)[k].1 >= m[k].1,
        reads.len() > 0 ==> read_run(m, timeout, k, reads)[k].1 >= reads.last(),
    decreases reads.len(),
{
    if reads.len() > 0 {
        let t = reads[0];
        let stepped = read_step(m, timeout, k, t);
        assert(age(t, t) == 0 && timeout > 0);
        assert(stepped.dom().contains(k));
        assert(stepped[k] == (m[k].0, touched_clock(m[k].1, t)));
        lemma_repeated_reads_keep_alive(stepped, timeout, k, reads.skip(1));
        if reads.len() > 1 {
            assert(reads.skip(1).last() == reads.last());
        }
    }
}

/// Touch-locality law. A touch — all a `get` does to the cache — is no
/// structural mutation: it creates and removes nothing, leaves every other
/// entry untouched, keeps the touched entry's value, and never moves its
/// clock backwards.
pub proof fn lemma_touch_preserves_entries<V>(m: Map<u64, (V, u64)>, k: u64, t: u64)
    ensures
        touch_model(m, k, t).dom() == m.dom(),
        forall|k2: u64|
            k2 != k && m.dom().contains(k2) ==> #[trigger] touch_model(m, k, t)[k2] == m[k2],
        m.dom().contains(k) ==> touch_model(m, k, t)[k].0 == m[k].0 && touch_model(m, k, t)[k].1
            >= m[k].1,
{
    assert(touch_model(m, k, t).dom() =~= m.dom());
}

/// Sweep-confinement law. Writing key `k2` removes exactly the other entries
/// whose own idle time has reached the timeout: every unrelated key that is
/// still fresh at the write's time survives unchanged, value and clock alike,
/// and every unrelated stale key goes.
pub proof fn lemma_sweep_confined_to_stale<V>(
    m: Map<u64, (V, u64)>,
    timeout: u64,
    k2: u64,
    v2: V,
    now: u64,
)
    ensures
        forall|k: u64|
            k != k2 ==> (#[trigger] set_model(m, timeout, k2, v2, now).dom().contains(k)
                <==> m.dom().contains(k) && fresh(timeout, now, m[k].1)),
        forall|k: u64|
            k != k2 && m.dom().contains(k) && fresh(timeout, now, m[k].1)
                ==> #[trigger] set_model(m, timeout, k2, v2, now)[k] == m[k],
{
}

/// Overwrite-resets-clock law. Writing `k` at `t1` and again at `t2` leaves
/// the entry holding the second value with its clock at `t2`: its age is
/// measured from the second write alone, so a sweep at `t3` keeps the entry
/// whenever `t3` is within the timeout of `t2`, no matter how long past `t1`.
pub proof fn lemma_overwrite_resets_clock<V>(
    m: Map<u64, (V, u64)>,
    timeout: u64,
    k: u64,
    v1: V,
    v2: V,
    t1: u64,
    t2: u64,
    t3: u64,
)
    ensures
        ({
            let twice = set_model(set_model(m, timeout, k, v1, t1), timeout, k, v2, t2);
            &&& twice.dom().contains(k)
            &&& twice[k] == (v2, t2)
            &&& age(t3, twice[k].1) == age(t3, t2)
            &&& fresh(timeout, t3, t2) ==> sweep_model(twice, timeout, t3).dom().contains(k)
                && sweep_model(twice, timeout, t3)[k] == (v2, t2)
        }),
{
}

/// No-negative-aging law. When the clock reads earlier than an entry's last
/// touch, the elapsed time saturates to zero instead of wrapping to a huge
/// positive amount, so a sweep at the regressed time keeps the entry, for any
/// positive timeout.
pub proof fn lemma_no_negative_aging<V>(m: Map<u64, (V, u64)>, timeout: u64, k: u64, now: u64)
    requires
        timeout > 0,
        m.dom().contains(k),
        now < m[k].1,
    ensures
        age(now, m[k].1) == 0,
        sweep_model(m, timeout, now).dom().contains(k),
        sweep_model(m, timeout, now)[k] == m[k],
{
}

/// Post-write freshness law. Immediately after a write at time `now`, every
/// entry of the cache is fresh at `now`: the sweep inside the write removed
/// everything that had been idle for the timeout or longer, and the new
/// entry's clock stands at `now` itself.
pub proof fn lemma_fresh_after_set<V>(
    m: Map<u64, (V, u64)>,
    timeout: u64,
    k: u64,
    v: V,
    now: u64,
)
    requires
        timeout > 0,
    ensures
        forall|k2: u64|
            #[trigger] set_model(m, timeout, k, v, now).dom().contains(k2) ==> fresh(
                timeout,
                now,
                set_model(m, timeout, k, v, now)[k2].1,
            ),
{
}

} // verus!
