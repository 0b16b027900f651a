use misc::cache::Cache;

#[test]
fn scenario_timeout_two() {
    // timeout = 2; write key 1 -> 1 at t=0; read at t=1 returns 1; the write
    // of key 2 at t=3 sweeps key 1 out (idle since t=1); key 2 is readable.
    let mut c: Cache<u64> = Cache::new(2);
    c.set(1, 1, 0);
    assert_eq!(c.get(1, 1), Some(&1));
    c.set(2, 2, 3);
    assert_eq!(c.get(1, 3), None);
    assert_eq!(c.get(2, 3), Some(&2));
}

#[test]
fn expiry_before_and_after_timeout() {
    // Untouched entry: a sweep one second before the timeout keeps it.
    let mut c: Cache<&str> = Cache::new(5);
    c.set(7, "v", 10);
    c.shrink(14);
    assert_eq!(c.get(7, 14), Some(&"v"));

    // Untouched entry: a sweep one second past the timeout removes it.
    let mut d: Cache<&str> = Cache::new(5);
    d.set(7, "v", 10);
    d.shrink(16);
    assert_eq!(d.get(7, 16), None);

    // Exactly at the timeout the entry is already stale.
    let mut e: Cache<&str> = Cache::new(5);
    e.set(7, "v", 10);
    e.shrink(15);
    assert_eq!(e.get(7, 15), None);
}

#[test]
fn get_alone_never_evicts() {
    // Only sweeps evict: long past the timeout, a read still returns the
    // value (and refreshes its clock).
    let mut c: Cache<u64> = Cache::new(2);
    c.set(1, 10, 0);
    assert_eq!(c.get(1, 100), Some(&10));
    // The read at t=100 touched the entry, so a sweep at t=101 keeps it.
    c.shrink(101);
    assert_eq!(c.get(1, 101), Some(&10));
}

#[test]
fn sliding_refresh_keeps_hot_key() {
    // Reads spaced under the timeout keep the key alive across writes.
    let mut c: Cache<u64> = Cache::new(2);
    c.set(1, 10, 0);
    assert_eq!(c.get(1, 1), Some(&10));
    assert_eq!(c.get(1, 2), Some(&10));
    assert_eq!(c.get(1, 3), Some(&10));
    c.set(9, 90, 4); // sweep at t=4: key 1 touched at t=3, still fresh
    assert_eq!(c.get(1, 4), Some(&10));
    // Reads cease: the touch at t=4 is two full seconds old at t=6, so the
    // next write of an unrelated key evicts key 1.
    c.set(8, 80, 6);
    assert_eq!(c.get(1, 6), None);
    assert_eq!(c.get(8, 6), Some(&80));
}

#[test]
fn sweep_confined_to_stale_entries() {
    // Inserting key 2 does not disturb the still-fresh key 1.
    let mut c: Cache<u64> = Cache::new(10);
    c.set(1, 11, 0);
    c.set(2, 22, 5);
    assert_eq!(c.get(1, 5), Some(&11));
    assert_eq!(c.get(2, 5), Some(&22));
    // A much later write removes exactly the entries that went stale.
    c.set(3, 33, 20); // keys 1 and 2 were last touched at t=5: both stale
    assert_eq!(c.get(1, 20), None);
    assert_eq!(c.get(2, 20), None);
    assert_eq!(c.get(3, 20), Some(&33));
}

#[test]
fn overwrite_resets_clock() {
    // The second write replaces the entry wholesale: value and clock.
    let mut c: Cache<u64> = Cache::new(2);
    c.set(1, 1, 0);
    c.set(1, 2, 3); // first write already stale at t=3; entry reborn at t=3
    c.shrink(4); // age measured from t=3: one second, still fresh
    assert_eq!(c.get(1, 4), Some(&2));

    let mut d: Cache<u64> = Cache::new(2);
    d.set(1, 1, 0);
    d.set(1, 2, 1);
    d.shrink(2); // two seconds past the first write, one past the second
    assert_eq!(d.get(1, 2), Some(&2));
}

#[test]
fn no_negative_aging() {
    // A clock that regresses below the last touch ages the entry zero
    // seconds: no spurious eviction, and the touch never moves backwards.
    let mut c: Cache<u64> = Cache::new(2);
    c.set(1, 5, 100);
    c.shrink(0);
    assert_eq!(c.get(1, 0), Some(&5)); // touch stays at 100, not 0
    c.shrink(101); // one second past the original touch: still fresh
    assert_eq!(c.get(1, 101), Some(&5));
}

#[test]
fn repeated_reads_return_correct_value() {
    // Many reads of the same live key, no write in flight: every one returns
    // the same correct value.
    let mut c: Cache<String> = Cache::new(3);
    c.set(42, String::from("payload"), 0);
    let mut t: u64 = 0;
    for _ in 0..1000 {
        t += 1;
        assert_eq!(c.get(42, t), Some(&String::from("payload")));
    }
}

#[test]
fn empty_cache_and_absent_keys() {
    let mut c: Cache<u64> = Cache::new(1);
    assert_eq!(c.get(0, 0), None);
    c.shrink(0);
    assert_eq!(c.get(u64::MAX, u64::MAX), None);
    c.set(u64::MAX, 1, u64::MAX);
    assert_eq!(c.get(u64::MAX, u64::MAX), Some(&1));
}

#[test]
fn zero_timeout_evicts_everything_on_write() {
    // With timeout zero nothing is ever fresh: each write sweeps all.
    let mut c: Cache<u64> = Cache::new(0);
    c.set(1, 1, 0);
    c.set(2, 2, 0);
    assert_eq!(c.get(1, 0), None);
    assert_eq!(c.get(2, 0), Some(&2));
}
