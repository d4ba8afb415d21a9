use focus_internals::ttl_cache::TtlCache;

fn key(s: &str) -> String {
    s.to_string()
}

#[test]
fn empty_cache_has_nothing() {
    let mut cache: TtlCache<String, String> = TtlCache::new(Some(10), 0);
    assert_eq!(cache.get(&key("a"), 0), None);
}

#[test]
fn value_is_read_back_until_it_expires() {
    let mut cache: TtlCache<String, String> = TtlCache::new(Some(10), 0);
    assert_eq!(cache.insert(key("a"), key("one"), 5), None);
    assert_eq!(cache.get(&key("a"), 5), Some(key("one")));
    assert_eq!(cache.get(&key("a"), 14), Some(key("one")));
    // The entry expires at 15: a read at that instant no longer sees it.
    assert_eq!(cache.get(&key("a"), 15), None);
    // The expired entry was evicted, so nothing comes back later either.
    assert_eq!(cache.get(&key("a"), 0), None);
}

#[test]
fn entries_without_ttl_never_expire() {
    let mut cache: TtlCache<String, String> = TtlCache::new(None, 0);
    cache.insert(key("a"), key("one"), 3);
    assert_eq!(cache.get(&key("a"), u64::MAX), Some(key("one")));
}

#[test]
fn insert_gives_back_the_previous_value_and_expiry() {
    let mut cache: TtlCache<String, String> = TtlCache::new(Some(100), 0);
    cache.insert(key("a"), key("one"), 10);
    assert_eq!(cache.insert(key("a"), key("two"), 20), Some((key("one"), 110)));
    assert_eq!(cache.get(&key("a"), 50), Some(key("two")));
}

#[test]
fn scavenge_drops_expired_entries() {
    let mut cache: TtlCache<String, String> = TtlCache::new(Some(10), 0);
    cache.insert(key("a"), key("one"), 0);
    // At 20 the last scavenge lies 20 back, not less than the ttl: the entry
    // of "a", which expired at 10, is dropped before the insert, which then
    // finds nothing under "a".
    assert_eq!(cache.insert(key("a"), key("two"), 20), None);
    assert_eq!(cache.get(&key("a"), 25), Some(key("two")));
}

#[test]
fn scavenge_waits_a_full_ttl() {
    let mut cache: TtlCache<String, String> = TtlCache::new(Some(10), 0);
    cache.insert(key("a"), key("one"), 0);
    // Less than the ttl after the last scavenge: nothing is dropped, so the
    // expired entry is still there to be replaced.
    assert_eq!(cache.insert(key("a"), key("two"), 9), Some((key("one"), 10)));
}

#[test]
fn get_or_fault_reads_live_values() {
    let mut cache: TtlCache<String, String> = TtlCache::new(Some(10), 0);
    cache.insert(key("a"), key("one"), 0);
    let fault = |k: &String| -> Result<String, ()> { Ok(format!("made {}", k)) };
    assert_eq!(cache.get_or_fault(&key("a"), fault, 5), Some(key("one")));
}

#[test]
fn get_or_fault_fills_missing_values() {
    let mut cache: TtlCache<String, String> = TtlCache::new(Some(10), 0);
    let fault = |k: &String| -> Result<String, ()> { Ok(format!("made {}", k)) };
    assert_eq!(cache.get_or_fault(&key("b"), fault, 5), Some(key("made b")));
    assert_eq!(cache.get(&key("b"), 14), Some(key("made b")));
    assert_eq!(cache.get(&key("b"), 15), None);
}
