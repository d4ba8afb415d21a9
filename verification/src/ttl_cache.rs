//! A cache whose entries expire a fixed time after they were inserted.
//! Instants are counts of nanoseconds from a fixed origin, given by the
//! caller.

use vstd::prelude::*;
use crate::assoc::{distinct_keys, lemma_table_entry, lemma_table_push, lemma_table_remove, lemma_table_update, table};
use crate::valueset::SameValue;

verus! {

/// The entries of a cache as views: each key with its value and expiry.
pub open spec fn triples<K: View, V: View>(e: Seq<(K, V, u64)>) -> Seq<(K::V, (V::V, u64))> {
    e.map_values(|x: (K, V, u64)| (x.0@, (x.1@, x.2)))
}

/// Entry `a` of `tk` is entry `src[a]` of `tb`, which lies before `i` and
/// has not expired before `now`.
pub open spec fn kept_sound<KV, VV>(tb: Seq<(KV, (VV, u64))>, tk: Seq<(KV, (VV, u64))>, src: Seq<int>, i: int, now: u64) -> bool {
    &&& src.len() == tk.len()
    &&& forall|a: int|
        #![trigger src[a]]
        0 <= a < tk.len() ==> 0 <= src[a] < i && tb[src[a]].1.1 >= now && tk[a] == tb[src[a]]
}

/// Every entry of `tb` before `i` that has not expired before `now` is in
/// `tk`.
#[verifier::opaque]
pub open spec fn kept_complete<KV, VV>(tb: Seq<(KV, (VV, u64))>, tk: Seq<(KV, (VV, u64))>, i: int, now: u64) -> bool {
    forall|j: int|
        #![trigger tb[j]]
        0 <= j < i && tb[j].1.1 >= now ==> exists|a: int| #![trigger tk[a]] 0 <= a < tk.len() && tk[a] == tb[j]
}

/// `tk` holds, each once, the entries of `tb` before `i` that have not
/// expired before `now`.
pub open spec fn kept_prefix<KV, VV>(tb: Seq<(KV, (VV, u64))>, tk: Seq<(KV, (VV, u64))>, i: int, now: u64) -> bool {
    &&& distinct_keys(tk)
    &&& exists|src: Seq<int>| kept_sound(tb, tk, src, i, now)
    &&& kept_complete(tb, tk, i, now)
}

/// `tk` holds, each once, the entries of `tb` that have not expired
/// before `now`.
pub open spec fn kept_from<KV, VV>(tb: Seq<(KV, (VV, u64))>, tk: Seq<(KV, (VV, u64))>, now: u64) -> bool {
    kept_prefix(tb, tk, tb.len() as int, now)
}

proof fn lemma_sound_step<KV, VV>(tb: Seq<(KV, (VV, u64))>, tk: Seq<(KV, (VV, u64))>, src: Seq<int>, i: int, now: u64)
    requires
        0 <= i < tb.len(),
        tb[i].1.1 >= now,
        kept_sound(tb, tk, src, i, now),
    ensures
        kept_sound(tb, tk.push(tb[i]), src.push(i), i + 1, now),
{
    let r = tk.push(tb[i]);
    let s2 = src.push(i);
    assert forall|a: int| #![trigger s2[a]] 0 <= a < r.len() implies 0 <= s2[a] < i + 1 && tb[s2[a]].1.1
        >= now && r[a] == tb[s2[a]] by {
        if a < tk.len() {
            assert(s2[a] == src[a]);
            assert(r[a] == tk[a]);
        }
    }
}

proof fn lemma_sound_widen<KV, VV>(tb: Seq<(KV, (VV, u64))>, tk: Seq<(KV, (VV, u64))>, src: Seq<int>, i: int, now: u64)
    requires
        kept_sound(tb, tk, src, i, now),
    ensures
        kept_sound(tb, tk, src, i + 1, now),
{
    assert forall|a: int| #![trigger src[a]] 0 <= a < tk.len() implies 0 <= src[a] < i + 1 && tb[src[a]].1.1
        >= now && tk[a] == tb[src[a]] by {}
}

proof fn lemma_complete_step<KV, VV>(tb: Seq<(KV, (VV, u64))>, tk: Seq<(KV, (VV, u64))>, i: int, now: u64, keep: bool)
    requires
        0 <= i < tb.len(),
        keep == (tb[i].1.1 >= now),
        kept_complete(tb, tk, i, now),
    ensures
        kept_complete(tb, if keep { tk.push(tb[i]) } else { tk }, i + 1, now),
{
    reveal(kept_complete);
    let r = if keep { tk.push(tb[i]) } else { tk };
    assert forall|j: int| #![trigger tb[j]] 0 <= j < i + 1 && tb[j].1.1 >= now implies exists|a: int|
        #![trigger r[a]] 0 <= a < r.len() && r[a] == tb[j] by {
        if j < i {
            let a = choose|a: int| #![trigger tk[a]] 0 <= a < tk.len() && tk[a] == tb[j];
            assert(r[a] == tk[a]);
        } else {
            assert(r[tk.len() as int] == tb[j]);
        }
    }
}

proof fn lemma_distinct_step<KV, VV>(tb: Seq<(KV, (VV, u64))>, tk: Seq<(KV, (VV, u64))>, src: Seq<int>, i: int, now: u64)
    requires
        distinct_keys(tb),
        0 <= i < tb.len(),
        distinct_keys(tk),
        kept_sound(tb, tk, src, i, now),
    ensures
        distinct_keys(tk.push(tb[i])),
{
    let r = tk.push(tb[i]);
    let n = tk.len() as int;
    assert forall|a: int, b: int| 0 <= a < r.len() && 0 <= b < r.len() && a != b implies #[trigger] r[a].0
        != #[trigger] r[b].0 by {
        if a < n && b < n {
            assert(tk[a].0 != tk[b].0);
        } else if a < n {
            assert(tb[src[a]].0 != tb[i].0);
        } else {
            assert(tb[src[b]].0 != tb[i].0);
        }
    }
}

proof fn lemma_kept_entry<KV, VV>(tb: Seq<(KV, (VV, u64))>, tk: Seq<(KV, (VV, u64))>, now: u64, a: int)
    requires
        distinct_keys(tb),
        kept_from(tb, tk, now),
        0 <= a < tk.len(),
    ensures
        table(tb).contains_key(tk[a].0),
        table(tb)[tk[a].0] == tk[a].1,
        tk[a].1.1 >= now,
        table(tk).contains_key(tk[a].0),
        table(tk)[tk[a].0] == tk[a].1,
{
    let src = choose|src: Seq<int>| kept_sound(tb, tk, src, tb.len() as int, now);
    let j = src[a];
    assert(tk[a] == tb[j]);
    lemma_table_entry(tb, j);
    lemma_table_entry(tk, a);
}

proof fn lemma_kept_table<KV, VV>(tb: Seq<(KV, (VV, u64))>, tk: Seq<(KV, (VV, u64))>, now: u64)
    requires
        distinct_keys(tb),
        kept_from(tb, tk, now),
    ensures
        table(tk) == table(tb).restrict(
            Set::new(|k: KV| table(tb).contains_key(k) && table(tb)[k].1 >= now),
        ),
{
    reveal(kept_complete);
    let target = table(tb).restrict(
        Set::new(|k: KV| table(tb).contains_key(k) && table(tb)[k].1 >= now),
    );
    assert forall|k: KV| #[trigger] table(tk).contains_key(k) implies target.contains_key(k) && table(
        tk,
    )[k] == target[k] by {
        let a = choose|a: int| 0 <= a < tk.len() && #[trigger] tk[a].0 == k;
        lemma_kept_entry(tb, tk, now, a);
    }
    assert forall|k: KV| #[trigger] target.contains_key(k) implies table(tk).contains_key(k) by {
        let j = choose|j: int| 0 <= j < tb.len() && #[trigger] tb[j].0 == k;
        lemma_table_entry(tb, j);
        assert(tb[j].1.1 >= now);
        let a = choose|a: int| #![trigger tk[a]] 0 <= a < tk.len() && tk[a] == tb[j];
        assert(tk[a].0 == k);
    }
    assert(table(tk) =~= target);
}

/// The mathematical value of a cache.
#[verifier::reject_recursive_types(KV)]
pub struct TtlCacheView<KV, VV> {
    pub entries: Map<KV, (VV, u64)>,
    pub ttl: Option<u64>,
    pub last_scavenge: u64,
}

/// A cache of values by key, each entry expiring `ttl` after it was
/// inserted (never, where there is no `ttl`).
pub struct TtlCache<K, V> {
    entries: Vec<(K, V, u64)>,
    ttl: Option<u64>,
    last_scavenge: u64,
}

impl<K: View, V: View> View for TtlCache<K, V> {
    type V = TtlCacheView<K::V, V::V>;

    closed spec fn view(&self) -> TtlCacheView<K::V, V::V> {
        TtlCacheView {
            entries: table(triples(self.entries@)),
            ttl: self.ttl,
            last_scavenge: self.last_scavenge,
        }
    }
}

/// Whether an entry of expiry `expiry` is still live at `now`.
pub open spec fn is_live(ttl: Option<u64>, expiry: u64, now: u64) -> bool {
    ttl is None || expiry > now
}

/// The expiry of an entry inserted at `now`.
pub open spec fn expiry_at(ttl: Option<u64>, now: u64) -> int {
    now + match ttl {
        Some(t) => t,
        None => 0,
    }
}

/// The cache after a scavenge at `now`: where there is a `ttl`, and the
/// last scavenge is not less than `ttl` before `now`, and some entry
/// expired before `now`, the expired entries are dropped and `now` becomes
/// the time of the last scavenge.
pub open spec fn scavenged<KV, VV>(c: TtlCacheView<KV, VV>, now: u64) -> TtlCacheView<KV, VV> {
    match c.ttl {
        None => c,
        Some(ttl) => if now >= c.last_scavenge && now - c.last_scavenge < ttl {
            c
        } else if forall|k: KV| #[trigger] c.entries.contains_key(k) ==> c.entries[k].1 >= now {
            c
        } else {
            TtlCacheView {
                entries: c.entries.restrict(
                    Set::new(|k: KV| c.entries.contains_key(k) && c.entries[k].1 >= now),
                ),
                ttl: c.ttl,
                last_scavenge: now,
            }
        },
    }
}

/// The cache with no entry under `key`.
pub open spec fn without<KV, VV>(c: TtlCacheView<KV, VV>, key: KV) -> TtlCacheView<KV, VV> {
    TtlCacheView { entries: c.entries.remove(key), ttl: c.ttl, last_scavenge: c.last_scavenge }
}

/// The cache after `value` was inserted under `key` at `now`.
pub open spec fn inserted<KV, VV>(c: TtlCacheView<KV, VV>, key: KV, value: VV, now: u64) -> TtlCacheView<
    KV,
    VV,
> {
    let s = scavenged(c, now);
    TtlCacheView {
        entries: s.entries.insert(key, (value, expiry_at(c.ttl, now) as u64)),
        ttl: s.ttl,
        last_scavenge: s.last_scavenge,
    }
}

impl<K: SameValue, V: SameValue> TtlCache<K, V> {
    /// No key occurs twice.
    pub closed spec fn wf(&self) -> bool {
        distinct_keys(triples(self.entries@))
    }

    /// An empty cache, created at `now`.
    pub fn new(ttl: Option<u64>, now: u64) -> (res: Self)
        ensures
            res.wf(),
            res@.entries == Map::<K::V, (V::V, u64)>::empty(),
            res@.ttl == ttl,
            res@.last_scavenge == now,
    {
        let res = TtlCache { entries: Vec::new(), ttl, last_scavenge: now };
        assert(res@.entries =~= Map::<K::V, (V::V, u64)>::empty());
        res
    }

    fn position(&self, key: &K) -> (res: Option<usize>)
        requires
            self.wf(),
        ensures
            match res {
                Some(i) => i < self.entries@.len() && self.entries@[i as int].0@ == key@,
                None => !self@.entries.contains_key(key@),
            },
    {
        let ghost t = triples(self.entries@);
        let mut i: usize = 0;
        while i < self.entries.len()
            invariant
                i <= self.entries@.len(),
                t == triples(self.entries@),
                forall|j: int| 0 <= j < i ==> #[trigger] t[j].0 != key@,
            decreases self.entries@.len() - i,
        {
            if self.entries[i].0.same_as(key) {
                return Some(i);
            }
            i = i + 1;
        }
        None
    }

    /// The live value under `key`; an expired entry is evicted.
    pub fn get(&mut self, key: &K, now: u64) -> (res: Option<V>)
        requires
            old(self).wf(),
        ensures
            final(self).wf(),
            final(self)@.ttl == old(self)@.ttl,
            final(self)@.last_scavenge == old(self)@.last_scavenge,
            match old(self)@.entries.get(key@) {
                Some((v, expiry)) => if is_live(old(self)@.ttl, expiry, now) {
                    res matches Some(r) && r@ == v && final(self)@.entries == old(self)@.entries
                } else {
                    res is None && final(self)@.entries == old(self)@.entries.remove(key@)
                },
                None => res is None && final(self)@.entries == old(self)@.entries,
            },
    {
        match self.position(key) {
            Some(i) => {
                proof {
                    lemma_table_entry(triples(self.entries@), i as int);
                }
                let expiry = self.entries[i].2;
                let live = match self.ttl {
                    None => true,
                    Some(_) => expiry > now,
                };
                if live {
                    Some(self.entries[i].1.duplicate())
                } else {
                    let ghost before = self.entries@;
                    proof {
                        lemma_table_remove(triples(before), i as int);
                    }
                    self.entries.remove(i);
                    proof {
                        assert(triples(self.entries@) =~= triples(before).remove(i as int));
                    }
                    None
                }
            },
            None => None,
        }
    }

    /// Copies of the entries that have not expired before `now`, and
    /// whether any has.
    fn unexpired(&self, now: u64) -> (res: (Vec<(K, V, u64)>, bool))
        requires
            self.wf(),
        ensures
            kept_from(triples(self.entries@), triples(res.0@), now),
            res.1 == exists|j: int| 0 <= j < self.entries@.len() && !(#[trigger] triples(self.entries@)[j].1.1 >= now),
    {
        let ghost tb = triples(self.entries@);
        let mut kept: Vec<(K, V, u64)> = Vec::new();
        let ghost mut src: Seq<int> = Seq::empty();
        let mut expired = false;
        let mut i: usize = 0;
        proof {
            reveal(kept_complete);
            assert(triples(kept@) =~= Seq::<(K::V, (V::V, u64))>::empty());
        }
        while i < self.entries.len()
            invariant
                tb == triples(self.entries@),
                distinct_keys(tb),
                i <= tb.len(),
                expired == exists|j: int| 0 <= j < i && !(#[trigger] tb[j].1.1 >= now),
                distinct_keys(triples(kept@)),
                kept_sound(tb, triples(kept@), src, i as int, now),
                kept_complete(tb, triples(kept@), i as int, now),
            decreases tb.len() - i,
        {
            let expiry = self.entries[i].2;
            let ghost prev = triples(kept@);
            proof {
                lemma_complete_step(tb, prev, i as int, now, expiry >= now);
            }
            if expiry >= now {
                proof {
                    lemma_distinct_step(tb, prev, src, i as int, now);
                    lemma_sound_step(tb, prev, src, i as int, now);
                    src = src.push(i as int);
                }
                let k = self.entries[i].0.duplicate();
                let v = self.entries[i].1.duplicate();
                kept.push((k, v, expiry));
                proof {
                    assert(triples(kept@) =~= prev.push(tb[i as int]));
                }
            } else {
                expired = true;
                proof {
                    lemma_sound_widen(tb, prev, src, i as int, now);
                }
            }
            proof {
                if !expired {
                    assert forall|j: int| 0 <= j < i + 1 implies #[trigger] tb[j].1.1 >= now by {}
                }
            }
            i = i + 1;
        }
        (kept, expired)
    }

    /// Drops the expired entries, as `scavenged` states.
    fn scavenge(&mut self, now: u64)
        requires
            old(self).wf(),
        ensures
            final(self).wf(),
            final(self)@ == scavenged(old(self)@, now),
    {
        let ttl = match self.ttl {
            None => {
                return;
            },
            Some(t) => t,
        };
        if now >= self.last_scavenge && now - self.last_scavenge < ttl {
            return;
        }
        let ghost tb = triples(self.entries@);
        let (kept, expired) = self.unexpired(now);
        proof {
            lemma_kept_table(tb, triples(kept@), now);
        }
        if !expired {
            proof {
                assert forall|k: K::V| #[trigger] table(tb).contains_key(k) implies table(tb)[k].1
                    >= now by {
                    let j = choose|j: int| 0 <= j < tb.len() && #[trigger] tb[j].0 == k;
                    lemma_table_entry(tb, j);
                }
            }
            return;
        }
        proof {
            let j = choose|j: int| 0 <= j < tb.len() && !(#[trigger] tb[j].1.1 >= now);
            lemma_table_entry(tb, j);
        }
        self.entries = kept;
        self.last_scavenge = now;
    }

    /// Scavenges at `now`, then puts `value` under `key` to expire `ttl`
    /// after `now`, giving back the value and expiry that were there.
    pub fn insert(&mut self, key: K, value: V, now: u64) -> (res: Option<(V, u64)>)
        requires
            old(self).wf(),
            expiry_at(old(self)@.ttl, now) <= u64::MAX,
        ensures
            final(self).wf(),
            final(self)@ == inserted(old(self)@, key@, value@, now),
            match scavenged(old(self)@, now).entries.get(key@) {
                Some((v, e)) => res matches Some((r, re)) && r@ == v && re == e,
                None => res is None,
            },
    {
        let expiry = match self.ttl {
            Some(t) => now + t,
            None => now,
        };
        self.scavenge(now);
        let ghost before = self.entries@;
        let ghost x = (key@, (value@, expiry));
        match self.position(&key) {
            Some(i) => {
                proof {
                    lemma_table_entry(triples(before), i as int);
                    lemma_table_update(triples(before), i as int, x);
                }
                let previous = self.entries.remove(i);
                self.entries.insert(i, (key, value, expiry));
                proof {
                    assert(triples(self.entries@) =~= triples(before).update(i as int, x));
                }
                Some((previous.1, previous.2))
            },
            None => {
                self.entries.push((key, value, expiry));
                proof {
                    lemma_table_push(triples(before), x);
                    assert(triples(self.entries@) =~= triples(before).push(x));
                }
                None
            },
        }
    }

    /// The live value under `key`, or else the value that `fault` gives for
    /// it, which is then inserted at `now` (after an expired entry under
    /// `key` was evicted).
    pub fn get_or_fault<F, E>(&mut self, key: &K, fault: F, now: u64) -> (res: Option<V>)
        where
            F: Fn(&K) -> Result<V, E>,
        requires
            old(self).wf(),
            expiry_at(old(self)@.ttl, now) <= u64::MAX,
            call_requires(fault, (key,)),
            forall|r: Result<V, E>| call_ensures(fault, (key,), r) ==> r is Ok,
        ensures
            final(self).wf(),
            match old(self)@.entries.get(key@) {
                Some((v, expiry)) if is_live(old(self)@.ttl, expiry, now) => res matches Some(r)
                    && r@ == v && final(self)@ == old(self)@,
                _ => res matches Some(r) && exists|f: V|
                    #![trigger f@]
                    call_ensures(fault, (key,), Ok::<V, E>(f)) && r@ == f@ && final(self)@
                        == inserted(without(old(self)@, key@), key@, f@, now),
            },
    {
        let ghost start = self@;
        match self.get(key, now) {
            Some(result) => {
                proof {
                    assert(self@ == start);
                }
                Some(result)
            },
            None => {
                let ghost evicted = self@;
                proof {
                    assert(evicted.entries =~= start.entries.remove(key@));
                }
                let faulted = fault(key);
                match faulted {
                    Ok(value) => {
                        let copy = value.duplicate();
                        let k = key.duplicate();
                        let ghost fv = value@;
                        self.insert(k, value, now);
                        proof {
                            assert(copy@ == fv);
                        }
                        Some(copy)
                    },
                    Err(_) => {
                        proof {
                            assert(false);
                        }
                        None
                    },
                }
            },
        }
    }
}


/// A value inserted at `now` is found under its key, with the value it was
/// given, by a read at any instant before it expires (at any instant at
/// all where there is no `ttl`).
pub proof fn lemma_insert_then_get<KV, VV>(c: TtlCacheView<KV, VV>, key: KV, value: VV, now: u64, later: u64)
    requires
        expiry_at(c.ttl, now) <= u64::MAX,
        c.ttl is None || later < expiry_at(c.ttl, now),
    ensures
        inserted(c, key, value, now).entries.get(key) == Some((value, expiry_at(c.ttl, now) as u64)),
        inserted(c, key, value, now).ttl == c.ttl,
        is_live(c.ttl, expiry_at(c.ttl, now) as u64, later),
{
}

/// A scavenge drops no entry that a read at the same instant would give
/// back, and changes none that it keeps.
pub proof fn lemma_scavenge_keeps_live<KV, VV>(c: TtlCacheView<KV, VV>, now: u64, key: KV)
    requires
        c.entries.contains_key(key),
        is_live(c.ttl, c.entries[key].1, now),
    ensures
        scavenged(c, now).entries.get(key) == c.entries.get(key),
        scavenged(c, now).ttl == c.ttl,
{
}

} // verus!
