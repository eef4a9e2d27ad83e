//! The thumbnail cache: a bounded key→blob store. An insert replaces any
//! entry with the same key and records the blob size and the given access
//! stamp; while the stored sizes exceed the bound, the entry with the
//! oldest access stamp is dropped, earliest stored winning ties. A
//! disabled cache misses on every read and discards every write.

use vstd::prelude::*;

use crate::text;

verus! {

pub struct CacheEntry {
    pub key: Vec<u8>,
    pub value: Vec<u8>,
    pub last_access: i64,
}

#[verifier::ext_equal]
pub struct CacheEntryV {
    pub key: Seq<u8>,
    pub value: Seq<u8>,
    pub last_access: i64,
}

impl View for CacheEntry {
    type V = CacheEntryV;

    open spec fn view(&self) -> CacheEntryV {
        CacheEntryV { key: self.key@, value: self.value@, last_access: self.last_access }
    }
}

impl DeepView for CacheEntry {
    type V = CacheEntryV;

    open spec fn deep_view(&self) -> CacheEntryV {
        self.view()
    }
}

/// The bytes the cache holds.
pub open spec fn sum_sizes(s: Seq<CacheEntryV>) -> int
    decreases s.len(),
{
    if s.len() == 0 {
        0int
    } else {
        sum_sizes(s.drop_last()) + s.last().value.len()
    }
}

/// The position of the entry evicted next: the oldest access stamp, the
/// earliest stored entry winning ties.
pub open spec fn oldest_idx(s: Seq<CacheEntryV>, n: int) -> int
    decreases n,
{
    if n <= 1 {
        0
    } else {
        let b = oldest_idx(s, n - 1);
        if s[n - 1].last_access < s[b].last_access {
            n - 1
        } else {
            b
        }
    }
}

pub proof fn lemma_oldest_bounds(s: Seq<CacheEntryV>, n: int)
    requires
        1 <= n,
    ensures
        0 <= oldest_idx(s, n) < n,
    decreases n,
{
    if n > 1 {
        lemma_oldest_bounds(s, n - 1);
    }
}

/// Evicting until the contents fit under the bound.
pub open spec fn evict_spec(s: Seq<CacheEntryV>, max: int) -> Seq<CacheEntryV>
    decreases s.len(),
{
    if sum_sizes(s) <= max {
        s
    } else if s.len() == 0 {
        s
    } else {
        let i = oldest_idx(s, s.len() as int);
        if 0 <= i < s.len() {
            evict_spec(s.remove(i), max)
        } else {
            s
        }
    }
}

/// Whatever the bound, eviction ends under it.
pub proof fn lemma_evict_sum(s: Seq<CacheEntryV>, max: int)
    requires
        max >= 0,
    ensures
        sum_sizes(evict_spec(s, max)) <= max,
    decreases s.len(),
{
    if sum_sizes(s) <= max {
    } else if s.len() == 0 {
        assert(sum_sizes(s) == 0);
    } else {
        lemma_oldest_bounds(s, s.len() as int);
        let i = oldest_idx(s, s.len() as int);
        assert(0 <= i < s.len());
        lemma_evict_sum(s.remove(i), max);
    }
}

pub open spec fn cache_has_key(s: Seq<CacheEntryV>, key: Seq<u8>) -> bool {
    exists|i: int| 0 <= i < s.len() && s[i].key == key
}

pub open spec fn cache_key_idx(s: Seq<CacheEntryV>, key: Seq<u8>) -> int {
    choose|i: int| 0 <= i < s.len() && s[i].key == key
}

/// The entries after an insert-or-replace of one key.
pub open spec fn upsert_spec(s: Seq<CacheEntryV>, e: CacheEntryV) -> Seq<CacheEntryV> {
    if cache_has_key(s, e.key) {
        s.update(cache_key_idx(s, e.key), e)
    } else {
        s.push(e)
    }
}

pub open spec fn cache_keys_unique(s: Seq<CacheEntryV>) -> bool {
    forall|i: int, j: int| 0 <= i < j < s.len() ==> s[i].key != s[j].key
}

/// A handle-factory for the blob cache, as the server wires it: one
/// configured bound shared by every handle, or a disabled cache.
pub struct CacheSource {
    enabled: bool,
    max_size: u64,
}

impl CacheSource {
    /// A source whose handles cap their contents at `max_size` bytes, or
    /// discard everything when disabled.
    pub fn create(enabled: bool, max_size: u64) -> (r: CacheSource)
        ensures
            r.spec_enabled() == enabled,
            r.spec_max_size() == max_size,
    {
        CacheSource { enabled, max_size }
    }

    pub closed spec fn spec_enabled(&self) -> bool {
        self.enabled
    }

    pub closed spec fn spec_max_size(&self) -> u64 {
        self.max_size
    }

    /// A fresh, empty cache handle.
    pub fn get(&self) -> (r: Cache)
        ensures
            r.spec_enabled() == self.spec_enabled(),
            r.spec_max_size() == self.spec_max_size(),
            r@ =~= Seq::<CacheEntryV>::empty(),
            r.wf(),
    {
        Cache { enabled: self.enabled, max_size: self.max_size, entries: Vec::new() }
    }
}

/// The blob store itself.
pub struct Cache {
    enabled: bool,
    max_size: u64,
    entries: Vec<CacheEntry>,
}

impl View for Cache {
    type V = Seq<CacheEntryV>;

    closed spec fn view(&self) -> Seq<CacheEntryV> {
        self.entries.deep_view()
    }
}

impl Cache {
    pub closed spec fn spec_enabled(&self) -> bool {
        self.enabled
    }

    pub closed spec fn spec_max_size(&self) -> u64 {
        self.max_size
    }

    /// Unique keys, and contents within the bound.
    pub open spec fn wf(&self) -> bool {
        cache_keys_unique(self@) && sum_sizes(self@) <= self.spec_max_size()
    }

    /// Reads a blob and touches its access stamp. A disabled cache always
    /// misses.
    pub fn get_blob(&mut self, key: &[u8], now: i64) -> (r: Option<Vec<u8>>)
        requires
            old(self).wf(),
        ensures
            final(self).wf(),
            final(self).spec_enabled() == old(self).spec_enabled(),
            final(self).spec_max_size() == old(self).spec_max_size(),
            !old(self).spec_enabled() ==> r is None && final(self)@ == old(self)@,
            old(self).spec_enabled() && !cache_has_key(old(self)@, key@) ==> r is None
                && final(self)@ == old(self)@,
            old(self).spec_enabled() && cache_has_key(old(self)@, key@) ==> r is Some && r->0@
                == old(self)@[cache_key_idx(old(self)@, key@)].value && final(self)@
                == old(self)@.update(
                cache_key_idx(old(self)@, key@),
                (CacheEntryV { last_access: now, ..old(self)@[cache_key_idx(old(self)@, key@)] }),
            ),
    {
        if !self.enabled {
            return None;
        }
        let ghost s0 = self@;
        let mut i: usize = 0;
        while i < self.entries.len()
            invariant
                self@ == s0,
                s0 == old(self)@,
                old(self).wf(),
                old(self).spec_enabled(),
                self.enabled == old(self).spec_enabled(),
                self.max_size == old(self).spec_max_size(),
                i <= self.entries.len(),
                forall|k: int| 0 <= k < i ==> s0[k].key != key@,
            decreases self.entries.len() - i,
        {
            proof {
                assert(self.entries@[i as int]@ == s0[i as int]);
            }
            if text::bytes_eq(&self.entries[i].key, key) {
                let value = text::clone_bytes(&self.entries[i].value);
                let mut e = CacheEntry {
                    key: text::clone_bytes(&self.entries[i].key),
                    value: text::clone_bytes(&self.entries[i].value),
                    last_access: now,
                };
                let ghost ev = e@;
                self.entries.set(i, e);
                proof {
                    assert(cache_has_key(s0, key@));
                    let j = cache_key_idx(s0, key@);
                    if j != i as int {
                        assert(s0[j].key == key@);
                        assert(false);
                    }
                    assert(self@ =~= s0.update(i as int, ev));
                    assert(ev =~= (CacheEntryV { last_access: now, ..s0[i as int] }));
                    assert(final(self).wf()) by {
                        lemma_sum_update_same_size(s0, i as int, ev);
                        assert(cache_keys_unique(self@)) by {
                            assert(forall|a: int|
                                0 <= a < self@.len() ==> #[trigger] self@[a].key == s0[a].key);
                        }
                    }
                }
                return Some(value);
            }
            i += 1;
        }
        None
    }

    /// Stores a blob under a key, replacing any previous entry, then
    /// drops the oldest-accessed entries until the contents fit again.
    pub fn set_blob(&mut self, key: &[u8], value: &[u8], now: i64)
        requires
            old(self).wf(),
        ensures
            final(self).wf(),
            final(self).spec_enabled() == old(self).spec_enabled(),
            final(self).spec_max_size() == old(self).spec_max_size(),
            !old(self).spec_enabled() ==> final(self)@ == old(self)@,
            old(self).spec_enabled() ==> final(self)@ == evict_spec(
                upsert_spec(
                    old(self)@,
                    (CacheEntryV { key: key@, value: value@, last_access: now }),
                ),
                old(self).spec_max_size() as int,
            ),
            sum_sizes(final(self)@) <= final(self).spec_max_size(),
    {
        if !self.enabled {
            return ;
        }
        let ghost s0 = self@;
        let e = CacheEntry {
            key: text::clone_bytes(key),
            value: text::clone_bytes(value),
            last_access: now,
        };
        let ghost ev = e@;
        let mut replaced = false;
        let mut i: usize = 0;
        while i < self.entries.len()
            invariant
                !replaced ==> self@ == s0 && (forall|k: int| 0 <= k < i ==> s0[k].key != key@),
                replaced ==> self@ == upsert_spec(s0, ev),
                s0 == old(self)@,
                old(self).wf(),
                self.enabled == old(self).spec_enabled(),
                self.max_size == old(self).spec_max_size(),
                i <= self.entries.len(),
                self@.len() == s0.len(),
                ev == (CacheEntryV { key: key@, value: value@, last_access: now }),
                cache_keys_unique(self@),
            decreases self.entries.len() - i,
        {
            proof {
                assert(self.entries@[i as int]@ == self@[i as int]);
            }
            if !replaced && text::bytes_eq(&self.entries[i].key, key) {
                let e2 = CacheEntry {
                    key: text::clone_bytes(key),
                    value: text::clone_bytes(value),
                    last_access: now,
                };
                self.entries.set(i, e2);
                replaced = true;
                proof {
                    assert(cache_has_key(s0, key@));
                    let j = cache_key_idx(s0, key@);
                    if j != i as int {
                        assert(s0[j].key == key@);
                        assert(false);
                    }
                    assert(self@ =~= s0.update(i as int, ev));
                    assert(cache_keys_unique(self@)) by {
                        assert(forall|a: int|
                            0 <= a < self@.len() ==> #[trigger] self@[a].key == s0[a].key);
                    }
                }
                i += 1;
            } else {
                i += 1;
            }
        }
        if !replaced {
            proof {
                assert(self@.len() == self.entries@.len());
                assert(s0.len() <= i as int);
                assert(forall|k: int| 0 <= k < s0.len() ==> s0[k].key != key@);
            }
            self.entries.push(e);
            proof {
                assert(!cache_has_key(s0, key@)) by {
                    if cache_has_key(s0, key@) {
                        let j = cache_key_idx(s0, key@);
                        assert(s0[j].key == key@);
                        assert(false);
                    }
                }
                assert(self@ =~= s0.push(ev));
                assert(self@ == upsert_spec(s0, ev));
                assert(cache_keys_unique(self@)) by {
                    assert(forall|a: int| 0 <= a < s0.len() ==> #[trigger] self@[a] == s0[a]);
                    assert(self@[s0.len() as int] == ev);
                }
            }
        }
        let ghost s1 = self@;
        // evict until the contents fit
        loop
            invariant_except_break
                cache_keys_unique(self@),
                evict_spec(self@, self.max_size as int) == evict_spec(s1, self.max_size as int),
                self.enabled == old(self).spec_enabled(),
                self.max_size == old(self).spec_max_size(),
            ensures
                cache_keys_unique(self@),
                self.enabled == old(self).spec_enabled(),
                self.max_size == old(self).spec_max_size(),
                self@ == evict_spec(s1, self.max_size as int),
                sum_sizes(self@) <= self.max_size,
            decreases self@.len(),
        {
            let total = self.total_size();
            if total <= self.max_size as u128 {
                proof {
                    assert(evict_spec(self@, self.max_size as int) == self@);
                }
                break ;
            }
            if self.entries.len() == 0 {
                proof {
                    assert(sum_sizes(self@) == 0);
                    assert(false);
                }
                break ;
            }
            let ghost pre = self@;
            let victim = self.oldest_entry();
            self.entries.remove(victim);
            proof {
                assert(self@ =~= pre.remove(victim as int));
                assert(evict_spec(pre, self.max_size as int) == evict_spec(
                    self@,
                    self.max_size as int,
                ));
                assert(cache_keys_unique(self@)) by {
                    lemma_remove_keys_unique(pre, victim as int);
                }
            }
        }
        proof {
            lemma_evict_sum(s1, self.max_size as int);
        }
    }

    /// The stored sizes summed, wide enough not to overflow.
    fn total_size(&self) -> (r: u128)
        ensures
            r == sum_sizes(self@),
    {
        let mut total: u128 = 0;
        let mut i: usize = 0;
        proof {
            assert(sum_sizes(self@.take(0)) == 0);
        }
        while i < self.entries.len()
            invariant
                i <= self.entries.len(),
                total == sum_sizes(self@.take(i as int)),
                total <= i * (usize::MAX as u128),
            decreases self.entries.len() - i,
        {
            proof {
                assert(self.entries@[i as int]@ == self@[i as int]);
                assert(self@.take(i + 1).drop_last() =~= self@.take(i as int));
                assert(self@.take(i + 1).last() == self@[i as int]);
            }
            let n = self.entries[i].value.len();
            proof {
                assert(n as u128 <= usize::MAX as u128);
                assert((i + 1) * (usize::MAX as u128) == i * (usize::MAX as u128) + (
                usize::MAX as u128)) by (nonlinear_arith);
            }
            total = total + (n as u128);
            i += 1;
        }
        proof {
            assert(self@.take(self@.len() as int) =~= self@);
        }
        total
    }

    fn oldest_entry(&self) -> (r: usize)
        requires
            self.entries.len() >= 1,
        ensures
            r == oldest_idx(self@, self@.len() as int),
            r < self.entries.len(),
    {
        let mut b: usize = 0;
        let mut n: usize = 1;
        while n < self.entries.len()
            invariant
                1 <= n <= self.entries.len(),
                b == oldest_idx(self@, n as int),
                b < n,
            decreases self.entries.len() - n,
        {
            proof {
                lemma_oldest_bounds(self@, n as int);
                assert(self.entries@[n as int]@ == self@[n as int]);
                assert(self.entries@[b as int]@ == self@[b as int]);
            }
            if self.entries[n].last_access < self.entries[b].last_access {
                b = n;
            }
            n += 1;
        }
        b
    }
}

/// Replacing an entry with one of the same blob length keeps the sum.
proof fn lemma_sum_update_same_size(s: Seq<CacheEntryV>, i: int, e: CacheEntryV)
    requires
        0 <= i < s.len(),
        e.value.len() == s[i].value.len(),
    ensures
        sum_sizes(s.update(i, e)) == sum_sizes(s),
    decreases s.len(),
{
    let s2 = s.update(i, e);
    if i == s.len() - 1 {
        assert(s2.drop_last() =~= s.drop_last());
        assert(s2.last() == e);
    } else {
        assert(s2.drop_last() =~= s.drop_last().update(i, e));
        lemma_sum_update_same_size(s.drop_last(), i, e);
        assert(s2.last() == s.last());
    }
}

proof fn lemma_remove_keys_unique(s: Seq<CacheEntryV>, i: int)
    requires
        cache_keys_unique(s),
        0 <= i < s.len(),
    ensures
        cache_keys_unique(s.remove(i)),
{
    let s2 = s.remove(i);
    assert forall|a: int, b: int| 0 <= a < b < s2.len() implies s2[a].key != s2[b].key by {
        let a0 = if a < i {
            a
        } else {
            a + 1
        };
        let b0 = if b < i {
            b
        } else {
            b + 1
        };
        assert(s2[a] == s[a0] && s2[b] == s[b0]);
    }
}

} // verus!
