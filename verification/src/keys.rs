//! Identity layer: stable fragment identities and the registry that issues
//! them, plus the per-fragment hook-slot counters.
//!
//! A `Key` identifies one logical fragment across re-evaluations. Keys are
//! issued by the [`KeyMap`] registry from a `(parent key, tag)` origin, so
//! that re-running a parent generator resolves the same child to the same
//! key. A [`HookKey`] addresses one state cell: a key plus a slot number;
//! slots below [`EXTERNAL_HOOK_FLAG`] are counted by the fragment's own
//! deterministic per-evaluation counter, slots with the flag set come from
//! the separate persistent external counter kept in [`ExternalHookCount`].

use crate::alist::{alist_find, lemma_alist_find_at, lemma_alist_find_none, lemma_alist_find_push};
use vstd::prelude::*;

verus! {

/// Stable identity of one logical fragment. The root fragment has key 0;
/// all other keys are issued by [`KeyMap::key_for`].
pub type Key = u64;

/// Slot numbers at or above this value belong to the external hook space;
/// below it, to the fragment's local per-evaluation counter.
pub const EXTERNAL_HOOK_FLAG: u16 = 0x8000;

/// Identifies one state cell: the owning fragment's key and the slot within
/// that fragment's state.
#[derive(Clone, Copy, PartialEq, Eq, Structural, Debug, Hash)]
pub struct HookKey {
    pub key: Key,
    pub slot: u16,
}

/// Persistent per-key counter for external hook slots. External hook
/// allocation order is not stable across re-evaluations, so these slots are
/// numbered in a space of their own (tagged with [`EXTERNAL_HOOK_FLAG`])
/// and never reset, unlike the local per-evaluation counter.
pub struct ExternalHookCount {
    counts: Vec<(Key, u16)>,
}

impl ExternalHookCount {
    /// The counter standing for `key`, 0 where none was allocated yet.
    pub closed spec fn count_of(self, key: Key) -> u16 {
        match alist_find(self.counts@, key) {
            Some(c) => c,
            None => 0,
        }
    }

    /// Well-formed: one counter entry per key.
    pub closed spec fn wf(self) -> bool {
        forall|i: int, j: int|
            0 <= i < j < self.counts@.len() ==> (#[trigger] self.counts@[i]).0 != (
            #[trigger] self.counts@[j]).0
    }

    pub fn new() -> (r: Self)
        ensures
            r.wf(),
            forall|k: Key| #[trigger] r.count_of(k) == 0,
    {
        let r = ExternalHookCount { counts: Vec::new() };
        proof {
            assert forall|k: Key| #[trigger] r.count_of(k) == 0 by {
                lemma_alist_find_none(r.counts@, k);
            }
        }
        r
    }

    /// Yields the next external slot number for `key` and advances the
    /// counter, or `None` once all 32768 slots of the 15-bit external space
    /// for `key` are spent (the explicit overflow policy: fail, never
    /// wrap).
    pub fn next(&mut self, key: Key) -> (r: Option<u16>)
        requires
            old(self).wf(),
        ensures
            final(self).wf(),
            old(self).count_of(key) < EXTERNAL_HOOK_FLAG ==> r == Some(old(self).count_of(key))
                && final(self).count_of(key) == old(self).count_of(key) + 1,
            old(self).count_of(key) >= EXTERNAL_HOOK_FLAG ==> r is None && *final(self) == *old(
                self,
            ),
            forall|q: Key| q != key ==> final(self).count_of(q) == old(self).count_of(q),
    {
        let ghost s0 = self.counts@;
        let mut i: usize = 0;
        while i < self.counts.len()
            invariant
                i <= self.counts@.len(),
                *self == *old(self),
                self.counts@ == s0,
                old(self).wf(),
                forall|j: int| 0 <= j < i ==> (#[trigger] s0[j]).0 != key,
            decreases self.counts@.len() - i,
        {
            if self.counts[i].0 == key {
                proof {
                    lemma_alist_find_at(s0, key, i as int);
                }
                let c = self.counts[i].1;
                if c >= EXTERNAL_HOOK_FLAG {
                    return None;
                }
                self.counts[i].1 = c + 1;
                proof {
                            assert(self.counts@ =~= s0.update(i as int, (key, (c + 1) as u16)));
                    crate::alist::lemma_alist_find_update(s0, i as int, (c + 1) as u16, key);
                    assert forall|q: Key| q != key implies final(self).count_of(q) == old(
                        self,
                    ).count_of(q) by {
                        crate::alist::lemma_alist_find_update(s0, i as int, (c + 1) as u16, q);
                    }
                }
                return Some(c);
            }
            i = i + 1;
        }
        proof {
            lemma_alist_find_none(s0, key);
        }
        self.counts.push((key, 1));
        proof {
            lemma_alist_find_push(s0, key, 1u16, key);
            assert forall|q: Key| q != key implies final(self).count_of(q) == old(self).count_of(
                q,
            ) by {
                lemma_alist_find_push(s0, key, 1u16, q);
            }
        }
        Some(0)
    }
}

/// Origin of an issued key: the parent fragment's key and a tag chosen by
/// the parent's generator (in source order), which together make the child's
/// identity stable across re-evaluations of the parent.
pub ghost struct KeyOrigin {
    pub parent: Key,
    pub tag: u64,
}

/// The identity registry: issues keys from `(parent, tag)` origins and
/// remembers each key's origin as its debug label until the key is removed.
pub struct KeyMap {
    entries: Vec<((Key, u64), Key)>,
    next: Key,
}

impl KeyMap {
    /// The key issued for this origin, if one is registered.
    pub closed spec fn issued(self, parent: Key, tag: u64) -> Option<Key> {
        alist_find(self.entries@, (parent, tag))
    }

    /// The origin registered for `key`, if any: its debug label.
    pub closed spec fn origin_of(self, key: Key) -> Option<KeyOrigin> {
        if exists|i: int|
            0 <= i < self.entries@.len() && (#[trigger] self.entries@[i]).1 == key {
            let i = choose|i: int|
                0 <= i < self.entries@.len() && (#[trigger] self.entries@[i]).1 == key;
            Some(KeyOrigin { parent: self.entries@[i].0.0, tag: self.entries@[i].0.1 })
        } else {
            None
        }
    }

    /// The issuing counter is spent: no further key can be allocated.
    pub closed spec fn exhausted(self) -> bool {
        self.next == u64::MAX
    }

    /// How many fresh keys can still be issued.
    pub closed spec fn room(self) -> int {
        u64::MAX - self.next
    }

    /// Well-formed: origins distinct, keys distinct and below the counter.
    pub closed spec fn wf(self) -> bool {
        &&& forall|i: int, j: int|
            0 <= i < j < self.entries@.len() ==> (#[trigger] self.entries@[i]).0 != (
            #[trigger] self.entries@[j]).0
        &&& forall|i: int, j: int|
            0 <= i < j < self.entries@.len() ==> (#[trigger] self.entries@[i]).1 != (
            #[trigger] self.entries@[j]).1
        &&& forall|i: int|
            0 <= i < self.entries@.len() ==> 0 < (#[trigger] self.entries@[i]).1 < self.next
        &&& self.next >= 1
    }

    pub fn new() -> (r: Self)
        ensures
            r.wf(),
            forall|p: Key, t: u64| #[trigger] r.issued(p, t) is None,
    {
        let r = KeyMap { entries: Vec::new(), next: 1 };
        proof {
            assert forall|p: Key, t: u64| #[trigger] r.issued(p, t) is None by {
                lemma_alist_find_none(r.entries@, (p, t));
            }
        }
        r
    }

    /// The key for the child of `parent` tagged `tag`: the registered one if
    /// the origin is known, else a fresh key, which is then registered.
    /// `None` only once the key space is exhausted.
    pub fn key_for(&mut self, parent: Key, tag: u64) -> (r: Option<Key>)
        requires
            old(self).wf(),
        ensures
            final(self).wf(),
            r is None ==> old(self).issued(parent, tag) is None && old(self).exhausted(),
            old(self).room() > 0 ==> r is Some,
            final(self).room() >= old(self).room() - 1,
            old(self).issued(parent, tag) is Some ==> r == old(self).issued(parent, tag)
                && *final(self) == *old(self),
            old(self).issued(parent, tag) is None && r is Some ==> final(self).issued(parent, tag)
                == r && r != Some(0u64),
            forall|p: Key, t: u64|
                !(p == parent && t == tag) ==> final(self).issued(p, t) == old(self).issued(p, t),
    {
        let ghost s0 = self.entries@;
        let mut i: usize = 0;
        while i < self.entries.len()
            invariant
                i <= self.entries@.len(),
                *self == *old(self),
                self.entries@ == s0,
                old(self).wf(),
                forall|j: int| 0 <= j < i ==> (#[trigger] s0[j]).0 != (parent, tag),
            decreases self.entries@.len() - i,
        {
            let e = self.entries[i];
            if e.0.0 == parent && e.0.1 == tag {
                proof {
                    lemma_alist_find_at(s0, (parent, tag), i as int);
                }
                return Some(e.1);
            }
            i = i + 1;
        }
        proof {
            lemma_alist_find_none(s0, (parent, tag));
        }
        if self.next == u64::MAX {
            return None;
        }
        let key = self.next;
        self.next = self.next + 1;
        self.entries.push(((parent, tag), key));
        proof {
            assert(self.entries@ =~= s0.push(((parent, tag), key)));
            assert forall|a: int, b: int|
                0 <= a < b < self.entries@.len() implies (#[trigger] self.entries@[a]).0 != (
                #[trigger] self.entries@[b]).0 && (#[trigger] self.entries@[a]).1 != (
                #[trigger] self.entries@[b]).1 by {
                if b == self.entries@.len() - 1 {
                    assert(s0[a].0 != (parent, tag));
                    assert(0 < s0[a].1 < key);
                }
            }
            lemma_alist_find_push(s0, (parent, tag), key, (parent, tag));
            assert forall|p: Key, t: u64| !(p == parent && t == tag) implies final(self).issued(
                p,
                t,
            ) == old(self).issued(p, t) by {
                lemma_alist_find_push(s0, (parent, tag), key, (p, t));
            }
        }
        Some(key)
    }

    /// The origin of `key`, as `(parent, tag)`: the registry's debug label
    /// for the identity.
    pub fn key_debug(&self, key: Key) -> (r: Option<(Key, u64)>)
        requires
            self.wf(),
        ensures
            r is Some <==> self.origin_of(key) is Some,
            r matches Some(o) ==> self.origin_of(key) == Some(
                KeyOrigin { parent: o.0, tag: o.1 },
            ),
    {
        let mut i: usize = 0;
        while i < self.entries.len()
            invariant
                i <= self.entries@.len(),
                self.wf(),
                forall|j: int| 0 <= j < i ==> (#[trigger] self.entries@[j]).1 != key,
            decreases self.entries@.len() - i,
        {
            let e = self.entries[i];
            if e.1 == key {
                return Some((e.0.0, e.0.1));
            }
            i = i + 1;
        }
        None
    }

    /// Forgets `key`: its origin is dropped from the registry, so the same
    /// origin later yields a fresh key.
    pub fn remove(&mut self, key: Key)
        requires
            old(self).wf(),
        ensures
            final(self).wf(),
            final(self).origin_of(key) is None,
            forall|k2: Key| k2 != key ==> final(self).origin_of(k2) == old(self).origin_of(k2),
            forall|p: Key, t: u64|
                old(self).issued(p, t) != Some(key) ==> final(self).issued(p, t) == old(
                    self,
                ).issued(p, t),
    {
        let ghost s0 = self.entries@;
        let mut i: usize = 0;
        while i < self.entries.len()
            invariant
                i <= self.entries@.len(),
                *self == *old(self),
                self.entries@ == s0,
                old(self).wf(),
                forall|j: int| 0 <= j < i ==> (#[trigger] s0[j]).1 != key,
            decreases self.entries@.len() - i,
        {
            if self.entries[i].1 == key {
                proof {
                    lemma_alist_find_at(s0, s0[i as int].0, i as int);
                }
                self.entries.remove(i);
                proof {
                            let s1 = self.entries@;
                    assert forall|p: Key, t: u64|
                        old(self).issued(p, t) != Some(key) implies final(self).issued(p, t)
                        == old(self).issued(p, t) by {
                        crate::alist::lemma_alist_find_remove(s0, i as int, (p, t));
                    }
                    assert forall|j: int|
                        0 <= j < s1.len() implies (#[trigger] s1[j]).1 != key by {
                        if j < i {
                            assert(s1[j] == s0[j]);
                        } else {
                            assert(s1[j] == s0[j + 1]);
                        }
                    }
                    assert forall|k2: Key|
                        k2 != key implies final(self).origin_of(k2) == old(self).origin_of(
                        k2,
                    ) by {
                        if exists|m: int| 0 <= m < s0.len() && (#[trigger] s0[m]).1 == k2 {
                            let p = choose|m: int|
                                0 <= m < s0.len() && (#[trigger] s0[m]).1 == k2;
                            assert(p != i);
                            if p < i {
                                assert(s1[p] == s0[p]);
                            } else {
                                assert(s1[p - 1] == s0[p]);
                            }
                            let q = choose|m: int|
                                0 <= m < s1.len() && (#[trigger] s1[m]).1 == k2;
                            if q < i {
                                assert(s1[q] == s0[q]);
                                assert(s0[q].1 == s0[p].1);
                                assert(q == p);
                            } else {
                                assert(s1[q] == s0[q + 1]);
                                assert(s0[q + 1].1 == s0[p].1);
                                assert(q + 1 == p);
                            }
                        } else {
                            assert forall|m: int|
                                0 <= m < s1.len() implies (#[trigger] s1[m]).1 != k2 by {
                                if m < i {
                                    assert(s1[m] == s0[m]);
                                } else {
                                    assert(s1[m] == s0[m + 1]);
                                }
                            }
                        }
                    }
                }
                return ;
            }
            i = i + 1;
        }
    }

}

} // verus!
