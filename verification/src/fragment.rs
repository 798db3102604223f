//! Fragment arena: a reusable-slot arena holding each fragment's evaluation
//! state (not yet evaluated vs evaluated) and its most recently supplied
//! call arguments, plus the dirty-args queue of fragments whose arguments
//! changed since the last drain.
//!
//! A [`Fragment`] is a slot index, never reused while the logical node is
//! live; the key registry inside the store resolves the same fragment key
//! to the same slot across re-evaluations, which is what keeps child
//! identity stable during reconciliation.

use crate::alist::{alist_find, lemma_alist_find_at, lemma_alist_find_none, lemma_alist_find_push};
use crate::keys::Key;
use crate::store::TreeItem;
use vstd::pervasive::unreached;
use vstd::prelude::*;

verus! {

/// A handle to one fragment: its slot index in the fragment arena.
#[derive(Clone, Copy, PartialEq, Eq, Structural, Debug, Hash)]
pub struct Fragment(pub usize);

/// A fragment that has not been evaluated yet: its identity and its
/// generator.
pub struct UnevaluatedFragment<G> {
    pub key: Key,
    pub gen: G,
}

/// The result of evaluating a fragment at least once: identity, generator,
/// the layout-tree handle registered for it, its own slot index, and its
/// children in declaration order.
pub struct EvaluatedFragment<G> {
    pub key: Key,
    pub gen: G,
    pub layout_idx: usize,
    pub store_idx: Fragment,
    pub children: Vec<Fragment>,
}

/// A fragment arena slot's evaluation state.
pub enum MaybeEvaluatedFragment<G> {
    Unevaluated(UnevaluatedFragment<G>),
    Evaluated(EvaluatedFragment<G>),
}

impl<G> MaybeEvaluatedFragment<G> {
    /// The fragment's identity, in either state, for specifications.
    pub open spec fn spec_key(self) -> Key {
        match self {
            MaybeEvaluatedFragment::Unevaluated(f) => f.key,
            MaybeEvaluatedFragment::Evaluated(f) => f.key,
        }
    }

    /// The fragment's identity, in either state.
    pub fn key(&self) -> (k: Key)
        ensures
            k == match *self {
                MaybeEvaluatedFragment::Unevaluated(ref f) => f.key,
                MaybeEvaluatedFragment::Evaluated(ref f) => f.key,
            },
    {
        match self {
            MaybeEvaluatedFragment::Unevaluated(f) => f.key,
            MaybeEvaluatedFragment::Evaluated(f) => f.key,
        }
    }

    /// Accessing the wrong variant is an internal-invariant violation;
    /// callers must know the fragment is evaluated.
    pub fn assert_evaluated(&self) -> (r: &EvaluatedFragment<G>)
        requires
            self is Evaluated,
        ensures
            *self == MaybeEvaluatedFragment::Evaluated(*r),
    {
        match self {
            MaybeEvaluatedFragment::Evaluated(f) => f,
            MaybeEvaluatedFragment::Unevaluated(_) => {
                proof {
                    assert(false);
                }
                unreached()
            },
        }
    }

    /// Accessing the wrong variant is an internal-invariant violation;
    /// callers must know the fragment is unevaluated.
    pub fn assert_unevaluated(&self) -> (r: &UnevaluatedFragment<G>)
        requires
            self is Unevaluated,
        ensures
            *self == MaybeEvaluatedFragment::Unevaluated(*r),
    {
        match self {
            MaybeEvaluatedFragment::Unevaluated(f) => f,
            MaybeEvaluatedFragment::Evaluated(_) => {
                proof {
                    assert(false);
                }
                unreached()
            },
        }
    }

    /// Consuming accessor for the evaluated state.
    pub fn into_evaluated(self) -> (r: EvaluatedFragment<G>)
        requires
            self is Evaluated,
        ensures
            self == MaybeEvaluatedFragment::Evaluated(r),
    {
        match self {
            MaybeEvaluatedFragment::Evaluated(f) => f,
            MaybeEvaluatedFragment::Unevaluated(_) => {
                proof {
                    assert(false);
                }
                unreached()
            },
        }
    }

    /// Consuming accessor for the unevaluated state.
    pub fn into_unevaluated(self) -> (r: UnevaluatedFragment<G>)
        requires
            self is Unevaluated,
        ensures
            self == MaybeEvaluatedFragment::Unevaluated(r),
    {
        match self {
            MaybeEvaluatedFragment::Unevaluated(f) => f,
            MaybeEvaluatedFragment::Evaluated(_) => {
                proof {
                    assert(false);
                }
                unreached()
            },
        }
    }
}

/// One arena slot: the fragment's evaluation state (absent only while the
/// slot is being constructed or its generator is running) and the call
/// arguments most recently supplied to it.
pub struct FragmentInfo<G> {
    pub fragment: Option<MaybeEvaluatedFragment<G>>,
    pub args: Option<Vec<TreeItem>>,
}

/// The fragment arena.
pub struct FragmentStore<G> {
    data: Vec<Option<FragmentInfo<G>>>,
    free: Vec<usize>,
    keys: Vec<(Key, usize)>,
    dirty_args: Vec<Fragment>,
}

impl<G> FragmentStore<G> {
    /// Number of arena slots (allocated or free).
    pub closed spec fn num_slots(self) -> int {
        self.data@.len() as int
    }

    /// Slot `i` is allocated (possibly not yet populated).
    pub closed spec fn slot_live(self, i: int) -> bool {
        0 <= i < self.data@.len() && self.data@[i] is Some
    }

    /// The evaluation state held by allocated slot `i`.
    pub closed spec fn frag_of(self, i: int) -> Option<MaybeEvaluatedFragment<G>> {
        self.data@[i].unwrap().fragment
    }

    /// The call arguments held by allocated slot `i`.
    pub closed spec fn args_of(self, i: int) -> Option<Seq<TreeItem>> {
        match self.data@[i].unwrap().args {
            Some(v) => Some(v@),
            None => None,
        }
    }

    /// The key registry as a sequence of bindings.
    pub closed spec fn key_seq(self) -> Seq<(Key, usize)> {
        self.keys@
    }

    /// The slot registered for fragment key `k`.
    pub closed spec fn key_slot(self, k: Key) -> Option<usize> {
        alist_find(self.keys@, k)
    }

    /// The dirty-args queue, in insertion order.
    pub closed spec fn dirty(self) -> Seq<Fragment> {
        self.dirty_args@
    }

    /// Number of allocated slots: the termination measure for recursive
    /// teardown, which frees one allocated slot per step.
    pub closed spec fn live_count(self) -> nat {
        FragmentStore::<G>::count_some(self.data@)
    }

    /// How many entries of `s` are occupied.
    spec fn count_some(s: Seq<Option<FragmentInfo<G>>>) -> nat
        decreases s.len(),
    {
        if s.len() == 0 {
            0
        } else {
            Self::count_some(s.drop_last()) + if s.last() is Some {
                1nat
            } else {
                0nat
            }
        }
    }

    /// Freeing an occupied entry strictly lowers the occupied count.
    proof fn lemma_count_some_update_none(s: Seq<Option<FragmentInfo<G>>>, i: int)
        requires
            0 <= i < s.len(),
            s[i] is Some,
        ensures
            Self::count_some(s.update(i, None)) < Self::count_some(s),
        decreases s.len(),
    {
        let t = s.update(i, None);
        if i == s.len() - 1 {
            assert(t.drop_last() =~= s.drop_last());
        } else {
            assert(t.drop_last() =~= s.drop_last().update(i, None));
            assert(t.last() == s.last());
            Self::lemma_count_some_update_none(s.drop_last(), i);
        }
    }

    /// Slot `i` is untouched between states `a` and `b` (its queue position
    /// aside).
    pub open spec fn slot_same(a: FragmentStore<G>, b: FragmentStore<G>, i: int) -> bool {
        &&& a.slot_live(i) == b.slot_live(i)
        &&& a.slot_live(i) ==> a.frag_of(i) == b.frag_of(i) && a.args_of(i) == b.args_of(i)
    }

    /// States `a` and `b` register the same key-to-slot bindings.
    pub open spec fn keys_same(a: FragmentStore<G>, b: FragmentStore<G>) -> bool {
        forall|k: Key| a.key_slot(k) == b.key_slot(k)
    }

    /// Well-formed: the free list holds distinct dead slots, and the key
    /// registry binds distinct keys to distinct allocated slots.
    pub closed spec fn wf(self) -> bool {
        &&& forall|f: int|
            0 <= f < self.free@.len() ==> (#[trigger] self.free@[f]) < self.data@.len()
                && self.data@[self.free@[f] as int] is None
        &&& forall|a: int, b: int|
            0 <= a < b < self.free@.len() ==> (#[trigger] self.free@[a]) != (
            #[trigger] self.free@[b])
        &&& forall|a: int, b: int|
            0 <= a < b < self.keys@.len() ==> (#[trigger] self.keys@[a]).0 != (
            #[trigger] self.keys@[b]).0
        &&& forall|a: int, b: int|
            0 <= a < b < self.keys@.len() ==> (#[trigger] self.keys@[a]).1 != (
            #[trigger] self.keys@[b]).1
        &&& forall|j: int|
            0 <= j < self.keys@.len() ==> self.slot_live((#[trigger] self.keys@[j]).1 as int)
    }

    pub fn new() -> (r: Self)
        ensures
            r.wf(),
            r.num_slots() == 0,
            r.dirty() == Seq::<Fragment>::empty(),
            forall|k: Key| #[trigger] r.key_slot(k) is None,
    {
        let r = FragmentStore {
            data: Vec::new(),
            free: Vec::new(),
            keys: Vec::new(),
            dirty_args: Vec::new(),
        };
        proof {
            assert forall|k: Key| #[trigger] r.key_slot(k) is None by {
                lemma_alist_find_none(r.keys@, k);
            }
        }
        r
    }

    /// Reserves a slot with no fragment state yet, supporting forward
    /// references before initialization.
    pub fn add_empty_fragment(&mut self) -> (r: Fragment)
        requires
            old(self).wf(),
        ensures
            final(self).wf(),
            !old(self).slot_live(r.0 as int),
            final(self).slot_live(r.0 as int),
            final(self).frag_of(r.0 as int) is None,
            final(self).args_of(r.0 as int) is None,
            forall|i: int|
                i != r.0 ==> FragmentStore::slot_same(*old(self), *final(self), i),
            final(self).key_seq() == old(self).key_seq(),
            FragmentStore::keys_same(*old(self), *final(self)),
            final(self).dirty() == old(self).dirty(),
            final(self).num_slots() <= old(self).num_slots() + 1,
    {
        let info = FragmentInfo { fragment: None, args: None };
        let idx: usize;
        let popped = self.free.pop();
        match popped {
            Some(f) => {
                idx = f;
                self.data[f] = Some(info);
            },
            None => {
                idx = self.data.len();
                self.data.push(Some(info));
            },
        }
        proof {
            assert forall|i: int|
                i != idx implies FragmentStore::slot_same(*old(self), *self, i) by {
                if !(0 <= i < self.num_slots()) {
                    assert(!self.slot_live(i) && !old(self).slot_live(i));
                }
            }
        }
        Fragment(idx)
    }

    /// The slot was already freed, or was never populated: a stale handle.
    /// Callers use this to detect re-evaluation requests for fragments that
    /// a reconciliation step has since torn down.
    pub fn removed(&self, idx: Fragment) -> (r: bool)
        ensures
            r == (!self.slot_live(idx.0 as int) || self.frag_of(idx.0 as int) is None),
    {
        if idx.0 >= self.data.len() {
            return true;
        }
        match &self.data[idx.0] {
            Some(info) => info.fragment.is_none(),
            None => true,
        }
    }

    /// The slot registered for `key`, allocating and registering a fresh
    /// empty slot if the key is new: this is what makes the same logical
    /// child resolve to the same slot across re-evaluations of its parent.
    pub fn fragment_for_key(&mut self, key: Key) -> (r: Fragment)
        requires
            old(self).wf(),
        ensures
            final(self).wf(),
            final(self).key_slot(key) == Some(r.0),
            final(self).slot_live(r.0 as int),
            old(self).key_slot(key) matches Some(i) ==> r.0 == i && *final(self) == *old(self),
            old(self).key_slot(key) is None ==> {
                &&& !old(self).slot_live(r.0 as int)
                &&& final(self).frag_of(r.0 as int) is None
                &&& final(self).args_of(r.0 as int) is None
                &&& forall|i: int|
                    i != r.0 ==> FragmentStore::slot_same(*old(self), *final(self), i)
                &&& forall|k: Key| k != key ==> final(self).key_slot(k) == old(self).key_slot(k)
                &&& final(self).dirty() == old(self).dirty()
            },
    {
        let ghost s0 = self.keys@;
        let mut j: usize = 0;
        while j < self.keys.len()
            invariant
                j <= self.keys@.len(),
                *self == *old(self),
                self.keys@ == s0,
                old(self).wf(),
                forall|m: int| 0 <= m < j ==> (#[trigger] s0[m]).0 != key,
            decreases self.keys@.len() - j,
        {
            let e = self.keys[j];
            if e.0 == key {
                proof {
                    lemma_alist_find_at(s0, key, j as int);
                }
                return Fragment(e.1);
            }
            j = j + 1;
        }
        proof {
            lemma_alist_find_none(s0, key);
        }
        let frag = self.add_empty_fragment();
        let ghost mid = *self;
        self.keys.push((key, frag.0));
        proof {
            let t = *self;
            assert(t.data@ == mid.data@);
            assert(t.keys@ =~= s0.push((key, frag.0)));
            lemma_alist_find_push(s0, key, frag.0, key);
            assert forall|k: Key| k != key implies t.key_slot(k) == old(self).key_slot(k) by {
                lemma_alist_find_push(s0, key, frag.0, k);
            }
            assert forall|a: int, b: int|
                0 <= a < b < t.keys@.len() implies (#[trigger] t.keys@[a]).1 != (
            #[trigger] t.keys@[b]).1 by {
                if b == t.keys@.len() - 1 {
                    assert(t.keys@[a] == s0[a]);
                    assert(old(self).slot_live(s0[a].1 as int));
                }
            }
            assert forall|jj: int|
                0 <= jj < t.keys@.len() implies t.slot_live((#[trigger] t.keys@[jj]).1 as int) by {
                if jj < s0.len() {
                    assert(t.keys@[jj] == s0[jj]);
                    assert(old(self).slot_live(s0[jj].1 as int));
                    if s0[jj].1 != frag.0 {
                        assert(FragmentStore::slot_same(*old(self), mid, s0[jj].1 as int));
                    }
                    assert(mid.slot_live(s0[jj].1 as int));
                }
            }
            assert forall|i: int|
                i != frag.0 implies FragmentStore::slot_same(*old(self), t, i) by {
                assert(FragmentStore::slot_same(*old(self), mid, i));
            }
        }
        frag
    }

    /// Fills the slot's fragment state, only if it is still empty
    /// (idempotent), and hands the index back.
    pub fn add_fragment(&mut self, idx: Fragment, frag: UnevaluatedFragment<G>) -> (r: Fragment)
        requires
            old(self).wf(),
            old(self).slot_live(idx.0 as int),
        ensures
            final(self).wf(),
            r == idx,
            final(self).frag_of(idx.0 as int) == if old(self).frag_of(idx.0 as int) is None {
                Some(MaybeEvaluatedFragment::Unevaluated(frag))
            } else {
                old(self).frag_of(idx.0 as int)
            },
            final(self).args_of(idx.0 as int) == old(self).args_of(idx.0 as int),
            final(self).slot_live(idx.0 as int),
            forall|i: int| i != idx.0 ==> FragmentStore::slot_same(*old(self), *final(self), i),
            FragmentStore::keys_same(*old(self), *final(self)),
            final(self).dirty() == old(self).dirty(),
            final(self).num_slots() == old(self).num_slots(),
    {
        match &mut self.data[idx.0] {
            Some(info) => {
                if info.fragment.is_none() {
                    info.fragment = Some(MaybeEvaluatedFragment::Unevaluated(frag));
                }
            },
            None => {
                proof {
                    assert(false);
                }
            },
        }
        proof {
            self.lemma_slot_frame(*old(self), idx.0 as int);
        }
        idx
    }

    /// The slot's evaluation state; the slot must be populated.
    pub fn get(&self, idx: Fragment) -> (r: &MaybeEvaluatedFragment<G>)
        requires
            self.slot_live(idx.0 as int),
            self.frag_of(idx.0 as int) is Some,
        ensures
            Some(*r) == self.frag_of(idx.0 as int),
    {
        match &self.data[idx.0] {
            Some(info) => match &info.fragment {
                Some(f) => f,
                None => {
                    proof {
                        assert(false);
                    }
                    unreached()
                },
            },
            None => {
                proof {
                    assert(false);
                }
                unreached()
            },
        }
    }

    /// Takes the slot's evaluation state out, leaving the slot allocated
    /// but empty while its generator runs.
    pub(crate) fn take_fragment(&mut self, idx: Fragment) -> (r: MaybeEvaluatedFragment<G>)
        requires
            old(self).wf(),
            old(self).slot_live(idx.0 as int),
            old(self).frag_of(idx.0 as int) is Some,
        ensures
            final(self).wf(),
            Some(r) == old(self).frag_of(idx.0 as int),
            final(self).slot_live(idx.0 as int),
            final(self).frag_of(idx.0 as int) is None,
            final(self).args_of(idx.0 as int) == old(self).args_of(idx.0 as int),
            forall|i: int| i != idx.0 ==> FragmentStore::slot_same(*old(self), *final(self), i),
            FragmentStore::keys_same(*old(self), *final(self)),
            final(self).dirty() == old(self).dirty(),
            final(self).num_slots() == old(self).num_slots(),
    {
        let r: MaybeEvaluatedFragment<G>;
        match &mut self.data[idx.0] {
            Some(info) => {
                let mut taken: Option<MaybeEvaluatedFragment<G>> = None;
                core::mem::swap(&mut taken, &mut info.fragment);
                match taken {
                    Some(f) => {
                        r = f;
                    },
                    None => {
                        proof {
                            assert(false);
                        }
                        r = unreached();
                    },
                }
            },
            None => {
                proof {
                    assert(false);
                }
                r = unreached();
            },
        }
        proof {
            self.lemma_slot_frame(*old(self), idx.0 as int);
        }
        r
    }

    /// Installs the slot's evaluation state, replacing whatever was there.
    pub(crate) fn put_fragment(&mut self, idx: Fragment, frag: MaybeEvaluatedFragment<G>)
        requires
            old(self).wf(),
            old(self).slot_live(idx.0 as int),
        ensures
            final(self).wf(),
            final(self).slot_live(idx.0 as int),
            final(self).frag_of(idx.0 as int) == Some(frag),
            final(self).args_of(idx.0 as int) == old(self).args_of(idx.0 as int),
            forall|i: int| i != idx.0 ==> FragmentStore::slot_same(*old(self), *final(self), i),
            FragmentStore::keys_same(*old(self), *final(self)),
            final(self).dirty() == old(self).dirty(),
            final(self).num_slots() == old(self).num_slots(),
    {
        match &mut self.data[idx.0] {
            Some(info) => {
                info.fragment = Some(frag);
            },
            None => {
                proof {
                    assert(false);
                }
            },
        }
        proof {
            self.lemma_slot_frame(*old(self), idx.0 as int);
        }
    }

    /// The slot's most recent call arguments.
    pub fn get_args(&self, idx: Fragment) -> (r: &Option<Vec<TreeItem>>)
        requires
            self.slot_live(idx.0 as int),
        ensures
            *r is Some <==> self.args_of(idx.0 as int) is Some,
            *r matches Some(v) ==> self.args_of(idx.0 as int) == Some(v@),
    {
        match &self.data[idx.0] {
            Some(info) => &info.args,
            None => {
                proof {
                    assert(false);
                }
                unreached()
            },
        }
    }

    /// Stores new call arguments for the fragment and enqueues it onto the
    /// dirty-args queue; the update cycle drains the queue until it stays
    /// empty.
    pub fn set_args(&mut self, idx: Fragment, args: Vec<TreeItem>)
        requires
            old(self).wf(),
            old(self).slot_live(idx.0 as int),
        ensures
            final(self).wf(),
            final(self).slot_live(idx.0 as int),
            final(self).args_of(idx.0 as int) == Some(args@),
            final(self).frag_of(idx.0 as int) == old(self).frag_of(idx.0 as int),
            forall|i: int| i != idx.0 ==> FragmentStore::slot_same(*old(self), *final(self), i),
            FragmentStore::keys_same(*old(self), *final(self)),
            final(self).dirty() == old(self).dirty().push(idx),
            final(self).num_slots() == old(self).num_slots(),
    {
        self.dirty_args.push(idx);
        match &mut self.data[idx.0] {
            Some(info) => {
                info.args = Some(args);
            },
            None => {
                proof {
                    assert(false);
                }
            },
        }
        proof {
            self.lemma_slot_frame(*old(self), idx.0 as int);
        }
    }

    /// Drains the dirty-args queue: the fragments whose arguments changed
    /// since the last drain, most recently queued first; the queue is
    /// cleared.
    pub fn dirty_args(&mut self) -> (r: Vec<Fragment>)
        requires
            old(self).wf(),
        ensures
            final(self).wf(),
            r@.len() == old(self).dirty().len(),
            forall|j: int|
                0 <= j < r@.len() ==> r@[j] == old(self).dirty()[old(self).dirty().len() - 1 - j],
            final(self).dirty() == Seq::<Fragment>::empty(),
            forall|i: int| FragmentStore::slot_same(*old(self), *final(self), i),
            FragmentStore::keys_same(*old(self), *final(self)),
            final(self).num_slots() == old(self).num_slots(),
    {
        let ghost d0 = self.dirty_args@;
        let mut r: Vec<Fragment> = Vec::new();
        loop
            invariant
                self.data@ == old(self).data@,
                self.free@ == old(self).free@,
                self.keys@ == old(self).keys@,
                old(self).wf(),
                r@.len() + self.dirty_args@.len() == d0.len(),
                self.dirty_args@ == d0.subrange(0, self.dirty_args@.len() as int),
                forall|j: int| 0 <= j < r@.len() ==> r@[j] == d0[d0.len() - 1 - j],
            ensures
                self.data@ == old(self).data@,
                self.free@ == old(self).free@,
                self.keys@ == old(self).keys@,
                self.dirty_args@.len() == 0,
                r@.len() == d0.len(),
                forall|j: int| 0 <= j < r@.len() ==> r@[j] == d0[d0.len() - 1 - j],
            decreases self.dirty_args@.len(),
        {
            let popped = self.dirty_args.pop();
            match popped {
                Some(f) => {
                    r.push(f);
                },
                None => {
                    break ;
                },
            }
        }
        proof {
            assert(self.dirty_args@ =~= Seq::<Fragment>::empty());
        }
        r
    }

    /// Clears and frees the slot, dropping any key registered for it; the
    /// index may later be reused for an unrelated fragment.
    pub(crate) fn remove(&mut self, idx: Fragment)
        requires
            old(self).wf(),
            old(self).slot_live(idx.0 as int),
        ensures
            final(self).wf(),
            final(self).live_count() < old(self).live_count(),
            !final(self).slot_live(idx.0 as int),
            forall|i: int| i != idx.0 ==> FragmentStore::slot_same(*old(self), *final(self), i),
            forall|k: Key|
                old(self).key_slot(k) != Some(idx.0) ==> final(self).key_slot(k) == old(
                    self,
                ).key_slot(k),
            forall|k: Key| old(self).key_slot(k) == Some(idx.0) ==> final(self).key_slot(k) is None,
            final(self).dirty() == old(self).dirty(),
            final(self).num_slots() == old(self).num_slots(),
    {
        let ghost s0 = self.keys@;
        proof {
            assert forall|k: Key|
                self.key_slot(k) == Some(idx.0) implies exists|m: int|
                    0 <= m < self.keys@.len() && (#[trigger] self.keys@[m]) == (k, idx.0) by {
                crate::alist::lemma_alist_find_some(self.keys@, k);
            }
        }
        let mut j: usize = 0;
        while j < self.keys.len()
            invariant
                j <= self.keys@.len(),
                self.data@ == old(self).data@,
                self.free@ == old(self).free@,
                self.dirty_args@ == old(self).dirty_args@,
                old(self).wf(),
                forall|a: int, b: int|
                    0 <= a < b < self.keys@.len() ==> (#[trigger] self.keys@[a]).0 != (
                    #[trigger] self.keys@[b]).0,
                forall|a: int, b: int|
                    0 <= a < b < self.keys@.len() ==> (#[trigger] self.keys@[a]).1 != (
                    #[trigger] self.keys@[b]).1,
                forall|m: int|
                    0 <= m < self.keys@.len() ==> old(self).slot_live(
                        (#[trigger] self.keys@[m]).1 as int,
                    ),
                forall|m: int| 0 <= m < j ==> (#[trigger] self.keys@[m]).1 != idx.0,
                forall|k: Key|
                    old(self).key_slot(k) != Some(idx.0) ==> self.key_slot(k) == old(
                        self,
                    ).key_slot(k),
                forall|k: Key|
                    old(self).key_slot(k) == Some(idx.0) ==> self.key_slot(k) == Some(idx.0)
                        || self.key_slot(k) is None,
                forall|k: Key|
                    self.key_slot(k) == Some(idx.0) ==> exists|m: int|
                        j <= m < self.keys@.len() && (#[trigger] self.keys@[m]) == (k, idx.0),
            decreases self.keys@.len() - j,
        {
            let e = self.keys[j];
            if e.1 == idx.0 {
                let ghost pre = self.keys@;
                self.keys.remove(j);
                proof {
                    assert(self.keys@ =~= pre.remove(j as int));
                    assert(forall|m: int| 0 <= m < j ==> (#[trigger] pre[m]).0 != pre[j as int].0);
                    crate::alist::lemma_alist_find_at(pre, e.0, j as int);
                    assert forall|k: Key|
                        old(self).key_slot(k) != Some(idx.0) implies self.key_slot(k) == old(
                        self,
                    ).key_slot(k) by {
                        crate::alist::lemma_alist_find_remove(pre, j as int, k);
                    }
                    assert forall|k: Key|
                        old(self).key_slot(k) == Some(idx.0) implies self.key_slot(k) == Some(
                        idx.0,
                    ) || self.key_slot(k) is None by {
                        crate::alist::lemma_alist_find_remove(pre, j as int, k);
                    }
                    assert forall|k: Key|
                        self.key_slot(k) == Some(idx.0) implies exists|m: int|
                            j <= m < self.keys@.len() && (#[trigger] self.keys@[m]) == (
                        k,
                        idx.0,
                        ) by {
                        crate::alist::lemma_alist_find_remove(pre, j as int, k);
                        if k != e.0 {
                            crate::alist::lemma_alist_find_some(pre, k);
                            let m = choose|m: int|
                                0 <= m < pre.len() && #[trigger] pre[m] == (k, idx.0);
                            assert(pre[m].1 == pre[j as int].1);
                            assert(m == j);
                            assert(false);
                        }
                    }
                }
            } else {
                proof {
                    assert forall|k: Key|
                        self.key_slot(k) == Some(idx.0) implies exists|m: int|
                            j + 1 <= m < self.keys@.len() && (#[trigger] self.keys@[m]) == (
                        k,
                        idx.0,
                        ) by {
                        let m = choose|m: int|
                            j <= m < self.keys@.len() && (#[trigger] self.keys@[m]) == (k, idx.0);
                        assert(m != j);
                    }
                }
                j = j + 1;
            }
        }
        let ghost after_loop = *self;
        let ghost jfin = j as int;
        self.data[idx.0] = None;
        self.free.push(idx.0);
        proof {
            let t = *self;
            assert(t.data@ =~= after_loop.data@.update(idx.0 as int, None));
            Self::lemma_count_some_update_none(after_loop.data@, idx.0 as int);
            assert(t.keys@ == after_loop.keys@);
            assert(jfin == after_loop.keys@.len());
            assert forall|k: Key| t.key_slot(k) == Some(idx.0) implies false by {
                assert(after_loop.key_slot(k) == Some(idx.0));
                let m = choose|m: int|
                    jfin <= m < after_loop.keys@.len() && (#[trigger] after_loop.keys@[m]) == (
                        k,
                        idx.0,
                    );
                assert(m < m);
            }
            assert forall|f: int|
                0 <= f < t.free@.len() implies (#[trigger] t.free@[f]) < t.data@.len()
                    && t.data@[t.free@[f] as int] is None by {
                if f < old(self).free@.len() {
                    assert(t.free@[f] == old(self).free@[f]);
                    assert(old(self).data@[old(self).free@[f] as int] is None);
                } else {
                    assert(t.free@[f] == idx.0);
                }
            }
            assert forall|a: int, b: int|
                0 <= a < b < t.free@.len() implies (#[trigger] t.free@[a]) != (
            #[trigger] t.free@[b]) by {
                if b == t.free@.len() - 1 {
                    assert(t.free@[a] == old(self).free@[a]);
                    assert(old(self).data@[old(self).free@[a] as int] is None);
                    assert(old(self).data@[idx.0 as int] is Some);
                }
            }
            assert forall|i: int|
                i != idx.0 implies FragmentStore::slot_same(*old(self), t, i) by {
                if !(0 <= i < t.num_slots()) {
                    assert(!t.slot_live(i) && !old(self).slot_live(i));
                }
            }
            assert forall|m: int|
                0 <= m < t.keys@.len() implies t.slot_live((#[trigger] t.keys@[m]).1 as int) by {
                assert(t.keys@[m].1 != idx.0);
                assert(old(self).slot_live(t.keys@[m].1 as int));
            }
        }
    }

    /// A mutation that changed only the content of allocated slot `i`
    /// (never its allocation) preserves well-formedness.
    proof fn lemma_slot_frame(self, o: FragmentStore<G>, i: int)
        requires
            o.wf(),
            o.slot_live(i),
            self.num_slots() == o.num_slots(),
            self.slot_live(i),
            self.keys@ == o.keys@,
            self.free@ == o.free@,
            forall|m: int|
                0 <= m < self.num_slots() && m != i ==> #[trigger] self.data@[m] == o.data@[m],
        ensures
            self.wf(),
            FragmentStore::keys_same(o, self),
            forall|m: int| m != i ==> FragmentStore::slot_same(o, self, m),
    {
        assert forall|m: int| m != i implies FragmentStore::slot_same(o, self, m) by {
            if 0 <= m < self.num_slots() {
                assert(self.data@[m] == o.data@[m]);
            } else {
                assert(!self.slot_live(m) && !o.slot_live(m));
            }
        }
        assert forall|f: int|
            0 <= f < self.free@.len() implies (#[trigger] self.free@[f]) < self.data@.len()
                && self.data@[self.free@[f] as int] is None by {
            assert(o.data@[o.free@[f] as int] is None);
            assert(self.free@[f] != i);
        }
        assert forall|j: int|
            0 <= j < self.keys@.len() implies self.slot_live((#[trigger] self.keys@[j]).1 as int)
            by {
            assert(o.slot_live(o.keys@[j].1 as int));
        }
    }
}

} // verus!
