//! Versioned state store ("patched tree"): an arena of state cells, each
//! holding a committed value, a set of dependent fragments, and an optional
//! buffered write (the patch).
//!
//! Buffered writes are invisible to the committed half until
//! [`PatchedTree::update_tree`] commits them; a patched read
//! ([`PatchedTree::get_patched`]) observes the pending write of the current
//! pass first, which gives read-your-own-write within a pass. Reading does
//! not itself register a dependency: the evaluation context records the
//! reading fragment separately through [`PatchedTree::set_dependent`].

use crate::alist::{
    alist_find, lemma_alist_find_at, lemma_alist_find_none, lemma_alist_find_push,
    lemma_alist_find_remove,
};
use crate::keys::{HookKey, Key};
use vstd::prelude::*;

verus! {

/// A value held by a state cell or passed as a call argument: the engine's
/// tagged polymorphic payload. Richer application data is carried by tag
/// (for example as an index into application-side storage).
#[derive(Clone, Copy, PartialEq, Eq, Structural, Debug)]
pub enum TreeItem {
    Unit,
    Bool(bool),
    Int(i64),
}

/// A resolved location in the state store: the cell's hook key together
/// with its arena index, created once per key and reused afterward.
#[derive(Clone, Copy, PartialEq, Eq, Structural, Debug)]
pub struct HookRef {
    pub key: HookKey,
    pub idx: usize,
}

/// One state cell: owning hook key, the fragments that read it since the
/// set was last drained, the committed value, and the buffered write.
struct StateCell {
    key: HookKey,
    deps: Vec<usize>,
    value: TreeItem,
    patch: Option<TreeItem>,
}

/// The versioned state store.
pub struct PatchedTree {
    cells: Vec<Option<StateCell>>,
    free: Vec<usize>,
    index: Vec<(HookKey, usize)>,
}

impl PatchedTree {
    /// Number of arena slots (live or free).
    pub closed spec fn num_cells(self) -> int {
        self.cells@.len() as int
    }

    /// Slot `i` holds a live cell.
    pub closed spec fn live(self, i: int) -> bool {
        0 <= i < self.cells@.len() && self.cells@[i] is Some
    }

    /// The hook key owning live cell `i`.
    pub closed spec fn cell_key(self, i: int) -> HookKey {
        self.cells@[i].unwrap().key
    }

    /// The committed value of live cell `i`.
    pub closed spec fn value_of(self, i: int) -> TreeItem {
        self.cells@[i].unwrap().value
    }

    /// The buffered (not yet committed) write pending on live cell `i`.
    pub closed spec fn patch_of(self, i: int) -> Option<TreeItem> {
        self.cells@[i].unwrap().patch
    }

    /// The dependent fragments recorded on live cell `i`.
    pub closed spec fn deps_of(self, i: int) -> Seq<usize> {
        self.cells@[i].unwrap().deps@
    }

    /// What a patched read of live cell `i` observes: the pending write if
    /// one exists, else the committed value.
    pub open spec fn read_of(self, i: int) -> TreeItem {
        match self.patch_of(i) {
            Some(v) => v,
            None => self.value_of(i),
        }
    }

    /// The cell index registered for hook key `k`.
    pub closed spec fn idx_of(self, k: HookKey) -> Option<usize> {
        alist_find(self.index@, k)
    }

    /// `r` resolves to a live cell owned by `r.key`.
    pub open spec fn valid_ref(self, r: HookRef) -> bool {
        self.live(r.idx as int) && self.cell_key(r.idx as int) == r.key
    }

    /// Cell `i` is untouched between states `a` and `b`.
    pub open spec fn cell_same(a: PatchedTree, b: PatchedTree, i: int) -> bool {
        &&& a.live(i) == b.live(i)
        &&& a.live(i) ==> {
            &&& a.cell_key(i) == b.cell_key(i)
            &&& a.value_of(i) == b.value_of(i)
            &&& a.deps_of(i) == b.deps_of(i)
            &&& a.patch_of(i) == b.patch_of(i)
        }
    }

    /// States `a` and `b` register the same key-to-cell bindings.
    pub open spec fn index_same(a: PatchedTree, b: PatchedTree) -> bool {
        forall|q: HookKey| a.idx_of(q) == b.idx_of(q)
    }

    /// Well-formed: the key index binds distinct keys to distinct live
    /// cells, every live cell is bound under its own key, and the free list
    /// holds distinct dead slots.
    pub closed spec fn wf(self) -> bool {
        &&& forall|a: int, b: int|
            0 <= a < b < self.index@.len() ==> (#[trigger] self.index@[a]).0 != (
            #[trigger] self.index@[b]).0
        &&& forall|j: int|
            0 <= j < self.index@.len() ==> self.live((#[trigger] self.index@[j]).1 as int)
                && self.cell_key(self.index@[j].1 as int) == self.index@[j].0
        &&& forall|i: int|
            #[trigger] self.live(i) ==> exists|j: int|
                0 <= j < self.index@.len() && (#[trigger] self.index@[j]).0 == self.cell_key(i)
                    && self.index@[j].1 == i
        &&& forall|f: int|
            0 <= f < self.free@.len() ==> (#[trigger] self.free@[f]) < self.cells@.len()
                && self.cells@[self.free@[f] as int] is None
        &&& forall|a: int, b: int|
            0 <= a < b < self.free@.len() ==> (#[trigger] self.free@[a]) != (
            #[trigger] self.free@[b])
        &&& forall|i: int, a: int, b: int|
            self.live(i) && 0 <= a < b < self.deps_of(i).len() ==> (#[trigger] self.deps_of(
                i,
            )[a]) != (#[trigger] self.deps_of(i)[b])
    }

    pub fn new() -> (r: Self)
        ensures
            r.wf(),
            r.num_cells() == 0,
            forall|q: HookKey| #[trigger] r.idx_of(q) is None,
    {
        let r = PatchedTree { cells: Vec::new(), free: Vec::new(), index: Vec::new() };
        proof {
            assert forall|q: HookKey| #[trigger] r.idx_of(q) is None by {
                lemma_alist_find_none(r.index@, q);
            }
        }
        r
    }

    /// Idempotent cell creation: the first call for `key` allocates a fresh
    /// cell holding `value` with no dependents and no patch; later calls
    /// with the same key return the existing cell unchanged, value kept.
    pub fn initialize(&mut self, key: HookKey, value: TreeItem) -> (r: HookRef)
        requires
            old(self).wf(),
        ensures
            final(self).wf(),
            r.key == key,
            final(self).valid_ref(r),
            final(self).idx_of(key) == Some(r.idx),
            old(self).idx_of(key) matches Some(i) ==> r.idx == i && *final(self) == *old(self),
            old(self).idx_of(key) is None ==> {
                &&& !old(self).live(r.idx as int)
                &&& final(self).value_of(r.idx as int) == value
                &&& final(self).deps_of(r.idx as int) == Seq::<usize>::empty()
                &&& final(self).patch_of(r.idx as int) is None
                &&& forall|i: int|
                    i != r.idx ==> PatchedTree::cell_same(*old(self), *final(self), i)
                &&& forall|q: HookKey|
                    q != key ==> final(self).idx_of(q) == old(self).idx_of(q)
            },
    {
        let ghost s0 = self.index@;
        let mut j: usize = 0;
        while j < self.index.len()
            invariant
                j <= self.index@.len(),
                *self == *old(self),
                self.index@ == s0,
                old(self).wf(),
                forall|m: int| 0 <= m < j ==> (#[trigger] s0[m]).0 != key,
            decreases self.index@.len() - j,
        {
            let e = self.index[j];
            if e.0 == key {
                proof {
                    lemma_alist_find_at(s0, key, j as int);
                }
                return HookRef { key, idx: e.1 };
            }
            j = j + 1;
        }
        proof {
            lemma_alist_find_none(s0, key);
        }
        let cell = StateCell { key, deps: Vec::new(), value, patch: None };
        let idx: usize;
        let popped = self.free.pop();
        match popped {
            Some(f) => {
                idx = f;
                self.cells[f] = Some(cell);
            },
            None => {
                idx = self.cells.len();
                self.cells.push(Some(cell));
            },
        }
        self.index.push((key, idx));
        proof {
            let t = *self;
            let o = *old(self);
            assert(t.index@ =~= s0.push((key, idx)));
            lemma_alist_find_push(s0, key, idx, key);
            assert forall|q: HookKey| q != key implies t.idx_of(q) == o.idx_of(q) by {
                lemma_alist_find_push(s0, key, idx, q);
            }
            assert(t.live(idx as int) && t.cell_key(idx as int) == key);
            assert forall|i: int| i != idx implies PatchedTree::cell_same(o, t, i) by {}
            assert forall|jj: int|
                0 <= jj < t.index@.len() implies t.live((#[trigger] t.index@[jj]).1 as int)
                    && t.cell_key(t.index@[jj].1 as int) == t.index@[jj].0 by {
                if jj < s0.len() {
                    assert(t.index@[jj] == s0[jj]);
                    assert(o.live(s0[jj].1 as int));
                }
            }
            assert forall|i: int| #[trigger] t.live(i) implies exists|jj: int|
                0 <= jj < t.index@.len() && (#[trigger] t.index@[jj]).0 == t.cell_key(i)
                    && t.index@[jj].1 == i by {
                if i == idx {
                    assert(t.index@[t.index@.len() - 1] == (key, idx));
                } else {
                    assert(o.live(i));
                    let jj = choose|jj: int|
                        0 <= jj < s0.len() && (#[trigger] s0[jj]).0 == o.cell_key(i)
                            && s0[jj].1 == i;
                    assert(t.index@[jj] == s0[jj]);
                }
            }
            assert forall|i: int, a: int, b: int|
                t.live(i) && 0 <= a < b < t.deps_of(i).len() implies (#[trigger] t.deps_of(
                    i,
                )[a]) != (#[trigger] t.deps_of(i)[b]) by {
                if i == idx {
                    assert(t.deps_of(i).len() == 0);
                } else {
                    assert(o.live(i));
                    assert(t.deps_of(i) == o.deps_of(i));
                    assert(o.deps_of(i)[a] != o.deps_of(i)[b]);
                }
            }
        }
        HookRef { key, idx }
    }

    /// Resolves a hook key to its cached store location, if the cell
    /// exists.
    pub fn lookup(&self, key: HookKey) -> (r: Option<HookRef>)
        requires
            self.wf(),
        ensures
            r matches Some(h) ==> h.key == key && self.idx_of(key) == Some(h.idx)
                && self.valid_ref(h),
            r is None ==> self.idx_of(key) is None,
    {
        let mut j: usize = 0;
        while j < self.index.len()
            invariant
                j <= self.index@.len(),
                self.wf(),
                forall|m: int| 0 <= m < j ==> (#[trigger] self.index@[m]).0 != key,
            decreases self.index@.len() - j,
        {
            let e = self.index[j];
            if e.0 == key {
                proof {
                    lemma_alist_find_at(self.index@, key, j as int);
                }
                return Some(HookRef { key, idx: e.1 });
            }
            j = j + 1;
        }
        proof {
            lemma_alist_find_none(self.index@, key);
        }
        None
    }

    /// The patched read: the pending write on the cell if any, else the
    /// committed value.
    pub fn get_patched(&self, r: HookRef) -> (v: TreeItem)
        requires
            self.wf(),
            self.live(r.idx as int),
        ensures
            v == self.read_of(r.idx as int),
    {
        match &self.cells[r.idx] {
            Some(cell) => match cell.patch {
                Some(p) => p,
                None => cell.value,
            },
            None => {
                proof {
                    assert(false);
                }
                TreeItem::Unit
            },
        }
    }

    /// The committed value, ignoring any pending write.
    pub fn get_unpatched(&self, r: HookRef) -> (v: TreeItem)
        requires
            self.wf(),
            self.live(r.idx as int),
        ensures
            v == self.value_of(r.idx as int),
    {
        match &self.cells[r.idx] {
            Some(cell) => cell.value,
            None => {
                proof {
                    assert(false);
                }
                TreeItem::Unit
            },
        }
    }

    /// Discards the pending write on the cell, if any.
    pub fn remove_patch(&mut self, r: HookRef)
        requires
            old(self).wf(),
            old(self).live(r.idx as int),
        ensures
            final(self).wf(),
            final(self).live(r.idx as int),
            final(self).patch_of(r.idx as int) is None,
            final(self).cell_key(r.idx as int) == old(self).cell_key(r.idx as int),
            final(self).value_of(r.idx as int) == old(self).value_of(r.idx as int),
            final(self).deps_of(r.idx as int) == old(self).deps_of(r.idx as int),
            forall|i: int| i != r.idx ==> PatchedTree::cell_same(*old(self), *final(self), i),
            PatchedTree::index_same(*old(self), *final(self)),
            final(self).num_cells() == old(self).num_cells(),
    {
        match &mut self.cells[r.idx] {
            Some(cell) => {
                cell.patch = None;
            },
            None => {
                proof {
                    assert(false);
                }
            },
        }
        proof {
            assert(self.deps_of(r.idx as int) == old(self).deps_of(r.idx as int));
            assert forall|a: int, b: int|
                0 <= a < b < self.deps_of(r.idx as int).len() implies (#[trigger] self.deps_of(
                    r.idx as int,
                )[a]) != (#[trigger] self.deps_of(r.idx as int)[b]) by {
                assert(old(self).deps_of(r.idx as int)[a] != old(self).deps_of(r.idx as int)[b]);
            }
            self.lemma_content_frame(*old(self), r.idx as int);
        }
    }

    /// Buffers a write: inserts or overwrites the pending patch on the
    /// cell; the committed value stays untouched until the next commit.
    /// Multiple writes before a commit overwrite each other, last one wins.
    pub fn set(&mut self, r: HookRef, value: TreeItem)
        requires
            old(self).wf(),
            old(self).live(r.idx as int),
        ensures
            final(self).wf(),
            final(self).live(r.idx as int),
            final(self).patch_of(r.idx as int) == Some(value),
            final(self).read_of(r.idx as int) == value,
            final(self).cell_key(r.idx as int) == old(self).cell_key(r.idx as int),
            final(self).value_of(r.idx as int) == old(self).value_of(r.idx as int),
            final(self).deps_of(r.idx as int) == old(self).deps_of(r.idx as int),
            forall|i: int| i != r.idx ==> PatchedTree::cell_same(*old(self), *final(self), i),
            PatchedTree::index_same(*old(self), *final(self)),
            final(self).num_cells() == old(self).num_cells(),
    {
        match &mut self.cells[r.idx] {
            Some(cell) => {
                cell.patch = Some(value);
            },
            None => {
                proof {
                    assert(false);
                }
            },
        }
        proof {
            assert(self.deps_of(r.idx as int) == old(self).deps_of(r.idx as int));
            assert forall|a: int, b: int|
                0 <= a < b < self.deps_of(r.idx as int).len() implies (#[trigger] self.deps_of(
                    r.idx as int,
                )[a]) != (#[trigger] self.deps_of(r.idx as int)[b]) by {
                assert(old(self).deps_of(r.idx as int)[a] != old(self).deps_of(r.idx as int)[b]);
            }
            self.lemma_content_frame(*old(self), r.idx as int);
        }
    }

    /// Overwrites the committed value directly, bypassing the patch buffer.
    pub fn set_unconditional(&mut self, idx: usize, value: TreeItem)
        requires
            old(self).wf(),
            old(self).live(idx as int),
        ensures
            final(self).wf(),
            final(self).live(idx as int),
            final(self).value_of(idx as int) == value,
            final(self).patch_of(idx as int) == old(self).patch_of(idx as int),
            final(self).cell_key(idx as int) == old(self).cell_key(idx as int),
            final(self).deps_of(idx as int) == old(self).deps_of(idx as int),
            forall|i: int| i != idx ==> PatchedTree::cell_same(*old(self), *final(self), i),
            PatchedTree::index_same(*old(self), *final(self)),
            final(self).num_cells() == old(self).num_cells(),
    {
        match &mut self.cells[idx] {
            Some(cell) => {
                cell.value = value;
            },
            None => {
                proof {
                    assert(false);
                }
            },
        }
        proof {
            assert(self.deps_of(idx as int) == old(self).deps_of(idx as int));
            assert forall|a: int, b: int|
                0 <= a < b < self.deps_of(idx as int).len() implies (#[trigger] self.deps_of(
                    idx as int,
                )[a]) != (#[trigger] self.deps_of(idx as int)[b]) by {
                assert(old(self).deps_of(idx as int)[a] != old(self).deps_of(idx as int)[b]);
            }
            self.lemma_content_frame(*old(self), idx as int);
        }
    }

    /// Records `frag` as a dependent of the cell: it will be handed out by
    /// the next drain of the cell's dependent set.
    pub fn set_dependent(&mut self, r: HookRef, frag: usize)
        requires
            old(self).wf(),
            old(self).live(r.idx as int),
        ensures
            final(self).wf(),
            final(self).live(r.idx as int),
            final(self).deps_of(r.idx as int) == if old(self).deps_of(r.idx as int).contains(
                frag,
            ) {
                old(self).deps_of(r.idx as int)
            } else {
                old(self).deps_of(r.idx as int).push(frag)
            },
            final(self).deps_of(r.idx as int).contains(frag),
            final(self).cell_key(r.idx as int) == old(self).cell_key(r.idx as int),
            final(self).value_of(r.idx as int) == old(self).value_of(r.idx as int),
            final(self).patch_of(r.idx as int) == old(self).patch_of(r.idx as int),
            forall|i: int| i != r.idx ==> PatchedTree::cell_same(*old(self), *final(self), i),
            PatchedTree::index_same(*old(self), *final(self)),
            final(self).num_cells() == old(self).num_cells(),
    {
        let ghost o = *old(self);
        match &mut self.cells[r.idx] {
            Some(cell) => {
                let ghost d0 = cell.deps@;
                let mut found = false;
                let mut m: usize = 0;
                while m < cell.deps.len() && !found
                    invariant
                        m <= cell.deps@.len(),
                        cell.deps@ == d0,
                        found ==> d0.contains(frag),
                        !found ==> forall|n: int| 0 <= n < m ==> d0[n] != frag,
                    decreases cell.deps@.len() - m + (if found { 0int } else { 1 }),
                {
                    if cell.deps[m] == frag {
                        found = true;
                        proof {
                            assert(d0[m as int] == frag);
                        }
                    } else {
                        m = m + 1;
                    }
                }
                proof {
                    if !found {
                        assert(!d0.contains(frag)) by {
                            if d0.contains(frag) {
                                let n = choose|n: int| 0 <= n < d0.len() && d0[n] == frag;
                                assert(false);
                            }
                        }
                    }
                }
                if !found {
                    cell.deps.push(frag);
                    proof {
                        assert(cell.deps@[d0.len() as int] == frag);
                        assert(cell.deps@.contains(frag));
                    }
                }
            },
            None => {
                proof {
                    assert(false);
                }
            },
        }
        proof {
            assert forall|a: int, b: int|
                0 <= a < b < self.deps_of(r.idx as int).len() implies (#[trigger] self.deps_of(
                    r.idx as int,
                )[a]) != (#[trigger] self.deps_of(r.idx as int)[b]) by {
                let d0 = o.deps_of(r.idx as int);
                if self.deps_of(r.idx as int) == d0 {
                    assert(d0[a] != d0[b]);
                } else {
                    assert(self.deps_of(r.idx as int) == d0.push(frag));
                    if b == d0.len() {
                        assert(!d0.contains(frag));
                        assert(d0[a] != frag);
                    } else {
                        assert(d0[a] != d0[b]);
                    }
                }
            }
            self.lemma_content_frame(o, r.idx as int);
        }
    }

    /// Drains the cell's dependent set: returns the fragments that read the
    /// cell since the last drain, and clears the set. Consumption is
    /// destructive: a fragment must re-register on its next read.
    pub fn dependents(&mut self, r: HookRef) -> (d: Vec<usize>)
        requires
            old(self).wf(),
            old(self).live(r.idx as int),
        ensures
            final(self).wf(),
            final(self).live(r.idx as int),
            d@ == old(self).deps_of(r.idx as int),
            final(self).deps_of(r.idx as int) == Seq::<usize>::empty(),
            final(self).cell_key(r.idx as int) == old(self).cell_key(r.idx as int),
            final(self).value_of(r.idx as int) == old(self).value_of(r.idx as int),
            final(self).patch_of(r.idx as int) == old(self).patch_of(r.idx as int),
            forall|i: int| i != r.idx ==> PatchedTree::cell_same(*old(self), *final(self), i),
            PatchedTree::index_same(*old(self), *final(self)),
            final(self).num_cells() == old(self).num_cells(),
    {
        let ghost o = *old(self);
        let d: Vec<usize>;
        match &mut self.cells[r.idx] {
            Some(cell) => {
                let mut taken: Vec<usize> = Vec::new();
                core::mem::swap(&mut taken, &mut cell.deps);
                d = taken;
            },
            None => {
                proof {
                    assert(false);
                }
                d = Vec::new();
            },
        }
        proof {
            self.lemma_content_frame(o, r.idx as int);
        }
        d
    }


    /// A mutation that kept every cell's liveness and key, the index and
    /// the free list, preserves well-formedness.
    proof fn lemma_shape_frame(self, o: PatchedTree)
        requires
            o.wf(),
            self.num_cells() == o.num_cells(),
            forall|i: int| self.live(i) == o.live(i),
            forall|i: int| o.live(i) ==> self.cell_key(i) == o.cell_key(i),
            self.index@ == o.index@,
            self.free@ == o.free@,
            forall|i: int| o.live(i) ==> #[trigger] self.deps_of(i) == o.deps_of(i),
        ensures
            self.wf(),
    {
        assert forall|m: int, a: int, b: int|
            self.live(m) && 0 <= a < b < self.deps_of(m).len() implies (#[trigger] self.deps_of(
                m,
            )[a]) != (#[trigger] self.deps_of(m)[b]) by {
            assert(o.live(m));
            assert(self.deps_of(m) == o.deps_of(m));
        }
        assert forall|f: int|
            0 <= f < self.free@.len() implies (#[trigger] self.free@[f]) < self.cells@.len()
                && self.cells@[self.free@[f] as int] is None by {
            assert(!o.live(self.free@[f] as int));
            assert(!self.live(self.free@[f] as int));
        }
        assert forall|i: int| #[trigger] self.live(i) implies exists|j: int|
            0 <= j < self.index@.len() && (#[trigger] self.index@[j]).0 == self.cell_key(i)
                && self.index@[j].1 == i by {
            assert(o.live(i));
            let j = choose|j: int|
                0 <= j < o.index@.len() && (#[trigger] o.index@[j]).0 == o.cell_key(i)
                    && o.index@[j].1 == i;
            assert(self.index@[j].0 == self.cell_key(i));
        }
    }



    /// A mutation that changed only the content of live cell `i` (never its
    /// key or liveness) preserves well-formedness and the index bindings.
    proof fn lemma_content_frame(self, o: PatchedTree, i: int)
        requires
            o.wf(),
            o.live(i),
            self.num_cells() == o.num_cells(),
            self.live(i),
            self.cell_key(i) == o.cell_key(i),
            self.index@ == o.index@,
            forall|m: int|
                0 <= m < self.num_cells() && m != i ==> #[trigger] self.cells@[m] == o.cells@[m],
            self.free@ == o.free@,
            forall|a: int, b: int|
                0 <= a < b < self.deps_of(i).len() ==> (#[trigger] self.deps_of(i)[a]) != (
                #[trigger] self.deps_of(i)[b]),
        ensures
            self.wf(),
            PatchedTree::index_same(o, self),
            forall|m: int| m != i ==> PatchedTree::cell_same(o, self, m),
    {
        assert forall|m: int, a: int, b: int|
            self.live(m) && 0 <= a < b < self.deps_of(m).len() implies (#[trigger] self.deps_of(
                m,
            )[a]) != (#[trigger] self.deps_of(m)[b]) by {
            if m != i {
                assert(self.cells@[m] == o.cells@[m]);
                assert(o.live(m));
                assert(self.deps_of(m) == o.deps_of(m));
                assert(o.deps_of(m)[a] != o.deps_of(m)[b]);
            }
        }
        assert forall|m: int| m != i implies PatchedTree::cell_same(o, self, m) by {
            if 0 <= m < self.num_cells() {
                assert(self.cells@[m] == o.cells@[m]);
            } else {
                assert(!self.live(m) && !o.live(m));
            }
        }
        assert forall|m: int| #[trigger] self.live(m) implies exists|j: int|
            0 <= j < self.index@.len() && (#[trigger] self.index@[j]).0 == self.cell_key(m)
                && self.index@[j].1 == m by {
            assert(o.live(m));
            let j = choose|j: int|
                0 <= j < o.index@.len() && (#[trigger] o.index@[j]).0 == o.cell_key(m)
                    && o.index@[j].1 == m;
            assert(self.index@[j].0 == self.cell_key(m));
        }
    }

    /// Commits all buffered writes: atomically drains the patch buffer,
    /// applies each pending write to its cell's committed value, and
    /// returns the touched hook references, one per patched cell. This is
    /// the single point where buffered and committed state synchronize: a
    /// write becomes observable as a touched key only here, never
    /// mid-cycle. Dependent sets are untouched.
    pub fn update_tree(&mut self) -> (touched: Vec<HookRef>)
        requires
            old(self).wf(),
        ensures
            final(self).wf(),
            final(self).num_cells() == old(self).num_cells(),
            PatchedTree::index_same(*old(self), *final(self)),
            forall|i: int| final(self).live(i) == old(self).live(i),
            forall|i: int|
                old(self).live(i) ==> {
                    &&& final(self).cell_key(i) == old(self).cell_key(i)
                    &&& final(self).deps_of(i) == old(self).deps_of(i)
                    &&& final(self).patch_of(i) is None
                    &&& final(self).value_of(i) == old(self).read_of(i)
                },
            forall|m: int|
                0 <= m < touched@.len() ==> old(self).live(
                    (#[trigger] touched@[m]).idx as int,
                ) && old(self).patch_of(touched@[m].idx as int) is Some && touched@[m].key == old(
                    self,
                ).cell_key(touched@[m].idx as int),
            forall|i: int|
                old(self).live(i) && old(self).patch_of(i) is Some ==> exists|m: int|
                    0 <= m < touched@.len() && (#[trigger] touched@[m]).idx == i,
            forall|a: int, b: int|
                0 <= a < b < touched@.len() ==> (#[trigger] touched@[a]).idx < (
                #[trigger] touched@[b]).idx,
    {
        let mut touched: Vec<HookRef> = Vec::new();
        let mut i: usize = 0;
        while i < self.cells.len()
            invariant
                i <= self.cells@.len(),
                old(self).wf(),
                self.num_cells() == old(self).num_cells(),
                self.index@ == old(self).index@,
                self.free@ == old(self).free@,
                forall|j: int| self.live(j) == old(self).live(j),
                forall|j: int|
                    i <= j < self.num_cells() ==> #[trigger] self.cells@[j] == old(self).cells@[j],
                forall|j: int|
                    0 <= j < i && old(self).live(j) ==> {
                        &&& self.cell_key(j) == old(self).cell_key(j)
                        &&& self.deps_of(j) == old(self).deps_of(j)
                        &&& self.patch_of(j) is None
                        &&& self.value_of(j) == old(self).read_of(j)
                    },
                forall|m: int|
                    0 <= m < touched@.len() ==> old(self).live(
                        (#[trigger] touched@[m]).idx as int,
                    ) && old(self).patch_of(touched@[m].idx as int) is Some && touched@[m].key
                        == old(self).cell_key(touched@[m].idx as int) && touched@[m].idx < i,
                forall|j: int|
                    0 <= j < i && old(self).live(j) && old(self).patch_of(j) is Some ==> exists|
                        m: int,
                    | 0 <= m < touched@.len() && (#[trigger] touched@[m]).idx == j,
                forall|a: int, b: int|
                    0 <= a < b < touched@.len() ==> (#[trigger] touched@[a]).idx < (
                    #[trigger] touched@[b]).idx,
            decreases self.cells@.len() - i,
        {
            let ghost pre = *self;
            let ghost t0 = touched@;
            let mut pushed = false;
            let mut pushed_key = HookKey { key: 0, slot: 0 };
            match &mut self.cells[i] {
                Some(cell) => {
                    match cell.patch {
                        Some(v) => {
                            cell.value = v;
                            cell.patch = None;
                            pushed = true;
                            pushed_key = cell.key;
                        },
                        None => {},
                    }
                },
                None => {},
            }
            if pushed {
                touched.push(HookRef { key: pushed_key, idx: i });
            }
            proof {
                let t1 = touched@;
                assert forall|j: int|
                    0 <= j <= i && old(self).live(j) && old(self).patch_of(j) is Some implies
                    exists|m: int| 0 <= m < t1.len() && (#[trigger] t1[m]).idx == j by {
                    if j == i {
                        if pushed {
                            assert(t1[t1.len() - 1] == (HookRef { key: pushed_key, idx: i }));
                        } else {
                            assert(pre.cells@[i as int] == old(self).cells@[i as int]);
                            assert(old(self).patch_of(i as int) is None);
                        }
                    } else {
                        let m = choose|m: int|
                            0 <= m < t0.len() && (#[trigger] t0[m]).idx == j;
                        assert(t1[m].idx == j);
                    }
                }
            }
            i = i + 1;
        }
        proof {
            self.lemma_shape_frame(*old(self));
        }
        touched
    }

    /// Releases every state cell registered under widget key `key`: their
    /// bindings leave the index and their slots are freed, so a later
    /// `initialize` under the same widget key allocates a fresh cell.
    /// Cells of other widgets and their bindings are untouched.
    pub fn remove_widget(&mut self, key: Key)
        requires
            old(self).wf(),
        ensures
            final(self).wf(),
            final(self).num_cells() == old(self).num_cells(),
            forall|q: HookKey| q.key == key ==> final(self).idx_of(q) is None,
            forall|q: HookKey| q.key != key ==> final(self).idx_of(q) == old(self).idx_of(q),
            forall|i: int|
                old(self).live(i) && (old(self).cell_key(i)).key == key ==> !final(self).live(i),
            forall|i: int|
                old(self).live(i) && (old(self).cell_key(i)).key != key ==> PatchedTree::cell_same(
                    *old(self),
                    *final(self),
                    i,
                ),
            forall|i: int| !old(self).live(i) ==> !final(self).live(i),
    {
        let mut j: usize = 0;
        while j < self.index.len()
            invariant
                j <= self.index@.len(),
                old(self).wf(),
                self.wf(),
                self.num_cells() == old(self).num_cells(),
                forall|m: int| 0 <= m < j ==> ((#[trigger] self.index@[m]).0).key != key,
                forall|q: HookKey| q.key != key ==> self.idx_of(q) == old(self).idx_of(q),
                forall|i: int|
                    #[trigger] self.live(i) ==> old(self).live(i) && self.cells@[i] == old(
                        self,
                    ).cells@[i],
                forall|i: int|
                    old(self).live(i) && (old(self).cell_key(i)).key != key
                        ==> PatchedTree::cell_same(*old(self), *self, i),
            decreases self.index@.len() - j,
        {
            let e = self.index[j];
            if e.0.key == key {
                let ghost pre = *self;
                self.index.remove(j);
                self.cells[e.1] = None;
                self.free.push(e.1);
                proof {
                    let t = *self;
                    assert(pre.live(e.1 as int) && pre.cell_key(e.1 as int) == e.0);
                    assert forall|m: int|
                        0 <= m < pre.index@.len() && m != j implies (
                    #[trigger] pre.index@[m]).1 != e.1 by {
                        if pre.index@[m].1 == e.1 {
                            assert(pre.index@[m].0 == pre.cell_key(e.1 as int));
                        }
                    }
                    assert(t.index@ =~= pre.index@.remove(j as int));
                    assert forall|q: HookKey| q.key != key implies t.idx_of(q) == pre.idx_of(
                        q,
                    ) by {
                        lemma_alist_find_remove(pre.index@, j as int, q);
                    }
                    assert forall|m: int|
                        0 <= m < t.index@.len() implies t.live((#[trigger] t.index@[m]).1 as int)
                            && t.cell_key(t.index@[m].1 as int) == t.index@[m].0 by {
                        if m < j {
                            assert(t.index@[m] == pre.index@[m]);
                        } else {
                            assert(t.index@[m] == pre.index@[m + 1]);
                        }
                    }
                    assert forall|i: int| #[trigger] t.live(i) implies exists|jj: int|
                        0 <= jj < t.index@.len() && (#[trigger] t.index@[jj]).0 == t.cell_key(i)
                            && t.index@[jj].1 == i by {
                        assert(pre.live(i));
                        let jj = choose|jj: int|
                            0 <= jj < pre.index@.len() && (#[trigger] pre.index@[jj]).0
                                == pre.cell_key(i) && pre.index@[jj].1 == i;
                        assert(jj != j);
                        if jj < j {
                            assert(t.index@[jj] == pre.index@[jj]);
                        } else {
                            assert(t.index@[jj - 1] == pre.index@[jj]);
                        }
                    }
                    assert forall|f: int|
                        0 <= f < t.free@.len() implies (#[trigger] t.free@[f]) < t.cells@.len()
                            && t.cells@[t.free@[f] as int] is None by {
                        if f < pre.free@.len() {
                            assert(t.free@[f] == pre.free@[f]);
                            assert(pre.cells@[pre.free@[f] as int] is None);
                        } else {
                            assert(t.free@[f] == e.1);
                        }
                    }
                    assert forall|a: int, b: int|
                        0 <= a < b < t.free@.len() implies (#[trigger] t.free@[a]) != (
                    #[trigger] t.free@[b]) by {
                        if b == t.free@.len() - 1 {
                            assert(t.free@[a] == pre.free@[a]);
                            assert(pre.cells@[pre.free@[a] as int] is None);
                            assert(pre.cells@[e.1 as int] is Some);
                        }
                    }
                    assert forall|i: int, a: int, b: int|
                        t.live(i) && 0 <= a < b < t.deps_of(i).len() implies (
                    #[trigger] t.deps_of(i)[a]) != (#[trigger] t.deps_of(i)[b]) by {
                        assert(t.cells@[i] == old(self).cells@[i]);
                        assert(old(self).live(i));
                        assert(t.deps_of(i) == old(self).deps_of(i));
                        assert(old(self).deps_of(i)[a] != old(self).deps_of(i)[b]);
                    }
                }
            } else {
                j = j + 1;
            }
        }
        proof {
            let t = *self;
            assert forall|q: HookKey| q.key == key implies t.idx_of(q) is None by {
                assert(forall|m: int|
                    0 <= m < t.index@.len() ==> (#[trigger] t.index@[m]).0 != q);
                lemma_alist_find_none(t.index@, q);
            }
            assert forall|i: int|
                old(self).live(i) && (old(self).cell_key(i)).key == key implies !t.live(i) by {
                if t.live(i) {
                    assert(t.cells@[i] == old(self).cells@[i]);
                    let jj = choose|jj: int|
                        0 <= jj < t.index@.len() && (#[trigger] t.index@[jj]).0 == t.cell_key(i)
                            && t.index@[jj].1 == i;
                    assert((t.index@[jj].0).key != key);
                }
            }
        }
    }
}

/// In a well-formed store, a bound hook key resolves to a live cell owned
/// by that key: the arena reference a repeated `initialize` hands back is
/// the same cell, holding the same state.
pub proof fn lemma_bound_key_resolves(t: PatchedTree, k: HookKey)
    requires
        t.wf(),
        t.idx_of(k) is Some,
    ensures
        t.live(t.idx_of(k).unwrap() as int),
        t.cell_key(t.idx_of(k).unwrap() as int) == k,
{
    crate::alist::lemma_alist_find_some(t.index@, k);
    let m = choose|m: int|
        0 <= m < t.index@.len() && #[trigger] t.index@[m] == (k, t.idx_of(k).unwrap());
    assert(t.live(t.index@[m].1 as int));
}

/// Read-your-own-write: a store whose cell `i` carries a pending write `v`
/// observes `v` on a patched read of `i`, whatever the committed value
/// says. (After a commit, the committed value itself becomes the patched
/// read of the pre-commit state: see `update_tree`.)
pub proof fn lemma_read_your_own_write(t: PatchedTree, i: int, v: TreeItem)
    requires
        t.patch_of(i) == Some(v),
    ensures
        t.read_of(i) == v,
{
}

} // verus!
