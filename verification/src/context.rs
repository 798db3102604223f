//! Evaluation context: the per-call-frame handle through which generators
//! interact with the engine.
//!
//! A generator receives a [`WidgetContext`] scoped to its own fragment
//! (`widget_local`) and uses it to derive hook keys, create or read state
//! cells, buffer writes, and declare child fragments. Generators never see
//! the layout collaborator and cannot tear fragments down: the context's
//! public surface only grows the tree, which is what the engine's framing
//! guarantees rest on.

use crate::fragment::{Fragment, FragmentStore, UnevaluatedFragment};
use crate::keys::{ExternalHookCount, HookKey, Key, KeyMap, EXTERNAL_HOOK_FLAG};
use crate::store::{HookRef, PatchedTree, TreeItem};
use vstd::prelude::*;

verus! {

/// The context's per-fragment part: the fragment's key, its slot, and the
/// local hook counter, which restarts at zero on every evaluation pass (the
/// deterministic half of the hook-key space).
#[derive(Clone, Copy, PartialEq, Eq, Structural, Debug)]
pub struct WidgetLocalContext {
    pub key: Key,
    pub idx: Fragment,
    pub hook_counter: u16,
}

impl WidgetLocalContext {
    /// A fresh per-fragment context: hook numbering starts at zero.
    pub fn for_key(key: Key, idx: Fragment) -> (r: Self)
        ensures
            r == (WidgetLocalContext { key, idx, hook_counter: 0u16 }),
    {
        Self { idx, key, hook_counter: 0 }
    }
}

/// A fragment description, as a generator returns it: layout properties,
/// an optional render payload, the child fragments in declaration order,
/// and whether the fragment clips its subtree.
pub struct FragmentInner {
    pub layout: TreeItem,
    pub render_object: Option<TreeItem>,
    pub children: Vec<Fragment>,
    pub is_clipper: bool,
}

/// The evaluation context handed to a generator.
pub struct WidgetContext<G> {
    pub(crate) tree: PatchedTree,
    pub(crate) fragment_store: FragmentStore<G>,
    pub(crate) external_hook_count: ExternalHookCount,
    pub(crate) key_map: KeyMap,
    pub(crate) widget_local: WidgetLocalContext,
    pub(crate) local_hook: bool,
    pub(crate) after_frame_callbacks: Vec<TreeItem>,
}

impl<G> WidgetContext<G> {
    /// The state store's state, for specification purposes.
    pub closed spec fn tree_model(self) -> PatchedTree {
        self.tree
    }

    /// The fragment arena's state, for specification purposes.
    pub closed spec fn store_model(self) -> FragmentStore<G> {
        self.fragment_store
    }

    /// The external hook counters, for specification purposes.
    pub closed spec fn hooks_model(self) -> ExternalHookCount {
        self.external_hook_count
    }

    /// The identity registry, for specification purposes.
    pub closed spec fn keys_model(self) -> KeyMap {
        self.key_map
    }

    /// The per-fragment part, for specification purposes.
    pub closed spec fn local_model(self) -> WidgetLocalContext {
        self.widget_local
    }

    /// The after-frame callback payloads registered so far, in order.
    pub closed spec fn callbacks_model(self) -> Seq<TreeItem> {
        self.after_frame_callbacks@
    }

    /// Links the specification models to the underlying components, for
    /// the engine's own modules.
    pub(crate) proof fn models(self)
        ensures
            self.tree_model() == self.tree,
            self.store_model() == self.fragment_store,
            self.hooks_model() == self.external_hook_count,
            self.keys_model() == self.key_map,
            self.local_model() == self.widget_local,
            self.local_hook_model() == self.local_hook,
            self.callbacks_model() == self.after_frame_callbacks@,
    {
    }

    /// All components of the context are well-formed.
    pub open spec fn inv(self) -> bool {
        &&& self.tree_model().wf()
        &&& self.store_model().wf()
        &&& self.hooks_model().wf()
        &&& self.keys_model().wf()
    }

    /// The parts of the context a generator may not change: every slot that
    /// was allocated stays allocated, and every populated fragment record
    /// is untouched (generators may only add fragments and set arguments).
    pub open spec fn grows_from(post: Self, pre: Self) -> bool {
        &&& forall|i: int|
            pre.store_model().slot_live(i) ==> #[trigger] post.store_model().slot_live(i)
        &&& forall|i: int|
            pre.store_model().slot_live(i) && pre.store_model().frag_of(i) is Some
                ==> #[trigger] post.store_model().frag_of(i) == pre.store_model().frag_of(i)
    }

    /// The framing relation composes across successive context operations.
    pub proof fn lemma_grows_from_trans(a: Self, b: Self, c: Self)
        requires
            WidgetContext::grows_from(b, a),
            WidgetContext::grows_from(c, b),
        ensures
            WidgetContext::grows_from(c, a),
    {
        assert forall|i: int|
            a.store_model().slot_live(i) implies #[trigger] c.store_model().slot_live(i) by {
            assert(b.store_model().slot_live(i));
        }
        assert forall|i: int|
            a.store_model().slot_live(i) && a.store_model().frag_of(i)
                is Some implies #[trigger] c.store_model().frag_of(i) == a.store_model().frag_of(
            i,
        ) by {
            assert(b.store_model().slot_live(i));
            assert(b.store_model().frag_of(i) == a.store_model().frag_of(i));
        }
    }

    pub(crate) fn root_new(local: WidgetLocalContext) -> (r: Self)
        ensures
            r.inv(),
            r.local_model() == local,
            r.store_model().num_slots() == 0,
            r.store_model().dirty() == Seq::<Fragment>::empty(),
            forall|k: Key| #[trigger] r.store_model().key_slot(k) is None,
            r.tree_model().num_cells() == 0,
            forall|q: HookKey| #[trigger] r.tree_model().idx_of(q) is None,
    {
        WidgetContext {
            tree: PatchedTree::new(),
            fragment_store: FragmentStore::new(),
            external_hook_count: ExternalHookCount::new(),
            key_map: KeyMap::new(),
            widget_local: local,
            local_hook: true,
            after_frame_callbacks: Vec::new(),
        }
    }

    /// Derives the hook key for the next hook of the current fragment:
    /// local hooks count up the deterministic per-evaluation counter,
    /// external hooks draw from the persistent per-key space tagged with
    /// [`EXTERNAL_HOOK_FLAG`]. `None` once the 15-bit space is exhausted:
    /// the explicit overflow policy is to fail, never to wrap into the
    /// other space.
    pub fn key_for_hook(&mut self) -> (r: Option<HookKey>)
        requires
            old(self).inv(),
        ensures
            final(self).inv(),
            WidgetContext::grows_from(*final(self), *old(self)),
            final(self).tree_model() == old(self).tree_model(),
            final(self).store_model() == old(self).store_model(),
            final(self).keys_model() == old(self).keys_model(),
            final(self).local_model().key == old(self).local_model().key,
            final(self).local_model().idx == old(self).local_model().idx,
            final(self).local_hook_model() == old(self).local_hook_model(),
            r matches Some(k) ==> k.key == old(self).local_model().key,
            old(self).local_hook_model() && old(self).local_model().hook_counter
                < EXTERNAL_HOOK_FLAG ==> r == Some(
                HookKey {
                    key: old(self).local_model().key,
                    slot: old(self).local_model().hook_counter,
                },
            ) && final(self).local_model().hook_counter == old(self).local_model().hook_counter
                + 1,
            r matches Some(k) ==> (k.slot < EXTERNAL_HOOK_FLAG) == old(self).local_hook_model(),
            old(self).local_hook_model() && old(self).local_model().hook_counter
                >= EXTERNAL_HOOK_FLAG ==> r is None && *final(self) == *old(self),
            old(self).local_hook_model() ==> final(self).hooks_model() == old(self).hooks_model(),
            !old(self).local_hook_model() ==> {
                let c = old(self).hooks_model().count_of(old(self).local_model().key);
                &&& c < EXTERNAL_HOOK_FLAG ==> r == Some(
                    HookKey {
                        key: old(self).local_model().key,
                        slot: (c + EXTERNAL_HOOK_FLAG) as u16,
                    },
                ) && final(self).hooks_model().count_of(old(self).local_model().key) == c + 1
                &&& c >= EXTERNAL_HOOK_FLAG ==> r is None
                &&& forall|q: crate::keys::Key|
                    q != old(self).local_model().key ==> final(self).hooks_model().count_of(q)
                        == old(self).hooks_model().count_of(q)
            },
    {
        if self.local_hook {
            let counter = self.widget_local.hook_counter;
            if counter >= EXTERNAL_HOOK_FLAG {
                return None;
            }
            self.widget_local.hook_counter = counter + 1;
            Some(HookKey { key: self.widget_local.key, slot: counter })
        } else {
            let c = self.external_hook_count.next(self.widget_local.key);
            match c {
                Some(n) => Some(
                    HookKey { key: self.widget_local.key, slot: n + EXTERNAL_HOOK_FLAG },
                ),
                None => None,
            }
        }
    }

    /// Whether hook keys are currently drawn from the local space.
    pub closed spec fn local_hook_model(self) -> bool {
        self.local_hook
    }

    /// Allocates (or finds) the state cell for the current fragment's next
    /// hook, holding `initial` if freshly created; an existing cell keeps
    /// its value. `None` only on hook-space exhaustion.
    pub fn listenable(&mut self, initial: TreeItem) -> (r: Option<HookRef>)
        requires
            old(self).inv(),
        ensures
            final(self).inv(),
            WidgetContext::grows_from(*final(self), *old(self)),
            final(self).store_model() == old(self).store_model(),
            final(self).local_model().key == old(self).local_model().key,
            final(self).local_model().idx == old(self).local_model().idx,
            r matches Some(h) ==> {
                &&& final(self).tree_model().valid_ref(h)
                &&& h.key.key == old(self).local_model().key
                &&& final(self).tree_model().idx_of(h.key) == Some(h.idx)
                &&& old(self).tree_model().idx_of(h.key) matches Some(i) ==> h.idx == i
                    && final(self).tree_model() == old(self).tree_model()
                &&& old(self).tree_model().idx_of(h.key) is None ==> {
                    &&& final(self).tree_model().value_of(h.idx as int) == initial
                    &&& final(self).tree_model().patch_of(h.idx as int) is None
                    &&& final(self).tree_model().deps_of(h.idx as int) == Seq::<usize>::empty()
                    &&& forall|i: int|
                        i != h.idx ==> PatchedTree::cell_same(
                            old(self).tree_model(),
                            final(self).tree_model(),
                            i,
                        )
                    &&& forall|q: HookKey|
                        q != h.key ==> final(self).tree_model().idx_of(q) == old(
                            self,
                        ).tree_model().idx_of(q)
                }
            },
            r is None ==> final(self).tree_model() == old(self).tree_model(),
            old(self).local_hook_model() && old(self).local_model().hook_counter
                < EXTERNAL_HOOK_FLAG ==> (r matches Some(h2) && h2.key == (HookKey {
                key: old(self).local_model().key,
                slot: old(self).local_model().hook_counter,
            })),
    {
        let k = self.key_for_hook();
        match k {
            Some(key) => Some(self.tree.initialize(key, initial)),
            None => None,
        }
    }

    /// Reads the cell, observing the pending write of the current pass if
    /// one exists, and registers the current fragment as a dependent: the
    /// fragment will be re-evaluated when the cell is next committed.
    pub fn listen(&mut self, h: HookRef) -> (v: TreeItem)
        requires
            old(self).inv(),
            old(self).tree_model().live(h.idx as int),
        ensures
            final(self).inv(),
            WidgetContext::grows_from(*final(self), *old(self)),
            final(self).store_model() == old(self).store_model(),
            final(self).keys_model() == old(self).keys_model(),
            v == old(self).tree_model().read_of(h.idx as int),
            final(self).tree_model().live(h.idx as int),
            final(self).tree_model().deps_of(h.idx as int).contains(
                old(self).local_model().idx.0,
            ),
            final(self).tree_model().value_of(h.idx as int) == old(self).tree_model().value_of(
                h.idx as int,
            ),
            final(self).tree_model().patch_of(h.idx as int) == old(self).tree_model().patch_of(
                h.idx as int,
            ),
            forall|i: int|
                i != h.idx ==> PatchedTree::cell_same(
                    old(self).tree_model(),
                    final(self).tree_model(),
                    i,
                ),
            PatchedTree::index_same(old(self).tree_model(), final(self).tree_model()),
    {
        self.tree.set_dependent(h, self.widget_local.idx.0);
        self.tree.get_patched(h)
    }

    /// Buffers a write to the cell; it stays invisible to committed reads
    /// until the next update cycle commits it. Writes before the commit
    /// overwrite each other, last one wins.
    pub fn shout(&mut self, h: HookRef, value: TreeItem)
        requires
            old(self).inv(),
            old(self).tree_model().live(h.idx as int),
        ensures
            final(self).inv(),
            WidgetContext::grows_from(*final(self), *old(self)),
            final(self).store_model() == old(self).store_model(),
            final(self).keys_model() == old(self).keys_model(),
            final(self).tree_model().live(h.idx as int),
            final(self).tree_model().patch_of(h.idx as int) == Some(value),
            final(self).tree_model().read_of(h.idx as int) == value,
            final(self).tree_model().value_of(h.idx as int) == old(self).tree_model().value_of(
                h.idx as int,
            ),
            final(self).tree_model().deps_of(h.idx as int) == old(self).tree_model().deps_of(
                h.idx as int,
            ),
            forall|i: int|
                i != h.idx ==> PatchedTree::cell_same(
                    old(self).tree_model(),
                    final(self).tree_model(),
                    i,
                ),
            PatchedTree::index_same(old(self).tree_model(), final(self).tree_model()),
    {
        self.tree.set(h, value);
    }

    /// The stable key for the child of the current fragment tagged `tag`,
    /// issued by the identity registry. `None` only on key exhaustion.
    pub fn child_key(&mut self, tag: u64) -> (r: Option<Key>)
        requires
            old(self).inv(),
        ensures
            final(self).inv(),
            WidgetContext::grows_from(*final(self), *old(self)),
            final(self).tree_model() == old(self).tree_model(),
            final(self).store_model() == old(self).store_model(),
            old(self).keys_model().issued(old(self).local_model().key, tag) is Some ==> r == old(
                self,
            ).keys_model().issued(old(self).local_model().key, tag) && *final(self) == *old(self),
            r is Some ==> final(self).keys_model().issued(old(self).local_model().key, tag) == r,
            r is None ==> old(self).keys_model().issued(old(self).local_model().key, tag) is None
                && old(self).keys_model().exhausted(),
            old(self).keys_model().room() > 0 ==> r is Some,
            final(self).keys_model().room() >= old(self).keys_model().room() - 1,
            final(self).callbacks_model() == old(self).callbacks_model(),
    {
        self.key_map.key_for(self.widget_local.key, tag)
    }

    /// Declares a child fragment: resolves `key` to its stable slot
    /// (allocating one if the key is new) and populates it with `gen` if it
    /// is still empty. An already-populated slot (a reused child) is left
    /// untouched.
    pub fn create_fragment(&mut self, key: Key, gen: G) -> (r: Fragment)
        requires
            old(self).inv(),
        ensures
            final(self).inv(),
            WidgetContext::grows_from(*final(self), *old(self)),
            final(self).tree_model() == old(self).tree_model(),
            final(self).keys_model() == old(self).keys_model(),
            final(self).store_model().slot_live(r.0 as int),
            final(self).store_model().frag_of(r.0 as int) is Some,
            final(self).store_model().key_slot(key) == Some(r.0),
            old(self).store_model().key_slot(key) matches Some(i) ==> r.0 == i,
            old(self).store_model().key_slot(key) is None ==> {
                &&& !old(self).store_model().slot_live(r.0 as int)
                &&& final(self).store_model().frag_of(r.0 as int) == Some(
                    crate::fragment::MaybeEvaluatedFragment::Unevaluated(
                        UnevaluatedFragment { key, gen },
                    ),
                )
            },
            final(self).store_model().dirty() == old(self).store_model().dirty(),
            final(self).callbacks_model() == old(self).callbacks_model(),
            forall|i: int|
                i != r.0 ==> FragmentStore::slot_same(
                    old(self).store_model(),
                    final(self).store_model(),
                    i,
                ),
    {
        let f = self.fragment_store.fragment_for_key(key);
        let ghost mid = self.fragment_store;
        let r = self.fragment_store.add_fragment(f, UnevaluatedFragment { key, gen });
        proof {
            let post = self.store_model();
            let pre = old(self).store_model();
            if pre.key_slot(key) is Some {
                assert(mid == pre);
            }
            assert(post.slot_live(r.0 as int));
            assert(mid.slot_live(r.0 as int));
            assert forall|i: int| i != r.0 implies FragmentStore::slot_same(pre, post, i) by {
                assert(FragmentStore::slot_same(pre, mid, i));
                assert(FragmentStore::slot_same(mid, post, i));
            }
            assert forall|i: int|
                pre.slot_live(i) implies #[trigger] post.slot_live(i) by {
                if i != r.0 {
                    assert(FragmentStore::slot_same(pre, mid, i));
                    assert(FragmentStore::slot_same(mid, post, i));
                }
            }
            assert forall|i: int|
                pre.slot_live(i) && pre.frag_of(i) is Some implies #[trigger] post.frag_of(i)
                    == pre.frag_of(i) by {
                if i != r.0 {
                    assert(FragmentStore::slot_same(pre, mid, i));
                    assert(FragmentStore::slot_same(mid, post, i));
                } else {
                    assert(mid.frag_of(i) == pre.frag_of(i));
                }
            }
        }
        r
    }

    /// Stores new call arguments for a child fragment and enqueues it onto
    /// the dirty-args queue; the update cycle re-evaluates it before the
    /// cycle completes.
    pub fn set_args(&mut self, idx: Fragment, args: Vec<TreeItem>)
        requires
            old(self).inv(),
            old(self).store_model().slot_live(idx.0 as int),
        ensures
            final(self).inv(),
            WidgetContext::grows_from(*final(self), *old(self)),
            final(self).tree_model() == old(self).tree_model(),
            final(self).keys_model() == old(self).keys_model(),
            final(self).store_model().args_of(idx.0 as int) == Some(args@),
            final(self).store_model().dirty() == old(self).store_model().dirty().push(idx),
            final(self).callbacks_model() == old(self).callbacks_model(),
            forall|i: int|
                i != idx.0 ==> FragmentStore::slot_same(
                    old(self).store_model(),
                    final(self).store_model(),
                    i,
                ),
            FragmentStore::keys_same(old(self).store_model(), final(self).store_model()),
    {
        self.fragment_store.set_args(idx, args);
        proof {
            let post = self.store_model();
            let pre = old(self).store_model();
            assert forall|i: int|
                pre.slot_live(i) implies #[trigger] post.slot_live(i) by {
                if i != idx.0 {
                    assert(FragmentStore::slot_same(pre, post, i));
                }
            }
            assert forall|i: int|
                pre.slot_live(i) && pre.frag_of(i) is Some implies #[trigger] post.frag_of(i)
                    == pre.frag_of(i) by {
                if i != idx.0 {
                    assert(FragmentStore::slot_same(pre, post, i));
                }
            }
        }
    }

    /// The slot of the fragment currently being evaluated: its own handle,
    /// under which its reads are recorded as dependencies.
    pub fn own_fragment(&self) -> (f: Fragment)
        ensures
            f == self.local_model().idx,
    {
        self.widget_local.idx
    }

    /// Schedules a callback to run once the current frame completes: the
    /// payload joins the registration list, which the application drains
    /// after the update cycle and interprets (for example as a handle into
    /// its own callback table).
    pub fn after_frame_callback(&mut self, payload: TreeItem)
        requires
            old(self).inv(),
        ensures
            final(self).inv(),
            WidgetContext::grows_from(*final(self), *old(self)),
            final(self).callbacks_model() == old(self).callbacks_model().push(payload),
            final(self).tree_model() == old(self).tree_model(),
            final(self).store_model() == old(self).store_model(),
            final(self).keys_model() == old(self).keys_model(),
    {
        self.after_frame_callbacks.push(payload);
    }

    /// The arguments most recently supplied to a fragment, if any.
    pub fn get_args(&self, idx: Fragment) -> (r: &Option<Vec<TreeItem>>)
        requires
            self.store_model().slot_live(idx.0 as int),
        ensures
            *r is Some <==> self.store_model().args_of(idx.0 as int) is Some,
            *r matches Some(v) ==> self.store_model().args_of(idx.0 as int) == Some(v@),
    {
        self.fragment_store.get_args(idx)
    }
}

/// A generator: the pure function producing one fragment's description from
/// the evaluation context. Applications implement this for their widget
/// payload type (a tagged variant per widget kind). A generator interacts
/// with the tree only through the context's public surface, which can
/// create fragments and state but never tear down or rewrite populated
/// fragment records; the ensures state exactly that, and hold of any
/// implementation built on that surface.
pub trait Gen: Sized {
    /// Produces the description of the fragment scoped in the context's
    /// `widget_local`, reading and writing state through the context. The
    /// engine hands over a context scoped to the fragment's own key and
    /// slot, with the local hook counter restarted at zero for this pass.
    fn run(&self, ctx: &mut WidgetContext<Self>) -> (d: FragmentInner)
        requires
            old(ctx).inv(),
            old(ctx).local_hook_model(),
            old(ctx).local_model().hook_counter == 0,
        ensures
            final(ctx).inv(),
            WidgetContext::grows_from(*final(ctx), *old(ctx)),
    ;
}

} // verus!
