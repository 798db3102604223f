//! Re-evaluation driver: runs initial evaluation of a root fragment and,
//! on each update cycle, commits pending writes, re-runs exactly the
//! generators whose dependencies were touched, reconciles child lists
//! against the previous tree, tears down orphaned subtrees, and drains the
//! dirty-args queue to a fixpoint.

use crate::context::{FragmentInner, Gen, WidgetContext, WidgetLocalContext};
use crate::fragment::{
    EvaluatedFragment, Fragment, FragmentStore, MaybeEvaluatedFragment, UnevaluatedFragment,
};
use crate::keys::{HookKey, Key};
use crate::layout::Layouter;
use crate::store::{HookRef, PatchedTree, TreeItem};
use vstd::prelude::*;

verus! {

/// Fatal failures of an evaluation pass. These abort the pass rather than
/// recover: continuing would risk silently corrupting the tree.
#[derive(Clone, Copy, PartialEq, Eq, Structural, Debug)]
pub enum EngineError {
    /// Two sibling fragments share a key: an authoring error, detected at
    /// reconciliation time.
    DuplicateSiblingKeys,
    /// A fragment was found in the wrong evaluation state: an
    /// internal-invariant violation.
    WrongVariant,
    /// A generator listed a child whose slot is absent or was never
    /// populated.
    StaleChild,
    /// A fragment's recorded layout handle no longer names a live node: an
    /// internal-invariant violation.
    MissingLayoutNode,
    /// The step budget ran out before the pass completed: the explicit
    /// bound on evaluation work in one cycle.
    OutOfFuel,
}

/// The values of `s` are pairwise distinct.
pub open spec fn distinct_seq(s: Seq<Key>) -> bool {
    forall|a: int, b: int| 0 <= a < b < s.len() ==> s[a] != s[b]
}

/// Checks that sibling keys are pairwise distinct; a duplicate is a fatal
/// authoring error at reconciliation time.
pub fn check_unique_keys_children(children_keys: &Vec<Key>) -> (r: bool)
    ensures
        r == distinct_seq(children_keys@),
{
    let mut i: usize = 1;
    while i < children_keys.len()
        invariant
            1 <= i || children_keys@.len() == 0,
            i <= children_keys@.len() || i == 1,
            forall|a: int, b: int| 0 <= a < b < i ==> children_keys@[a] != children_keys@[b],
        decreases children_keys@.len() - i,
    {
        let mut j: usize = 0;
        while j < i
            invariant
                j <= i < children_keys@.len(),
                forall|a: int, b: int| 0 <= a < b < i ==> children_keys@[a] != children_keys@[b],
                forall|a: int| 0 <= a < j ==> children_keys@[a] != children_keys@[i as int],
            decreases i - j,
        {
            if children_keys[j] == children_keys[i] {
                return false;
            }
            j = j + 1;
        }
        i = i + 1;
    }
    true
}

/// The position of `x` in `v`, if present.
fn find_position(v: &Vec<Fragment>, x: Fragment) -> (r: Option<usize>)
    ensures
        r matches Some(p) ==> p < v@.len() && v@[p as int] == x,
        r is None ==> forall|m: int| 0 <= m < v@.len() ==> v@[m] != x,
{
    let mut i: usize = 0;
    while i < v.len()
        invariant
            i <= v@.len(),
            forall|m: int| 0 <= m < i ==> v@[m] != x,
        decreases v@.len() - i,
    {
        if v[i].0 == x.0 {
            return Some(i);
        }
        i = i + 1;
    }
    None
}

/// A by-value copy of a child list (fragment handles are plain indices).
fn clone_fragments(v: &Vec<Fragment>) -> (r: Vec<Fragment>)
    ensures
        r@ == v@,
{
    let mut r: Vec<Fragment> = Vec::new();
    let mut i: usize = 0;
    while i < v.len()
        invariant
            i <= v@.len(),
            r@ == v@.subrange(0, i as int),
        decreases v@.len() - i,
    {
        r.push(v[i]);
        proof {
            assert(r@ =~= v@.subrange(0, i + 1));
        }
        i = i + 1;
    }
    proof {
        assert(r@ =~= v@);
    }
    r
}

/// Slot `i` holds an evaluated fragment record.
pub open spec fn slot_evaluated<G>(s: FragmentStore<G>, i: int) -> bool {
    s.slot_live(i) && (s.frag_of(i) matches Some(f) && f is Evaluated)
}

/// The state once held for the fragment that occupied slot `i` of `o` is
/// released in `c`/`lt`: no state cell remains registered under its key,
/// its identity is dropped from the registry, and an evaluated record's
/// layout node is dead.
pub open spec fn subtree_released<G>(
    o: WidgetContext<G>,
    c: WidgetContext<G>,
    lt: Layouter,
    i: int,
) -> bool {
    let rec = o.store_model().frag_of(i).unwrap();
    &&& forall|q: HookKey| q.key == rec.spec_key() ==> (#[trigger] c.tree_model().idx_of(q)) is None
    &&& c.keys_model().origin_of(rec.spec_key()) is None
    &&& (rec matches MaybeEvaluatedFragment::Evaluated(er) ==> !lt.node_live(er.layout_idx as int))
}

/// Between layouter states `a` and `b`, a node surviving at `h` kept its
/// attached children.
pub open spec fn layout_children_kept(a: Layouter, b: Layouter, h: int) -> bool {
    a.node_live(h) && b.node_live(h) ==> b.children_of(h) == a.children_of(h)
}

/// The children recorded for slot `i`: the evaluated record's child list,
/// empty where the slot holds no evaluated record.
pub open spec fn recorded_children<G>(s: FragmentStore<G>, i: int) -> Seq<Fragment> {
    match s.frag_of(i) {
        Some(MaybeEvaluatedFragment::Evaluated(er)) => er.children@,
        _ => Seq::<Fragment>::empty(),
    }
}

/// Tears down the subtrees rooted at `roots`: every root holding a
/// fragment is freed, its key's state cells are released, its identity is
/// dropped, and an evaluated root's layout node is removed; the children
/// of every fragment freed this way are fed back through the same
/// treatment, so everything the call frees is fully released. Slots
/// already freed are skipped (stale-reference tolerance). Terminates
/// because every step frees one allocated slot.
fn remove_tree<G: Gen>(ctx: &mut WidgetContext<G>, layout_tree: &mut Layouter, roots: Vec<
    Fragment,
>)
    requires
        old(ctx).inv(),
        old(layout_tree).wf(),
    ensures
        final(ctx).inv(),
        final(layout_tree).wf(),
        forall|i: int|
            #[trigger] final(ctx).store_model().slot_live(i) ==> old(
                ctx,
            ).store_model().slot_live(i) && final(ctx).store_model().frag_of(i) == old(
                ctx,
            ).store_model().frag_of(i) && final(ctx).store_model().args_of(i) == old(
                ctx,
            ).store_model().args_of(i),
        forall|m: int|
            0 <= m < roots@.len() ==> (old(ctx).store_model().slot_live(
                (#[trigger] roots@[m]).0 as int,
            ) && old(ctx).store_model().frag_of(roots@[m].0 as int) is Some
                ==> !final(ctx).store_model().slot_live(roots@[m].0 as int)),
        forall|i: int|
            old(ctx).store_model().slot_live(i) && old(ctx).store_model().frag_of(i) is Some
                && !final(ctx).store_model().slot_live(i) ==> #[trigger] subtree_released(
                *old(ctx),
                *final(ctx),
                *final(layout_tree),
                i,
            ),
        forall|h: int|
            #[trigger] final(layout_tree).node_live(h) ==> old(layout_tree).node_live(h)
                && Layouter::node_same(*old(layout_tree), *final(layout_tree), h),
        forall|i: int|
            old(ctx).store_model().slot_live(i) && !(#[trigger] final(ctx).store_model(
            ).slot_live(i)) ==> forall|m: int|
                0 <= m < recorded_children(old(ctx).store_model(), i).len()
                    ==> !final(ctx).store_model().slot_live(
                    (#[trigger] recorded_children(old(ctx).store_model(), i)[m]).0 as int,
                ) || final(ctx).store_model().frag_of(
                    recorded_children(old(ctx).store_model(), i)[m].0 as int,
                ) is None,
{
    let mut worklist = roots;
    let ghost roots0 = worklist@;
    while worklist.len() > 0
        invariant
            ctx.inv(),
            layout_tree.wf(),
            forall|i: int|
                #[trigger] ctx.store_model().slot_live(i) ==> old(ctx).store_model().slot_live(i)
                    && ctx.store_model().frag_of(i) == old(ctx).store_model().frag_of(i)
                    && ctx.store_model().args_of(i) == old(ctx).store_model().args_of(i),
            forall|m: int|
                0 <= m < roots0.len() ==> worklist@.contains(#[trigger] roots0[m]) || (old(
                    ctx,
                ).store_model().slot_live(roots0[m].0 as int) && old(ctx).store_model().frag_of(
                    roots0[m].0 as int,
                ) is Some ==> !ctx.store_model().slot_live(roots0[m].0 as int)),
            forall|i: int|
                old(ctx).store_model().slot_live(i) && old(ctx).store_model().frag_of(i) is Some
                    && !ctx.store_model().slot_live(i) ==> #[trigger] subtree_released(
                    *old(ctx),
                    *ctx,
                    *layout_tree,
                    i,
                ),
            forall|h: int|
                #[trigger] layout_tree.node_live(h) ==> old(layout_tree).node_live(h)
                    && Layouter::node_same(*old(layout_tree), *layout_tree, h),
            forall|i: int|
                old(ctx).store_model().slot_live(i) && !(#[trigger] ctx.store_model().slot_live(
                    i,
                )) ==> forall|m: int|
                    0 <= m < recorded_children(old(ctx).store_model(), i).len()
                        ==> worklist@.contains(
                        #[trigger] recorded_children(old(ctx).store_model(), i)[m],
                    ) || !ctx.store_model().slot_live(
                        recorded_children(old(ctx).store_model(), i)[m].0 as int,
                    ) || ctx.store_model().frag_of(
                        recorded_children(old(ctx).store_model(), i)[m].0 as int,
                    ) is None,
        decreases ctx.store_model().live_count(), worklist@.len(),
    {
        let ghost w0 = worklist@;
        let ghost g0 = *ctx;
        let ghost l0 = *layout_tree;
        let popped = worklist.pop();
        let f: Fragment;
        match popped {
            Some(x) => {
                f = x;
            },
            None => {
                proof {
                    assert(false);
                }
                f = Fragment(0);
            },
        }
        proof {
            ctx.models();
            assert forall|m: int|
                0 <= m < roots0.len() && roots0[m] != f && w0.contains(
                    #[trigger] roots0[m],
                ) implies worklist@.contains(roots0[m]) by {
                let p = choose|p: int| 0 <= p < w0.len() && w0[p] == roots0[m];
                assert(p != w0.len() - 1);
                assert(worklist@[p] == roots0[m]);
            }
            assert forall|x: Fragment|
                #[trigger] w0.contains(x) && x != f implies worklist@.contains(x) by {
                let p = choose|p: int| 0 <= p < w0.len() && w0[p] == x;
                assert(p != w0.len() - 1);
                assert(worklist@[p] == x);
            }
        }
        if ctx.fragment_store.removed(f) {
            proof {
                assert forall|i: int, m: int|
                    old(ctx).store_model().slot_live(i) && !ctx.store_model().slot_live(i) && 0
                        <= m < recorded_children(old(ctx).store_model(), i).len() implies
                    worklist@.contains(
                        #[trigger] recorded_children(old(ctx).store_model(), i)[m],
                    ) || !ctx.store_model().slot_live(
                        recorded_children(old(ctx).store_model(), i)[m].0 as int,
                    ) || ctx.store_model().frag_of(
                        recorded_children(old(ctx).store_model(), i)[m].0 as int,
                    ) is None by {
                    let y = recorded_children(old(ctx).store_model(), i)[m];
                    if y != f && w0.contains(y) {
                        assert(worklist@.contains(y));
                    }
                }
                assert forall|m: int|
                    0 <= m < roots0.len() implies worklist@.contains(#[trigger] roots0[m]) || (
                old(ctx).store_model().slot_live(roots0[m].0 as int)
                    && old(ctx).store_model().frag_of(roots0[m].0 as int) is Some
                    ==> !ctx.store_model().slot_live(roots0[m].0 as int)) by {
                    if roots0[m] == f {
                        if ctx.store_model().slot_live(f.0 as int) {
                            assert(ctx.store_model().frag_of(f.0 as int) == old(
                                ctx,
                            ).store_model().frag_of(f.0 as int));
                        }
                    }
                }
            }
            continue ;
        }
        let key: Key;
        let layout_idx: usize;
        let has_node: bool;
        let mut children: Vec<Fragment> = Vec::new();
        match ctx.fragment_store.get(f) {
            MaybeEvaluatedFragment::Evaluated(ev) => {
                key = ev.key;
                layout_idx = ev.layout_idx;
                has_node = true;
                children = clone_fragments(&ev.children);
            },
            MaybeEvaluatedFragment::Unevaluated(uf) => {
                key = uf.key;
                layout_idx = 0;
                has_node = false;
            },
        }
        proof {
            assert(ctx.store_model().frag_of(f.0 as int) == old(ctx).store_model().frag_of(
                f.0 as int,
            ));
            assert(old(ctx).store_model().frag_of(f.0 as int).unwrap().spec_key() == key);
        }
        ctx.tree.remove_widget(key);
        if has_node && layout_tree.is_live(layout_idx) {
            layout_tree.remove_node(layout_idx);
        }
        proof {
            ctx.models();
            assert(!layout_tree.node_live(layout_idx as int) || !has_node);
            assert forall|h: int|
                #[trigger] layout_tree.node_live(h) implies old(layout_tree).node_live(h)
                    && Layouter::node_same(*old(layout_tree), *layout_tree, h) by {
                assert(h != layout_idx || !has_node);
                if l0 != *layout_tree {
                    assert(Layouter::node_same(l0, *layout_tree, h));
                }
                assert(l0.node_live(h));
            }
        }
        ctx.key_map.remove(key);
        let ghost crm = *ctx;
        ctx.fragment_store.remove(f);
        proof {
            ctx.models();
            crm.models();
            g0.models();
            assert(crm.store_model() == g0.store_model());
            assert forall|i: int|
                #[trigger] ctx.store_model().slot_live(i) implies old(
                ctx,
            ).store_model().slot_live(i) && ctx.store_model().frag_of(i) == old(
                ctx,
            ).store_model().frag_of(i) && ctx.store_model().args_of(i) == old(
                ctx,
            ).store_model().args_of(i) by {
                assert(i != f.0);
                assert(FragmentStore::slot_same(crm.store_model(), ctx.store_model(), i));
            }
            assert forall|i: int|
                old(ctx).store_model().slot_live(i) && old(ctx).store_model().frag_of(i) is Some
                    && !ctx.store_model().slot_live(i) implies #[trigger] subtree_released(
                *old(ctx),
                *ctx,
                *layout_tree,
                i,
            ) by {
                let rec = old(ctx).store_model().frag_of(i).unwrap();
                if i == f.0 {
                    assert(rec.spec_key() == key);
                    assert forall|q: HookKey|
                        q.key == rec.spec_key() implies (#[trigger] ctx.tree_model().idx_of(q))
                        is None by {}
                    assert(ctx.keys_model().origin_of(key) is None);
                    if rec is Evaluated {
                        assert(has_node);
                        assert(!layout_tree.node_live(layout_idx as int));
                    }
                } else if !g0.store_model().slot_live(i) {
                    assert(subtree_released(*old(ctx), g0, l0, i));
                    assert forall|q: HookKey|
                        q.key == rec.spec_key() implies (#[trigger] ctx.tree_model().idx_of(q))
                        is None by {
                        assert(g0.tree_model().idx_of(q) is None);
                        if q.key == key {
                        } else {
                        }
                    }
                    assert(ctx.keys_model().origin_of(rec.spec_key()) is None) by {
                        assert(g0.keys_model().origin_of(rec.spec_key()) is None);
                        if rec.spec_key() == key {
                        } else {
                        }
                    }
                    if rec is Evaluated {
                        let h = rec->Evaluated_0.layout_idx as int;
                        assert(!layout_tree.node_live(h)) by {
                            assert(!l0.node_live(h));
                            if h == layout_idx as int {
                            } else {
                                if l0 != *layout_tree {
                                    assert(Layouter::node_same(l0, *layout_tree, h));
                                }
                            }
                        }
                    }
                } else {
                    assert(FragmentStore::slot_same(crm.store_model(), ctx.store_model(), i));
                    assert(false);
                }
            }
            assert forall|m: int|
                0 <= m < roots0.len() implies worklist@.contains(#[trigger] roots0[m]) || (old(
                ctx,
            ).store_model().slot_live(roots0[m].0 as int) && old(ctx).store_model().frag_of(
                roots0[m].0 as int,
            ) is Some ==> !ctx.store_model().slot_live(roots0[m].0 as int)) by {
                if roots0[m] == f {
                    assert(!ctx.store_model().slot_live(f.0 as int));
                } else if !w0.contains(roots0[m]) {
                    if old(ctx).store_model().slot_live(roots0[m].0 as int) && old(
                        ctx,
                    ).store_model().frag_of(roots0[m].0 as int) is Some {
                        assert(!g0.store_model().slot_live(roots0[m].0 as int));
                        if ctx.store_model().slot_live(roots0[m].0 as int) {
                            assert(FragmentStore::slot_same(
                                crm.store_model(),
                                ctx.store_model(),
                                roots0[m].0 as int,
                            ));
                        }
                    }
                }
            }
        }
        let ghost cpost = *ctx;
        let ghost lpost = *layout_tree;
        let ghost wmid = worklist@;
        let mut ci: usize = 0;
        while ci < children.len()
            invariant
                ci <= children@.len(),
                *ctx == cpost,
                *layout_tree == lpost,
                cpost.inv(),
                lpost.wf(),
                forall|x: Fragment| #[trigger] wmid.contains(x) ==> worklist@.contains(x),
                forall|m: int| 0 <= m < ci ==> worklist@.contains(#[trigger] children@[m]),
                forall|m: int|
                    0 <= m < roots0.len() ==> worklist@.contains(#[trigger] roots0[m]) || (old(
                        ctx,
                    ).store_model().slot_live(roots0[m].0 as int) && old(
                        ctx,
                    ).store_model().frag_of(roots0[m].0 as int) is Some
                        ==> !cpost.store_model().slot_live(roots0[m].0 as int)),
            decreases children@.len() - ci,
        {
            let ghost wb = worklist@;
            worklist.push(children[ci]);
            proof {
                assert forall|x: Fragment|
                    #[trigger] wb.contains(x) implies worklist@.contains(x) by {
                    let p = choose|p: int| 0 <= p < wb.len() && wb[p] == x;
                    assert(worklist@[p] == x);
                }
                assert(worklist@[worklist@.len() - 1] == children@[ci as int]);
            }
            ci = ci + 1;
        }
        proof {
            ctx.models();
            assert forall|i: int, m: int|
                old(ctx).store_model().slot_live(i) && !ctx.store_model().slot_live(i) && 0 <= m
                    < recorded_children(old(ctx).store_model(), i).len() implies worklist@
                .contains(#[trigger] recorded_children(old(ctx).store_model(), i)[m])
                || !ctx.store_model().slot_live(
                recorded_children(old(ctx).store_model(), i)[m].0 as int,
            ) || ctx.store_model().frag_of(
                recorded_children(old(ctx).store_model(), i)[m].0 as int,
            ) is None by {
                let y = recorded_children(old(ctx).store_model(), i)[m];
                if i == f.0 {
                    assert(g0.store_model().frag_of(f.0 as int) == old(
                        ctx,
                    ).store_model().frag_of(f.0 as int));
                    assert(children@ == recorded_children(old(ctx).store_model(), f.0 as int));
                    assert(worklist@.contains(children@[m]));
                } else {
                    if !g0.store_model().slot_live(i) {
                        if y != f && w0.contains(y) {
                            assert(wmid.contains(y));
                        } else if y != f {
                            assert(crm.store_model() == g0.store_model());
                            assert(FragmentStore::slot_same(
                                crm.store_model(),
                                ctx.store_model(),
                                y.0 as int,
                            ));
                        } else {
                            assert(!ctx.store_model().slot_live(f.0 as int));
                        }
                    } else {
                        assert(FragmentStore::slot_same(
                            crm.store_model(),
                            ctx.store_model(),
                            i,
                        ));
                        assert(false);
                    }
                }
            }
        }
    }
}

/// Slot `i` holds an evaluated record whose layout node is live and
/// carries exactly the record's children's layout handles, in declared
/// order, each child slot itself evaluated.
pub open spec fn children_attached<G>(s: FragmentStore<G>, lt: Layouter, i: int) -> bool {
    &&& slot_evaluated(s, i)
    &&& (s.frag_of(i) matches Some(MaybeEvaluatedFragment::Evaluated(rec)) ==> {
        &&& lt.node_live(rec.layout_idx as int)
        &&& lt.children_of(rec.layout_idx as int).len() == rec.children@.len()
        &&& forall|m: int|
            0 <= m < rec.children@.len() ==> {
                let c = (#[trigger] rec.children@[m]).0 as int;
                &&& slot_evaluated(s, c)
                &&& (s.frag_of(c) matches Some(MaybeEvaluatedFragment::Evaluated(crec))
                    ==> lt.children_of(rec.layout_idx as int)[m] == crec.layout_idx)
            }
    })
}

/// Unconditional evaluation of the subtree rooted at `frag`: runs the
/// generator, registers a layout node, recursively evaluates the children
/// the generator declared (always themselves unevaluated), attaches their
/// layout handles in declared order, and installs the evaluated record.
/// `fuel` bounds the number of fragments evaluated in this pass; sibling
/// keys are checked for uniqueness as each description arrives.
#[verifier::loop_isolation(false)]
fn evaluate_unconditional<G: Gen>(
    ctx: &mut WidgetContext<G>,
    layout_tree: &mut Layouter,
    frag: Fragment,
    fuel: &mut usize,
) -> (r: Result<(), EngineError>)
    requires
        old(ctx).inv(),
        old(layout_tree).wf(),
    ensures
        final(ctx).inv(),
        final(layout_tree).wf(),
        *final(fuel) <= *old(fuel),
        forall|i: int|
            old(ctx).store_model().slot_live(i) ==> final(ctx).store_model().slot_live(i),
        forall|i: int|
            slot_evaluated(old(ctx).store_model(), i) ==> final(ctx).store_model().frag_of(i)
                == old(ctx).store_model().frag_of(i),
        r is Ok ==> slot_evaluated(final(ctx).store_model(), frag.0 as int),
        r is Ok ==> children_attached(final(ctx).store_model(), *final(layout_tree), frag.0 as int),
        forall|i: int|
            #[trigger] old(ctx).store_model().frag_of(i) matches Some(
                MaybeEvaluatedFragment::Unevaluated(u),
            ) ==> (old(ctx).store_model().slot_live(i)
                ==> final(ctx).store_model().frag_of(i) == old(ctx).store_model().frag_of(i)
                || (final(ctx).store_model().frag_of(i) matches Some(
                    MaybeEvaluatedFragment::Evaluated(e),
                ) && e.key == u.key && e.gen == u.gen && e.store_idx.0 == i)),
        *old(fuel) == 0 ==> r == Err::<(), EngineError>(EngineError::OutOfFuel) && *final(ctx)
            == *old(ctx) && *final(layout_tree) == *old(layout_tree),
        r == Err::<(), EngineError>(EngineError::OutOfFuel) ==> *final(fuel) == 0,
        old(ctx).store_model().frag_of(frag.0 as int) matches Some(
            MaybeEvaluatedFragment::Evaluated(_),
        ) && old(ctx).store_model().slot_live(frag.0 as int) && *old(fuel) > 0 ==> r == Err::<
            (),
            EngineError,
        >(EngineError::WrongVariant),
        forall|h: int|
            #[trigger] old(layout_tree).node_live(h) ==> final(layout_tree).node_live(h)
                && Layouter::node_same(*old(layout_tree), *final(layout_tree), h),
{
    let ghost fuel0 = *fuel;
    let mut queue: Vec<Fragment> = Vec::new();
    queue.push(frag);
    let mut pending: Vec<(usize, Vec<Fragment>)> = Vec::new();
    while queue.len() > 0
        invariant
            ctx.inv(),
            layout_tree.wf(),
            *fuel <= fuel0,
            forall|m: int|
                0 <= m < pending@.len() ==> layout_tree.node_live(
                    (#[trigger] pending@[m]).0 as int,
                ),
            queue@ =~= seq![frag] || slot_evaluated(ctx.store_model(), frag.0 as int),
            pending@.len() == 0 ==> queue@ =~= seq![frag],
            pending@.len() > 0 ==> (ctx.store_model().frag_of(frag.0 as int) matches Some(
                MaybeEvaluatedFragment::Evaluated(rec),
            ) && pending@[0].0 == rec.layout_idx && pending@[0].1@ == rec.children@),
            forall|a: int, b: int|
                0 <= a < b < pending@.len() ==> (#[trigger] pending@[a]).0 != (
                #[trigger] pending@[b]).0,
            forall|m: int|
                0 <= m < pending@.len() ==> !old(layout_tree).node_live(
                    (#[trigger] pending@[m]).0 as int,
                ),
            forall|h: int|
                #[trigger] old(layout_tree).node_live(h) ==> layout_tree.node_live(h)
                    && Layouter::node_same(*old(layout_tree), *layout_tree, h),
            forall|i: int|
                old(ctx).store_model().slot_live(i) ==> ctx.store_model().slot_live(i),
            forall|i: int|
                slot_evaluated(old(ctx).store_model(), i) ==> ctx.store_model().slot_live(i)
                    && ctx.store_model().frag_of(i) == old(ctx).store_model().frag_of(i),
            forall|i: int|
                #[trigger] old(ctx).store_model().frag_of(i) matches Some(
                    MaybeEvaluatedFragment::Unevaluated(u),
                ) ==> (old(ctx).store_model().slot_live(i)
                    ==> ctx.store_model().slot_live(i) && (ctx.store_model().frag_of(i) == old(
                    ctx,
                ).store_model().frag_of(i) || (ctx.store_model().frag_of(i) matches Some(
                    MaybeEvaluatedFragment::Evaluated(e),
                ) && e.key == u.key && e.gen == u.gen && e.store_idx.0 == i))),
            *fuel == fuel0 ==> *ctx == *old(ctx) && *layout_tree == *old(layout_tree) && queue@
                =~= seq![frag],
            old(ctx).store_model().frag_of(frag.0 as int) matches Some(
                MaybeEvaluatedFragment::Evaluated(_),
            ) && old(ctx).store_model().slot_live(frag.0 as int) ==> queue@ =~= seq![frag]
                && *fuel == fuel0 && *ctx == *old(ctx),
        decreases *fuel,
    {
        if *fuel == 0 {
            return Err(EngineError::OutOfFuel);
        }
        *fuel = *fuel - 1;
        let ghost q0 = queue@;
        let popped = queue.pop();
        let f: Fragment;
        match popped {
            Some(x) => {
                f = x;
            },
            None => {
                proof {
                    assert(false);
                }
                f = Fragment(0);
            },
        }
        let ghost it0 = *ctx;
        proof {
            ctx.models();
        }
        if ctx.fragment_store.removed(f) {
            return Err(EngineError::StaleChild);
        }
        let st = ctx.fragment_store.take_fragment(f);
        proof {
            ctx.models();
        }
        let ghost tk = *ctx;
        let ghost stv = st;
        match st {
            MaybeEvaluatedFragment::Evaluated(ev) => {
                ctx.fragment_store.put_fragment(f, MaybeEvaluatedFragment::Evaluated(ev));
                proof {
                    ctx.models();
                    tk.models();
                    it0.models();
                    assert forall|i: int|
                        old(ctx).store_model().slot_live(i) implies ctx.store_model().slot_live(
                        i,
                    ) by {
                        assert(it0.store_model().slot_live(i));
                        if i != f.0 {
                            assert(FragmentStore::slot_same(
                                it0.store_model(),
                                tk.store_model(),
                                i,
                            ));
                            assert(FragmentStore::slot_same(
                                tk.store_model(),
                                ctx.store_model(),
                                i,
                            ));
                        }
                    }
                }
                proof {
                    assert forall|i: int|
                        slot_evaluated(old(ctx).store_model(), i) implies ctx.store_model(
                    ).frag_of(i) == old(ctx).store_model().frag_of(i) by {
                        if i != f.0 {
                            assert(FragmentStore::slot_same(
                                it0.store_model(),
                                tk.store_model(),
                                i,
                            ));
                            assert(FragmentStore::slot_same(
                                tk.store_model(),
                                ctx.store_model(),
                                i,
                            ));
                        } else {
                            assert(Some(stv) == it0.store_model().frag_of(i));
                            assert(ctx.store_model().frag_of(i) == Some(stv));
                        }
                    }
                    assert forall|i: int|
                        old(ctx).store_model().slot_live(i) && (#[trigger] old(
                            ctx,
                        ).store_model().frag_of(i)) is Some implies ctx.store_model().slot_live(
                        i,
                    ) && ctx.store_model().frag_of(i) == it0.store_model().frag_of(i) by {
                        if i != f.0 {
                            assert(FragmentStore::slot_same(
                                it0.store_model(),
                                tk.store_model(),
                                i,
                            ));
                            assert(FragmentStore::slot_same(
                                tk.store_model(),
                                ctx.store_model(),
                                i,
                            ));
                        } else {
                            assert(Some(stv) == it0.store_model().frag_of(i));
                            assert(ctx.store_model().frag_of(i) == Some(stv));
                        }
                    }
                }
                return Err(EngineError::WrongVariant);
            },
            MaybeEvaluatedFragment::Unevaluated(uf) => {
                let UnevaluatedFragment { key, gen } = uf;
                ctx.widget_local = WidgetLocalContext::for_key(key, f);
                ctx.local_hook = true;
                proof {
                    ctx.models();
                }
                let ghost t1 = *ctx;
                let desc = gen.run(ctx);
                let ghost t2 = *ctx;
                proof {
                    ctx.models();
                    t1.models();
                    it0.models();
                    assert forall|i: int|
                        old(ctx).store_model().slot_live(i) implies ctx.store_model().slot_live(
                        i,
                    ) by {
                        assert(it0.store_model().slot_live(i));
                        if i != f.0 {
                            assert(FragmentStore::slot_same(
                                it0.store_model(),
                                t1.store_model(),
                                i,
                            ));
                        }
                        assert(t1.store_model().slot_live(i));
                    }
                    assert(!slot_evaluated(old(ctx).store_model(), f.0 as int)) by {
                        if slot_evaluated(old(ctx).store_model(), f.0 as int) {
                            assert(it0.store_model().frag_of(f.0 as int) == old(
                                ctx,
                            ).store_model().frag_of(f.0 as int));
                        }
                    }
                    assert forall|i: int|
                        slot_evaluated(old(ctx).store_model(), i) implies ctx.store_model(
                    ).slot_live(i) && ctx.store_model().frag_of(i) == old(
                        ctx,
                    ).store_model().frag_of(i) by {
                        assert(i != f.0);
                        assert(FragmentStore::slot_same(it0.store_model(), t1.store_model(), i));
                        assert(t1.store_model().slot_live(i) && t1.store_model().frag_of(i)
                            is Some);
                        assert(ctx.store_model().frag_of(i) == t1.store_model().frag_of(i));
                    }
                    assert forall|i: int|
                        (#[trigger] it0.store_model().frag_of(i)) is Some && it0.store_model(
                        ).slot_live(i) && i != f.0 implies ctx.store_model().slot_live(i)
                        && ctx.store_model().frag_of(i) == it0.store_model().frag_of(i) by {
                        assert(FragmentStore::slot_same(it0.store_model(), t1.store_model(), i));
                        assert(t1.store_model().slot_live(i) && t1.store_model().frag_of(i)
                            is Some);
                        assert(ctx.store_model().frag_of(i) == t1.store_model().frag_of(i));
                    }
                }
                let ghost crun = *ctx;
                let ghost lrun = *layout_tree;
                let mut child_keys: Vec<Key> = Vec::new();
                let mut ci: usize = 0;
                while ci < desc.children.len()
                    invariant
                        ci <= desc.children@.len(),
                        *fuel <= fuel0,
                        *ctx == crun,
                        *layout_tree == lrun,
                        crun.inv(),
                        lrun.wf(),
                    decreases desc.children@.len() - ci,
                {
                    let c = desc.children[ci];
                    proof {
                        ctx.models();
                    }
                    if ctx.fragment_store.removed(c) {
                        let ghost ps = *ctx;
                        ctx.fragment_store.put_fragment(
                            f,
                            MaybeEvaluatedFragment::Unevaluated(UnevaluatedFragment { key, gen }),
                        );
                        proof {
                            ctx.models();
                            ps.models();
                            assert forall|i: int|
                                old(ctx).store_model().slot_live(i) implies ctx.store_model(
                            ).slot_live(i) by {
                                assert(ps.store_model().slot_live(i));
                                if i != f.0 {
                                    assert(FragmentStore::slot_same(
                                        ps.store_model(),
                                        ctx.store_model(),
                                        i,
                                    ));
                                }
                            }
                            assert forall|i: int|
                                slot_evaluated(old(ctx).store_model(), i) implies ctx
                                .store_model().frag_of(i) == old(ctx).store_model().frag_of(
                                i,
                            ) by {
                                assert(i != f.0);
                                assert(FragmentStore::slot_same(
                                    ps.store_model(),
                                    ctx.store_model(),
                                    i,
                                ));
                            }
                            assert forall|i: int|
                                i != f.0 && it0.store_model().slot_live(i) && it0.store_model(
                                ).frag_of(i) is Some implies ctx.store_model().slot_live(i)
                                && #[trigger] ctx.store_model().frag_of(i) == it0.store_model(
                            ).frag_of(i) by {
                                assert(crun.store_model().slot_live(i) && crun.store_model(
                                ).frag_of(i) == it0.store_model().frag_of(i));
                                assert(FragmentStore::slot_same(
                                    ps.store_model(),
                                    ctx.store_model(),
                                    i,
                                ));
                            }
                            assert(it0.store_model().frag_of(f.0 as int) == Some(stv));
                            assert(stv == MaybeEvaluatedFragment::Unevaluated(
                                UnevaluatedFragment { key, gen },
                            ));
                            assert(ctx.store_model().frag_of(f.0 as int) == Some(stv));
                            if old(ctx).store_model().frag_of(f.0 as int) matches Some(
                                MaybeEvaluatedFragment::Unevaluated(_),
                            ) && old(ctx).store_model().slot_live(f.0 as int) {
                                assert(it0.store_model().frag_of(f.0 as int) == old(
                                    ctx,
                                ).store_model().frag_of(f.0 as int));
                            }
                            lemma_transition_carry(
                                old(ctx).store_model(),
                                it0.store_model(),
                                ctx.store_model(),
                                f.0 as int,
                            );
                        }
                        return Err(EngineError::StaleChild);
                    }
                    let k = ctx.fragment_store.get(c).key();
                    child_keys.push(k);
                    ci = ci + 1;
                }
                proof {
                    ctx.models();
                    t1.models();
                    t2.models();
                    it0.models();
                    assert(t2.store_model().slot_live(f.0 as int));
                }
                if !check_unique_keys_children(&child_keys) {
                    let ghost pk = *ctx;
                    ctx.fragment_store.put_fragment(
                        f,
                        MaybeEvaluatedFragment::Unevaluated(UnevaluatedFragment { key, gen }),
                    );
                    proof {
                        ctx.models();
                        pk.models();
                        assert forall|i: int|
                            old(ctx).store_model().slot_live(i) implies ctx.store_model(
                        ).slot_live(i) by {
                            assert(pk.store_model().slot_live(i));
                            if i != f.0 {
                                assert(FragmentStore::slot_same(
                                    pk.store_model(),
                                    ctx.store_model(),
                                    i,
                                ));
                            }
                        }
                        assert forall|i: int|
                            slot_evaluated(old(ctx).store_model(), i) implies ctx.store_model(
                        ).frag_of(i) == old(ctx).store_model().frag_of(i) by {
                            assert(i != f.0);
                            assert(FragmentStore::slot_same(
                                pk.store_model(),
                                ctx.store_model(),
                                i,
                            ));
                        }
                        assert forall|i: int|
                            i != f.0 && it0.store_model().slot_live(i) && it0.store_model(
                            ).frag_of(i) is Some implies ctx.store_model().slot_live(i)
                            && #[trigger] ctx.store_model().frag_of(i) == it0.store_model(
                        ).frag_of(i) by {
                            assert(crun.store_model().slot_live(i) && crun.store_model(
                            ).frag_of(i) == it0.store_model().frag_of(i));
                            assert(FragmentStore::slot_same(
                                pk.store_model(),
                                ctx.store_model(),
                                i,
                            ));
                        }
                        assert(it0.store_model().frag_of(f.0 as int) == Some(stv));
                        assert(stv == MaybeEvaluatedFragment::Unevaluated(
                            UnevaluatedFragment { key, gen },
                        ));
                        assert(ctx.store_model().frag_of(f.0 as int) == Some(stv));
                        if old(ctx).store_model().frag_of(f.0 as int) matches Some(
                            MaybeEvaluatedFragment::Unevaluated(_),
                        ) && old(ctx).store_model().slot_live(f.0 as int) {
                            assert(it0.store_model().frag_of(f.0 as int) == old(
                                ctx,
                            ).store_model().frag_of(f.0 as int));
                        }
                        lemma_transition_carry(
                            old(ctx).store_model(),
                            it0.store_model(),
                            ctx.store_model(),
                            f.0 as int,
                        );
                    }
                    return Err(EngineError::DuplicateSiblingKeys);
                }
                let ghost lpre = *layout_tree;
                let layout_idx = layout_tree.add_node(
                    desc.layout,
                    desc.render_object,
                    desc.is_clipper,
                );
                let children_rec = clone_fragments(&desc.children);
                ctx.fragment_store.put_fragment(
                    f,
                    MaybeEvaluatedFragment::Evaluated(
                        EvaluatedFragment {
                            key,
                            gen,
                            layout_idx,
                            store_idx: f,
                            children: children_rec,
                        },
                    ),
                );
                proof {
                    ctx.models();
                }
                let ghost cq = *ctx;
                let ghost lq = *layout_tree;
                let mut ci2: usize = 0;
                while ci2 < desc.children.len()
                    invariant
                        ci2 <= desc.children@.len(),
                        *fuel <= fuel0,
                        *ctx == cq,
                        *layout_tree == lq,
                        cq.inv(),
                        lq.wf(),
                    decreases desc.children@.len() - ci2,
                {
                    queue.push(desc.children[ci2]);
                    ci2 = ci2 + 1;
                }
                pending.push((layout_idx, desc.children));
                proof {
                    ctx.models();
                    assert forall|h: int|
                        #[trigger] old(layout_tree).node_live(h) implies layout_tree.node_live(h)
                            && Layouter::node_same(*old(layout_tree), *layout_tree, h) by {
                        assert(lpre.node_live(h));
                        assert(h != layout_idx);
                        assert(Layouter::node_same(lpre, *layout_tree, h));
                    }
                    assert forall|m: int|
                        0 <= m < pending@.len() implies !old(layout_tree).node_live(
                        (#[trigger] pending@[m]).0 as int,
                    ) by {
                        if m < pending@.len() - 1 {
                        } else {
                            assert(pending@[m].0 == layout_idx);
                            if old(layout_tree).node_live(layout_idx as int) {
                                assert(lpre.node_live(layout_idx as int));
                            }
                        }
                    }
                    assert forall|i: int|
                        old(ctx).store_model().slot_live(i) implies ctx.store_model().slot_live(
                        i,
                    ) by {
                        assert(t2.store_model().slot_live(i));
                        if i != f.0 {
                            assert(FragmentStore::slot_same(
                                t2.store_model(),
                                ctx.store_model(),
                                i,
                            ));
                        }
                    }
                    assert forall|i: int|
                        slot_evaluated(old(ctx).store_model(), i) implies ctx.store_model(
                    ).slot_live(i) && ctx.store_model().frag_of(i) == old(
                        ctx,
                    ).store_model().frag_of(i) by {
                        assert(i != f.0);
                        assert(crun.store_model().slot_live(i) && crun.store_model().frag_of(i)
                            == old(ctx).store_model().frag_of(i));
                        assert(FragmentStore::slot_same(
                            crun.store_model(),
                            ctx.store_model(),
                            i,
                        ));
                    }
                    assert forall|i: int|
                        i != f.0 && it0.store_model().slot_live(i) && it0.store_model().frag_of(
                            i,
                        ) is Some implies ctx.store_model().slot_live(i)
                        && #[trigger] ctx.store_model().frag_of(i) == it0.store_model().frag_of(
                        i,
                    ) by {
                        assert(crun.store_model().slot_live(i) && crun.store_model().frag_of(i)
                            == it0.store_model().frag_of(i));
                        assert(FragmentStore::slot_same(
                            crun.store_model(),
                            ctx.store_model(),
                            i,
                        ));
                    }
                    assert(it0.store_model().frag_of(f.0 as int) == Some(stv));
                    assert(stv == MaybeEvaluatedFragment::Unevaluated(
                        UnevaluatedFragment { key, gen },
                    ));
                    if old(ctx).store_model().frag_of(f.0 as int) matches Some(
                        MaybeEvaluatedFragment::Unevaluated(_),
                    ) && old(ctx).store_model().slot_live(f.0 as int) {
                        assert(it0.store_model().frag_of(f.0 as int) == old(
                            ctx,
                        ).store_model().frag_of(f.0 as int));
                    }
                    lemma_transition_carry(
                        old(ctx).store_model(),
                        it0.store_model(),
                        ctx.store_model(),
                        f.0 as int,
                    );
                    assert forall|m: int|
                        0 <= m < pending@.len() implies layout_tree.node_live(
                        (#[trigger] pending@[m]).0 as int,
                    ) by {
                        if m < pending@.len() - 1 {
                            assert(lpre.node_live(pending@[m].0 as int));
                            assert(Layouter::node_same(lpre, lq, pending@[m].0 as int));
                        } else {
                            assert(pending@[m].0 == layout_idx);
                        }
                    }
                    if q0 =~= seq![frag] {
                        assert(f == frag);
                        assert(slot_evaluated(ctx.store_model(), frag.0 as int));
                    } else {
                        assert(slot_evaluated(it0.store_model(), frag.0 as int));
                        assert(f.0 != frag.0);
                        assert(FragmentStore::slot_same(
                            it0.store_model(),
                            t1.store_model(),
                            frag.0 as int,
                        ));
                        assert(t2.store_model().frag_of(frag.0 as int) == t1.store_model().frag_of(
                            frag.0 as int,
                        ));
                        assert(t2.store_model().slot_live(frag.0 as int));
                        assert(FragmentStore::slot_same(
                            t2.store_model(),
                            ctx.store_model(),
                            frag.0 as int,
                        ));
                        assert(slot_evaluated(ctx.store_model(), frag.0 as int));
                    }
                }
            },
        }
    }
    let ghost store_fin = ctx.store_model();
    proof {
        ctx.models();
    }
    let mut m: usize = 0;
    while m < pending.len()
        invariant
            m <= pending@.len(),
            *fuel <= fuel0,
            ctx.inv(),
            ctx.store_model() == store_fin,
            layout_tree.wf(),
            slot_evaluated(ctx.store_model(), frag.0 as int),
            pending@.len() > 0,
            ctx.store_model().frag_of(frag.0 as int) matches Some(
                MaybeEvaluatedFragment::Evaluated(rec),
            ) && pending@[0].0 == rec.layout_idx && pending@[0].1@ == rec.children@,
            forall|a: int, b: int|
                0 <= a < b < pending@.len() ==> (#[trigger] pending@[a]).0 != (
                #[trigger] pending@[b]).0,
            forall|mm: int|
                0 <= mm < pending@.len() ==> layout_tree.node_live(
                    (#[trigger] pending@[mm]).0 as int,
                ),
            forall|mm: int|
                0 <= mm < pending@.len() ==> !old(layout_tree).node_live(
                    (#[trigger] pending@[mm]).0 as int,
                ),
            forall|h: int|
                #[trigger] old(layout_tree).node_live(h) ==> layout_tree.node_live(h)
                    && Layouter::node_same(*old(layout_tree), *layout_tree, h),
            m > 0 ==> children_attached(ctx.store_model(), *layout_tree, frag.0 as int),
        decreases pending@.len() - m,
    {
        let h = pending[m].0;
        let mut handles: Vec<usize> = Vec::new();
        let ghost cs = *ctx;
        let ghost ls = *layout_tree;
        let mut ci: usize = 0;
        let num_children = pending[m].1.len();
        while ci < num_children
            invariant
                m < pending@.len(),
                num_children == pending@[m as int].1@.len(),
                ci <= num_children,
                *fuel <= fuel0,
                *ctx == cs,
                *layout_tree == ls,
                cs.inv(),
                ls.wf(),
                handles@.len() == ci,
                forall|j: int|
                    0 <= j < ci ==> slot_evaluated(
                        cs.store_model(),
                        (#[trigger] pending@[m as int].1@[j]).0 as int,
                    ) && (cs.store_model().frag_of(pending@[m as int].1@[j].0 as int)
                        matches Some(MaybeEvaluatedFragment::Evaluated(crec)) ==> handles@[j]
                        == crec.layout_idx),
            decreases num_children - ci,
        {
            let c = pending[m].1[ci];
            proof {
                ctx.models();
            }
            if ctx.fragment_store.removed(c) {
                return Err(EngineError::StaleChild);
            }
            match ctx.fragment_store.get(c) {
                MaybeEvaluatedFragment::Evaluated(ev) => {
                    handles.push(ev.layout_idx);
                },
                MaybeEvaluatedFragment::Unevaluated(_) => {
                    return Err(EngineError::WrongVariant);
                },
            }
            ci = ci + 1;
        }
        let ghost lsc = *layout_tree;
        layout_tree.set_children(h, handles);
        proof {
            assert forall|mm: int|
                0 <= mm < pending@.len() implies layout_tree.node_live(
                (#[trigger] pending@[mm]).0 as int,
            ) by {
                if pending@[mm].0 != h {
                    assert(Layouter::node_same(lsc, *layout_tree, pending@[mm].0 as int));
                }
            }
            assert forall|hh: int|
                #[trigger] old(layout_tree).node_live(hh) implies layout_tree.node_live(hh)
                    && Layouter::node_same(*old(layout_tree), *layout_tree, hh) by {
                assert(lsc.node_live(hh));
                assert(hh != h);
                assert(Layouter::node_same(lsc, *layout_tree, hh));
            }
            if m == 0 {
                assert(children_attached(ctx.store_model(), *layout_tree, frag.0 as int));
            } else {
                assert(pending@[0].0 != h);
                assert(Layouter::node_same(lsc, *layout_tree, pending@[0].0 as int));
                assert(children_attached(ctx.store_model(), *layout_tree, frag.0 as int));
            }
        }
        m = m + 1;
    }
    Ok(())
}

/// Chains the unevaluated-to-evaluated transition clause across one
/// engine step: records other than `excl`'s are preserved by the step, and
/// `excl`'s outcome is supplied directly.
proof fn lemma_transition_carry<G>(
    o: FragmentStore<G>,
    a: FragmentStore<G>,
    b: FragmentStore<G>,
    excl: int,
)
    requires
        forall|i: int|
            #[trigger] o.frag_of(i) matches Some(MaybeEvaluatedFragment::Unevaluated(u)) ==> (
            o.slot_live(i) ==> a.slot_live(i) && (a.frag_of(i) == o.frag_of(i) || (a.frag_of(i)
                matches Some(MaybeEvaluatedFragment::Evaluated(e)) && e.key == u.key && e.gen
                == u.gen && e.store_idx.0 == i))),
        forall|i: int|
            i != excl && a.slot_live(i) && a.frag_of(i) is Some ==> b.slot_live(i)
                && #[trigger] b.frag_of(i) == a.frag_of(i),
        o.frag_of(excl) matches Some(MaybeEvaluatedFragment::Unevaluated(u2)) ==> (o.slot_live(
            excl,
        ) ==> b.slot_live(excl) && (b.frag_of(excl) == o.frag_of(excl) || (b.frag_of(excl)
            matches Some(MaybeEvaluatedFragment::Evaluated(e2)) && e2.key == u2.key && e2.gen
            == u2.gen && e2.store_idx.0 == excl))),
    ensures
        forall|i: int|
            #[trigger] o.frag_of(i) matches Some(MaybeEvaluatedFragment::Unevaluated(u)) ==> (
            o.slot_live(i) ==> b.slot_live(i) && (b.frag_of(i) == o.frag_of(i) || (b.frag_of(i)
                matches Some(MaybeEvaluatedFragment::Evaluated(e)) && e.key == u.key && e.gen
                == u.gen && e.store_idx.0 == i))),
{
}

/// Chains the evaluated-record frame across a mutation that left every
/// slot but `excl` untouched.
proof fn lemma_eval_frame_step<G>(
    o: FragmentStore<G>,
    a: FragmentStore<G>,
    b: FragmentStore<G>,
    excl: int,
)
    requires
        forall|i: int|
            i != excl && slot_evaluated(o, i) ==> a.slot_live(i) && a.frag_of(i) == o.frag_of(i),
        forall|i: int| i != excl ==> #[trigger] FragmentStore::slot_same(a, b, i),
    ensures
        forall|i: int|
            i != excl && slot_evaluated(o, i) ==> b.slot_live(i) && b.frag_of(i) == o.frag_of(i),
{
    assert forall|i: int|
        i != excl && slot_evaluated(o, i) implies b.slot_live(i) && b.frag_of(i) == o.frag_of(
        i,
    ) by {
        assert(FragmentStore::slot_same(a, b, i));
    }
}

/// Chains the evaluated-record frame across a mutation that preserved
/// every evaluated record and every allocation (a generator run, or an
/// unconditional evaluation of some other fragment).
proof fn lemma_eval_frame_keep<G>(
    o: FragmentStore<G>,
    a: FragmentStore<G>,
    b: FragmentStore<G>,
    excl: int,
)
    requires
        forall|i: int|
            i != excl && slot_evaluated(o, i) ==> a.slot_live(i) && a.frag_of(i) == o.frag_of(i),
        forall|i: int| slot_evaluated(a, i) ==> b.frag_of(i) == a.frag_of(i),
        forall|i: int| a.slot_live(i) ==> b.slot_live(i),
    ensures
        forall|i: int|
            i != excl && slot_evaluated(o, i) ==> b.slot_live(i) && b.frag_of(i) == o.frag_of(i),
{
    assert forall|i: int|
        i != excl && slot_evaluated(o, i) implies b.slot_live(i) && b.frag_of(i) == o.frag_of(
        i,
    ) by {
        assert(slot_evaluated(a, i));
    }
}

/// Re-evaluation of a possibly already evaluated fragment: skips slots
/// already freed (a stale request, with everything untouched), evaluates
/// unevaluated ones unconditionally, and otherwise re-runs the generator,
/// reconciles the new child list against the old one by fragment identity
/// (fresh children are evaluated, matching evaluated children are reused),
/// replaces the layout node's children and properties, and tears down
/// whatever old children were not reused. The contract pins, for a
/// surviving fragment: the key and layout handle are stable, every old
/// child absent from the new list ends freed, and the layout node carries
/// the new children's handles — the escape arms name the degenerate
/// generator outputs (a node or child torn down because the dropped
/// subtrees reached it, or the skipped rewiring when both lists are
/// empty, where the node's children stay as they were). A fragment listing
/// itself as its own child is rejected as a wrong-variant fault.
#[verifier::loop_isolation(false)]
fn re_eval_fragment<G: Gen>(
    ctx: &mut WidgetContext<G>,
    layout_tree: &mut Layouter,
    frag: Fragment,
    fuel: &mut usize,
) -> (r: Result<(), EngineError>)
    requires
        old(ctx).inv(),
        old(layout_tree).wf(),
    ensures
        final(ctx).inv(),
        final(layout_tree).wf(),
        *final(fuel) <= *old(fuel),
        r is Ok ==> *final(fuel) < *old(fuel),
        forall|i: int|
            i != frag.0 && slot_evaluated(old(ctx).store_model(), i)
                ==> !final(ctx).store_model().slot_live(i)
                || final(ctx).store_model().frag_of(i) == old(ctx).store_model().frag_of(i),
        *old(fuel) == 0 ==> r == Err::<(), EngineError>(EngineError::OutOfFuel) && *final(ctx)
            == *old(ctx) && *final(layout_tree) == *old(layout_tree),
        *old(fuel) > 0 && (!old(ctx).store_model().slot_live(frag.0 as int) || old(
            ctx,
        ).store_model().frag_of(frag.0 as int) is None) ==> r is Ok && *final(ctx) == *old(ctx)
            && *final(layout_tree) == *old(layout_tree),
        r == Err::<(), EngineError>(EngineError::OutOfFuel) ==> *final(fuel) == 0,
        old(ctx).store_model().frag_of(frag.0 as int) matches Some(
            MaybeEvaluatedFragment::Unevaluated(_),
        ) && r is Ok && old(ctx).store_model().slot_live(frag.0 as int) ==> slot_evaluated(
            final(ctx).store_model(),
            frag.0 as int,
        ),
        old(ctx).store_model().frag_of(frag.0 as int) matches Some(
            MaybeEvaluatedFragment::Evaluated(oldrec),
        ) ==> (r is Ok && old(ctx).store_model().slot_live(frag.0 as int)
            ==> !final(ctx).store_model().slot_live(frag.0 as int)
            || (final(ctx).store_model().frag_of(frag.0 as int) matches Some(
                MaybeEvaluatedFragment::Evaluated(newrec),
            ) && newrec.key == oldrec.key && newrec.layout_idx == oldrec.layout_idx
                && (forall|m: int|
                0 <= m < oldrec.children@.len() && !newrec.children@.contains(
                    #[trigger] oldrec.children@[m],
                ) ==> !final(ctx).store_model().slot_live(oldrec.children@[m].0 as int)
                    || final(ctx).store_model().frag_of(oldrec.children@[m].0 as int) is None)
                && (
            children_attached(final(ctx).store_model(), *final(layout_tree), frag.0 as int)
                || !final(layout_tree).node_live(newrec.layout_idx as int) || (exists|mm: int|
                0 <= mm < newrec.children@.len() && !final(ctx).store_model().slot_live(
                    (#[trigger] newrec.children@[mm]).0 as int,
                )) || (newrec.children@.len() == 0 && oldrec.children@.len() == 0
                && layout_children_kept(
                *old(layout_tree),
                *final(layout_tree),
                oldrec.layout_idx as int,
            ))))),
{
    if *fuel == 0 {
        return Err(EngineError::OutOfFuel);
    }
    *fuel = *fuel - 1;
    proof {
        ctx.models();
    }
    if ctx.fragment_store.removed(frag) {
        return Ok(());
    }
    let st = ctx.fragment_store.take_fragment(frag);
    proof {
        ctx.models();
    }
    let ghost tk2 = *ctx;
    let ghost stv2 = st;
    proof {
        assert(old(ctx).store_model().frag_of(frag.0 as int) == Some(stv2));
        lemma_eval_frame_step(
            old(ctx).store_model(),
            old(ctx).store_model(),
            tk2.store_model(),
            frag.0 as int,
        );
    }
    match st {
        MaybeEvaluatedFragment::Unevaluated(uf) => {
            ctx.fragment_store.put_fragment(frag, MaybeEvaluatedFragment::Unevaluated(uf));
            proof {
                ctx.models();
            }
            let ghost pb = *ctx;
            proof {
                lemma_eval_frame_step(
                    old(ctx).store_model(),
                    tk2.store_model(),
                    pb.store_model(),
                    frag.0 as int,
                );
            }
            let rr = evaluate_unconditional(ctx, layout_tree, frag, fuel);
            proof {
                ctx.models();
                lemma_eval_frame_keep(
                    old(ctx).store_model(),
                    pb.store_model(),
                    ctx.store_model(),
                    frag.0 as int,
                );
                assert(stv2 is Unevaluated);
                assert(!(old(ctx).store_model().frag_of(frag.0 as int) matches Some(
                    MaybeEvaluatedFragment::Evaluated(_),
                )));
            }
            match rr {
                Ok(()) => Ok(()),
                Err(e) => Err(e),
            }
        },
        MaybeEvaluatedFragment::Evaluated(ev) => {
            let EvaluatedFragment { key, gen, layout_idx, store_idx, children: old_children } = ev;
            let num_old = old_children.len();
            ctx.widget_local = WidgetLocalContext::for_key(key, frag);
            ctx.local_hook = true;
            proof {
                ctx.models();
            }
            let ghost pr = *ctx;
            proof {
                lemma_eval_frame_step(
                    old(ctx).store_model(),
                    tk2.store_model(),
                    pr.store_model(),
                    frag.0 as int,
                );
            }
            let desc = gen.run(ctx);
            proof {
                ctx.models();
                assert forall|i: int|
                    slot_evaluated(pr.store_model(), i) implies ctx.store_model().frag_of(i)
                        == pr.store_model().frag_of(i) by {}
                lemma_eval_frame_keep(
                    old(ctx).store_model(),
                    pr.store_model(),
                    ctx.store_model(),
                    frag.0 as int,
                );
            }
            let ghost c0 = *ctx;
            let ghost l0 = *layout_tree;
            let mut child_keys: Vec<Key> = Vec::new();
            let mut ci: usize = 0;
            while ci < desc.children.len()
                invariant
                    ci <= desc.children@.len(),
                    *ctx == c0,
                    *layout_tree == l0,
                decreases desc.children@.len() - ci,
            {
                let c = desc.children[ci];
                if ctx.fragment_store.removed(c) {
                    ctx.fragment_store.put_fragment(
                        frag,
                        MaybeEvaluatedFragment::Evaluated(
                            EvaluatedFragment {
                                key,
                                gen,
                                layout_idx,
                                store_idx,
                                children: old_children,
                            },
                        ),
                    );
                    proof {
                        ctx.models();
                        lemma_eval_frame_step(
                            old(ctx).store_model(),
                            c0.store_model(),
                            ctx.store_model(),
                            frag.0 as int,
                        );
                    }
                    return Err(EngineError::StaleChild);
                }
                child_keys.push(ctx.fragment_store.get(c).key());
                ci = ci + 1;
            }
            if !check_unique_keys_children(&child_keys) {
                ctx.fragment_store.put_fragment(
                    frag,
                    MaybeEvaluatedFragment::Evaluated(
                        EvaluatedFragment {
                            key,
                            gen,
                            layout_idx,
                            store_idx,
                            children: old_children,
                        },
                    ),
                );
                proof {
                    ctx.models();
                    lemma_eval_frame_step(
                        old(ctx).store_model(),
                        c0.store_model(),
                        ctx.store_model(),
                        frag.0 as int,
                    );
                }
                return Err(EngineError::DuplicateSiblingKeys);
            }
            let ghost oldc0 = old_children@;
            let mut old_work = old_children;
            proof {
                assert forall|j: int|
                    0 <= j < oldc0.len() implies old_work@.contains(#[trigger] oldc0[j]) by {
                    assert(old_work@[j] == oldc0[j]);
                }
            }
            let mut ci2: usize = 0;
            while ci2 < desc.children.len()
                invariant
                    ci2 <= desc.children@.len(),
                    *fuel < *old(fuel),
                    ctx.inv(),
                    layout_tree.wf(),
                    ctx.store_model().slot_live(frag.0 as int),
                    forall|i: int|
                        i != frag.0 && slot_evaluated(old(ctx).store_model(), i)
                            ==> ctx.store_model().slot_live(i) && ctx.store_model().frag_of(i)
                            == old(ctx).store_model().frag_of(i),
                    forall|j: int| 0 <= j < ci2 ==> #[trigger] desc.children@[j] != frag,
                    forall|j: int|
                        0 <= j < oldc0.len() && !desc.children@.contains(#[trigger] oldc0[j])
                            ==> old_work@.contains(oldc0[j]),
                    forall|h: int|
                        #[trigger] old(layout_tree).node_live(h) ==> layout_tree.node_live(h)
                            && Layouter::node_same(*old(layout_tree), *layout_tree, h),
                decreases desc.children@.len() - ci2,
            {
                let c = desc.children[ci2];
                let ghost itpre = *ctx;
                let ghost lt_it = *layout_tree;
                proof {
                    ctx.models();
                }
                if c.0 == frag.0 {
                    ctx.fragment_store.put_fragment(
                        frag,
                        MaybeEvaluatedFragment::Evaluated(
                            EvaluatedFragment {
                                key,
                                gen,
                                layout_idx,
                                store_idx,
                                children: old_work,
                            },
                        ),
                    );
                    proof {
                        ctx.models();
                        lemma_eval_frame_step(
                            old(ctx).store_model(),
                            itpre.store_model(),
                            ctx.store_model(),
                            frag.0 as int,
                        );
                    }
                    return Err(EngineError::WrongVariant);
                }
                if ctx.fragment_store.removed(c) {
                    ctx.fragment_store.put_fragment(
                        frag,
                        MaybeEvaluatedFragment::Evaluated(
                            EvaluatedFragment {
                                key,
                                gen,
                                layout_idx,
                                store_idx,
                                children: old_work,
                            },
                        ),
                    );
                    proof {
                        ctx.models();
                        lemma_eval_frame_step(
                            old(ctx).store_model(),
                            itpre.store_model(),
                            ctx.store_model(),
                            frag.0 as int,
                        );
                    }
                    return Err(EngineError::StaleChild);
                }
                let is_unevaluated: bool;
                match ctx.fragment_store.get(c) {
                    MaybeEvaluatedFragment::Unevaluated(_) => {
                        is_unevaluated = true;
                    },
                    MaybeEvaluatedFragment::Evaluated(_) => {
                        is_unevaluated = false;
                    },
                }
                if is_unevaluated {
                    let cr = evaluate_unconditional(ctx, layout_tree, c, fuel);
                    proof {
                        ctx.models();
                        lemma_eval_frame_keep(
                            old(ctx).store_model(),
                            itpre.store_model(),
                            ctx.store_model(),
                            frag.0 as int,
                        );
                    }
                    match cr {
                        Ok(()) => {},
                        Err(e) => {
                            let ghost fpre = *ctx;
                            ctx.fragment_store.put_fragment(
                                frag,
                                MaybeEvaluatedFragment::Evaluated(
                                    EvaluatedFragment {
                                        key,
                                        gen,
                                        layout_idx,
                                        store_idx,
                                        children: old_work,
                                    },
                                ),
                            );
                            proof {
                                ctx.models();
                                lemma_eval_frame_step(
                                    old(ctx).store_model(),
                                    fpre.store_model(),
                                    ctx.store_model(),
                                    frag.0 as int,
                                );
                            }
                            return Err(e);
                        },
                    }
                } else {
                    let pos = find_position(&old_work, c);
                    match pos {
                        Some(p) => {
                            let ghost w0 = old_work@;
                            proof {
                                assert forall|j: int|
                                    0 <= j < oldc0.len() && !desc.children@.contains(
                                        #[trigger] oldc0[j],
                                    ) implies w0.contains(oldc0[j]) by {}
                            }
                            old_work.swap_remove(p);
                            proof {
                                assert(desc.children@[ci2 as int] == c);
                                assert(desc.children@.contains(c));
                                assert forall|j: int|
                                    0 <= j < oldc0.len() && !desc.children@.contains(
                                        #[trigger] oldc0[j],
                                    ) implies old_work@.contains(oldc0[j]) by {
                                    assert(oldc0[j] != c);
                                    assert(w0.contains(oldc0[j]));
                                    let q = choose|q: int|
                                        0 <= q < w0.len() && w0[q] == oldc0[j];
                                    assert(q != p);
                                    if q == w0.len() - 1 {
                                        assert(old_work@[p as int] == oldc0[j]);
                                    } else {
                                        assert(old_work@[q] == oldc0[j]);
                                    }
                                }
                            }
                        },
                        None => {},
                    }
                }
                proof {
                    ctx.models();
                    assert forall|h: int|
                        #[trigger] old(layout_tree).node_live(h) implies layout_tree.node_live(
                        h,
                    ) && Layouter::node_same(*old(layout_tree), *layout_tree, h) by {
                        assert(lt_it.node_live(h) && Layouter::node_same(
                            *old(layout_tree),
                            lt_it,
                            h,
                        ));
                        assert(Layouter::node_same(lt_it, *layout_tree, h));
                    }
                }
                ci2 = ci2 + 1;
            }
            let ghost post_kids = *ctx;
            proof {
                ctx.models();
            }
            if !layout_tree.is_live(layout_idx) {
                ctx.fragment_store.put_fragment(
                    frag,
                    MaybeEvaluatedFragment::Evaluated(
                        EvaluatedFragment { key, gen, layout_idx, store_idx, children: old_work },
                    ),
                );
                proof {
                    ctx.models();
                    lemma_eval_frame_step(
                        old(ctx).store_model(),
                        post_kids.store_model(),
                        ctx.store_model(),
                        frag.0 as int,
                    );
                }
                return Err(EngineError::MissingLayoutNode);
            }
            let ghost did_set = desc.children@.len() != 0 || num_old != 0;
            let ghost catt = *ctx;
            let ghost mut hg: Seq<usize> = Seq::empty();
            if desc.children.len() != 0 || num_old != 0 {
                let mut handles: Vec<usize> = Vec::new();
                let ghost ch = *ctx;
                let ghost lh = *layout_tree;
                let mut ci3: usize = 0;
                while ci3 < desc.children.len()
                    invariant
                        ci3 <= desc.children@.len(),
                        *ctx == ch,
                        *layout_tree == lh,
                        handles@.len() == ci3,
                        forall|j: int|
                            0 <= j < ci3 ==> slot_evaluated(
                                ch.store_model(),
                                (#[trigger] desc.children@[j]).0 as int,
                            ) && (ch.store_model().frag_of(desc.children@[j].0 as int)
                                matches Some(MaybeEvaluatedFragment::Evaluated(crec))
                                ==> handles@[j] == crec.layout_idx),
                    decreases desc.children@.len() - ci3,
                {
                    let c = desc.children[ci3];
                    proof {
                        ctx.models();
                    }
                    if ctx.fragment_store.removed(c) {
                        ctx.fragment_store.put_fragment(
                            frag,
                            MaybeEvaluatedFragment::Evaluated(
                                EvaluatedFragment {
                                    key,
                                    gen,
                                    layout_idx,
                                    store_idx,
                                    children: old_work,
                                },
                            ),
                        );
                        proof {
                            ctx.models();
                            lemma_eval_frame_step(
                                old(ctx).store_model(),
                                ch.store_model(),
                                ctx.store_model(),
                                frag.0 as int,
                            );
                        }
                        return Err(EngineError::StaleChild);
                    }
                    match ctx.fragment_store.get(c) {
                        MaybeEvaluatedFragment::Evaluated(cev) => {
                            handles.push(cev.layout_idx);
                        },
                        MaybeEvaluatedFragment::Unevaluated(_) => {
                            ctx.fragment_store.put_fragment(
                                frag,
                                MaybeEvaluatedFragment::Evaluated(
                                    EvaluatedFragment {
                                        key,
                                        gen,
                                        layout_idx,
                                        store_idx,
                                        children: old_work,
                                    },
                                ),
                            );
                            proof {
                                ctx.models();
                                lemma_eval_frame_step(
                                    old(ctx).store_model(),
                                    ch.store_model(),
                                    ctx.store_model(),
                                    frag.0 as int,
                                );
                            }
                            return Err(EngineError::WrongVariant);
                        },
                    }
                    ci3 = ci3 + 1;
                }
                proof {
                    hg = handles@;
                }
                layout_tree.set_children(layout_idx, handles);
            }
            proof {
                assert(did_set ==> layout_tree.children_of(layout_idx as int) == hg && hg.len()
                    == desc.children@.len());
            }
            layout_tree.set_node(layout_idx, desc.layout, desc.render_object, desc.is_clipper);
            let children_rec = clone_fragments(&desc.children);
            proof {
                ctx.models();
            }
            let ghost pre_put = *ctx;
            ctx.fragment_store.put_fragment(
                frag,
                MaybeEvaluatedFragment::Evaluated(
                    EvaluatedFragment { key, gen, layout_idx, store_idx, children: children_rec },
                ),
            );
            proof {
                ctx.models();
                lemma_eval_frame_step(
                    old(ctx).store_model(),
                    pre_put.store_model(),
                    ctx.store_model(),
                    frag.0 as int,
                );
            }
            let ghost pre_rm = *ctx;
            let ghost l_rm = *layout_tree;
            remove_tree(ctx, layout_tree, old_work);
            proof {
                ctx.models();
                pre_rm.models();
                catt.models();
                assert forall|i: int|
                    i != frag.0 && slot_evaluated(old(ctx).store_model(), i)
                        implies !ctx.store_model().slot_live(i) || ctx.store_model().frag_of(i)
                        == old(ctx).store_model().frag_of(i) by {
                    if ctx.store_model().slot_live(i) {
                        assert(pre_rm.store_model().slot_live(i));
                        assert(ctx.store_model().frag_of(i) == pre_rm.store_model().frag_of(i));
                    }
                }
                if ctx.store_model().slot_live(frag.0 as int) {
                    assert(ctx.store_model().frag_of(frag.0 as int) == pre_rm.store_model(
                    ).frag_of(frag.0 as int));
                    let newrec = ctx.store_model().frag_of(frag.0 as int).unwrap()->Evaluated_0;
                    assert(newrec.layout_idx == layout_idx && newrec.children@
                        == desc.children@);
                    if layout_tree.node_live(layout_idx as int) && !newrec.children@.contains(
                        frag,
                    ) && (forall|mm: int|
                        0 <= mm < newrec.children@.len() ==> ctx.store_model().slot_live(
                            (#[trigger] newrec.children@[mm]).0 as int,
                        )) && !(newrec.children@.len() == 0 && num_old == 0) {
                        assert(l_rm.node_live(layout_idx as int));
                        assert(Layouter::node_same(l_rm, *layout_tree, layout_idx as int));
                        assert(did_set);
                        assert(layout_tree.children_of(layout_idx as int) == hg);
                        assert forall|mm: int|
                            0 <= mm < newrec.children@.len() implies {
                            let c = (#[trigger] newrec.children@[mm]).0 as int;
                            &&& slot_evaluated(ctx.store_model(), c)
                            &&& (ctx.store_model().frag_of(c) matches Some(
                                MaybeEvaluatedFragment::Evaluated(crec),
                            ) ==> layout_tree.children_of(layout_idx as int)[mm]
                                == crec.layout_idx)
                        } by {
                            let c = newrec.children@[mm].0 as int;
                            assert(newrec.children@[mm] != frag);
                            assert(c != frag.0);
                            assert(ctx.store_model().slot_live(c));
                            assert(pre_rm.store_model().slot_live(c));
                            assert(ctx.store_model().frag_of(c) == pre_rm.store_model().frag_of(
                                c,
                            ));
                            assert(FragmentStore::slot_same(
                                catt.store_model(),
                                pre_rm.store_model(),
                                c,
                            ));
                            assert(slot_evaluated(catt.store_model(), c));
                        }
                        assert(children_attached(
                            ctx.store_model(),
                            *layout_tree,
                            frag.0 as int,
                        ));
                    }
                }
            }
            Ok(())
        },
    }
}

/// `committed` is `pre` with every pending write applied and the touched
/// cells' dependent sets consumed: what one atomic commit plus the drain
/// of the touched dependents leaves behind.
pub open spec fn commit_of(pre: PatchedTree, committed: PatchedTree) -> bool {
    &&& committed.num_cells() == pre.num_cells()
    &&& forall|i: int| committed.live(i) == pre.live(i)
    &&& PatchedTree::index_same(pre, committed)
    &&& forall|i: int|
        pre.live(i) ==> {
            &&& committed.cell_key(i) == pre.cell_key(i)
            &&& committed.value_of(i) == pre.read_of(i)
            &&& committed.patch_of(i) is None
            &&& committed.deps_of(i) == if pre.patch_of(i) is Some {
                Seq::<usize>::empty()
            } else {
                pre.deps_of(i)
            }
        }
}

/// Some state cell carries a pending write and has at least one recorded
/// dependent: the condition under which an update cycle has work to do.
pub open spec fn some_dependent_touched(t: PatchedTree) -> bool {
    exists|i: int| t.live(i) && t.patch_of(i) is Some && t.deps_of(i).len() > 0
}

/// The re-evaluation driver: owns the state store, the fragment arena, and
/// the identity registry, and keeps the computed tree consistent with the
/// committed state by re-running exactly the affected generators.
pub struct Evaluator<G: Gen> {
    ctx: WidgetContext<G>,
    top_node: usize,
    root_fragment: Fragment,
    committed: Ghost<PatchedTree>,
}

impl<G: Gen> Evaluator<G> {
    /// The evaluation context, for specification purposes.
    pub closed spec fn ctx_model(self) -> WidgetContext<G> {
        self.ctx
    }

    /// All engine components are well-formed.
    pub open spec fn inv(self) -> bool {
        self.ctx_model().inv()
    }

    /// The state store's state, for specification purposes.
    pub open spec fn tree_model(self) -> PatchedTree {
        self.ctx_model().tree_model()
    }

    /// The fragment arena's state, for specification purposes.
    pub open spec fn store_model(self) -> FragmentStore<G> {
        self.ctx_model().store_model()
    }

    /// The layout handle of the root fragment, for specification purposes.
    pub closed spec fn spec_top_node(self) -> usize {
        self.top_node
    }

    /// The root fragment's slot, for specification purposes.
    pub closed spec fn spec_root_fragment(self) -> Fragment {
        self.root_fragment
    }

    /// The state store as the last update cycle's commit left it, before
    /// any generator of that cycle ran: the stable snapshot the cycle's
    /// reads observe.
    pub closed spec fn spec_committed(self) -> PatchedTree {
        self.committed@
    }

    /// Root evaluation: allocates the root fragment, evaluates it
    /// unconditionally (at most `fuel` fragments deep in this pass), records
    /// the resulting layout handle as the tree root, and discards dirty
    /// args generated during this first pass (they reflect initial-write
    /// side effects already incorporated).
    pub fn new(top_node_frag: UnevaluatedFragment<G>, layout_tree: &mut Layouter, fuel: usize) -> (r:
        Result<Self, EngineError>)
        requires
            old(layout_tree).wf(),
        ensures
            final(layout_tree).wf(),
            r matches Ok(e) ==> {
                &&& e.inv()
                &&& slot_evaluated(e.store_model(), e.spec_root_fragment().0 as int)
                &&& (e.store_model().frag_of(e.spec_root_fragment().0 as int) matches Some(mf)
                    && mf matches MaybeEvaluatedFragment::Evaluated(rec) && rec.layout_idx
                    == e.spec_top_node())
                &&& children_attached(e.store_model(), *final(layout_tree), e.spec_root_fragment().0 as int)
                &&& e.store_model().dirty() == Seq::<Fragment>::empty()
            },
            fuel == 0 ==> (r matches Err(e) && e == EngineError::OutOfFuel),
    {
        let UnevaluatedFragment { key, gen } = top_node_frag;
        let mut ctx = WidgetContext::<G>::root_new(WidgetLocalContext::for_key(key, Fragment(0)));
        let top = ctx.create_fragment(key, gen);
        let mut fuel_left = fuel;
        match evaluate_unconditional(&mut ctx, layout_tree, top, &mut fuel_left) {
            Err(e) => {
                return Err(e);
            },
            Ok(()) => {},
        }
        proof {
            ctx.models();
        }
        let top_node: usize;
        match ctx.fragment_store.get(top) {
            MaybeEvaluatedFragment::Evaluated(ev) => {
                top_node = ev.layout_idx;
            },
            MaybeEvaluatedFragment::Unevaluated(_) => {
                proof {
                    assert(false);
                }
                top_node = 0;
            },
        }
        let ghost pre_drain = ctx;
        let _initial_dirty = ctx.fragment_store.dirty_args();
        proof {
            ctx.models();
            pre_drain.models();
            assert(FragmentStore::slot_same(
                pre_drain.store_model(),
                ctx.store_model(),
                top.0 as int,
            ));
            assert(children_attached(ctx.store_model(), *layout_tree, top.0 as int)) by {
                assert(children_attached(pre_drain.store_model(), *layout_tree, top.0 as int));
                let rec = ctx.store_model().frag_of(top.0 as int).unwrap()->Evaluated_0;
                assert forall|m: int|
                    0 <= m < rec.children@.len() implies {
                    let c = (#[trigger] rec.children@[m]).0 as int;
                    &&& slot_evaluated(ctx.store_model(), c)
                    &&& (ctx.store_model().frag_of(c) matches Some(
                        MaybeEvaluatedFragment::Evaluated(crec),
                    ) ==> layout_tree.children_of(rec.layout_idx as int)[m] == crec.layout_idx)
                } by {
                    let c = rec.children@[m].0 as int;
                    assert(FragmentStore::slot_same(pre_drain.store_model(), ctx.store_model(), c));
                }
            }
        }
        let ghost committed_init = ctx.tree_model();
        Ok(Evaluator { ctx, top_node, root_fragment: top, committed: Ghost(committed_init) })
    }

    /// One update cycle: commits the buffered writes, consumes the touched
    /// cells' dependent sets into a deduplicated set of fragments to
    /// re-evaluate, re-evaluates them, and then drains the dirty-args queue
    /// to a fixpoint, re-evaluating every fragment whose arguments changed
    /// until a drain comes back empty. Reports whether anything was
    /// processed: `Ok(false)` exactly when no committed write had a
    /// dependent, in which case nothing but the commit itself happened.
    #[verifier::loop_isolation(false)]
    pub fn update(&mut self, layout_tree: &mut Layouter, fuel: usize) -> (r: Result<
        bool,
        EngineError,
    >)
        requires
            old(self).inv(),
            old(layout_tree).wf(),
        ensures
            final(self).inv(),
            final(layout_tree).wf(),
            (r == Ok::<bool, EngineError>(false)) <==> !some_dependent_touched(
                old(self).tree_model(),
            ),
            r == Ok::<bool, EngineError>(false) ==> {
                &&& *final(layout_tree) == *old(layout_tree)
                &&& final(self).store_model() == old(self).store_model()
                &&& final(self).tree_model().num_cells() == old(self).tree_model().num_cells()
                &&& PatchedTree::index_same(old(self).tree_model(), final(self).tree_model())
                &&& forall|i: int|
                    final(self).tree_model().live(i) == old(self).tree_model().live(i)
                &&& forall|i: int|
                    old(self).tree_model().live(i) ==> {
                        &&& final(self).tree_model().cell_key(i) == old(self).tree_model().cell_key(
                            i,
                        )
                        &&& final(self).tree_model().value_of(i) == old(self).tree_model().read_of(
                            i,
                        )
                        &&& final(self).tree_model().patch_of(i) is None
                        &&& final(self).tree_model().deps_of(i) == old(self).tree_model().deps_of(
                            i,
                        )
                    }
            },
            r == Ok::<bool, EngineError>(true) ==> final(self).store_model().dirty()
                == Seq::<Fragment>::empty(),
            r is Err ==> some_dependent_touched(old(self).tree_model()),
            commit_of(old(self).tree_model(), final(self).spec_committed()),
    {
        let mut fuel_left = fuel;
        proof {
            self.ctx.models();
        }
        let touched = self.ctx.tree.update_tree();
        proof {
            self.ctx.models();
        }
        let ghost ctree = self.ctx.tree_model();
        let mut to_update: Vec<Fragment> = Vec::new();
        let mut ti: usize = 0;
        while ti < touched.len()
            invariant
                ti <= touched@.len(),
                self.ctx.inv(),
                self.ctx.fragment_store == old(self).ctx.fragment_store,
                forall|m: int|
                    0 <= m < touched@.len() ==> self.ctx.tree_model().live(
                        (#[trigger] touched@[m]).idx as int,
                    ),
                self.ctx.tree_model().num_cells() == ctree.num_cells(),
                PatchedTree::index_same(ctree, self.ctx.tree_model()),
                forall|i: int| self.ctx.tree_model().live(i) == ctree.live(i),
                forall|i: int|
                    ctree.live(i) ==> {
                        &&& self.ctx.tree_model().cell_key(i) == ctree.cell_key(i)
                        &&& self.ctx.tree_model().value_of(i) == ctree.value_of(i)
                        &&& self.ctx.tree_model().patch_of(i) == ctree.patch_of(i)
                    },
                forall|m: int|
                    0 <= m < ti ==> self.ctx.tree_model().deps_of(
                        (#[trigger] touched@[m]).idx as int,
                    ) == Seq::<usize>::empty(),
                forall|i: int|
                    ctree.live(i) && (forall|m: int|
                        0 <= m < ti ==> (#[trigger] touched@[m]).idx != i) ==> #[trigger] self.ctx.tree_model().deps_of(
                        i,
                    ) == ctree.deps_of(i),
                (to_update@.len() == 0) <==> (forall|m: int|
                    0 <= m < ti ==> ctree.deps_of((#[trigger] touched@[m]).idx as int).len() == 0),
            decreases touched@.len() - ti,
        {
            let t = touched[ti];
            proof {
                self.ctx.models();
            }
            let ghost dpre = self.ctx.tree_model();
            let deps = self.ctx.tree.dependents(t);
            proof {
                self.ctx.models();
                assert forall|i: int|
                    self.ctx.tree_model().live(i) == dpre.live(i) by {
                    if i != t.idx {
                        assert(PatchedTree::cell_same(dpre, self.ctx.tree_model(), i));
                    }
                }
                assert forall|i: int|
                    dpre.live(i) implies {
                        &&& self.ctx.tree_model().cell_key(i) == dpre.cell_key(i)
                        &&& self.ctx.tree_model().value_of(i) == dpre.value_of(i)
                        &&& self.ctx.tree_model().patch_of(i) == dpre.patch_of(i)
                    } by {
                    if i != t.idx {
                        assert(PatchedTree::cell_same(dpre, self.ctx.tree_model(), i));
                    }
                }
                assert(dpre.deps_of(t.idx as int) == ctree.deps_of(t.idx as int)) by {
                    assert forall|m: int| 0 <= m < ti implies (#[trigger] touched@[m]).idx
                        != t.idx by {
                        assert(touched@[m].idx < touched@[ti as int].idx);
                    }
                }
            }
            let ghost tu0 = to_update@;
            let mut di: usize = 0;
            while di < deps.len()
                invariant
                    di <= deps@.len(),
                    to_update@.len() >= tu0.len(),
                    di == 0 ==> to_update@ == tu0,
                    di > 0 ==> to_update@.len() > 0,
                decreases deps@.len() - di,
            {
                let d = deps[di];
                let pos = find_position(&to_update, Fragment(d));
                match pos {
                    Some(_) => {},
                    None => {
                        to_update.push(Fragment(d));
                    },
                }
                di = di + 1;
            }
            proof {
                assert forall|i: int|
                    ctree.live(i) && (forall|m: int|
                        0 <= m < ti + 1 ==> (#[trigger] touched@[m]).idx != i) implies #[trigger] self.ctx.tree_model().deps_of(
                    i,
                ) == ctree.deps_of(i) by {
                    assert(touched@[ti as int].idx != i);
                    assert(PatchedTree::cell_same(dpre, self.ctx.tree_model(), i));
                }
                assert forall|m: int|
                    0 <= m < ti + 1 implies self.ctx.tree_model().deps_of(
                    (#[trigger] touched@[m]).idx as int,
                ) == Seq::<usize>::empty() by {
                    if m < ti {
                        assert(touched@[m].idx < touched@[ti as int].idx);
                        assert(PatchedTree::cell_same(
                            dpre,
                            self.ctx.tree_model(),
                            touched@[m].idx as int,
                        ));
                    }
                }
                assert(deps@ == ctree.deps_of(t.idx as int));
                if to_update@.len() == 0 {
                    assert(tu0.len() == 0);
                    assert(deps@.len() == 0);
                    assert forall|m: int|
                        0 <= m < ti + 1 implies ctree.deps_of(
                        (#[trigger] touched@[m]).idx as int,
                    ).len() == 0 by {}
                } else {
                    if tu0.len() == 0 {
                        assert(deps@.len() > 0);
                        assert(ctree.deps_of(touched@[ti as int].idx as int).len() != 0);
                    } else {
                        let mm = choose|mm: int|
                            0 <= mm < ti && ctree.deps_of(
                                (#[trigger] touched@[mm]).idx as int,
                            ).len() != 0;
                        assert(ctree.deps_of(touched@[mm].idx as int).len() != 0);
                    }
                }
            }
            ti = ti + 1;
        }
        proof {
            self.ctx.models();
        }
        self.committed = Ghost(self.ctx.tree_model());
        proof {
            self.ctx.models();
            assert forall|i: int|
                old(self).tree_model().live(i) implies self.spec_committed().deps_of(i) == (if old(
                self,
            ).tree_model().patch_of(i) is Some {
                Seq::<usize>::empty()
            } else {
                old(self).tree_model().deps_of(i)
            }) by {
                if old(self).tree_model().patch_of(i) is Some {
                    let m = choose|m: int|
                        0 <= m < touched@.len() && (#[trigger] touched@[m]).idx == i;
                    assert(self.ctx.tree_model().deps_of(touched@[m].idx as int) == Seq::<
                        usize,
                    >::empty());
                } else {
                    assert forall|m: int|
                        0 <= m < touched@.len() implies (#[trigger] touched@[m]).idx != i by {
                        assert(old(self).tree_model().patch_of(touched@[m].idx as int) is Some);
                    }
                    assert(self.ctx.tree_model().deps_of(i) == ctree.deps_of(i));
                }
            }
        }
        if to_update.len() == 0 {
            proof {
                self.ctx.models();
                assert(!some_dependent_touched(old(self).tree_model())) by {
                    if some_dependent_touched(old(self).tree_model()) {
                        let i = choose|i: int|
                            old(self).tree_model().live(i) && old(self).tree_model().patch_of(i)
                                is Some && old(self).tree_model().deps_of(i).len() > 0;
                        let m = choose|m: int|
                            0 <= m < touched@.len() && (#[trigger] touched@[m]).idx == i;
                        assert(ctree.deps_of(i) == old(self).tree_model().deps_of(i));
                        assert(ctree.deps_of(touched@[m].idx as int).len() == 0);
                    }
                }
            }
            return Ok(false);
        }
        proof {
            self.ctx.models();
            assert(some_dependent_touched(old(self).tree_model())) by {
                let m = choose|m: int|
                    0 <= m < touched@.len() && ctree.deps_of(
                        (#[trigger] touched@[m]).idx as int,
                    ).len() != 0;
                let i = touched@[m].idx as int;
                assert(old(self).tree_model().live(i));
                assert(old(self).tree_model().patch_of(i) is Some);
                assert(ctree.deps_of(i) == old(self).tree_model().deps_of(i));
            }
        }
        let mut ui: usize = 0;
        while ui < to_update.len()
            invariant
                ui <= to_update@.len(),
                self.ctx.inv(),
                layout_tree.wf(),
                commit_of(old(self).tree_model(), self.spec_committed()),
            decreases to_update@.len() - ui,
        {
            match re_eval_fragment(&mut self.ctx, layout_tree, to_update[ui], &mut fuel_left) {
                Ok(()) => {},
                Err(e) => {
                    return Err(e);
                },
            }
            ui = ui + 1;
        }
        let mut done = false;
        while !done
            invariant
                self.ctx.inv(),
                layout_tree.wf(),
                commit_of(old(self).tree_model(), self.spec_committed()),
                done ==> self.ctx.store_model().dirty() == Seq::<Fragment>::empty(),
            decreases fuel_left + (if done {
                0int
            } else {
                1
            }),
        {
            proof {
                self.ctx.models();
            }
            let batch = self.ctx.fragment_store.dirty_args();
            proof {
                self.ctx.models();
            }
            if batch.len() == 0 {
                done = true;
            } else {
                let ghost fuel_start = fuel_left;
                let mut bi: usize = 0;
                while bi < batch.len()
                    invariant
                        bi <= batch@.len(),
                        self.ctx.inv(),
                        layout_tree.wf(),
                        commit_of(old(self).tree_model(), self.spec_committed()),
                        bi > 0 ==> fuel_left < fuel_start,
                        fuel_left <= fuel_start,
                    decreases batch@.len() - bi,
                {
                    match re_eval_fragment(&mut self.ctx, layout_tree, batch[bi], &mut fuel_left) {
                        Ok(()) => {},
                        Err(e) => {
                            return Err(e);
                        },
                    }
                    bi = bi + 1;
                }
            }
        }
        proof {
            self.ctx.models();
        }
        Ok(true)
    }

    /// The layout handle recorded for the root fragment.
    pub fn top_node(&self) -> (h: usize)
        ensures
            h == self.spec_top_node(),
    {
        self.top_node
    }

    /// The root fragment's slot.
    pub fn root_fragment(&self) -> (f: Fragment)
        ensures
            f == self.spec_root_fragment(),
    {
        self.root_fragment
    }

    /// Resolves a hook key to its store location, as a callback would
    /// before writing.
    pub fn hook_ref(&self, key: HookKey) -> (r: Option<HookRef>)
        requires
            self.inv(),
        ensures
            r matches Some(h) ==> h.key == key && self.tree_model().idx_of(key) == Some(h.idx)
                && self.tree_model().valid_ref(h),
            r is None ==> self.tree_model().idx_of(key) is None,
    {
        proof {
            self.ctx.models();
        }
        self.ctx.tree.lookup(key)
    }

    /// The patched read of a cell: what a generator running in the current
    /// pass would observe.
    pub fn read(&self, h: HookRef) -> (v: TreeItem)
        requires
            self.inv(),
            self.tree_model().live(h.idx as int),
        ensures
            v == self.tree_model().read_of(h.idx as int),
    {
        proof {
            self.ctx.models();
        }
        self.ctx.tree.get_patched(h)
    }

    /// Buffers a write from outside the evaluation pass (a callback): it
    /// becomes observable as a touched key at the next update cycle's
    /// commit, never mid-cycle.
    pub fn write(&mut self, h: HookRef, value: TreeItem)
        requires
            old(self).inv(),
            old(self).tree_model().live(h.idx as int),
        ensures
            final(self).inv(),
            final(self).store_model() == old(self).store_model(),
            final(self).tree_model().patch_of(h.idx as int) == Some(value),
            final(self).tree_model().value_of(h.idx as int) == old(self).tree_model().value_of(
                h.idx as int,
            ),
            final(self).tree_model().deps_of(h.idx as int) == old(self).tree_model().deps_of(
                h.idx as int,
            ),
            forall|i: int|
                i != h.idx ==> PatchedTree::cell_same(
                    old(self).tree_model(),
                    final(self).tree_model(),
                    i,
                ),
            PatchedTree::index_same(old(self).tree_model(), final(self).tree_model()),
    {
        proof {
            self.ctx.models();
        }
        self.ctx.tree.set(h, value);
        proof {
            self.ctx.models();
        }
    }

    /// Drains the after-frame callback payloads registered by the
    /// generators run so far, in registration order; the caller runs the
    /// callbacks once the frame completes.
    pub fn drain_after_frame_callbacks(&mut self) -> (r: Vec<TreeItem>)
        requires
            old(self).inv(),
        ensures
            final(self).inv(),
            r@ == old(self).ctx_model().callbacks_model(),
            final(self).ctx_model().callbacks_model() == Seq::<TreeItem>::empty(),
            final(self).tree_model() == old(self).tree_model(),
            final(self).store_model() == old(self).store_model(),
            final(self).spec_committed() == old(self).spec_committed(),
    {
        proof {
            self.ctx.models();
        }
        let mut taken: Vec<TreeItem> = Vec::new();
        core::mem::swap(&mut taken, &mut self.ctx.after_frame_callbacks);
        proof {
            self.ctx.models();
        }
        taken
    }

    /// The evaluated record of a fragment, for inspection: its key, its
    /// layout handle, and its children in order; `None` for a freed,
    /// unpopulated, or unevaluated slot.
    pub fn evaluated_info(&self, f: Fragment) -> (r: Option<(Key, usize, Vec<Fragment>)>)
        requires
            self.inv(),
        ensures
            r matches Some(t) ==> {
                &&& slot_evaluated(self.store_model(), f.0 as int)
                &&& self.store_model().frag_of(f.0 as int) matches Some(mf)
                &&& mf matches MaybeEvaluatedFragment::Evaluated(ev) && ev.key == t.0
                    && ev.layout_idx == t.1 && ev.children@ == t.2@
            },
            r is None ==> !slot_evaluated(self.store_model(), f.0 as int),
    {
        proof {
            self.ctx.models();
        }
        if self.ctx.fragment_store.removed(f) {
            return None;
        }
        match self.ctx.fragment_store.get(f) {
            MaybeEvaluatedFragment::Evaluated(ev) => Some(
                (ev.key, ev.layout_idx, clone_fragments(&ev.children)),
            ),
            MaybeEvaluatedFragment::Unevaluated(_) => None,
        }
    }
}

} // verus!
