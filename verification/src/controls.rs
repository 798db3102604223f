//! Built-in demo controls, written directly against the evaluation
//! context. Each is a plain generator function; `FrameCounter` and `Repro`
//! wrap them as generator payloads.

use crate::context::{FragmentInner, Gen, WidgetContext};
use crate::fragment::Fragment;
use crate::keys::{HookKey, EXTERNAL_HOOK_FLAG};
use crate::store::{PatchedTree, TreeItem};
use vstd::prelude::*;

verus! {

/// The integer a counter cell shows: the patched read of the cell bound to
/// `k`, 0 where the cell does not exist yet or holds a foreign value.
pub open spec fn counter_value(t: PatchedTree, k: HookKey) -> i64 {
    match t.idx_of(k) {
        Some(i) => match t.read_of(i as int) {
            TreeItem::Int(n) => n,
            _ => 0,
        },
        None => 0,
    }
}

/// The counter's successor: one more, wrapping to 0 only at the integer
/// limit.
pub open spec fn counter_next(n: i64) -> i64 {
    if n < i64::MAX {
        (n + 1) as i64
    } else {
        0
    }
}

/// A control that counts evaluation passes: it reads its counter cell,
/// displays the value, and buffers a write of the incremented value, so
/// every update cycle that commits the write re-evaluates it again.
pub fn frame_counter<G>(context: &mut WidgetContext<G>) -> (d: FragmentInner)
    requires
        old(context).inv(),
    ensures
        final(context).inv(),
        WidgetContext::grows_from(*final(context), *old(context)),
        d.children@.len() == 0,
        !d.is_clipper,
        old(context).local_hook_model() && old(context).local_model().hook_counter
            < EXTERNAL_HOOK_FLAG ==> {
            let k = HookKey {
                key: old(context).local_model().key,
                slot: old(context).local_model().hook_counter,
            };
            let n = counter_value(old(context).tree_model(), k);
            &&& d.render_object == Some(TreeItem::Int(n))
            &&& (final(context).tree_model().idx_of(k) matches Some(ci)
                && final(context).tree_model().patch_of(ci as int) == Some(
                TreeItem::Int(counter_next(n)),
            ) && final(context).tree_model().deps_of(ci as int).contains(
                old(context).local_model().idx.0,
            ))
        },
{
    let ghost c0 = *context;
    let counter = context.listenable(TreeItem::Int(0));
    let ghost c1 = *context;
    match counter {
        Some(h) => {
            let v = context.listen(h);
            let ghost c2 = *context;
            let shown: i64 = match v {
                TreeItem::Int(i) => i,
                TreeItem::Bool(_) => 0,
                TreeItem::Unit => 0,
            };
            let next: i64 = if shown < i64::MAX {
                shown + 1
            } else {
                0
            };
            context.shout(h, TreeItem::Int(next));
            proof {
                WidgetContext::lemma_grows_from_trans(c0, c1, c2);
                WidgetContext::lemma_grows_from_trans(c0, c2, *context);
                if c0.local_hook_model() && c0.local_model().hook_counter < EXTERNAL_HOOK_FLAG {
                    let k = HookKey {
                        key: c0.local_model().key,
                        slot: c0.local_model().hook_counter,
                    };
                    assert(h.key == k);
                    assert(c1.tree_model().idx_of(k) == Some(h.idx));
                    assert(c2.tree_model().idx_of(k) == Some(h.idx));
                    assert(context.tree_model().idx_of(k) == Some(h.idx));
                    assert(shown == counter_value(c0.tree_model(), k));
                    assert(context.tree_model().patch_of(h.idx as int) == Some(
                        TreeItem::Int(counter_next(shown)),
                    ));
                    assert(context.tree_model().deps_of(h.idx as int).contains(
                        c0.local_model().idx.0,
                    ));
                }
            }
            FragmentInner {
                layout: TreeItem::Unit,
                render_object: Some(TreeItem::Int(shown)),
                children: Vec::new(),
                is_clipper: false,
            }
        },
        None => FragmentInner {
            layout: TreeItem::Unit,
            render_object: None,
            children: Vec::new(),
            is_clipper: false,
        },
    }
}

/// A control that wraps an existing fragment in two nested containers: the
/// inner container receives the wrapped fragment as its argument, the
/// outer one receives the inner. Container generators are supplied by the
/// caller (the concrete widget set is outside the engine).
pub fn repro<G>(context: &mut WidgetContext<G>, outer: G, inner: G, children: Fragment) -> (d:
    FragmentInner)
    requires
        old(context).inv(),
    ensures
        final(context).inv(),
        WidgetContext::grows_from(*final(context), *old(context)),
        d.children@.len() <= 1,
        !d.is_clipper,
        final(context).tree_model() == old(context).tree_model(),
        final(context).callbacks_model() == old(context).callbacks_model(),
        old(context).keys_model().room() >= 2 ==> {
            &&& d.children@.len() == 1
            &&& final(context).store_model().slot_live(d.children@[0].0 as int)
            &&& final(context).store_model().frag_of(d.children@[0].0 as int) is Some
            &&& final(context).store_model().args_of(d.children@[0].0 as int) is Some
            &&& final(context).store_model().dirty().len() == old(
                context,
            ).store_model().dirty().len() + 2
        },
{
    let ghost c0 = *context;
    let k_inner = context.child_key(1);
    let ghost c1 = *context;
    let k_outer = context.child_key(2);
    let ghost c2 = *context;
    proof {
        WidgetContext::lemma_grows_from_trans(c0, c1, c2);
    }
    match (k_outer, k_inner) {
        (Some(ko), Some(ki)) => {
            let fi = context.create_fragment(ki, inner);
            let ghost c3 = *context;
            let child_bits: u64 = children.0 as u64;
            let enc_child: i64 = if child_bits < 0x8000_0000_0000_0000u64 {
                child_bits as i64
            } else {
                0
            };
            let mut inner_args: Vec<TreeItem> = Vec::new();
            inner_args.push(TreeItem::Int(enc_child));
            context.set_args(fi, inner_args);
            let ghost c4 = *context;
            let fo = context.create_fragment(ko, outer);
            let ghost c5 = *context;
            let inner_bits: u64 = fi.0 as u64;
            let enc_inner: i64 = if inner_bits < 0x8000_0000_0000_0000u64 {
                inner_bits as i64
            } else {
                0
            };
            let mut outer_args: Vec<TreeItem> = Vec::new();
            outer_args.push(TreeItem::Int(enc_inner));
            context.set_args(fo, outer_args);
            proof {
                WidgetContext::lemma_grows_from_trans(c0, c2, c3);
                WidgetContext::lemma_grows_from_trans(c0, c3, c4);
                WidgetContext::lemma_grows_from_trans(c0, c4, c5);
                WidgetContext::lemma_grows_from_trans(c0, c5, *context);
            }
            let mut kids: Vec<Fragment> = Vec::new();
            kids.push(fo);
            FragmentInner {
                layout: TreeItem::Unit,
                render_object: None,
                children: kids,
                is_clipper: false,
            }
        },
        _ => FragmentInner {
            layout: TreeItem::Unit,
            render_object: None,
            children: Vec::new(),
            is_clipper: false,
        },
    }
}

/// The frame counter as a generator payload.
pub struct FrameCounter;

impl Gen for FrameCounter {
    fn run(&self, ctx: &mut WidgetContext<Self>) -> (d: FragmentInner) {
        frame_counter(ctx)
    }
}

} // verus!
