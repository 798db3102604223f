//! Layout collaborator: receives structural notifications from the
//! evaluator (node added, node changed, children replaced, node removed)
//! and keeps the resulting layout tree.
//!
//! The flex algorithm itself is out of the engine's scope; this store is
//! the engine-facing half of the collaborator, holding exactly what the
//! notifications said. An application drives its concrete layout backend
//! from it. The only ordering the evaluator owes it: a node is added before
//! it appears in a `set_children` list, and `remove_node` is the last
//! operation on a handle.

use crate::store::TreeItem;
use vstd::pervasive::unreached;
use vstd::prelude::*;

verus! {

/// One layout node: the properties and render payload handed over by the
/// evaluator, the clipper flag, and the attached child handles in order.
struct Node {
    props: TreeItem,
    render: Option<TreeItem>,
    is_clipper: bool,
    children: Vec<usize>,
}

/// The layout tree as the evaluator's notifications described it.
pub struct Layouter {
    nodes: Vec<Option<Node>>,
    free: Vec<usize>,
}

impl Layouter {
    /// Number of node slots (live or free).
    pub closed spec fn num_nodes(self) -> int {
        self.nodes@.len() as int
    }

    /// Handle `i` names a live node.
    pub closed spec fn node_live(self, i: int) -> bool {
        0 <= i < self.nodes@.len() && self.nodes@[i] is Some
    }

    /// The layout properties of live node `i`.
    pub closed spec fn props_of(self, i: int) -> TreeItem {
        self.nodes@[i].unwrap().props
    }

    /// The render payload of live node `i`.
    pub closed spec fn render_of(self, i: int) -> Option<TreeItem> {
        self.nodes@[i].unwrap().render
    }

    /// The clipper flag of live node `i`.
    pub closed spec fn clipper_of(self, i: int) -> bool {
        self.nodes@[i].unwrap().is_clipper
    }

    /// The attached child handles of live node `i`, in order.
    pub closed spec fn children_of(self, i: int) -> Seq<usize> {
        self.nodes@[i].unwrap().children@
    }

    /// Node `i` is untouched between states `a` and `b`.
    pub open spec fn node_same(a: Layouter, b: Layouter, i: int) -> bool {
        &&& a.node_live(i) == b.node_live(i)
        &&& a.node_live(i) ==> {
            &&& a.props_of(i) == b.props_of(i)
            &&& a.render_of(i) == b.render_of(i)
            &&& a.clipper_of(i) == b.clipper_of(i)
            &&& a.children_of(i) == b.children_of(i)
        }
    }

    /// Well-formed: the free list holds distinct dead slots.
    pub closed spec fn wf(self) -> bool {
        &&& forall|f: int|
            0 <= f < self.free@.len() ==> (#[trigger] self.free@[f]) < self.nodes@.len()
                && self.nodes@[self.free@[f] as int] is None
        &&& forall|a: int, b: int|
            0 <= a < b < self.free@.len() ==> (#[trigger] self.free@[a]) != (
            #[trigger] self.free@[b])
    }

    pub fn new() -> (r: Self)
        ensures
            r.wf(),
            r.num_nodes() == 0,
    {
        Layouter { nodes: Vec::new(), free: Vec::new() }
    }

    /// Registers a layout node with the given properties, no children yet,
    /// and returns its fresh handle.
    pub fn add_node(&mut self, props: TreeItem, render: Option<TreeItem>, is_clipper: bool) -> (h:
        usize)
        requires
            old(self).wf(),
        ensures
            final(self).wf(),
            !old(self).node_live(h as int),
            final(self).node_live(h as int),
            final(self).props_of(h as int) == props,
            final(self).render_of(h as int) == render,
            final(self).clipper_of(h as int) == is_clipper,
            final(self).children_of(h as int) == Seq::<usize>::empty(),
            forall|i: int| i != h ==> Layouter::node_same(*old(self), *final(self), i),
            final(self).num_nodes() <= old(self).num_nodes() + 1,
    {
        let node = Node { props, render, is_clipper, children: Vec::new() };
        let h: usize;
        let popped = self.free.pop();
        match popped {
            Some(f) => {
                h = f;
                self.nodes[f] = Some(node);
            },
            None => {
                h = self.nodes.len();
                self.nodes.push(Some(node));
            },
        }
        proof {
            assert forall|i: int| i != h implies Layouter::node_same(*old(self), *self, i) by {
                if !(0 <= i < self.num_nodes()) {
                    assert(!self.node_live(i) && !old(self).node_live(i));
                }
            }
        }
        h
    }

    /// Replaces the node's attached children with the given handles.
    pub fn set_children(&mut self, h: usize, children: Vec<usize>)
        requires
            old(self).wf(),
            old(self).node_live(h as int),
        ensures
            final(self).wf(),
            final(self).node_live(h as int),
            final(self).children_of(h as int) == children@,
            final(self).props_of(h as int) == old(self).props_of(h as int),
            final(self).render_of(h as int) == old(self).render_of(h as int),
            final(self).clipper_of(h as int) == old(self).clipper_of(h as int),
            forall|i: int| i != h ==> Layouter::node_same(*old(self), *final(self), i),
            final(self).num_nodes() == old(self).num_nodes(),
    {
        match &mut self.nodes[h] {
            Some(node) => {
                node.children = children;
            },
            None => {
                proof {
                    assert(false);
                }
            },
        }
        proof {
            self.lemma_node_frame(*old(self), h as int);
        }
    }

    /// Replaces the node's properties, payload, and clipper flag; its
    /// attached children stay.
    pub fn set_node(&mut self, h: usize, props: TreeItem, render: Option<TreeItem>, is_clipper:
        bool)
        requires
            old(self).wf(),
            old(self).node_live(h as int),
        ensures
            final(self).wf(),
            final(self).node_live(h as int),
            final(self).props_of(h as int) == props,
            final(self).render_of(h as int) == render,
            final(self).clipper_of(h as int) == is_clipper,
            final(self).children_of(h as int) == old(self).children_of(h as int),
            forall|i: int| i != h ==> Layouter::node_same(*old(self), *final(self), i),
            final(self).num_nodes() == old(self).num_nodes(),
    {
        match &mut self.nodes[h] {
            Some(node) => {
                node.props = props;
                node.render = render;
                node.is_clipper = is_clipper;
            },
            None => {
                proof {
                    assert(false);
                }
            },
        }
        proof {
            self.lemma_node_frame(*old(self), h as int);
        }
    }

    /// Releases the node; the last operation on a handle.
    pub fn remove_node(&mut self, h: usize)
        requires
            old(self).wf(),
            old(self).node_live(h as int),
        ensures
            final(self).wf(),
            !final(self).node_live(h as int),
            forall|i: int| i != h ==> Layouter::node_same(*old(self), *final(self), i),
            final(self).num_nodes() == old(self).num_nodes(),
    {
        self.nodes[h] = None;
        self.free.push(h);
        proof {
            let t = *self;
            assert forall|f: int|
                0 <= f < t.free@.len() implies (#[trigger] t.free@[f]) < t.nodes@.len()
                    && t.nodes@[t.free@[f] as int] is None by {
                if f < old(self).free@.len() {
                    assert(t.free@[f] == old(self).free@[f]);
                    assert(old(self).nodes@[old(self).free@[f] as int] is None);
                } else {
                    assert(t.free@[f] == h);
                }
            }
            assert forall|a: int, b: int|
                0 <= a < b < t.free@.len() implies (#[trigger] t.free@[a]) != (
            #[trigger] t.free@[b]) by {
                if b == t.free@.len() - 1 {
                    assert(t.free@[a] == old(self).free@[a]);
                    assert(old(self).nodes@[old(self).free@[a] as int] is None);
                    assert(old(self).nodes@[h as int] is Some);
                }
            }
            assert forall|i: int| i != h implies Layouter::node_same(*old(self), t, i) by {
                if !(0 <= i < t.num_nodes()) {
                    assert(!t.node_live(i) && !old(self).node_live(i));
                }
            }
        }
    }

    /// Whether a handle names a live node.
    pub fn is_live(&self, h: usize) -> (r: bool)
        ensures
            r == self.node_live(h as int),
    {
        h < self.nodes.len() && match &self.nodes[h] {
            Some(_) => true,
            None => false,
        }
    }

    /// The node's attached children, for inspection.
    pub fn children(&self, h: usize) -> (r: &Vec<usize>)
        requires
            self.node_live(h as int),
        ensures
            r@ == self.children_of(h as int),
    {
        match &self.nodes[h] {
            Some(node) => &node.children,
            None => {
                proof {
                    assert(false);
                }
                unreached()
            },
        }
    }

    /// The node's layout properties, for inspection.
    pub fn props(&self, h: usize) -> (r: TreeItem)
        requires
            self.node_live(h as int),
        ensures
            r == self.props_of(h as int),
    {
        match &self.nodes[h] {
            Some(node) => node.props,
            None => {
                proof {
                    assert(false);
                }
                TreeItem::Unit
            },
        }
    }

    /// A mutation that changed only the content of live node `i` (never its
    /// liveness) preserves well-formedness.
    proof fn lemma_node_frame(self, o: Layouter, i: int)
        requires
            o.wf(),
            o.node_live(i),
            self.num_nodes() == o.num_nodes(),
            self.node_live(i),
            self.free@ == o.free@,
            forall|m: int|
                0 <= m < self.num_nodes() && m != i ==> #[trigger] self.nodes@[m] == o.nodes@[m],
        ensures
            self.wf(),
            forall|m: int| m != i ==> Layouter::node_same(o, self, m),
    {
        assert forall|m: int| m != i implies Layouter::node_same(o, self, m) by {
            if 0 <= m < self.num_nodes() {
                assert(self.nodes@[m] == o.nodes@[m]);
            } else {
                assert(!self.node_live(m) && !o.node_live(m));
            }
        }
        assert forall|f: int|
            0 <= f < self.free@.len() implies (#[trigger] self.free@[f]) < self.nodes@.len()
                && self.nodes@[self.free@[f] as int] is None by {
            assert(o.nodes@[o.free@[f] as int] is None);
            assert(self.free@[f] != i);
        }
    }
}

} // verus!
