use narui_core::{
    repro, EngineError, Evaluator, FragmentInner, FrameCounter, Gen, HookKey, Layouter, TreeItem,
    UnevaluatedFragment, WidgetContext,
};
use std::cell::Cell;
use std::rc::Rc;

/// Test generators: a tagged payload per widget kind, as an application
/// would define them.
#[derive(Clone)]
enum W {
    /// No state, no children.
    Leaf,
    /// Allocates one state cell (initial 42) and listens to it; counts its
    /// own evaluations.
    CellLeaf { runs: Rc<Cell<u64>> },
    /// Listens to a mode cell; children are three `CellLeaf`s under the
    /// given keys when the mode is 0, and only the first and third when it
    /// is 1.
    Switcher { runs: Rc<Cell<u64>>, keys: [u64; 3], child_runs: [Rc<Cell<u64>>; 3] },
    /// Listens to its own cell; on evaluation sets new arguments on the
    /// next fragment in the chain, if any.
    Chain { runs: Rc<Cell<u64>>, idx: u64, n: u64, base_key: u64 },
    /// Declares two children under the same key: an authoring error.
    DupParent,
    /// Declares two children under distinct keys.
    TwoKids,
    /// Wraps a fresh leaf fragment in two containers through `repro`.
    ReproRoot,
    /// Listens to a cell and schedules an after-frame callback payload.
    Announcer,
}

fn leaf_inner() -> FragmentInner {
    FragmentInner {
        layout: TreeItem::Unit,
        render_object: None,
        children: Vec::new(),
        is_clipper: false,
    }
}

impl Gen for W {
    fn run(&self, ctx: &mut WidgetContext<W>) -> FragmentInner {
        match self {
            W::Leaf => leaf_inner(),
            W::CellLeaf { runs } => {
                runs.set(runs.get() + 1);
                let h = ctx.listenable(TreeItem::Int(42)).unwrap();
                let _ = ctx.listen(h);
                leaf_inner()
            },
            W::Switcher { runs, keys, child_runs } => {
                runs.set(runs.get() + 1);
                let h = ctx.listenable(TreeItem::Int(0)).unwrap();
                let mode = match ctx.listen(h) {
                    TreeItem::Int(i) => i,
                    _ => 0,
                };
                let mut children = Vec::new();
                for j in 0..3usize {
                    if mode == 1 && j == 1 {
                        continue;
                    }
                    let f = ctx.create_fragment(
                        keys[j],
                        W::CellLeaf { runs: child_runs[j].clone() },
                    );
                    children.push(f);
                }
                FragmentInner {
                    layout: TreeItem::Int(mode),
                    render_object: None,
                    children,
                    is_clipper: false,
                }
            },
            W::Chain { runs, idx, n, base_key } => {
                runs.set(runs.get() + 1);
                let own = ctx.own_fragment();
                if let Some(args) = ctx.get_args(own) {
                    assert_eq!(args, &vec![TreeItem::Int(*idx as i64)]);
                }
                let h = ctx.listenable(TreeItem::Int(0)).unwrap();
                let _ = ctx.listen(h);
                if idx + 1 < *n {
                    let next = ctx.create_fragment(
                        base_key + idx + 1,
                        W::Chain {
                            runs: runs.clone(),
                            idx: idx + 1,
                            n: *n,
                            base_key: *base_key,
                        },
                    );
                    ctx.set_args(next, vec![TreeItem::Int((idx + 1) as i64)]);
                }
                leaf_inner()
            },
            W::DupParent => {
                let a = ctx.create_fragment(100, W::Leaf);
                let b = ctx.create_fragment(100, W::Leaf);
                FragmentInner {
                    layout: TreeItem::Unit,
                    render_object: None,
                    children: vec![a, b],
                    is_clipper: false,
                }
            },
            W::TwoKids => {
                let a = ctx.create_fragment(101, W::Leaf);
                let b = ctx.create_fragment(102, W::Leaf);
                FragmentInner {
                    layout: TreeItem::Unit,
                    render_object: None,
                    children: vec![a, b],
                    is_clipper: false,
                }
            },
            W::ReproRoot => {
                let wrapped = ctx.create_fragment(200, W::Leaf);
                repro(ctx, W::Leaf, W::Leaf, wrapped)
            },
            W::Announcer => {
                let h = ctx.listenable(TreeItem::Int(0)).unwrap();
                let _ = ctx.listen(h);
                ctx.after_frame_callback(TreeItem::Int(77));
                leaf_inner()
            },
        }
    }
}

#[test]
fn counter_scenario_reports_change_then_no_change() {
    let mut lt = Layouter::new();
    let runs = Rc::new(Cell::new(0));
    let root = UnevaluatedFragment { key: 7, gen: W::CellLeaf { runs: runs.clone() } };
    let mut ev = Evaluator::new(root, &mut lt, 100).unwrap();
    assert_eq!(runs.get(), 1);
    let h = ev.hook_ref(HookKey { key: 7, slot: 0 }).unwrap();
    assert_eq!(ev.read(h), TreeItem::Int(42));
    ev.write(h, TreeItem::Int(1));
    assert_eq!(ev.update(&mut lt, 100), Ok(true));
    // the dependent was re-evaluated exactly once and saw the new value
    assert_eq!(runs.get(), 2);
    assert_eq!(ev.read(h), TreeItem::Int(1));
    // no intervening write: no change, nothing re-evaluated
    assert_eq!(ev.update(&mut lt, 100), Ok(false));
    assert_eq!(runs.get(), 2);
}

#[test]
fn duplicate_dependents_trigger_one_reevaluation() {
    let mut lt = Layouter::new();
    let runs = Rc::new(Cell::new(0));
    let root = UnevaluatedFragment { key: 3, gen: W::CellLeaf { runs: runs.clone() } };
    let mut ev = Evaluator::new(root, &mut lt, 100).unwrap();
    let h = ev.hook_ref(HookKey { key: 3, slot: 0 }).unwrap();
    // two writes before one commit: last write wins, one re-evaluation
    ev.write(h, TreeItem::Int(5));
    ev.write(h, TreeItem::Int(6));
    assert_eq!(ev.update(&mut lt, 100), Ok(true));
    assert_eq!(runs.get(), 2);
    assert_eq!(ev.read(h), TreeItem::Int(6));
}

#[test]
fn reconciliation_tears_down_dropped_child_subtree() {
    let mut lt = Layouter::new();
    let runs = Rc::new(Cell::new(0));
    let child_runs = [
        Rc::new(Cell::new(0)),
        Rc::new(Cell::new(0)),
        Rc::new(Cell::new(0)),
    ];
    let root = UnevaluatedFragment {
        key: 1,
        gen: W::Switcher {
            runs: runs.clone(),
            keys: [11, 12, 13],
            child_runs: [
                child_runs[0].clone(),
                child_runs[1].clone(),
                child_runs[2].clone(),
            ],
        },
    };
    let mut ev = Evaluator::new(root, &mut lt, 100).unwrap();
    let root_frag = ev.root_fragment();
    let (_, root_handle, kids) = ev.evaluated_info(root_frag).unwrap();
    assert_eq!(kids.len(), 3);
    let (_, ha, _) = ev.evaluated_info(kids[0]).unwrap();
    let (_, hb, _) = ev.evaluated_info(kids[1]).unwrap();
    let (_, hc, _) = ev.evaluated_info(kids[2]).unwrap();
    assert_eq!(lt.children(root_handle).clone(), vec![ha, hb, hc]);
    // B's state cell exists
    assert!(ev.hook_ref(HookKey { key: 12, slot: 0 }).is_some());
    // switch mode: children become [A, C]
    let mode = ev.hook_ref(HookKey { key: 1, slot: 0 }).unwrap();
    ev.write(mode, TreeItem::Int(1));
    assert_eq!(ev.update(&mut lt, 100), Ok(true));
    let (_, root_handle2, kids2) = ev.evaluated_info(root_frag).unwrap();
    assert_eq!(root_handle2, root_handle);
    assert_eq!(kids2, vec![kids[0], kids[2]]);
    assert_eq!(lt.children(root_handle).clone(), vec![ha, hc]);
    // the root's layout properties were replaced in place with the new mode
    assert_eq!(lt.props(root_handle), TreeItem::Int(1));
    assert_eq!(ev.top_node(), root_handle);
    // B's subtree is gone: slot freed, layout node removed, state released
    assert!(ev.evaluated_info(kids[1]).is_none());
    assert!(!lt.is_live(hb));
    assert!(ev.hook_ref(HookKey { key: 12, slot: 0 }).is_none());
    // A and C were reused, not re-evaluated
    assert_eq!(child_runs[0].get(), 1);
    assert_eq!(child_runs[2].get(), 1);
    assert_eq!(child_runs[1].get(), 1);
}

#[test]
fn untouched_sibling_subtree_is_left_unchanged() {
    let mut lt = Layouter::new();
    let runs = Rc::new(Cell::new(0));
    let child_runs = [
        Rc::new(Cell::new(0)),
        Rc::new(Cell::new(0)),
        Rc::new(Cell::new(0)),
    ];
    let root = UnevaluatedFragment {
        key: 1,
        gen: W::Switcher {
            runs: runs.clone(),
            keys: [21, 22, 23],
            child_runs: [
                child_runs[0].clone(),
                child_runs[1].clone(),
                child_runs[2].clone(),
            ],
        },
    };
    let mut ev = Evaluator::new(root, &mut lt, 100).unwrap();
    let kids = ev.evaluated_info(ev.root_fragment()).unwrap().2;
    let before = ev.evaluated_info(kids[1]).unwrap();
    // touch only child A's own cell: B and C are not reachable from it
    let ha = ev.hook_ref(HookKey { key: 21, slot: 0 }).unwrap();
    ev.write(ha, TreeItem::Int(7));
    assert_eq!(ev.update(&mut lt, 100), Ok(true));
    assert_eq!(child_runs[0].get(), 2);
    assert_eq!(child_runs[1].get(), 1);
    assert_eq!(child_runs[2].get(), 1);
    let after = ev.evaluated_info(kids[1]).unwrap();
    assert_eq!(before, after);
}

#[test]
fn duplicate_sibling_keys_fail_distinct_keys_do_not() {
    let mut lt = Layouter::new();
    let dup = UnevaluatedFragment { key: 1, gen: W::DupParent };
    assert_eq!(
        Evaluator::new(dup, &mut lt, 100).err(),
        Some(EngineError::DuplicateSiblingKeys)
    );
    let mut lt2 = Layouter::new();
    let ok = UnevaluatedFragment { key: 1, gen: W::TwoKids };
    let ev = Evaluator::new(ok, &mut lt2, 100).unwrap();
    assert_eq!(ev.evaluated_info(ev.root_fragment()).unwrap().2.len(), 2);
}

#[test]
fn argument_chain_converges_after_n_drains() {
    let n = 5u64;
    let mut lt = Layouter::new();
    let runs = Rc::new(Cell::new(0));
    let root = UnevaluatedFragment {
        key: 50,
        gen: W::Chain { runs: runs.clone(), idx: 0, n, base_key: 50 },
    };
    let mut ev = Evaluator::new(root, &mut lt, 1000).unwrap();
    // only the head ran in the initial pass; its queued args were discarded
    assert_eq!(runs.get(), 1);
    let h = ev.hook_ref(HookKey { key: 50, slot: 0 }).unwrap();
    ev.write(h, TreeItem::Int(9));
    assert_eq!(ev.update(&mut lt, 1000), Ok(true));
    // the head re-ran once and each of the n - 1 links ran exactly once
    assert_eq!(runs.get(), 1 + n);
    // the queue is drained: nothing further to do
    assert_eq!(ev.update(&mut lt, 1000), Ok(false));
    assert_eq!(runs.get(), 1 + n);
}

#[test]
fn evaluation_stops_when_fuel_runs_out() {
    let mut lt = Layouter::new();
    let root = UnevaluatedFragment { key: 1, gen: W::TwoKids };
    assert_eq!(
        Evaluator::new(root, &mut lt, 0).err(),
        Some(EngineError::OutOfFuel)
    );
}

#[test]
fn frame_counter_increments_every_pass() {
    let mut lt = Layouter::new();
    let root = UnevaluatedFragment { key: 9, gen: FrameCounter };
    let mut ev = Evaluator::new(root, &mut lt, 100).unwrap();
    let h = ev.hook_ref(HookKey { key: 9, slot: 0 }).unwrap();
    // the first pass displayed 0 and buffered 1
    assert_eq!(ev.read(h), TreeItem::Int(1));
    assert_eq!(ev.update(&mut lt, 100), Ok(true));
    // the update committed 1 and the re-run buffered 2
    assert_eq!(ev.read(h), TreeItem::Int(2));
    assert_eq!(ev.update(&mut lt, 100), Ok(true));
    assert_eq!(ev.read(h), TreeItem::Int(3));
}

#[test]
fn repro_wraps_children_in_one_container_fragment() {
    let mut lt = Layouter::new();
    let root = UnevaluatedFragment { key: 1, gen: W::ReproRoot };
    let mut ev = Evaluator::new(root, &mut lt, 100).unwrap();
    let (_, _, kids) = ev.evaluated_info(ev.root_fragment()).unwrap();
    assert_eq!(kids.len(), 1);
    // the outer container is evaluated; nothing further pending
    assert!(ev.evaluated_info(kids[0]).is_some());
    assert_eq!(ev.update(&mut lt, 100), Ok(false));
}

#[test]
fn after_frame_callbacks_accumulate_and_drain_in_order() {
    let mut lt = Layouter::new();
    let root = UnevaluatedFragment { key: 5, gen: W::Announcer };
    let mut ev = Evaluator::new(root, &mut lt, 100).unwrap();
    assert_eq!(ev.drain_after_frame_callbacks(), vec![TreeItem::Int(77)]);
    assert_eq!(ev.drain_after_frame_callbacks(), Vec::<TreeItem>::new());
    // a re-evaluation registers again
    let h = ev.hook_ref(HookKey { key: 5, slot: 0 }).unwrap();
    ev.write(h, TreeItem::Int(1));
    assert_eq!(ev.update(&mut lt, 100), Ok(true));
    assert_eq!(ev.drain_after_frame_callbacks(), vec![TreeItem::Int(77)]);
}
