use narui_core::{
    check_unique_keys_children, ExternalHookCount, Fragment, FragmentStore, HookKey, KeyMap,
    PatchedTree, TreeItem, UnevaluatedFragment,
};

fn hk(key: u64, slot: u16) -> HookKey {
    HookKey { key, slot }
}

#[test]
fn write_then_read_sees_pending_value() {
    let mut tree = PatchedTree::new();
    let h = tree.initialize(hk(1, 0), TreeItem::Int(0));
    tree.set(h, TreeItem::Int(5));
    assert_eq!(tree.get_patched(h), TreeItem::Int(5));
    assert_eq!(tree.get_unpatched(h), TreeItem::Int(0));
}

#[test]
fn write_commit_read_sees_committed_value() {
    let mut tree = PatchedTree::new();
    let h = tree.initialize(hk(1, 0), TreeItem::Int(0));
    tree.set(h, TreeItem::Int(1));
    let touched = tree.update_tree();
    assert_eq!(touched.len(), 1);
    assert_eq!(touched[0].key, hk(1, 0));
    assert_eq!(touched[0].idx, h.idx);
    assert_eq!(tree.get_unpatched(h), TreeItem::Int(1));
    assert_eq!(tree.get_patched(h), TreeItem::Int(1));
}

#[test]
fn last_write_wins_before_commit() {
    let mut tree = PatchedTree::new();
    let h = tree.initialize(hk(9, 3), TreeItem::Bool(false));
    tree.set(h, TreeItem::Int(1));
    tree.set(h, TreeItem::Int(2));
    assert_eq!(tree.get_patched(h), TreeItem::Int(2));
    let touched = tree.update_tree();
    assert_eq!(touched.len(), 1);
    assert_eq!(tree.get_unpatched(h), TreeItem::Int(2));
}

#[test]
fn commit_without_writes_touches_nothing() {
    let mut tree = PatchedTree::new();
    let _ = tree.initialize(hk(1, 0), TreeItem::Int(0));
    let touched = tree.update_tree();
    assert_eq!(touched.len(), 0);
}

#[test]
fn initialize_twice_returns_same_cell_and_keeps_value() {
    let mut tree = PatchedTree::new();
    let h1 = tree.initialize(hk(4, 2), TreeItem::Int(10));
    let h2 = tree.initialize(hk(4, 2), TreeItem::Int(99));
    assert_eq!(h1, h2);
    assert_eq!(tree.get_unpatched(h2), TreeItem::Int(10));
}

#[test]
fn remove_widget_releases_all_cells_of_the_key() {
    let mut tree = PatchedTree::new();
    let a0 = tree.initialize(hk(7, 0), TreeItem::Int(1));
    let _a1 = tree.initialize(hk(7, 1), TreeItem::Int(2));
    let b0 = tree.initialize(hk(8, 0), TreeItem::Int(3));
    tree.remove_widget(7);
    let fresh = tree.initialize(hk(7, 0), TreeItem::Int(50));
    assert_eq!(tree.get_unpatched(fresh), TreeItem::Int(50));
    let fresh1 = tree.initialize(hk(7, 1), TreeItem::Int(60));
    assert_eq!(tree.get_unpatched(fresh1), TreeItem::Int(60));
    // another widget's cell is untouched
    assert_eq!(tree.get_unpatched(b0), TreeItem::Int(3));
    let _ = a0;
}

#[test]
fn dependents_drain_is_destructive_and_deduplicated() {
    let mut tree = PatchedTree::new();
    let h = tree.initialize(hk(2, 0), TreeItem::Unit);
    tree.set_dependent(h, 10);
    tree.set_dependent(h, 11);
    tree.set_dependent(h, 10);
    let d = tree.dependents(h);
    assert_eq!(d, vec![10, 11]);
    let d2 = tree.dependents(h);
    assert_eq!(d2.len(), 0);
}

#[test]
fn key_map_issues_stable_keys_until_removed() {
    let mut km = KeyMap::new();
    let k1 = km.key_for(0, 5).unwrap();
    let k2 = km.key_for(0, 5).unwrap();
    assert_eq!(k1, k2);
    let other = km.key_for(0, 6).unwrap();
    assert_ne!(k1, other);
    assert_eq!(km.key_debug(k1), Some((0, 5)));
    km.remove(k1);
    assert_eq!(km.key_debug(k1), None);
    let fresh = km.key_for(0, 5).unwrap();
    assert_ne!(fresh, k1);
}

#[test]
fn external_hook_counts_run_per_key() {
    let mut counts = ExternalHookCount::new();
    assert_eq!(counts.next(1), Some(0));
    assert_eq!(counts.next(1), Some(1));
    assert_eq!(counts.next(2), Some(0));
    assert_eq!(counts.next(1), Some(2));
}

#[test]
fn external_hook_space_holds_exactly_the_tagged_range() {
    let mut counts = ExternalHookCount::new();
    for expected in 0..0x8000u16 {
        assert_eq!(counts.next(9), Some(expected));
    }
    // all 32768 slots spent: the explicit overflow policy refuses, never wraps
    assert_eq!(counts.next(9), None);
    assert_eq!(counts.next(9), None);
    // other keys are unaffected
    assert_eq!(counts.next(10), Some(0));
}

#[test]
fn dirty_args_drains_most_recent_first_and_clears() {
    let mut store: FragmentStore<u8> = FragmentStore::new();
    let a = store.add_empty_fragment();
    let b = store.add_empty_fragment();
    store.set_args(a, vec![TreeItem::Int(1)]);
    store.set_args(b, vec![TreeItem::Int(2)]);
    store.set_args(a, vec![TreeItem::Int(3)]);
    let drained = store.dirty_args();
    assert_eq!(drained, vec![a, b, a]);
    let empty = store.dirty_args();
    assert_eq!(empty.len(), 0);
}

#[test]
fn add_fragment_fills_only_empty_slots() {
    let mut store: FragmentStore<u8> = FragmentStore::new();
    let f = store.fragment_for_key(42);
    assert!(store.removed(f));
    store.add_fragment(f, UnevaluatedFragment { key: 42, gen: 1u8 });
    assert!(!store.removed(f));
    // idempotent: a second populate does not overwrite
    store.add_fragment(f, UnevaluatedFragment { key: 42, gen: 2u8 });
    assert_eq!(store.get(f).key(), 42);
    // the same key resolves to the same slot
    let again = store.fragment_for_key(42);
    assert_eq!(again, f);
    assert_eq!(store.get(f).assert_unevaluated().key, 42);
}

#[test]
fn removed_is_true_for_unknown_slots() {
    let store: FragmentStore<u8> = FragmentStore::new();
    assert!(store.removed(Fragment(3)));
}

#[test]
fn sibling_key_check_accepts_distinct_and_rejects_duplicates() {
    assert!(check_unique_keys_children(&vec![1, 2, 3]));
    assert!(check_unique_keys_children(&vec![]));
    assert!(!check_unique_keys_children(&vec![1, 2, 1]));
    assert!(!check_unique_keys_children(&vec![4, 4]));
}
