//! Incremental, dependency-tracked re-evaluation engine for a declarative
//! tree of computed fragments.
//!
//! Generators (user widget code) produce fragment descriptions; the engine
//! stores per-fragment state in a versioned state store, tracks which
//! fragments read which state cells, and on each update cycle re-runs exactly
//! the generators whose dependencies were touched, reconciling the resulting
//! child lists against the previous tree.

pub mod alist;
pub mod context;
pub mod controls;
pub mod eval;
pub mod fragment;
pub mod keys;
pub mod layout;
pub mod store;

pub use context::{FragmentInner, Gen, WidgetContext, WidgetLocalContext};
pub use controls::{frame_counter, repro, FrameCounter};
pub use eval::{check_unique_keys_children, EngineError, Evaluator};
pub use fragment::{
    EvaluatedFragment, Fragment, FragmentInfo, FragmentStore, MaybeEvaluatedFragment,
    UnevaluatedFragment,
};
pub use keys::{ExternalHookCount, HookKey, Key, KeyMap};
pub use layout::Layouter;
pub use store::{HookRef, PatchedTree, TreeItem};
