//! A verified chapter-tree engine.
//!
//! Chapters form a mutable forest: every chapter belongs to a book, may
//! have a parent chapter in the same book, and carries a sibling ordering
//! key plus two derived fields — `level`, its distance from its root, and
//! `path`, the ids of its ancestors joined by `/`. The store keeps both
//! derived fields consistent through creation, metadata edits, sibling
//! reordering and re-parenting, and rejects any move that would make a
//! chapter its own ancestor.
//!
//! The well-formedness predicate [`store::wf_seq`] is the heart of the
//! library: unique positive ids, parents that exist in the same book, and
//! `level` and `path` that agree with the parent on every row. Every
//! mutating operation requires it and proves it back; acyclicity follows
//! from it, since levels strictly decrease along any parent chain.
//!
//! - [`chapter`] — the record and its mathematical model;
//! - [`digits`] — decimal rendering of ids for materialized paths;
//! - [`store`] — the table, its invariant, creation and metadata edits;
//! - [`order`] — sibling swaps and whole-group reassignment;
//! - [`cycle`] — the depth-capped cycle walk and the exact ancestry test;
//! - [`moving`] — re-parenting with work-list recomputation of the subtree;
//! - [`query`] — listings in display order;
//! - [`tree`] — nested tree views and the flat pre-order listing;
//! - [`laws`] — the invariants and algebraic laws, stated and proved once;
//! - [`errors`] — the typed rejections;
//! - [`media_params`] — plain parameter records for attaching media items.

pub mod chapter;
pub mod cycle;
pub mod digits;
pub mod errors;
pub mod laws;
pub mod media_params;
pub mod moving;
pub mod order;
pub mod query;
pub mod store;
pub mod tree;
