//! The retained-mode state core of a user-interface toolkit.
//!
//! The core keeps the entities of an interface in a tree, hangs components on
//! them, works out what style rules give to each of them, plans the way of
//! each event through listeners and views, and derives from all of it the
//! tree that assistive technology is told of. Every function is verified
//! against the contract written on it; the laws that tie the functions
//! together are proved beside them.
//!
//! - [`entity`]: generational identifiers and their manager.
//! - [`sparse_set`]: the store of one component per entity.
//! - [`tree`], [`tree_lemmas`]: the tree and what follows from its relations.
//! - [`flags`], [`style`], [`selector`], [`matching`], [`cascade`],
//!   [`cascade_laws`], [`style_system`]: style data, selectors, the cascade and
//!   the restyle pass.
//! - [`events`], [`delivery_laws`], [`dispatch`]: events and the order of their
//!   hand-overs.
//! - [`context`], [`components`], [`focus`], [`removal`], [`resource`],
//!   [`registry`]: the context and its operations.
//! - [`access`], [`accessibility`]: the accessibility tree.

pub mod access;
pub mod accessibility;
pub mod cascade;
pub mod cascade_laws;
pub mod components;
pub mod context;
pub mod delivery_laws;
pub mod dispatch;
pub mod entity;
pub mod events;
pub mod flags;
pub mod focus;
pub mod matching;
pub mod registry;
pub mod removal;
pub mod resource;
pub mod selector;
pub mod seq_lemmas;
pub mod sparse_set;
pub mod style;
pub mod style_system;
pub mod tree;
pub mod tree_lemmas;
