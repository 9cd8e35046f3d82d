//! Hierarchy-and-filter engine for browsing parent-linked taxonomy records as a tree.
//!
//! Records are flat: each carries an identifier and may name a parent by its
//! identifier. From them the library builds a forest ([`tree`]), reduces the records
//! to those a query selects together with their ancestors and descendants
//! ([`filter`], with [`matching`], [`ancestors`] and [`descendants`]), and keeps the
//! open paths and the selection of a tree on show in step with its visible rows
//! ([`view`]). A browsing session ([`browser`]) ties these to key presses, and a
//! one-shot listing ([`listing`]) selects records by identifier, parent or name.
//!
//! Every function states what it returns over plain values, and the modules whose
//! names end in `_laws` state what holds of all inputs.

pub mod ancestors;
pub mod browser;
pub mod descendants;
pub mod filter;
pub mod filter_laws;
pub mod flags;
pub mod highlight;
pub mod listing;
pub mod matching;
pub mod record;
pub mod text;
pub mod tree;
pub mod tree_laws;
pub mod view;
pub mod view_laws;
