//! Nested-set indexing for hierarchical record collections.
//!
//! A flat sequence of nodes with parent references is validated, optionally
//! transformed (leaf complementing, DAG unfolding), and finally numbered with
//! nested-set coordinates (`lft`, `rgt`, `count`) so that containment in the
//! original hierarchy can be read off by numeric comparison alone.

pub mod cli;
pub mod complement;
pub mod data;
pub mod error;
pub mod ident;
pub mod index;
pub mod unfold;
