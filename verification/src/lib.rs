//! An arena-based tree store with expand/collapse state and pre-order
//! traversal, together with the record aggregation and tree-building
//! strategies of an interactive browser for tag-keyed record data.

pub mod tree_widget;
pub mod laws;
pub mod text;
pub mod dicom;
pub mod help;
pub mod keymap;
