//! An index of test annotations kept in a versioned directory tree, and the
//! detection of regressions between two runs of a test suite.
//!
//! Annotation documents, one to a directory, attach labels and links to
//! tests. [`walk`] builds the index of a revision from the tree, reading the
//! documents with [`annotation`]; [`metadata`] is the index and what can be
//! asked of it; [`regression`] compares two runs, whose results [`results`]
//! holds, and looks the regressed tests up in the index; [`categories`]
//! gathers the tests of sets of labels. [`ordered`] and [`text`] keep keys in
//! order, [`status`] holds the outcomes of tests, and [`yaml`] is the door to
//! the YAML decoder.

pub mod annotation;
pub mod categories;
pub mod error;
pub mod metadata;
pub mod ordered;
pub mod regression;
pub mod results;
pub mod status;
pub mod text;
pub mod walk;
pub mod yaml;
