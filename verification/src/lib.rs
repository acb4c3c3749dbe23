//! Module-level tree shaking for ECMAScript modules.
//!
//! A module comes in as a sequence of statements with the identifier
//! occurrences that the parser found in them ([`module`]). The analysis
//! ([`analyzer`]) gives every statement, the evaluation of the module and
//! every exported name a unit ([`item`]) and a node in a dependency graph
//! ([`graph`], [`dep_graph`]), and adds the edges that follow from what the
//! units declare, read and write. Units that depend on each other in a cycle
//! are condensed into one node ([`condense`]); the units that the synthetic
//! units reach are laid out in parts ([`layout`]) and written out as parts
//! with imports and exports ([`split`]); parts are merged back into one
//! module ([`merge`]). [`pipeline`] runs the way from a module to its parts,
//! and [`render`] draws the graphs.
//!
//! What holds of the whole is proved in [`laws`] (the split is determined by
//! its input; cycles stay together), [`keep`] (what is kept and what is left
//! out), [`modes`] (production never has more parts than development),
//! [`acyclic`] (neither the condensed graph nor the parts have a cycle),
//! [`roundtrip`] and [`order`] (a merge of split parts resolves every import
//! and puts every part behind the parts on which it depends) and [`effects`]
//! (after a round trip the side effects stand in the order of the module).

pub mod acyclic;
pub mod analyzer;
pub mod condense;
pub mod dep_graph;
pub mod effects;
pub mod graph;
pub mod item;
pub mod keep;
pub mod laws;
pub mod layout;
pub mod link;
pub mod merge;
pub mod modes;
pub mod module;
pub mod order;
pub mod pipeline;
pub mod reach;
pub mod render;
pub mod roundtrip;
pub mod seqs;
pub mod split;
pub mod tables;
pub mod var_set;
