//! Topology and text logic of a Pd-style patch editor: node kinds, the layout
//! graph, pass-through columns, ranking, connected components, signal ids,
//! the operator catalog and `.lop` export helpers.

pub mod catalog;
pub mod components;
pub mod editing;
pub mod editor;
pub mod export;
pub mod history;
pub mod kinds;
pub mod labels;
pub mod object_text;
pub mod layers;
pub mod layout_graph;
pub mod objects;
pub mod operators;
pub mod paths;
pub mod ranks;
pub mod session;
pub mod text;
pub mod topology;
pub mod unit_ranks;
pub mod units;
