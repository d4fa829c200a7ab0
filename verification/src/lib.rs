//! Gridiron is an adaptive mesh refinement library for solving
//! time-dependent systems of conservation laws on structured, rectilinear
//! grid patches placed at different refinement levels.
//!
//! This crate holds its verified core: index spaces and memory regions,
//! maps and sets keyed by intervals and rectangles, the mesh topology and
//! the graphs it forms, the routing of messages between automata and the
//! scheduling of compute tasks, the decisions of its message-passing layer,
//! and the search trees it builds on.

pub mod index_space;
pub mod aug_node;
pub mod overlap;
pub mod interval_map;
pub mod entry_keys;
pub mod interval_set;
pub mod aug_bst;
pub mod bst;
pub mod rect_map;
pub mod adjacency_list;
pub mod automaton;
pub mod cit;
pub mod interval_tree;
pub mod message;
pub mod quilt;
pub mod host;
pub mod hydro;
pub mod patch;
pub mod bst2;
pub mod compute;
pub mod meshing;
