//! Graph k-coloring: a verified solver for the question whether the
//! vertices of an undirected graph can be labelled with `k` colors so that
//! no edge joins two vertices of the same color.
//!
//! * `graph`: the graph type and how to build one.
//! * `coloring`: what a coloring is, and the quantities the search ranks by.
//! * `search`: backtracking search, guided by saturation degree, with an
//!   optional one-step look-ahead.
//! * `local`: randomized local search.
//! * `components`: connected components, and pruning by degree.
//! * `solver`: pruning, splitting, coloring and merging in one call.
//! * `theory`: what holds of all this, whatever the graph.
//! * `random`: the random number generator that the local search draws on.

pub mod coloring;
pub mod components;
pub mod graph;
pub mod local;
pub mod random;
pub mod search;
pub mod solver;
pub mod theory;
