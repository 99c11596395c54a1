//! Hidden-station guessing support for the Networkle transit puzzle: the station network
//! of a city, hop distances by breadth-first search, and a decision tree that tells the
//! player which station to guess next from the answers received so far.

pub mod cities;
pub mod decision_tree;
pub mod graph;
pub mod network;
pub mod render;

use vstd::prelude::*;

verus! {

/// The texts of some strings.
pub open spec fn texts(strings: Seq<String>) -> Seq<Seq<char>> {
    strings.map_values(|text: String| text@)
}

} // verus!
