//! Provenance: for each output prefix, the original input indices it
//! contains (binary search over the inputs sorted by address).
use vstd::prelude::*;
use crate::prefix::Prefix;
use crate::source_map::{sorted_inputs, contained_indices, map_contained};

verus! {

/// For each IPv4 output prefix, the indices of the inputs it contains
/// (the same mapping as `compute_source_map_v4`).
pub fn compute_provenance_v4(output: &Vec<Prefix>, sorted_input: &Vec<(usize, Prefix)>) -> (r: Vec<Vec<usize>>)
    requires
        forall|k: int| 0 <= k < output@.len() ==> (#[trigger] output@[k]).wf(32),
        sorted_inputs(sorted_input@, 32),
    ensures
        r@.len() == output@.len(),
        forall|k: int| 0 <= k < output@.len() ==> (#[trigger] r@[k])@
            == contained_indices(sorted_input@, output@[k], 32, 0, sorted_input@.len() as int),
{
    map_contained(output, sorted_input, 32)
}

/// For each IPv6 output prefix, the indices of the inputs it contains
/// (the same mapping as `compute_source_map_v6`).
pub fn compute_provenance_v6(output: &Vec<Prefix>, sorted_input: &Vec<(usize, Prefix)>) -> (r: Vec<Vec<usize>>)
    requires
        forall|k: int| 0 <= k < output@.len() ==> (#[trigger] output@[k]).wf(128),
        sorted_inputs(sorted_input@, 128),
    ensures
        r@.len() == output@.len(),
        forall|k: int| 0 <= k < output@.len() ==> (#[trigger] r@[k])@
            == contained_indices(sorted_input@, output@[k], 128, 0, sorted_input@.len() as int),
{
    map_contained(output, sorted_input, 128)
}

} // verus!
