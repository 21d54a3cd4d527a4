//! NUMA topology queries.
use vstd::prelude::*;

verus! {

/// NUMA node identifier.
pub type NumaNode = u32;

/// The NUMA node of a CPU core. Topology is not probed: every core is
/// reported on node 0.
pub fn numa_node_of_cpu(cpu: u32) -> (n: NumaNode)
    ensures
        n == 0,
{
    0
}

/// The preferred NUMA node for the RDMA NIC: node 0.
pub fn preferred_numa_node() -> (n: NumaNode)
    ensures
        n == 0,
{
    0
}

} // verus!
