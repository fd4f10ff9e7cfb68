use vstd::prelude::*;

verus! {

/// Resource ceilings that bound one guest execution.
#[derive(Debug, Clone, Copy, PartialEq, Eq)]
pub struct RuntimeLimits {
    pub instruction_budget: usize,
    pub heap_limit_bytes: usize,
    pub allocation_budget: usize,
    pub call_depth_limit: usize,
    pub max_outstanding_host_calls: usize,
}

impl RuntimeLimits {
    /// The ceilings used when the host does not configure any.
    pub open spec fn spec_default() -> RuntimeLimits {
        RuntimeLimits {
            instruction_budget: 1_000_000,
            heap_limit_bytes: 8_388_608,
            allocation_budget: 250_000,
            call_depth_limit: 256,
            max_outstanding_host_calls: 128,
        }
    }
}

impl Default for RuntimeLimits {
    fn default() -> (limits: Self)
        ensures
            limits == RuntimeLimits::spec_default(),
    {
        RuntimeLimits {
            instruction_budget: 1_000_000,
            heap_limit_bytes: 8_388_608,
            allocation_budget: 250_000,
            call_depth_limit: 256,
            max_outstanding_host_calls: 128,
        }
    }
}

} // verus!
