//! Hardware dispatch: route linear-algebra kernels to the multi-threaded CPU
//! path or to the GPU by problem size.
use vstd::prelude::*;

verus! {

/// Where a compute kernel should run.
#[derive(Debug, Clone, Copy, PartialEq, Eq, Structural)]
pub enum ComputeTarget {
    /// Multi-threaded CPU.
    Cpu,
    /// GPU.
    Gpu,
}

impl ComputeTarget {
    /// The lower-case name of the target: `"cpu"` or `"gpu"`.
    pub fn name(&self) -> (s: &'static str)
        ensures
            s@ == (match self {
                ComputeTarget::Cpu => "cpu"@,
                ComputeTarget::Gpu => "gpu"@,
            }),
    {
        match self {
            ComputeTarget::Cpu => "cpu",
            ComputeTarget::Gpu => "gpu",
        }
    }
}

/// Decides the routing of linear-algebra kernels.
#[derive(Debug, Clone, Copy)]
pub struct HardwareDispatch {
    /// Preferred target when the problem is below `gpu_size_threshold`.
    pub preference: ComputeTarget,
    /// Problems with `n ≥ gpu_size_threshold` are routed to the GPU.
    pub gpu_size_threshold: usize,
}

/// Default GPU promotion threshold, in degrees of freedom.
pub const DEFAULT_GPU_SIZE_THRESHOLD: usize = 50_000;

impl HardwareDispatch {
    /// The target chosen for a problem of `problem_size` degrees of freedom.
    pub open spec fn target_for(self, problem_size: int) -> ComputeTarget {
        if problem_size >= self.gpu_size_threshold {
            ComputeTarget::Gpu
        } else {
            self.preference
        }
    }

    /// A CPU-first dispatcher that promotes large problems (≥ `threshold`
    /// degrees of freedom) to the GPU.
    pub fn new(gpu_size_threshold: usize) -> (d: Self)
        ensures
            d.preference == ComputeTarget::Cpu,
            d.gpu_size_threshold == gpu_size_threshold,
    {
        HardwareDispatch { preference: ComputeTarget::Cpu, gpu_size_threshold }
    }

    /// Choose the target for a problem of `problem_size` degrees of freedom.
    pub fn select(&self, problem_size: usize) -> (t: ComputeTarget)
        ensures
            t == self.target_for(problem_size as int),
    {
        if problem_size >= self.gpu_size_threshold {
            ComputeTarget::Gpu
        } else {
            self.preference
        }
    }
}

impl Default for HardwareDispatch {
    /// CPU preference with a GPU threshold of 50 000 degrees of freedom.
    fn default() -> (d: Self)
        ensures
            d.preference == ComputeTarget::Cpu,
            d.gpu_size_threshold == DEFAULT_GPU_SIZE_THRESHOLD,
    {
        HardwareDispatch { preference: ComputeTarget::Cpu, gpu_size_threshold: DEFAULT_GPU_SIZE_THRESHOLD }
    }
}

/// Law: routing is monotone in the problem size — once a problem is large
/// enough for the GPU, every larger problem is routed there too.
pub proof fn lemma_select_monotone(d: HardwareDispatch, small: int, large: int)
    requires
        small <= large,
        d.target_for(small) == ComputeTarget::Gpu,
    ensures
        d.target_for(large) == ComputeTarget::Gpu,
{
}

/// Law: every problem at or above the threshold runs on the GPU, and every
/// smaller one runs on the preferred target.
pub proof fn lemma_select_threshold(d: HardwareDispatch, n: int)
    ensures
        n >= d.gpu_size_threshold ==> d.target_for(n) == ComputeTarget::Gpu,
        n < d.gpu_size_threshold ==> d.target_for(n) == d.preference,
{
}

} // verus!
