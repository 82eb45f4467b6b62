use tpt_physics::dispatch::DEFAULT_GPU_SIZE_THRESHOLD;
use tpt_physics::{ComputeTarget, HardwareDispatch};

#[test]
fn dispatch_picks_gpu_for_large() {
    let d = HardwareDispatch::new(100);
    assert_eq!(d.select(10), ComputeTarget::Cpu);
    assert_eq!(d.select(100), ComputeTarget::Gpu);
    assert_eq!(d.select(1_000_000), ComputeTarget::Gpu);
}

#[test]
fn default_dispatch_is_cpu_first_with_fifty_thousand_threshold() {
    let d = HardwareDispatch::default();
    assert_eq!(d.preference, ComputeTarget::Cpu);
    assert_eq!(d.gpu_size_threshold, 50_000);
    assert_eq!(DEFAULT_GPU_SIZE_THRESHOLD, 50_000);
    assert_eq!(d.select(49_999), ComputeTarget::Cpu);
    assert_eq!(d.select(50_000), ComputeTarget::Gpu);
}

#[test]
fn gpu_preference_below_threshold_is_kept() {
    let d = HardwareDispatch { preference: ComputeTarget::Gpu, gpu_size_threshold: 10 };
    assert_eq!(d.select(0), ComputeTarget::Gpu);
    let c = HardwareDispatch { preference: ComputeTarget::Cpu, gpu_size_threshold: 0 };
    assert_eq!(c.select(0), ComputeTarget::Gpu);
}

#[test]
fn compute_target_names() {
    assert_eq!(ComputeTarget::Cpu.name(), "cpu");
    assert_eq!(ComputeTarget::Gpu.name(), "gpu");
}

#[test]
fn routing_is_monotone_on_samples() {
    let d = HardwareDispatch::new(7);
    let mut seen_gpu = false;
    for n in 0..20usize {
        let t = d.select(n);
        if seen_gpu {
            assert_eq!(t, ComputeTarget::Gpu);
        }
        if t == ComputeTarget::Gpu {
            seen_gpu = true;
        }
    }
    assert!(seen_gpu);
}
