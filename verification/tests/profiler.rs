use inference_core::backend::{choose_backend, BackendKind, NeonBackend, ScalarBackend};
use inference_core::profiler::{track_allocation, ProfileGuard, ProfileStats, TimerStack};

#[test]
fn stats_start_at_zero() {
    let s = ProfileStats::new();
    assert_eq!(s.matmul_calls, 0);
    assert_eq!(s.allocation_bytes, 0);
}

#[test]
fn record_counts_the_named_region_only() {
    let mut s = ProfileStats::new();
    s.record("matmul", 1500);
    s.record("matmul", 500);
    s.record("softmax", 30);
    s.record("layer_norm", 7);
    s.record("matmul_into", 999);
    assert_eq!((s.matmul_time, s.matmul_calls), (2000, 2));
    assert_eq!((s.softmax_time, s.softmax_calls), (30, 1));
    assert_eq!((s.layernorm_time, s.layernorm_calls), (7, 1));
    assert_eq!(s.allocation_count, 0);
}

#[test]
fn totals_wrap_around() {
    let mut s = ProfileStats::new();
    s.matmul_time = u64::MAX;
    s.record("matmul", 2);
    assert_eq!(s.matmul_time, 1);
}

#[test]
fn allocations_are_counted() {
    let mut s = ProfileStats::new();
    track_allocation(&mut s, 4096);
    track_allocation(&mut s, 12);
    assert_eq!(s.allocation_count, 2);
    assert_eq!(s.allocation_bytes, 4108);
    assert_eq!(s.matmul_calls, 0);
}

#[test]
fn guards_nest_and_count_their_region() {
    let mut stack = TimerStack::new();
    let mut stats = ProfileStats::new();
    let outer = ProfileGuard::new("gpt2_forward_total", &mut stack);
    let inner = ProfileGuard::new("softmax", &mut stack);
    assert_eq!(stack.entries.len(), 2);
    assert_eq!(stack.entries[1].0, "softmax");
    let (elapsed, slow) = inner.finish(&mut stack, &mut stats);
    assert_eq!(slow, elapsed > 1_000_000);
    assert_eq!(stack.entries.len(), 1);
    assert_eq!(stats.softmax_calls, 1);
    assert_eq!(stats.softmax_time, elapsed);
    outer.finish(&mut stack, &mut stats);
    assert!(stack.entries.is_empty());
    assert_eq!(stats.matmul_calls, 0);
}

#[test]
fn slow_regions_are_reported() {
    let mut stack = TimerStack::new();
    let mut stats = ProfileStats::new();
    let g = ProfileGuard::new("layer_norm", &mut stack);
    let t0 = std::time::Instant::now();
    while t0.elapsed() < std::time::Duration::from_millis(3) {}
    let (elapsed, slow) = g.finish(&mut stack, &mut stats);
    assert!(elapsed >= 3_000_000);
    assert!(slow);
}

#[test]
fn backend_names_and_choice() {
    assert_eq!(ScalarBackend.name(), "scalar");
    assert_eq!(NeonBackend.name(), "neon");
    assert_eq!(choose_backend(true, true), BackendKind::Metal);
    assert_eq!(choose_backend(true, false), BackendKind::Neon);
    assert_eq!(choose_backend(false, true), BackendKind::Scalar);
    assert_eq!(choose_backend(false, false), BackendKind::Scalar);
}

#[test]
fn deeply_nested_regions_leave_the_stack_as_found() {
    let mut stack = TimerStack::new();
    let mut stats = ProfileStats::new();
    let base = ProfileGuard::new("full_generation_loop", &mut stack);
    let a = ProfileGuard::new("gpt2_forward_total", &mut stack);
    let b = ProfileGuard::new("layer_norm", &mut stack);
    b.finish(&mut stack, &mut stats);
    let c = ProfileGuard::new("matmul", &mut stack);
    let d = ProfileGuard::new("softmax", &mut stack);
    d.finish(&mut stack, &mut stats);
    c.finish(&mut stack, &mut stats);
    a.finish(&mut stack, &mut stats);
    assert_eq!(stack.entries.len(), 1);
    assert_eq!(stack.entries[0].0, "full_generation_loop");
    base.finish(&mut stack, &mut stats);
    assert!(stack.entries.is_empty());
    assert_eq!((stats.matmul_calls, stats.softmax_calls, stats.layernorm_calls), (1, 1, 1));
}
