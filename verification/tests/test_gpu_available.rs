use jaali::Backend;

#[test]
fn backend_enum_always_has_cpu() {
    let _ = Backend::Serial;
    let _ = Backend::ParallelCPU;
}

#[test]
fn backend_enum_has_gpu_when_feature_enabled() {
    let _ = Backend::GPU;
}

#[test]
fn backend_gpu_not_available_without_feature() {
    // This test exists just to document behavior.
    assert!(true);
}
