use jaali::{CudaManager, GpuError, ModuleHandle};

#[test]
fn cuda_manager_is_unavailable() {
    assert!(matches!(CudaManager::new(0), Err(GpuError::Unavailable)));
    let m = CudaManager;
    assert!(matches!(m.new_stream(), Err(GpuError::Unavailable)));
    assert!(matches!(m.load_module("cuda_kernels/locate_triangles.ptx"), Err(GpuError::Unavailable)));
}

#[test]
fn module_lookup_is_unavailable() {
    let h = ModuleHandle;
    assert!(matches!(h.get("locate_tets_all"), Err(GpuError::Unavailable)));
}
