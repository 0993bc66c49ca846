//! The GPU backend of a build without CUDA support: every entry point
//! reports that the GPU is unavailable.

use std::sync::Arc;
use vstd::prelude::*;

verus! {

/// Errors of the GPU backend.
#[derive(Debug, Clone)]
pub enum GpuError {
    /// GPU support is not compiled into this build.
    Unavailable,
}

/// Result of a GPU operation.
pub type GpuResult<T> = Result<T, GpuError>;

/// Handle on a CUDA device.
#[derive(Clone)]
pub struct CudaManager;

/// A CUDA stream.
#[derive(Clone)]
pub struct CudaStream;

/// A kernel loaded from a module.
#[derive(Clone)]
pub struct CudaFunction;

/// A loaded PTX module.
#[derive(Clone)]
pub struct ModuleHandle;

impl CudaManager {
    /// Opens the CUDA device with the given ordinal; without GPU support
    /// this always fails with `Unavailable`.
    pub fn new(_device: usize) -> (r: GpuResult<Self>)
        ensures
            r matches Err(GpuError::Unavailable),
    {
        Err(GpuError::Unavailable)
    }

    /// Creates a stream on the device; always `Unavailable` here.
    pub fn new_stream(&self) -> (r: GpuResult<Arc<CudaStream>>)
        ensures
            r matches Err(GpuError::Unavailable),
    {
        Err(GpuError::Unavailable)
    }

    /// Loads a PTX module from the given path; always `Unavailable` here.
    pub fn load_module(&self, _path: &str) -> (r: GpuResult<ModuleHandle>)
        ensures
            r matches Err(GpuError::Unavailable),
    {
        Err(GpuError::Unavailable)
    }
}

impl ModuleHandle {
    /// Looks up a kernel by name; always `Unavailable` here.
    pub fn get(&self, _name: &str) -> (r: GpuResult<CudaFunction>)
        ensures
            r matches Err(GpuError::Unavailable),
    {
        Err(GpuError::Unavailable)
    }
}

} // verus!
