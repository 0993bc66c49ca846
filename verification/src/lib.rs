//! Integer core of a deterministic point-in-cell locator for unstructured
//! triangular and tetrahedral meshes.
//!
//! The floating-point geometry decides which cells contain a query point;
//! this crate holds what is decided about those candidate cells: the
//! per-query hit buffers, the ownership rule (the minimum cell index wins),
//! backend selection, and the GPU backend as it stands when no GPU support
//! is built in.

pub mod gpu;
pub mod locator;
pub mod ownership;
pub mod sampling;
pub mod selection;
pub mod vtk;
pub mod vtk_laws;

pub use crate::gpu::{CudaFunction, CudaManager, CudaStream, GpuError, GpuResult, ModuleHandle};
pub use crate::locator::{Backend, HitBuffers, LocateMode, MAX_HITS_2D, MAX_HITS_3D};
pub use crate::selection::{available_backends, gpu_available, parse_backend, BackendNameError};
