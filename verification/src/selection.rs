//! Choosing a backend by name, as the Python bindings do.

use crate::locator::Backend;
use vstd::prelude::*;
use vstd::string::StrSliceExecFns;

verus! {

/// Why a backend name was refused.
#[derive(Debug, Clone)]
pub enum BackendNameError {
    /// `"gpu"` was asked for, but GPU support is not built in.
    GpuNotBuilt,
    /// The name is none of `"serial"`, `"parallel"`, `"rayon"`, `"gpu"`.
    Unknown(String),
}

/// The name a backend is chosen by: the one given, else `"parallel"`.
pub open spec fn chosen_name(backend: Option<&str>) -> Seq<char> {
    match backend {
        Some(s) => s@,
        None => "parallel"@,
    }
}

/// Whether two strings hold the same characters.
fn same_text(a: &str, b: &str) -> (r: bool)
    ensures
        r == (a@ == b@),
{
    let n = a.unicode_len();
    if n != b.unicode_len() {
        return false;
    }
    let mut i: usize = 0;
    while i < n
        invariant
            n == a@.len(),
            n == b@.len(),
            i <= n,
            forall|j: int| 0 <= j < i ==> a@[j] == b@[j],
        decreases n - i,
    {
        if a.get_char(i) != b.get_char(i) {
            return false;
        }
        i = i + 1;
    }
    assert(a@ =~= b@);
    true
}

/// The backend named `backend` (`"parallel"` when none is given):
/// `"serial"` is the serial backend, `"parallel"` and `"rayon"` the
/// multi-core one; `"gpu"` is refused because GPU support is not built in,
/// and any other name is refused as unknown, with the name in the error.
pub fn parse_backend(backend: Option<&str>) -> (r: Result<Backend, BackendNameError>)
    ensures
        chosen_name(backend) == "serial"@ ==> r matches Ok(Backend::Serial),
        (chosen_name(backend) == "parallel"@ || chosen_name(backend) == "rayon"@) ==> r matches Ok(
            Backend::ParallelCPU,
        ),
        chosen_name(backend) == "gpu"@ ==> r matches Err(BackendNameError::GpuNotBuilt),
        (chosen_name(backend) != "serial"@ && chosen_name(backend) != "parallel"@ && chosen_name(
            backend,
        ) != "rayon"@ && chosen_name(backend) != "gpu"@) ==> (r matches Err(
            BackendNameError::Unknown(s),
        ) && s@ == chosen_name(backend)),
{
    proof {
        reveal_strlit("serial");
        reveal_strlit("parallel");
        reveal_strlit("rayon");
        reveal_strlit("gpu");
        assert("serial"@.len() == 6);
        assert("parallel"@.len() == 8);
        assert("rayon"@.len() == 5);
        assert("gpu"@.len() == 3);
    }
    let name: &str = match backend {
        Some(s) => s,
        None => "parallel",
    };
    if same_text(name, "serial") {
        Ok(Backend::Serial)
    } else if same_text(name, "parallel") || same_text(name, "rayon") {
        Ok(Backend::ParallelCPU)
    } else if same_text(name, "gpu") {
        Err(BackendNameError::GpuNotBuilt)
    } else {
        Err(BackendNameError::Unknown(name.to_owned()))
    }
}

/// Whether this build can run the GPU backend: it cannot, GPU support is
/// not built in.
pub fn gpu_available() -> (r: bool)
    ensures
        !r,
{
    false
}

/// Names of the backends this build can run: `"serial"` and `"parallel"`.
pub fn available_backends() -> (r: Vec<&'static str>)
    ensures
        r@.len() == 2,
        r@[0]@ == "serial"@,
        r@[1]@ == "parallel"@,
{
    let mut names: Vec<&'static str> = Vec::new();
    names.push("serial");
    names.push("parallel");
    if gpu_available() {
        names.push("gpu");
    }
    names
}

} // verus!
