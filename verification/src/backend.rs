use vstd::prelude::*;

verus! {

/// Matrix products on the CPU, one multiply-add at a time, in `i, k, j`
/// order so that the right operand and the output are walked row by row.
pub struct ScalarBackend;

/// Matrix products on the CPU with ARM NEON vectors, four lanes at a time.
pub struct NeonBackend;

impl ScalarBackend {
    /// The backend's name, `"scalar"`.
    pub fn name(&self) -> (n: &'static str)
        ensures
            n@ == "scalar"@,
    {
        "scalar"
    }
}

impl NeonBackend {
    /// The backend's name, `"neon"`.
    pub fn name(&self) -> (n: &'static str)
        ensures
            n@ == "neon"@,
    {
        "neon"
    }
}

/// The compute backends the engine can run on.
#[derive(PartialEq, Eq, Structural, Debug, Clone, Copy)]
pub enum BackendKind {
    Scalar,
    Neon,
    Metal,
}

/// The backend picked once at startup, by detection with fallback: on ARM
/// (`aarch64`) the Metal GPU backend when a Metal device is available, else
/// the NEON backend; elsewhere the scalar backend.
pub fn choose_backend(is_aarch64: bool, metal_available: bool) -> (k: BackendKind)
    ensures
        k == if is_aarch64 {
            if metal_available {
                BackendKind::Metal
            } else {
                BackendKind::Neon
            }
        } else {
            BackendKind::Scalar
        },
{
    if is_aarch64 {
        if metal_available {
            BackendKind::Metal
        } else {
            BackendKind::Neon
        }
    } else {
        BackendKind::Scalar
    }
}

} // verus!
