//! Land survey engine: file-format scanners, the XDATA codec, surface store
//! and the pure decisions behind the survey commands.
use vstd::prelude::*;

pub mod dispatch;
pub mod dxf;
pub mod landxml;
pub mod plan;
pub mod resection;
pub mod ribbon;
pub mod pnezd;
pub mod state;
pub mod surface;
pub mod tables;
pub mod text;
pub mod transform;
pub mod viz;
pub mod xdata;

verus! {

/// How a resection was solved.
#[derive(Debug, Clone, Copy, PartialEq, Eq, Structural)]
pub enum ResectionMethod {
    /// Combined direction + distance, least-squares similarity (Helmert) fit.
    Combined,
    /// Angle-only three-point (Tienstra).
    AngleOnly,
}

} // verus!
