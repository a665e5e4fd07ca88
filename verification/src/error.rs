//! The ways in which a clustering can fail.

use vstd::prelude::*;

verus! {

/// Why a clustering could not be had.
#[derive(Clone, Copy, Debug, PartialEq, Eq, Structural)]
pub enum ClusterError {
    /// No cluster was asked for.
    NoClusters,
    /// The image has no pixel.
    EmptyImage,
    /// The image has fewer distinct colors than clusters were asked for, so
    /// that no pixel is left to seed the next one.
    DegenerateClustering,
    /// The centers were still moving when the rounds allowed were used up.
    NotConverged,
}

} // verus!
