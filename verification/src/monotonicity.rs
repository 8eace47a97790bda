//! Classification of singular points from the outcome of a monotonicity
//! (blow-up) analysis.
use vstd::prelude::*;

verus! {

/// The singularity type at a point of a current.
#[derive(Clone, Debug, PartialEq, Eq, Structural)]
pub enum SingularityType {
    /// Smooth point (tangent space is R^k).
    Smooth { dimension: usize },
    /// Cone singularity (tangent cone is non-trivial).
    Cone { dimension: usize },
    /// Higher codimension singularity.
    Singular { dimension: usize, codimension: usize },
}

/// The classification rule: a point where the density ratios are monotone
/// and nearly constant (a cone point) is smooth when the largest density
/// ratio is negligible and a cone singularity otherwise; every other point
/// is singular, of codimension `ambient_dimension - k` (0 when `k` exceeds
/// the ambient dimension).
pub open spec fn classify(
    is_monotone: bool,
    is_cone: bool,
    negligible_density: bool,
    k: usize,
    ambient_dimension: usize,
) -> SingularityType {
    if is_monotone && is_cone {
        if negligible_density {
            SingularityType::Smooth { dimension: k }
        } else {
            SingularityType::Cone { dimension: k }
        }
    } else {
        SingularityType::Singular {
            dimension: k,
            codimension: if ambient_dimension >= k {
                (ambient_dimension - k) as usize
            } else {
                0
            },
        }
    }
}

/// Classifies the singularity at a point of a `k`-dimensional current in an
/// `ambient_dimension`-dimensional space from the monotonicity analysis at
/// that point: whether the density ratios are non-decreasing, whether they are
/// nearly constant (a cone), and whether the largest of them is negligible.
pub fn classify_singularity_type(
    is_monotone: bool,
    is_cone: bool,
    negligible_density: bool,
    k: usize,
    ambient_dimension: usize,
) -> (t: SingularityType)
    ensures
        t == classify(is_monotone, is_cone, negligible_density, k, ambient_dimension),
        is_monotone && is_cone && negligible_density ==> t == (SingularityType::Smooth { dimension: k }),
        is_monotone && is_cone && !negligible_density ==> t == (SingularityType::Cone { dimension: k }),
        !(is_monotone && is_cone) && ambient_dimension >= k ==> t == (SingularityType::Singular {
            dimension: k,
            codimension: (ambient_dimension - k) as usize,
        }),
        !(is_monotone && is_cone) && ambient_dimension < k ==> t == (SingularityType::Singular {
            dimension: k,
            codimension: 0,
        }),
{
    if is_monotone && is_cone {
        if negligible_density {
            SingularityType::Smooth { dimension: k }
        } else {
            SingularityType::Cone { dimension: k }
        }
    } else {
        let codimension = if ambient_dimension >= k {
            ambient_dimension - k
        } else {
            0
        };
        SingularityType::Singular { dimension: k, codimension }
    }
}

/// The dimension that a classification records.
pub open spec fn recorded_dimension(t: SingularityType) -> usize {
    match t {
        SingularityType::Smooth { dimension } => dimension,
        SingularityType::Cone { dimension } => dimension,
        SingularityType::Singular { dimension, .. } => dimension,
    }
}

/// Whatever the analysis found, the classification records the dimension `k`
/// that was asked about.
pub proof fn lemma_classification_keeps_dimension(
    is_monotone: bool,
    is_cone: bool,
    negligible_density: bool,
    k: usize,
    ambient_dimension: usize,
)
    ensures
        recorded_dimension(classify(is_monotone, is_cone, negligible_density, k, ambient_dimension)) == k,
{
}

/// At a point that is not a monotone cone point the classification is
/// singular, and its dimension and codimension add up to the ambient
/// dimension (the codimension is 0 when `k` exceeds it). At a monotone cone
/// point it is smooth or a cone according as the density is negligible.
pub proof fn lemma_classification_codimension(
    is_monotone: bool,
    is_cone: bool,
    negligible_density: bool,
    k: usize,
    ambient_dimension: usize,
)
    ensures
        !(is_monotone && is_cone) ==> (classify(is_monotone, is_cone, negligible_density, k, ambient_dimension) matches SingularityType::Singular {
            dimension,
            codimension,
        } && dimension == k && (if ambient_dimension >= k {
            dimension + codimension == ambient_dimension
        } else {
            codimension == 0
        })),
        is_monotone && is_cone ==> (classify(is_monotone, is_cone, negligible_density, k, ambient_dimension) matches SingularityType::Smooth {
            dimension,
        } && dimension == k && negligible_density) || (classify(is_monotone, is_cone, negligible_density, k, ambient_dimension) matches SingularityType::Cone {
            dimension,
        } && dimension == k && !negligible_density),
{
}

} // verus!
