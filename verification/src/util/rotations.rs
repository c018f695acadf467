//! Which rotations of an item are allowed.
//!
//! The engine measures angular distances; whether an angle is allowed is decided here.
use crate::scalar::Scalar;
use vstd::prelude::*;

verus! {

/// Number of rotations that are sampled for an item that may be rotated freely. The sampler and
/// every check use this grid.
pub const ROT_N_SAMPLES: usize = 16;

/// Bits of the tolerance of the rotation check in degrees, `0.001`.
pub const ROTATION_TOL_DEG_BITS: u32 = 0x3a83_126f;

/// The rotations that an item may be placed at.
#[derive(Debug, Clone)]
pub enum RotationRange {
    /// Only as it is.
    Fixed,
    /// Any of these angles (radians).
    Discrete(Vec<Scalar>),
    /// Any angle.
    Continuous,
}

/// A rotation that an item is tried at.
#[derive(Debug, Clone, Copy, PartialEq, Eq, Structural)]
pub enum CandidateRotation {
    /// As it is.
    Zero,
    /// A declared angle (radians).
    Angle(Scalar),
    /// A multiple of the sixteenth part of a full turn.
    Step(usize),
}

/// The rotations that an item is tried at: the declared ones, in their order, or the grid.
pub open spec fn candidates(range: RotationRange) -> Seq<CandidateRotation> {
    match range {
        RotationRange::Fixed => seq![CandidateRotation::Zero],
        RotationRange::Discrete(angles) => angles@.map_values(
            |a: Scalar| CandidateRotation::Angle(a),
        ),
        RotationRange::Continuous => Seq::new(
            ROT_N_SAMPLES as nat,
            |i: int| CandidateRotation::Step(i as usize),
        ),
    }
}

/// The rotations that the engine tries an item at.
pub fn candidate_rotations(range: &RotationRange) -> (r: Vec<CandidateRotation>)
    ensures
        r@ == candidates(*range),
{
    let mut r: Vec<CandidateRotation> = Vec::new();
    match range {
        RotationRange::Fixed => {
            r.push(CandidateRotation::Zero);
        },
        RotationRange::Discrete(angles) => {
            let mut i: usize = 0;
            while i < angles.len()
                invariant
                    i <= angles@.len(),
                    r@.len() == i,
                    forall|k: int|
                        0 <= k < i ==> #[trigger] r@[k] == CandidateRotation::Angle(angles@[k]),
                decreases angles@.len() - i,
            {
                r.push(CandidateRotation::Angle(angles[i]));
                i = i + 1;
            }
        },
        RotationRange::Continuous => {
            let mut i: usize = 0;
            while i < ROT_N_SAMPLES
                invariant
                    i <= ROT_N_SAMPLES,
                    r@.len() == i,
                    forall|k: int|
                        0 <= k < i ==> #[trigger] r@[k] == CandidateRotation::Step(k as usize),
                decreases ROT_N_SAMPLES - i,
            {
                r.push(CandidateRotation::Step(i));
                i = i + 1;
            }
        },
    }
    assert(r@ =~= candidates(*range));
    r
}

/// Whether an item may be rotated freely, so that the grid is a sample of a continuum: a sampled
/// rotation that fits proves that the item fits, but none that fits proves nothing.
pub fn is_continuous(range: &RotationRange) -> (r: bool)
    ensures
        r == (*range is Continuous),
{
    matches!(range, RotationRange::Continuous)
}

/// Whether a check over the grid must not refuse an item that fits at none of the sampled rotations:
/// one that may be rotated freely may still fit between two of them.
pub fn fits_when_continuous(range: &RotationRange) -> (r: bool)
    ensures
        r == (*range is Continuous),
{
    is_continuous(range)
}

/// Whether an angle is allowed, from its distances to the allowed angles: `None` if any angle is.
pub open spec fn within(finite: bool, deltas: Option<Seq<Scalar>>, tolerance: Scalar) -> bool {
    finite && match deltas {
        None => true,
        Some(d) => exists|i: int| 0 <= i < d.len() && (#[trigger] d[i]).less_or_equal(tolerance),
    }
}

/// The distances, as a mathematical value.
pub open spec fn deltas_view(deltas: Option<Vec<Scalar>>) -> Option<Seq<Scalar>> {
    match deltas {
        Some(d) => Some(d@),
        None => None,
    }
}

/// Whether a rotation is one of the allowed ones, within the tolerance.
///
/// `deltas` holds the distances, modulo a full turn, between the angle and each allowed angle, which
/// is `0` alone for an item that must not be rotated; `None` if any angle is allowed. An angle that
/// is not finite is never allowed.
pub fn rotation_is_allowed(finite: bool, deltas: &Option<Vec<Scalar>>, tolerance: Scalar) -> (r: bool)
    ensures
        r == within(finite, deltas_view(*deltas), tolerance),
{
    if !finite {
        return false;
    }
    match deltas {
        None => true,
        Some(d) => {
            let mut i: usize = 0;
            while i < d.len()
                invariant
                    finite,
                    deltas_view(*deltas) == Some(d@),
                    i <= d@.len(),
                    forall|k: int|
                        0 <= k < i ==> !(#[trigger] d@[k]).less_or_equal(tolerance),
                decreases d@.len() - i,
            {
                if d[i].le(tolerance) {
                    assert((deltas_view(*deltas)->0)[i as int].less_or_equal(tolerance));
                    return true;
                }
                i = i + 1;
            }
            false
        },
    }
}

/// The angles that a declared list of orientations allows (degrees): an empty list fixes the item at
/// `0`, and a missing one allows any angle.
pub open spec fn declared(orientations: Option<Seq<Scalar>>) -> Option<Seq<Scalar>> {
    match orientations {
        None => None,
        Some(list) => if list.len() == 0 {
            Some(seq![Scalar { bits: 0 }])
        } else {
            Some(list)
        },
    }
}

/// The angles that a declared list of orientations allows (degrees): an empty list fixes the item at
/// `0`, and a missing one allows any angle.
pub fn allowed_orientations(orientations: &Option<Vec<Scalar>>) -> (r: Option<Vec<Scalar>>)
    ensures
        deltas_view(r) == declared(deltas_view(*orientations)),
{
    match orientations {
        None => None,
        Some(list) => {
            let mut r: Vec<Scalar> = Vec::new();
            if list.len() == 0 {
                r.push(Scalar { bits: 0 });
                assert(r@ =~= seq![Scalar { bits: 0 }]);
            } else {
                let mut i: usize = 0;
                while i < list.len()
                    invariant
                        i <= list@.len(),
                        r@.len() == i,
                        forall|k: int| 0 <= k < i ==> #[trigger] r@[k] == list@[k],
                    decreases list@.len() - i,
                {
                    r.push(list[i]);
                    i = i + 1;
                }
                assert(r@ =~= list@);
            }
            Some(r)
        },
    }
}

/// **Every item can be placed at some angle**: no declared list rules out all of them, and one that
/// is not empty is taken as it stands.
pub proof fn lemma_some_angle_is_allowed(orientations: Option<Seq<Scalar>>)
    ensures
        declared(orientations) matches Some(list) ==> list.len() > 0,
        orientations matches Some(list) && list.len() > 0 ==> declared(orientations)
            == orientations,
        orientations is None ==> declared(orientations) is None,
{
}

/// The first `m` angles in degrees, separated by commas.
pub open spec fn degree_list(angles: Seq<String>, m: nat) -> Seq<char>
    decreases m,
{
    if m == 0 {
        seq![]
    } else {
        let head = degree_list(angles, (m - 1) as nat);
        (if m == 1 {
            head
        } else {
            head + ", "@
        }) + angles[m - 1]@ + "°"@
    }
}

fn degrees(angles: &Vec<String>) -> (s: String)
    ensures
        s@ == degree_list(angles@, angles@.len()),
{
    let mut s = String::new();
    let mut i: usize = 0;
    while i < angles.len()
        invariant
            i <= angles@.len(),
            s@ == degree_list(angles@, i as nat),
        decreases angles@.len() - i,
    {
        if i > 0 {
            s.append(", ");
        }
        s.append(angles[i].as_str());
        s.append("°");
        i = i + 1;
        assert(s@ =~= degree_list(angles@, i as nat));
    }
    s
}

/// The rotations that an item allows, for a message. `angles` holds the declared ones, as text.
pub fn describe_allowed(range: &RotationRange, angles: &Vec<String>) -> (s: String)
    ensures
        s@ == match *range {
            RotationRange::Continuous => "any (continuous rotation)"@,
            RotationRange::Fixed => "0° only"@,
            RotationRange::Discrete(_) => degree_list(angles@, angles@.len()),
        },
{
    match range {
        RotationRange::Continuous => "any (continuous rotation)".to_owned(),
        RotationRange::Fixed => "0° only".to_owned(),
        RotationRange::Discrete(_) => degrees(angles),
    }
}

/// The declared orientations of an item, for a message: `None` if any angle is allowed, and otherwise
/// the angles, as text.
pub fn describe_orientations(orientations: &Option<Vec<String>>) -> (s: String)
    ensures
        s@ == match *orientations {
            None => "any (continuous rotation)"@,
            Some(list) => if list@.len() == 0 {
                "0° only (an empty list means a fixed orientation)"@
            } else {
                degree_list(list@, list@.len())
            },
        },
{
    match orientations {
        None => "any (continuous rotation)".to_owned(),
        Some(list) => {
            if list.len() == 0 {
                "0° only (an empty list means a fixed orientation)".to_owned()
            } else {
                degrees(list)
            }
        },
    }
}

/// **An angle is allowed exactly if it is near an allowed one**: a finite angle is allowed if any angle is,
/// or if its distance to one of the allowed angles, wherever that stands in the list, is within the
/// tolerance; an angle far from all of them is not, and one that is not finite never is.
pub proof fn lemma_allowed_near_an_angle(deltas: Seq<Scalar>, tolerance: Scalar)
    ensures
        within(true, None, tolerance),
        forall|i: int|
            0 <= i < deltas.len() && (#[trigger] deltas[i]).less_or_equal(tolerance) ==> within(
                true,
                Some(deltas),
                tolerance,
            ),
        (forall|i: int| 0 <= i < deltas.len() ==> tolerance.less(#[trigger] deltas[i])) ==> !within(
            true,
            Some(deltas),
            tolerance,
        ),
        !within(false, Some(deltas), tolerance),
        !within(false, None, tolerance),
{
    assert forall|i: int|
        0 <= i < deltas.len() && (#[trigger] deltas[i]).less_or_equal(tolerance) implies within(
        true,
        Some(deltas),
        tolerance,
    ) by {
        let d = Some(deltas)->0;
        assert(d[i].less_or_equal(tolerance));
    }
    if forall|i: int| 0 <= i < deltas.len() ==> tolerance.less(#[trigger] deltas[i]) {
        assert(forall|i: int|
            0 <= i < deltas.len() ==> !(#[trigger] deltas[i]).less_or_equal(tolerance));
    }
}

/// **An empty list fixes an item**: it is then allowed at zero and at no other angle.
pub proof fn lemma_empty_list_fixes_the_item()
    ensures
        declared(Some(Seq::<Scalar>::empty())) == Some(seq![Scalar { bits: 0 }]),
{
}

/// **Every declared angle is tried, and only those**: an item that must not be rotated is tried as it is,
/// one with a list of angles at each of them in order, and one that may be rotated freely at every step
/// of the grid, once.
pub proof fn lemma_every_declared_angle_is_tried(range: RotationRange)
    ensures
        range is Fixed ==> candidates(range) == seq![CandidateRotation::Zero],
        range matches RotationRange::Discrete(angles) ==> candidates(range).len() == angles@.len()
            && forall|i: int|
            0 <= i < angles@.len() ==> #[trigger] candidates(range)[i] == CandidateRotation::Angle(
                angles@[i],
            ),
        range is Continuous ==> candidates(range).len() == 16 && forall|i: int|
            0 <= i < 16 ==> #[trigger] candidates(range)[i] == CandidateRotation::Step(
                i as usize,
            ),
{
}

/// **Every angle is named**, one after the other.
pub proof fn lemma_every_angle_is_named(angles: Seq<String>, m: nat)
    requires
        m <= angles.len(),
    ensures
        degree_list(angles, m) == crate::text::joined_by(
            angles.take(m as int).map_values(|a: String| a@ + "°"@),
            ", "@,
        ),
    decreases m,
{
    let f = |a: String| a@ + "°"@;
    let parts = angles.take(m as int).map_values(f);
    if m > 0 {
        lemma_every_angle_is_named(angles, (m - 1) as nat);
        crate::text::lemma_joined_last(parts, ", "@);
        assert(parts.drop_last() =~= angles.take(m - 1).map_values(f));
        assert(parts.last() == f(angles[m - 1]));
        assert(degree_list(angles, m) =~= if m == 1 {
            parts.last()
        } else {
            degree_list(angles, (m - 1) as nat) + ", "@ + parts.last()
        });
    }
}

} // verus!
