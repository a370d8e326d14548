//! Joints and the kinds of motion they allow.

use vstd::prelude::*;
use crate::number::{Triple, TripleView};
use crate::scan::copy_bytes;

verus! {

/// How a joint moves its child link relative to its parent link.
#[derive(Clone, Copy, Debug, PartialEq, Eq, Structural)]
pub enum JointKind {
    /// Rigid connection: takes no joint value.
    Fixed,
    /// Rotation about the axis by an angle, within limits that the
    /// description may give and the library does not enforce.
    Revolute,
    /// Rotation about the axis by an angle, without limits.
    Continuous,
    /// Translation along the axis by a distance.
    Prismatic,
}

impl JointKind {
    /// Whether a joint of this kind takes one joint value.
    pub open spec fn spec_is_actuated(self) -> bool {
        self != JointKind::Fixed
    }

    #[verifier::when_used_as_spec(spec_is_actuated)]
    pub fn is_actuated(self) -> (r: bool)
        ensures
            r == self.spec_is_actuated(),
    {
        match self {
            JointKind::Fixed => false,
            _ => true,
        }
    }

    /// Whether a joint of this kind turns about its axis.
    pub open spec fn spec_is_rotary(self) -> bool {
        self == JointKind::Revolute || self == JointKind::Continuous
    }

    #[verifier::when_used_as_spec(spec_is_rotary)]
    pub fn is_rotary(self) -> (r: bool)
        ensures
            r == self.spec_is_rotary(),
    {
        match self {
            JointKind::Revolute => true,
            JointKind::Continuous => true,
            _ => false,
        }
    }
}

/// A joint: it connects one parent link to one child link.
///
/// `parent` and `child` are positions in the list of links of the model that
/// holds the joint. The origin is the constant transform from the parent
/// link's frame to the joint's frame: a translation `origin_xyz` and a
/// rotation `origin_rpy` given as roll, pitch and yaw. The axis is given in
/// the joint's own frame and has a meaning for actuated joints only.
#[derive(Debug)]
pub struct Joint {
    pub name: Vec<u8>,
    pub kind: JointKind,
    pub parent: usize,
    pub child: usize,
    pub origin_xyz: Triple,
    pub origin_rpy: Triple,
    pub axis: Triple,
}

/// What a `Joint` holds.
pub struct JointView {
    pub name: Seq<u8>,
    pub kind: JointKind,
    pub parent: int,
    pub child: int,
    pub origin_xyz: TripleView,
    pub origin_rpy: TripleView,
    pub axis: TripleView,
}

impl View for Joint {
    type V = JointView;

    open spec fn view(&self) -> JointView {
        JointView {
            name: self.name@,
            kind: self.kind,
            parent: self.parent as int,
            child: self.child as int,
            origin_xyz: self.origin_xyz@,
            origin_rpy: self.origin_rpy@,
            axis: self.axis@,
        }
    }
}

impl JointView {
    /// The origin and the axis are made of numerals.
    pub open spec fn wf(self) -> bool {
        self.origin_xyz.wf() && self.origin_rpy.wf() && self.axis.wf()
    }
}

impl Joint {
    /// Whether the origin and the axis are made of numerals.
    pub fn is_valid(&self) -> (r: bool)
        ensures
            r == self@.wf(),
    {
        self.origin_xyz.is_valid() && self.origin_rpy.is_valid() && self.axis.is_valid()
    }

    /// A copy of the joint.
    pub fn duplicate(&self) -> (r: Joint)
        ensures
            r@ == self@,
    {
        Joint {
            name: copy_bytes(self.name.as_slice()),
            kind: self.kind,
            parent: self.parent,
            child: self.child,
            origin_xyz: self.origin_xyz.duplicate(),
            origin_rpy: self.origin_rpy.duplicate(),
            axis: self.axis.duplicate(),
        }
    }
}

/// The views of a list of joints, in order.
pub open spec fn joints_view(joints: Seq<Joint>) -> Seq<JointView> {
    Seq::new(joints.len(), |i: int| joints[i]@)
}

} // verus!
