//! What the two evaluators do for a vector of joint values, step by step.
//!
//! The pose of the end link relative to the base link is the product, from
//! left to right, of the elementary transforms that `steps_of` lists. Each
//! column of the geometric Jacobian is taken from the product of the steps
//! that come before one joint's own motion.

use vstd::prelude::*;
use crate::chain::{count_actuated, lemma_count_actuated_bound, KinematicChain};
use crate::error::KinematicsError;
use crate::joint::{joints_view, Joint, JointKind, JointView};

verus! {

/// One elementary transform. `joint` is a position in the chain, `value` a
/// position in the vector of joint values.
#[derive(Clone, Copy, Debug, PartialEq, Eq, Structural)]
pub enum Step {
    /// The constant origin transform of the joint.
    Origin { joint: usize },
    /// The rotation about the joint's axis by the angle that the joint value gives.
    Rotate { joint: usize, value: usize },
    /// The translation along the joint's axis by the distance that the joint value gives.
    Translate { joint: usize, value: usize },
}

/// One column of the Jacobian, for the actuated joint at `joint` in the chain.
///
/// Let `T` be the product of the first `frame` steps, `R` its rotation, `p`
/// its translation, `a` the image under `R` of the joint's axis, and `e` the
/// translation of the product of all steps. For a rotary joint the column's
/// linear part is the cross product of `a` and `e - p`, and its angular part
/// is `a`. For any other joint the linear part is `a` and the angular part is
/// zero.
#[derive(Clone, Copy, Debug, PartialEq, Eq, Structural)]
pub struct Column {
    pub joint: usize,
    pub frame: usize,
    pub rotary: bool,
}

/// The step that an actuated joint of this kind adds behind its origin.
pub open spec fn motion_of(kind: JointKind, joint: int, value: int) -> Step {
    if kind == JointKind::Prismatic {
        Step::Translate { joint: joint as usize, value: value as usize }
    } else {
        Step::Rotate { joint: joint as usize, value: value as usize }
    }
}

/// The steps of a chain: for each joint in order its origin, and behind it,
/// where the joint is actuated, its motion by the next joint value.
pub open spec fn steps_of(joints: Seq<JointView>) -> Seq<Step>
    decreases joints.len(),
{
    if joints.len() == 0 {
        Seq::empty()
    } else {
        let init = joints.drop_last();
        let origin = steps_of(init).push(Step::Origin { joint: init.len() as usize });
        if joints.last().kind.is_actuated() {
            origin.push(
                motion_of(joints.last().kind, init.len() as int, count_actuated(init) as int),
            )
        } else {
            origin
        }
    }
}

/// The columns that a sequence of steps gives rise to: one for each step
/// that is a motion, with the step's position as the column's frame.
pub open spec fn columns_in(steps: Seq<Step>) -> Seq<Column>
    decreases steps.len(),
{
    if steps.len() == 0 {
        Seq::empty()
    } else {
        let init = steps.drop_last();
        match steps.last() {
            Step::Origin { .. } => columns_in(init),
            Step::Rotate { joint, .. } => columns_in(init).push(
                Column { joint, frame: init.len() as usize, rotary: true },
            ),
            Step::Translate { joint, .. } => columns_in(init).push(
                Column { joint, frame: init.len() as usize, rotary: false },
            ),
        }
    }
}

/// The columns of a chain's Jacobian.
pub open spec fn columns_of(joints: Seq<JointView>) -> Seq<Column> {
    columns_in(steps_of(joints))
}

/// There is one step for each joint and one more for each actuated joint.
pub proof fn lemma_steps_len(joints: Seq<JointView>)
    ensures
        steps_of(joints).len() == joints.len() + count_actuated(joints),
    decreases joints.len(),
{
    if joints.len() > 0 {
        lemma_steps_len(joints.drop_last());
    }
}

/// The steps of a chain begin with the steps of each shorter chain that it
/// begins with.
pub proof fn lemma_steps_prefix(joints: Seq<JointView>, n: int)
    requires
        0 <= n <= joints.len(),
    ensures
        steps_of(joints.take(n)).len() <= steps_of(joints).len(),
        steps_of(joints.take(n)) == steps_of(joints).take(steps_of(joints.take(n)).len() as int),
    decreases joints.len(),
{
    if n == joints.len() {
        assert(joints.take(n) =~= joints);
        assert(steps_of(joints).take(steps_of(joints).len() as int) =~= steps_of(joints));
    } else {
        let init = joints.drop_last();
        lemma_steps_prefix(init, n);
        assert(init.take(n) =~= joints.take(n));
        let short = steps_of(joints.take(n));
        assert(short =~= steps_of(joints).take(short.len() as int));
    }
}

/// Where each joint's steps stand: the origin of the joint at `i` comes
/// behind one step for each joint before it and one more for each actuated
/// joint before it; the motion of an actuated joint comes next, and takes
/// the joint value whose position is the number of actuated joints before it.
pub proof fn lemma_steps_layout(joints: Seq<JointView>, i: int)
    requires
        0 <= i < joints.len(),
    ensures
        ({
            let before = count_actuated(joints.take(i));
            let at = i + before;
            &&& at < steps_of(joints).len()
            &&& steps_of(joints)[at] == Step::Origin { joint: i as usize }
            &&& joints[i].kind.is_actuated() ==> at + 1 < steps_of(joints).len() && steps_of(
                joints,
            )[at + 1] == motion_of(joints[i].kind, i, before as int)
        }),
{
    let upto = joints.take(i + 1);
    lemma_steps_prefix(joints, i + 1);
    lemma_steps_len(joints.take(i));
    assert(upto.drop_last() =~= joints.take(i));
    assert(upto.last() == joints[i]);
    let before = count_actuated(joints.take(i));
    let at = i + before;
    assert(steps_of(upto)[at] == Step::Origin { joint: i as usize });
    assert(steps_of(joints)[at] == steps_of(joints).take(steps_of(upto).len() as int)[at]);
    if joints[i].kind.is_actuated() {
        assert(steps_of(upto)[at + 1] == motion_of(joints[i].kind, i, before as int));
        assert(steps_of(joints)[at + 1] == steps_of(joints).take(steps_of(upto).len() as int)[at
            + 1]);
    }
}

/// The steps that are origins, in the order in which they stand.
pub open spec fn origins_in(steps: Seq<Step>) -> Seq<Step>
    decreases steps.len(),
{
    if steps.len() == 0 {
        Seq::empty()
    } else {
        match steps.last() {
            Step::Origin { .. } => origins_in(steps.drop_last()).push(steps.last()),
            _ => origins_in(steps.drop_last()),
        }
    }
}

/// Without the motions, the steps of a chain are the origins of its joints,
/// one for each joint and in the order of the chain.
pub proof fn lemma_origins(joints: Seq<JointView>)
    ensures
        origins_in(steps_of(joints)) == Seq::new(
            joints.len(),
            |i: int| Step::Origin { joint: i as usize },
        ),
    decreases joints.len(),
{
    let all = Seq::new(joints.len(), |i: int| Step::Origin { joint: i as usize });
    if joints.len() == 0 {
        assert(origins_in(steps_of(joints)) =~= all);
    } else {
        let init = joints.drop_last();
        lemma_origins(init);
        let origin = steps_of(init).push(Step::Origin { joint: init.len() as usize });
        assert(origin.drop_last() =~= steps_of(init));
        assert(origins_in(origin) =~= all);
        if joints.last().kind.is_actuated() {
            assert(steps_of(joints).drop_last() =~= origin);
        }
    }
}

/// The columns of a chain are those of the chain without its last joint,
/// and one more where the last joint is actuated.
pub proof fn lemma_columns_unfold(joints: Seq<JointView>)
    requires
        joints.len() > 0,
    ensures
        columns_of(joints) == if joints.last().kind.is_actuated() {
            columns_of(joints.drop_last()).push(
                Column {
                    joint: (joints.len() - 1) as usize,
                    frame: (steps_of(joints.drop_last()).len() + 1) as usize,
                    rotary: joints.last().kind.is_rotary(),
                },
            )
        } else {
            columns_of(joints.drop_last())
        },
{
    let init = joints.drop_last();
    let origin = steps_of(init).push(Step::Origin { joint: init.len() as usize });
    assert(origin.drop_last() =~= steps_of(init));
    assert(columns_in(origin) == columns_of(init));
    if joints.last().kind.is_actuated() {
        let all = steps_of(joints);
        assert(all.drop_last() =~= origin);
    }
}

/// The Jacobian has one column for each degree of freedom.
pub proof fn lemma_columns_len(joints: Seq<JointView>)
    ensures
        columns_of(joints).len() == count_actuated(joints),
    decreases joints.len(),
{
    if joints.len() > 0 {
        lemma_columns_unfold(joints);
        lemma_columns_len(joints.drop_last());
    }
}

/// The column at `k` belongs to the joint that takes the joint value at `k`:
/// an actuated joint of the chain with `k` actuated joints before it. The
/// column's frame is the position of that joint's motion among the steps,
/// and the column is rotary exactly when the joint is.
pub proof fn lemma_column_joint(joints: Seq<JointView>, k: int)
    requires
        joints.len() + count_actuated(joints) <= usize::MAX,
        0 <= k < count_actuated(joints),
    ensures
        columns_of(joints).len() == count_actuated(joints),
        ({
            let c = columns_of(joints)[k];
            &&& c.joint < joints.len()
            &&& joints[c.joint as int].kind.is_actuated()
            &&& c.rotary == joints[c.joint as int].kind.is_rotary()
            &&& count_actuated(joints.take(c.joint as int)) == k
            &&& c.frame == c.joint + k + 1
            &&& c.frame < steps_of(joints).len()
            &&& steps_of(joints)[c.frame as int] == motion_of(
                joints[c.joint as int].kind,
                c.joint as int,
                k,
            )
        }),
    decreases joints.len(),
{
    lemma_columns_len(joints);
    let init = joints.drop_last();
    lemma_columns_unfold(joints);
    lemma_columns_len(init);
    lemma_steps_len(init);
    lemma_steps_len(joints);
    lemma_count_actuated_bound(init);
    if k < count_actuated(init) {
        lemma_column_joint(init, k);
        let c = columns_of(init)[k];
        assert(columns_of(joints)[k] == c);
        assert(init.take(c.joint as int) =~= joints.take(c.joint as int));
        lemma_steps_layout(joints, c.joint as int);
    } else {
        let i = joints.len() - 1;
        assert(joints.take(i) =~= init);
        lemma_steps_layout(joints, i);
    }
}

/// Lays out the steps of a chain of joints.
pub fn layout_steps(joints: &Vec<Joint>) -> (r: Vec<Step>)
    ensures
        r@ == steps_of(joints_view(joints@)),
{
    let ghost all = joints_view(joints@);
    let mut steps: Vec<Step> = Vec::new();
    let mut value: usize = 0;
    let mut i: usize = 0;
    while i < joints.len()
        invariant
            i <= joints@.len(),
            all == joints_view(joints@),
            steps@ == steps_of(all.take(i as int)),
            value == count_actuated(all.take(i as int)),
            value <= i,
        decreases joints@.len() - i,
    {
        let kind = joints[i].kind;
        proof {
            let upto = all.take(i + 1);
            assert(upto.drop_last() =~= all.take(i as int));
            assert(upto.last().kind == kind);
        }
        steps.push(Step::Origin { joint: i });
        if kind.is_actuated() {
            if kind.is_rotary() {
                steps.push(Step::Rotate { joint: i, value });
            } else {
                steps.push(Step::Translate { joint: i, value });
            }
            value += 1;
        }
        i += 1;
    }
    proof {
        assert(all.take(joints@.len() as int) =~= all);
    }
    steps
}

/// Picks the columns out of a sequence of steps.
pub fn layout_columns(steps: &Vec<Step>) -> (r: Vec<Column>)
    ensures
        r@ == columns_in(steps@),
{
    let mut columns: Vec<Column> = Vec::new();
    let mut f: usize = 0;
    while f < steps.len()
        invariant
            f <= steps@.len(),
            columns@ == columns_in(steps@.take(f as int)),
        decreases steps@.len() - f,
    {
        proof {
            let upto = steps@.take(f + 1);
            assert(upto.drop_last() =~= steps@.take(f as int));
            assert(upto.last() == steps@[f as int]);
        }
        match steps[f] {
            Step::Origin { .. } => {},
            Step::Rotate { joint, .. } => {
                columns.push(Column { joint, frame: f, rotary: true });
            },
            Step::Translate { joint, .. } => {
                columns.push(Column { joint, frame: f, rotary: false });
            },
        }
        f += 1;
    }
    proof {
        assert(steps@.take(steps@.len() as int) =~= steps@);
    }
    columns
}

impl KinematicChain {
    /// The steps of forward kinematics for `values` joint values.
    ///
    /// Fails with `DimensionMismatch` exactly when `values` is not the
    /// chain's number of degrees of freedom.
    pub fn forward_steps(&self, values: usize) -> (r: Result<Vec<Step>, KinematicsError>)
        ensures
            match r {
                Ok(steps) => values == self@.dof() && steps@ == steps_of(self@.joints),
                Err(KinematicsError::DimensionMismatch { expected, got }) => {
                    &&& values != self@.dof()
                    &&& expected == self@.dof()
                    &&& got == values
                },
                Err(_) => false,
            },
    {
        let dof = self.dof();
        if values != dof {
            return Err(KinematicsError::DimensionMismatch { expected: dof, got: values });
        }
        Ok(layout_steps(self.joints()))
    }

    /// The columns of the Jacobian for `values` joint values.
    ///
    /// Fails with `DimensionMismatch` exactly when `values` is not the
    /// chain's number of degrees of freedom.
    pub fn jacobian_columns(&self, values: usize) -> (r: Result<Vec<Column>, KinematicsError>)
        ensures
            match r {
                Ok(columns) => values == self@.dof() && columns@ == columns_of(self@.joints),
                Err(KinematicsError::DimensionMismatch { expected, got }) => {
                    &&& values != self@.dof()
                    &&& expected == self@.dof()
                    &&& got == values
                },
                Err(_) => false,
            },
    {
        let dof = self.dof();
        if values != dof {
            return Err(KinematicsError::DimensionMismatch { expected: dof, got: values });
        }
        let steps = layout_steps(self.joints());
        Ok(layout_columns(&steps))
    }
}

} // verus!
