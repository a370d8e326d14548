//! The chain of joints from a base link to an end link.

use vstd::prelude::*;
use vstd::string::StringSliceAdditionalSpecFns;
use vstd::utf8::encode_utf8;
use crate::description::{description, parse_description};
use crate::error::KinematicsError;
use crate::joint::{joints_view, Joint, JointView};
use crate::model::{
    ids_view, lemma_forward_path_links, position_of, ModelView, RobotModel,
};

verus! {

/// The number of joints that take a joint value.
pub open spec fn count_actuated(joints: Seq<JointView>) -> nat
    decreases joints.len(),
{
    if joints.len() == 0 {
        0
    } else {
        count_actuated(joints.drop_last()) + if joints.last().kind.is_actuated() {
            1nat
        } else {
            0nat
        }
    }
}

/// The model's joints at the positions that `path` lists.
pub open spec fn joints_along(m: ModelView, path: Seq<int>) -> Seq<JointView> {
    Seq::new(path.len(), |i: int| m.joints[path[i]])
}

/// The position of the link whose name is `name`, if the model has it.
pub open spec fn link_named(m: ModelView, name: Seq<char>) -> Option<int> {
    position_of(m.links, encode_utf8(name))
}

/// What a chain holds: its joints from the base link towards the end link,
/// and for each the position it has in the model that the chain was taken
/// from.
pub struct ChainView {
    pub ids: Seq<int>,
    pub joints: Seq<JointView>,
}

impl ChainView {
    /// Whether the child of the joint at `i` is the parent of the next joint.
    pub open spec fn joined(self, i: int) -> bool {
        self.joints[i].child == self.joints[i + 1].parent
    }

    /// The joints hold numerals, and each joint's child link is the next
    /// joint's parent link.
    pub open spec fn wf(self) -> bool {
        &&& self.ids.len() == self.joints.len()
        &&& forall|i: int| 0 <= i < self.joints.len() ==> (#[trigger] self.joints[i]).wf()
        &&& forall|i: int| 0 <= i < self.joints.len() - 1 ==> #[trigger] self.joined(i)
    }

    /// The number of degrees of freedom: the joints that are not fixed.
    pub open spec fn dof(self) -> nat {
        count_actuated(self.joints)
    }

    /// Whether the chain is the forward path from `base` to `end` in `m`.
    pub open spec fn follows(self, m: ModelView, base: int, end: int) -> bool {
        &&& m.is_forward_path(base, end, self.ids)
        &&& self.joints == joints_along(m, self.ids)
    }
}

/// What extracting the chain from the link named `base_link` to the link
/// named `end_link` gives in the model `m`: the chain that follows the
/// forward path between the two, or the error that says why there is none.
pub open spec fn extracted(
    m: ModelView,
    base_link: Seq<char>,
    end_link: Seq<char>,
    r: Result<KinematicChain, KinematicsError>,
) -> bool {
    match r {
        Ok(c) => {
            &&& link_named(m, base_link) is Some
            &&& link_named(m, end_link) is Some
            &&& c@.follows(
                m,
                link_named(m, base_link).unwrap(),
                link_named(m, end_link).unwrap(),
            )
            &&& c@.wf()
        },
        Err(KinematicsError::LinkNotFound { name }) => {
            if link_named(m, base_link) is None {
                name@ == base_link
            } else {
                link_named(m, end_link) is None && name@ == end_link
            }
        },
        Err(KinematicsError::NoPathFound { base, end }) => {
            &&& base@ == base_link
            &&& end@ == end_link
            &&& link_named(m, base_link) is Some
            &&& link_named(m, end_link) is Some
            &&& forall|p: Seq<int>|
                !m.is_forward_path(
                    link_named(m, base_link).unwrap(),
                    link_named(m, end_link).unwrap(),
                    p,
                )
        },
        Err(_) => false,
    }
}

/// There are no more actuated joints than joints.
pub proof fn lemma_count_actuated_bound(joints: Seq<JointView>)
    ensures
        count_actuated(joints) <= joints.len(),
    decreases joints.len(),
{
    if joints.len() > 0 {
        lemma_count_actuated_bound(joints.drop_last());
    }
}

/// The joints of a forward path in a well-formed model make a well-formed chain.
pub proof fn lemma_path_chain_wf(m: ModelView, base: int, end: int, path: Seq<int>)
    requires
        m.wf(),
        m.is_forward_path(base, end, path),
    ensures
        (ChainView { ids: path, joints: joints_along(m, path) }).wf(),
{
    let c = ChainView { ids: path, joints: joints_along(m, path) };
    lemma_forward_path_links(m, base, end, path);
    assert forall|i: int| 0 <= i < c.joints.len() implies (#[trigger] c.joints[i]).wf() by {
        assert(m.joints[path[i]].wf());
    }
    assert forall|i: int| 0 <= i < c.joints.len() - 1 implies #[trigger] c.joined(i) by {
        assert(m.joined(path, i));
    }
}

/// An ordered sequence of joints that leads from a base link to an end link,
/// each joint's child link being the next joint's parent link. It is made
/// once and does not change.
#[derive(Debug)]
pub struct KinematicChain {
    ids: Vec<usize>,
    joints: Vec<Joint>,
    dof: usize,
}

impl View for KinematicChain {
    type V = ChainView;

    closed spec fn view(&self) -> ChainView {
        ChainView { ids: ids_view(self.ids@), joints: joints_view(self.joints@) }
    }
}

impl KinematicChain {
    #[verifier::type_invariant]
    spec fn inv(&self) -> bool {
        self@.wf() && self.dof == self@.dof()
    }

    /// Extracts the chain from the link named `base_link` to the link named
    /// `end_link`.
    ///
    /// Fails with `LinkNotFound` where the model has no link of one of the
    /// names (the base link's, where it has neither), and with `NoPathFound`
    /// where no path leads from the base link to the end link by going from
    /// parent to child. A chain from a link to itself has no joints.
    pub fn extract(model: &RobotModel, base_link: String, end_link: String) -> (r: Result<
        KinematicChain,
        KinematicsError,
    >)
        ensures
            model@.wf(),
            extracted(model@, base_link@, end_link@, r),
    {
        let ghost m = model@;
        let all = model.joints();
        let b = match model.link_position(base_link.as_str().as_bytes()) {
            Some(b) => b,
            None => {
                return Err(KinematicsError::LinkNotFound { name: base_link });
            },
        };
        let e = match model.link_position(end_link.as_str().as_bytes()) {
            Some(e) => e,
            None => {
                return Err(KinematicsError::LinkNotFound { name: end_link });
            },
        };
        let ids = match model.path_between(b, e) {
            Some(ids) => ids,
            None => {
                return Err(KinematicsError::NoPathFound { base: base_link, end: end_link });
            },
        };
        let ghost path = ids_view(ids@);
        let ghost along = joints_along(m, path);
        proof {
            lemma_forward_path_links(m, b as int, e as int, path);
            lemma_path_chain_wf(m, b as int, e as int, path);
        }
        let mut joints: Vec<Joint> = Vec::new();
        let mut dof: usize = 0;
        let mut i: usize = 0;
        while i < ids.len()
            invariant
                i <= ids@.len(),
                path == ids_view(ids@),
                along == joints_along(m, path),
                joints_view(all@) == m.joints,
                forall|k: int| 0 <= k < path.len() ==> 0 <= #[trigger] path[k] < m.joints.len(),
                joints@.len() == i,
                joints_view(joints@) == along.take(i as int),
                dof == count_actuated(joints_view(joints@)),
                dof <= i,
            decreases ids@.len() - i,
        {
            let id = ids[i];
            assert(path[i as int] == id);
            assert(m.joints[id as int] == all@[id as int]@);
            let joint = all[id].duplicate();
            let ghost before = joints_view(joints@);
            if joint.kind.is_actuated() {
                dof += 1;
            }
            joints.push(joint);
            i += 1;
            proof {
                let after = joints_view(joints@);
                assert(after =~= along.take(i as int));
                assert(after.drop_last() =~= before);
            }
        }
        proof {
            assert(along.take(ids@.len() as int) =~= along);
        }
        Ok(KinematicChain { ids, joints, dof })
    }

    /// Reads a description and extracts the chain from the link named
    /// `base_link` to the link named `end_link`.
    ///
    /// Fails with `Parse` exactly when the description is refused, and
    /// otherwise as `extract` does on the model that it declares.
    pub fn from_urdf_str(urdf: &str, base_link: String, end_link: String) -> (r: Result<
        KinematicChain,
        KinematicsError,
    >)
        ensures
            match description(urdf.spec_bytes()) {
                Err(e) => r matches Err(KinematicsError::Parse(f)) && f == e,
                Ok(m) => extracted(m, base_link@, end_link@, r),
            },
    {
        match parse_description(urdf.as_bytes()) {
            Err(e) => Err(KinematicsError::Parse(e)),
            Ok(model) => KinematicChain::extract(&model, base_link, end_link),
        }
    }

    /// The number of degrees of freedom: the joints that are not fixed.
    pub fn dof(&self) -> (r: usize)
        ensures
            r == self@.dof(),
    {
        proof {
            use_type_invariant(self);
        }
        self.dof
    }

    /// The joints, from the base link towards the end link.
    pub fn joints(&self) -> (r: &Vec<Joint>)
        ensures
            joints_view(r@) == self@.joints,
            self@.wf(),
    {
        proof {
            use_type_invariant(self);
        }
        &self.joints
    }

    /// For each joint of the chain, its position among the joints of the
    /// model that the chain was extracted from.
    pub fn joint_ids(&self) -> (r: &Vec<usize>)
        ensures
            ids_view(r@) == self@.ids,
    {
        &self.ids
    }
}

} // verus!
