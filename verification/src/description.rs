//! Reading a robot description into a model.
//!
//! The description is markup with one root element. Within the root, each
//! `link` element declares a link by its `name`, and each `joint` element
//! declares a joint by its `name` and `type`. Within a joint, the elements
//! `parent` and `child` name a link each by the attribute `link`; `origin`
//! gives the attributes `xyz` and `rpy`, and `axis` the attribute `xyz`.
//! Everything else is passed over, the limits of a joint among it.
//!
//! Defaults: an origin that is left out, or an `xyz` or `rpy` of it that is
//! left out, is `0 0 0`. An axis that is left out is `1 0 0`, which is what
//! the format itself says of a joint without axis.

use vstd::prelude::*;
use vstd::string::StringSliceAdditionalSpecFns;
use crate::error::ParseError;
use crate::joint::{joints_view, Joint, JointKind, JointView};
use crate::markup::{attribute, read_tags, tags_from, tags_within, Tag};
use crate::model::{find_name, names_view, position_of, ModelView, RobotModel};
use crate::nesting::{
    element_from, find_element, is_element, levels_match, nesting_levels, well_nested,
};
use crate::number::{triple_of, Triple, TripleView};
use crate::scan::{bytes_eq, copy_bytes};

verus! {

/// The kind of joint that a `type` attribute names.
pub open spec fn kind_named(word: Seq<u8>) -> Option<JointKind> {
    if word == "fixed".spec_bytes() {
        Some(JointKind::Fixed)
    } else if word == "revolute".spec_bytes() {
        Some(JointKind::Revolute)
    } else if word == "continuous".spec_bytes() {
        Some(JointKind::Continuous)
    } else if word == "prismatic".spec_bytes() {
        Some(JointKind::Prismatic)
    } else {
        None
    }
}

/// The names of the links that the first `n` tags declare, in order.
pub open spec fn links_upto(s: Seq<u8>, tags: Seq<Tag>, n: int) -> Result<
    Seq<Seq<u8>>,
    ParseError,
>
    decreases n,
{
    if n <= 0 {
        Ok(Seq::empty())
    } else {
        match links_upto(s, tags, n - 1) {
            Err(e) => Err(e),
            Ok(links) => {
                if is_element(s, tags, n - 1, 1, "link".spec_bytes()) {
                    match attribute(s, tags[n - 1], "name".spec_bytes()) {
                        Some(name) => Ok(links.push(name)),
                        None => Err(ParseError::MissingAttribute),
                    }
                } else {
                    Ok(links)
                }
            },
        }
    }
}

/// The triple that the attribute `name` of an element holds; `fallback`
/// where there is no such element or it has no such attribute; `None` where
/// the attribute does not hold three numerals.
pub open spec fn triple_in(
    s: Seq<u8>,
    tags: Seq<Tag>,
    element: Option<int>,
    name: Seq<u8>,
    fallback: TripleView,
) -> Option<TripleView> {
    match element {
        None => Some(fallback),
        Some(i) => match attribute(s, tags[i], name) {
            None => Some(fallback),
            Some(value) => triple_of(value),
        },
    }
}

/// The link that the element at `element` names by its attribute `link`.
pub open spec fn link_in(s: Seq<u8>, tags: Seq<Tag>, element: Option<int>) -> Option<Seq<u8>> {
    match element {
        None => None,
        Some(i) => attribute(s, tags[i], "link".spec_bytes()),
    }
}

/// The joint that the element at `i` declares, with `links` the names of
/// the model's links.
pub open spec fn joint_at(s: Seq<u8>, tags: Seq<Tag>, links: Seq<Seq<u8>>, i: int) -> Result<
    JointView,
    ParseError,
> {
    let name = attribute(s, tags[i], "name".spec_bytes());
    let kind = attribute(s, tags[i], "type".spec_bytes());
    let parent = link_in(s, tags, element_from(s, tags, i + 1, 2, "parent".spec_bytes()));
    let child = link_in(s, tags, element_from(s, tags, i + 1, 2, "child".spec_bytes()));
    let origin = element_from(s, tags, i + 1, 2, "origin".spec_bytes());
    let axis = element_from(s, tags, i + 1, 2, "axis".spec_bytes());
    if name is None || kind is None || parent is None || child is None {
        Err(ParseError::MissingAttribute)
    } else if kind_named(kind.unwrap()) is None {
        Err(ParseError::UnsupportedJointType)
    } else if position_of(links, parent.unwrap()) is None || position_of(links, child.unwrap())
        is None {
        Err(ParseError::UndeclaredLink)
    } else {
        let xyz = triple_in(s, tags, origin, "xyz".spec_bytes(), TripleView::zero());
        let rpy = triple_in(s, tags, origin, "rpy".spec_bytes(), TripleView::zero());
        let along = triple_in(s, tags, axis, "xyz".spec_bytes(), TripleView::unit_x());
        if xyz is None || rpy is None || along is None {
            Err(ParseError::InvalidNumber)
        } else {
            Ok(
                JointView {
                    name: name.unwrap(),
                    kind: kind_named(kind.unwrap()).unwrap(),
                    parent: position_of(links, parent.unwrap()).unwrap(),
                    child: position_of(links, child.unwrap()).unwrap(),
                    origin_xyz: xyz.unwrap(),
                    origin_rpy: rpy.unwrap(),
                    axis: along.unwrap(),
                },
            )
        }
    }
}

/// The joints that the first `n` tags declare, in order.
pub open spec fn joints_upto(s: Seq<u8>, tags: Seq<Tag>, links: Seq<Seq<u8>>, n: int) -> Result<
    Seq<JointView>,
    ParseError,
>
    decreases n,
{
    if n <= 0 {
        Ok(Seq::empty())
    } else {
        match joints_upto(s, tags, links, n - 1) {
            Err(e) => Err(e),
            Ok(joints) => {
                if is_element(s, tags, n - 1, 1, "joint".spec_bytes()) {
                    match joint_at(s, tags, links, n - 1) {
                        Ok(joint) => Ok(joints.push(joint)),
                        Err(e) => Err(e),
                    }
                } else {
                    Ok(joints)
                }
            },
        }
    }
}

/// What a description declares: its model, or why it is refused.
///
/// The text is refused as malformed where its tags cannot be read or do
/// not make up one element. Then the links are read, then the joints, each
/// in the order of the text, and the first that cannot be read gives the
/// error. At last the model as a whole is held to its rules.
pub open spec fn description(s: Seq<u8>) -> Result<ModelView, ParseError> {
    match tags_from(s, 0) {
        None => Err(ParseError::Malformed),
        Some(tags) => {
            if !well_nested(s, tags) {
                Err(ParseError::Malformed)
            } else {
                match links_upto(s, tags, tags.len() as int) {
                    Err(e) => Err(e),
                    Ok(links) => match joints_upto(s, tags, links, tags.len() as int) {
                        Err(e) => Err(e),
                        Ok(joints) => {
                            let m = ModelView { links, joints };
                            match m.defect() {
                                Some(e) => Err(e),
                                None => Ok(m),
                            }
                        },
                    },
                }
            }
        },
    }
}

/// A description that is not refused declares a well-formed model.
pub proof fn lemma_description_wf(s: Seq<u8>)
    requires
        description(s) is Ok,
    ensures
        description(s).unwrap().wf(),
{
}

/// Once a link cannot be read, the error stays.
pub proof fn lemma_links_error(s: Seq<u8>, tags: Seq<Tag>, a: int, b: int)
    requires
        a <= b,
        links_upto(s, tags, a) is Err,
    ensures
        links_upto(s, tags, b) == links_upto(s, tags, a),
    decreases b - a,
{
    if a < b {
        lemma_links_error(s, tags, a, b - 1);
    }
}

/// Once a joint cannot be read, the error stays.
pub proof fn lemma_joints_error(s: Seq<u8>, tags: Seq<Tag>, links: Seq<Seq<u8>>, a: int, b: int)
    requires
        a <= b,
        joints_upto(s, tags, links, a) is Err,
    ensures
        joints_upto(s, tags, links, b) == joints_upto(s, tags, links, a),
    decreases b - a,
{
    if a < b {
        lemma_joints_error(s, tags, links, a, b - 1);
    }
}

/// Reads the kind of joint that a `type` attribute names.
pub fn read_kind(word: &[u8]) -> (r: Option<JointKind>)
    ensures
        r == kind_named(word@),
{
    if bytes_eq(word, "fixed".as_bytes()) {
        Some(JointKind::Fixed)
    } else if bytes_eq(word, "revolute".as_bytes()) {
        Some(JointKind::Revolute)
    } else if bytes_eq(word, "continuous".as_bytes()) {
        Some(JointKind::Continuous)
    } else if bytes_eq(word, "prismatic".as_bytes()) {
        Some(JointKind::Prismatic)
    } else {
        None
    }
}

fn read_links(s: &[u8], tags: &Vec<Tag>, levels: &Vec<usize>) -> (r: Result<
    Vec<Vec<u8>>,
    ParseError,
>)
    requires
        tags_within(tags@, s@.len()),
        levels_match(s@, tags@, levels@),
    ensures
        match r {
            Ok(links) => links_upto(s@, tags@, tags@.len() as int) == Ok::<_, ParseError>(
                names_view(links@),
            ),
            Err(e) => links_upto(s@, tags@, tags@.len() as int) == Err::<Seq<Seq<u8>>, _>(e),
        },
{
    let mut links: Vec<Vec<u8>> = Vec::new();
    let mut n: usize = 0;
    assert(names_view(links@) =~= Seq::<Seq<u8>>::empty());
    while n < tags.len()
        invariant
            n <= tags@.len(),
            tags_within(tags@, s@.len()),
            levels_match(s@, tags@, levels@),
            links_upto(s@, tags@, n as int) == Ok::<_, ParseError>(names_view(links@)),
        decreases tags@.len() - n,
    {
        let tag = tags[n];
        if tag.kind != crate::markup::TagKind::Close && levels[n] == 1 && bytes_eq(
            tag.name_in(s),
            "link".as_bytes(),
        ) {
            match tag.attribute_in(s, "name".as_bytes()) {
                Some(name) => {
                    let ghost before = names_view(links@);
                    links.push(copy_bytes(name));
                    assert(names_view(links@) =~= before.push(name@));
                },
                None => {
                    proof {
                        lemma_links_error(s@, tags@, n + 1, tags@.len() as int);
                    }
                    return Err(ParseError::MissingAttribute);
                },
            }
        }
        n += 1;
    }
    Ok(links)
}

fn read_link_in<'a>(s: &'a [u8], tags: &Vec<Tag>, element: Option<usize>) -> (r: Option<&'a [u8]>)
    requires
        tags_within(tags@, s@.len()),
        element matches Some(i) ==> i < tags@.len(),
    ensures
        r matches Some(v) ==> link_in(
            s@,
            tags@,
            match element {
                Some(i) => Some(i as int),
                None => None,
            },
        ) == Some(v@),
        r is None <==> link_in(
            s@,
            tags@,
            match element {
                Some(i) => Some(i as int),
                None => None,
            },
        ) is None,
{
    match element {
        None => None,
        Some(i) => tags[i].attribute_in(s, "link".as_bytes()),
    }
}

fn read_triple_in(
    s: &[u8],
    tags: &Vec<Tag>,
    element: Option<usize>,
    name: &[u8],
    fallback: Triple,
) -> (r: Option<Triple>)
    requires
        tags_within(tags@, s@.len()),
        element matches Some(i) ==> i < tags@.len(),
    ensures
        r matches Some(t) ==> triple_in(
            s@,
            tags@,
            match element {
                Some(i) => Some(i as int),
                None => None,
            },
            name@,
            fallback@,
        ) == Some(t@),
        r is None <==> triple_in(
            s@,
            tags@,
            match element {
                Some(i) => Some(i as int),
                None => None,
            },
            name@,
            fallback@,
        ) is None,
{
    match element {
        None => Some(fallback),
        Some(i) => match tags[i].attribute_in(s, name) {
            None => Some(fallback),
            Some(value) => Triple::parse(value),
        },
    }
}

fn read_joint(s: &[u8], tags: &Vec<Tag>, levels: &Vec<usize>, links: &Vec<Vec<u8>>, i: usize) -> (r:
    Result<Joint, ParseError>)
    requires
        tags_within(tags@, s@.len()),
        levels_match(s@, tags@, levels@),
        i < tags.len(),
    ensures
        match r {
            Ok(joint) => joint_at(s@, tags@, names_view(links@), i as int) == Ok::<_, ParseError>(
                joint@,
            ),
            Err(e) => joint_at(s@, tags@, names_view(links@), i as int) == Err::<JointView, _>(e),
        },
{
    let tag = tags[i];
    let inside: usize = i + 1;
    let parent_at = find_element(s, tags, levels, inside, 2, "parent".as_bytes());
    let child_at = find_element(s, tags, levels, inside, 2, "child".as_bytes());
    let origin_at = find_element(s, tags, levels, inside, 2, "origin".as_bytes());
    let axis_at = find_element(s, tags, levels, inside, 2, "axis".as_bytes());
    let name = tag.attribute_in(s, "name".as_bytes());
    let kind = tag.attribute_in(s, "type".as_bytes());
    let parent = read_link_in(s, tags, parent_at);
    let child = read_link_in(s, tags, child_at);
    let (name, kind, parent, child) = match (name, kind, parent, child) {
        (Some(name), Some(kind), Some(parent), Some(child)) => (name, kind, parent, child),
        _ => {
            return Err(ParseError::MissingAttribute);
        },
    };
    let kind = match read_kind(kind) {
        Some(kind) => kind,
        None => {
            return Err(ParseError::UnsupportedJointType);
        },
    };
    let (parent, child) = match (find_name(links, parent), find_name(links, child)) {
        (Some(parent), Some(child)) => (parent, child),
        _ => {
            return Err(ParseError::UndeclaredLink);
        },
    };
    let xyz = read_triple_in(s, tags, origin_at, "xyz".as_bytes(), Triple::zero());
    let rpy = read_triple_in(s, tags, origin_at, "rpy".as_bytes(), Triple::zero());
    let along = read_triple_in(s, tags, axis_at, "xyz".as_bytes(), Triple::unit_x());
    match (xyz, rpy, along) {
        (Some(origin_xyz), Some(origin_rpy), Some(axis)) => Ok(
            Joint { name: copy_bytes(name), kind, parent, child, origin_xyz, origin_rpy, axis },
        ),
        _ => Err(ParseError::InvalidNumber),
    }
}

fn read_joints(s: &[u8], tags: &Vec<Tag>, levels: &Vec<usize>, links: &Vec<Vec<u8>>) -> (r: Result<
    Vec<Joint>,
    ParseError,
>)
    requires
        tags_within(tags@, s@.len()),
        levels_match(s@, tags@, levels@),
    ensures
        match r {
            Ok(joints) => joints_upto(s@, tags@, names_view(links@), tags@.len() as int) == Ok::<
                _,
                ParseError,
            >(joints_view(joints@)),
            Err(e) => joints_upto(s@, tags@, names_view(links@), tags@.len() as int) == Err::<
                Seq<JointView>,
                _,
            >(e),
        },
{
    let ghost names = names_view(links@);
    let mut joints: Vec<Joint> = Vec::new();
    let mut n: usize = 0;
    assert(joints_view(joints@) =~= Seq::<JointView>::empty());
    while n < tags.len()
        invariant
            n <= tags@.len(),
            tags_within(tags@, s@.len()),
            levels_match(s@, tags@, levels@),
            names == names_view(links@),
            joints_upto(s@, tags@, names, n as int) == Ok::<_, ParseError>(joints_view(joints@)),
        decreases tags@.len() - n,
    {
        let tag = tags[n];
        if tag.kind != crate::markup::TagKind::Close && levels[n] == 1 && bytes_eq(
            tag.name_in(s),
            "joint".as_bytes(),
        ) {
            match read_joint(s, tags, levels, links, n) {
                Ok(joint) => {
                    let ghost before = joints_view(joints@);
                    let ghost added = joint@;
                    joints.push(joint);
                    assert(joints_view(joints@) =~= before.push(added));
                },
                Err(e) => {
                    proof {
                        lemma_joints_error(s@, tags@, names, n + 1, tags@.len() as int);
                    }
                    return Err(e);
                },
            }
        }
        n += 1;
    }
    Ok(joints)
}

/// Reads a description into a model.
pub fn parse_description(text: &[u8]) -> (r: Result<RobotModel, ParseError>)
    ensures
        match r {
            Ok(m) => description(text@) == Ok::<_, ParseError>(m@) && m@.wf(),
            Err(e) => description(text@) == Err::<ModelView, _>(e),
        },
{
    let tags = match read_tags(text) {
        Some(tags) => tags,
        None => {
            return Err(ParseError::Malformed);
        },
    };
    let levels = match nesting_levels(text, &tags) {
        Some(levels) => levels,
        None => {
            return Err(ParseError::Malformed);
        },
    };
    let links = match read_links(text, &tags, &levels) {
        Ok(links) => links,
        Err(e) => {
            return Err(e);
        },
    };
    let joints = match read_joints(text, &tags, &levels, &links) {
        Ok(joints) => joints,
        Err(e) => {
            return Err(e);
        },
    };
    RobotModel::new(links, joints)
}

} // verus!
