//! What can go wrong when a description is read or a chain is used.

use vstd::prelude::*;

verus! {

/// Why a description was refused.
#[derive(Clone, Copy, Debug, PartialEq, Eq, Structural)]
pub enum ParseError {
    /// The text is not well-formed markup with a single root element.
    Malformed,
    /// A link or joint element lacks its name, a joint its type, or a joint
    /// its parent or child element with a link.
    MissingAttribute,
    /// A joint's type is none of fixed, revolute, continuous, prismatic.
    UnsupportedJointType,
    /// An origin or axis is not made of three decimal numerals.
    InvalidNumber,
    /// A joint names a link that the description does not declare.
    UndeclaredLink,
    /// Two links have the same name.
    DuplicateLink,
    /// Two joints have the same name.
    DuplicateJoint,
    /// A link is the child of two joints, or is its own ancestor.
    NotATree,
}

/// An error of the library.
#[derive(Debug)]
pub enum KinematicsError {
    /// The description was refused.
    Parse(ParseError),
    /// No link of the description has this name.
    LinkNotFound { name: String },
    /// The end link is not reached from the base link by going from parent to child.
    NoPathFound { base: String, end: String },
    /// The number of joint values is not the chain's number of degrees of freedom.
    DimensionMismatch { expected: usize, got: usize },
}

} // verus!
