//! Kinematic chains read from a robot description.
//!
//! A description is structured text that declares links and the joints
//! between them. The library reads it into a [`model::RobotModel`], extracts
//! the chain of joints that leads from a base link to an end link, and lays
//! out, for a vector of joint values, the elementary transforms whose product
//! is the pose of the end link and the frames from which the columns of the
//! geometric Jacobian are taken.
//!
//! Numbers are kept as the decimal numerals that the description holds; the
//! arithmetic on them is left to the caller.

pub mod scan;
pub mod number;
pub mod markup;
pub mod error;
pub mod joint;
pub mod model;
pub mod chain;
pub mod plan;
pub mod nesting;
pub mod description;

pub use chain::KinematicChain;
pub use error::{KinematicsError, ParseError};
