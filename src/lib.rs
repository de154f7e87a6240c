//! An arithmetic computation graph over `u32` values: inputs, constants,
//! wrapping additions and multiplications, and hinted values computed by
//! caller-supplied functions, with equality constraints checked after the
//! graph has been filled.
use vstd::prelude::*;

pub mod node;
pub mod builder;
pub mod laws;

pub use builder::{Builder, ConstraintError, GraphError, GraphView, NodeView};
pub use node::{Compute, Node, NodeKind};
