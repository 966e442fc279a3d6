//! Scene-description types that carry no coordinates.
use vstd::prelude::*;

verus! {

/// Wire-format version of the scene description. Bumped whenever the
/// schema changes shape.
pub const SCHEMA_VERSION: u32 = 2;

/// Stable per-scene object id.
pub type ObjectId = u32;

/// Output frame dimensions in pixels.
#[derive(Clone, Copy, Debug, PartialEq, Eq, Structural)]
pub struct Resolution {
    pub width: u32,
    pub height: u32,
}

/// Corner strategy between consecutive stroke segments.
#[derive(Clone, Copy, Debug, PartialEq, Eq, Structural)]
pub enum JointKind {
    Miter,
    Bevel,
    Auto,
}

impl Default for JointKind {
    /// A stroke that names no joint uses `Auto`.
    fn default() -> (k: JointKind)
        ensures
            k == JointKind::Auto,
    {
        JointKind::Auto
    }
}

/// Weight requested for a text object.
#[derive(Clone, Copy, Debug, PartialEq, Eq, Structural)]
pub enum TextWeight {
    Regular,
    Bold,
}

/// Horizontal alignment requested for a text object.
#[derive(Clone, Copy, Debug, PartialEq, Eq, Structural)]
pub enum TextAlign {
    Left,
    Center,
    Right,
}

} // verus!
