use vstd::prelude::*;

verus! {

/// Which ways a selector applies to.
#[derive(Clone, Copy, Debug, PartialEq, Eq, Structural)]
pub enum WayType {
    Area,
    Line,
    All,
}

/// What kind of object a selector applies to.
#[derive(Clone, Copy, Debug, PartialEq, Eq, Structural)]
pub enum ObjectType {
    Node,
    Way(WayType),
    Relation,
    Canvas,
    Meta,
    All,
}

/// An object type with the zoom levels at which it applies.
#[derive(Clone, Copy, Debug, PartialEq, Eq, Structural)]
pub struct Selector {
    pub object_type: ObjectType,
    pub min_zoom: Option<u8>,
    pub max_zoom: Option<u8>,
}

} // verus!
