//! Typed handles into the mesh arenas.
//!
//! Every handle wraps a `u32` slot number. The value `u32::MAX` is the
//! null handle, which never names a slot.

use vstd::prelude::*;

verus! {

/// Handle of a vertex.
#[derive(Clone, Copy, Debug, PartialEq, Eq, Hash, Structural)]
pub struct VertId {
    pub id: u32,
}

/// Handle of a half-edge.
#[derive(Clone, Copy, Debug, PartialEq, Eq, Hash, Structural)]
pub struct HeId {
    pub id: u32,
}

/// Handle of an edge.
#[derive(Clone, Copy, Debug, PartialEq, Eq, Hash, Structural)]
pub struct EdgeId {
    pub id: u32,
}

/// Handle of a face.
#[derive(Clone, Copy, Debug, PartialEq, Eq, Hash, Structural)]
pub struct FaceId {
    pub id: u32,
}

/// Handle of a material.
#[derive(Clone, Copy, Debug, PartialEq, Eq, Hash, Structural)]
pub struct MaterialId {
    pub id: u32,
}

/// The raw value reserved for the null handle.
pub const NULL_RAW: u32 = 0xffff_ffff;

impl VertId {
    pub fn new(raw: u32) -> (r: Self)
        ensures
            r.id == raw,
    {
        VertId { id: raw }
    }

    pub fn raw(&self) -> (r: u32)
        ensures
            r == self.id,
    {
        self.id
    }

    pub open spec fn ix(self) -> int {
        self.id as int
    }
}

impl HeId {
    pub fn new(raw: u32) -> (r: Self)
        ensures
            r.id == raw,
    {
        HeId { id: raw }
    }

    pub fn null() -> (r: Self)
        ensures
            r.id == NULL_RAW,
    {
        HeId { id: NULL_RAW }
    }

    pub fn is_null(&self) -> (b: bool)
        ensures
            b == (self.id == NULL_RAW),
    {
        self.id == NULL_RAW
    }

    pub fn raw(&self) -> (r: u32)
        ensures
            r == self.id,
    {
        self.id
    }

    pub open spec fn ix(self) -> int {
        self.id as int
    }
}

impl EdgeId {
    pub fn new(raw: u32) -> (r: Self)
        ensures
            r.id == raw,
    {
        EdgeId { id: raw }
    }

    pub fn null() -> (r: Self)
        ensures
            r.id == NULL_RAW,
    {
        EdgeId { id: NULL_RAW }
    }

    pub fn is_null(&self) -> (b: bool)
        ensures
            b == (self.id == NULL_RAW),
    {
        self.id == NULL_RAW
    }

    pub fn raw(&self) -> (r: u32)
        ensures
            r == self.id,
    {
        self.id
    }

    pub open spec fn ix(self) -> int {
        self.id as int
    }
}

impl FaceId {
    pub fn new(raw: u32) -> (r: Self)
        ensures
            r.id == raw,
    {
        FaceId { id: raw }
    }

    pub fn null() -> (r: Self)
        ensures
            r.id == NULL_RAW,
    {
        FaceId { id: NULL_RAW }
    }

    pub fn is_null(&self) -> (b: bool)
        ensures
            b == (self.id == NULL_RAW),
    {
        self.id == NULL_RAW
    }

    pub fn raw(&self) -> (r: u32)
        ensures
            r == self.id,
    {
        self.id
    }

    pub open spec fn ix(self) -> int {
        self.id as int
    }
}

impl MaterialId {
    pub fn new(raw: u32) -> (r: Self)
        ensures
            r.id == raw,
    {
        MaterialId { id: raw }
    }

    pub fn raw(&self) -> (r: u32)
        ensures
            r == self.id,
    {
        self.id
    }
}

} // verus!
