//! Value types describing a single block, and the capability contract a
//! payload type must satisfy to be stored in a block model.
//!
//! World-space positions and cell dimensions are held in integer units
//! (a fixed unit grid chosen by the caller), so that grid alignment of a
//! coordinate against an origin and a cell size is an exact question.

use vstd::prelude::*;

verus! {

/// World-space position of a block, in integer units.
#[derive(Debug, PartialEq, Eq, Structural, Copy, Clone)]
pub struct BlockCoordinates {
    pub x: i64,
    pub y: i64,
    pub z: i64,
}

/// Grid address of a block inside a block model.
#[derive(Debug, PartialEq, Eq, Structural, Copy, Clone, Hash, Default, PartialOrd, Ord)]
pub struct BlockIndex {
    pub i: usize,
    pub j: usize,
    pub k: usize,
}

/// Cell dimensions of a block, in the same integer units as its
/// coordinates.
#[derive(Debug, PartialEq, Eq, Structural, Copy, Clone)]
pub struct BlockSize {
    pub x_size: i64,
    pub y_size: i64,
    pub z_size: i64,
}

/// Capability contract for payload types stored in a block model.
///
/// `coordinates` and `size` are pure queries of the block's immutable
/// physical attributes; `index`/`set_index` form a mutable slot the
/// container uses to record grid placement.
pub trait BlockInterface: Sized + Clone + PartialEq {
    /// The block's position, as the contracts see it.
    spec fn spec_coordinates(&self) -> BlockCoordinates;

    /// The block's cell dimensions, as the contracts see it.
    spec fn spec_size(&self) -> BlockSize;

    /// The block's recorded grid address, as the contracts see it.
    spec fn spec_index(&self) -> BlockIndex;

    fn coordinates(&self) -> (c: BlockCoordinates)
        ensures
            c == self.spec_coordinates(),
    ;

    fn size(&self) -> (s: BlockSize)
        ensures
            s == self.spec_size(),
    ;

    fn index(&self) -> (ind: BlockIndex)
        ensures
            ind == self.spec_index(),
    ;

    /// Records a grid address; the physical attributes are untouched.
    fn set_index(&mut self, ind: BlockIndex)
        ensures
            final (self).spec_index() == ind,
            final (self).spec_coordinates() == old(self).spec_coordinates(),
            final (self).spec_size() == old(self).spec_size(),
    ;
}

/// A minimal payload: nothing but the attributes the container reads.
#[derive(Debug, PartialEq, Eq, Structural, Copy, Clone)]
pub struct SimpleBlock {
    pub coords: BlockCoordinates,
    pub size: BlockSize,
    pub ind: BlockIndex,
}

impl BlockInterface for SimpleBlock {
    open spec fn spec_coordinates(&self) -> BlockCoordinates {
        self.coords
    }

    open spec fn spec_size(&self) -> BlockSize {
        self.size
    }

    open spec fn spec_index(&self) -> BlockIndex {
        self.ind
    }

    fn coordinates(&self) -> (c: BlockCoordinates) {
        self.coords
    }

    fn size(&self) -> (s: BlockSize) {
        self.size
    }

    fn index(&self) -> (ind: BlockIndex) {
        self.ind
    }

    fn set_index(&mut self, ind: BlockIndex) {
        self.ind = ind;
    }
}

} // verus!
