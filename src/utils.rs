//! Seeding a world from a pattern.

use vstd::prelude::*;

use crate::rle::LifePlaceMaker;
use crate::world::{Coord, World};

verus! {

/// Places the cells of a pattern into a world, shifted by `position`.
pub struct WorldLifePlaceMaker<'a> {
    position: Coord,
    world: &'a mut World,
}

impl<'a> WorldLifePlaceMaker<'a> {
    /// Where the pattern's origin lands.
    pub closed spec fn origin(&self) -> Coord {
        self.position
    }

    /// The world being seeded.
    pub closed spec fn target(&self) -> World {
        *self.world
    }

    pub fn new(position: Coord, world: &'a mut World) -> (r: WorldLifePlaceMaker<'a>)
        ensures
            r.origin() == position,
            r.target() == *old(world),
    {
        WorldLifePlaceMaker { position, world }
    }
}

impl<'a> LifePlaceMaker for WorldLifePlaceMaker<'a> {
    /// The world's live cells, those not yet normalized included.
    open spec fn placed(&self) -> Seq<Coord> {
        self.target().current().alive@
    }

    open spec fn cell_for(&self, coord: Coord) -> Coord {
        Coord((self.origin().0 + coord.0) as i64, (self.origin().1 + coord.1) as i64)
    }

    open spec fn can_place(&self, coord: Coord) -> bool {
        &&& i64::MIN <= self.origin().0 + coord.0 <= i64::MAX
        &&& i64::MIN <= self.origin().1 + coord.1 <= i64::MAX
    }

    fn make_cell_alive(&mut self, coord: Coord) {
        self.world.make_alive(Coord(self.position.0 + coord.0, self.position.1 + coord.1));
    }
}

} // verus!
