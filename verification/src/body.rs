//! The two kinds of body: static tiles and moving balls.

use crate::field::{Field, TileId};
use crate::filter::{CollisionFilter, Team};
use crate::geometry::{Circle, Vector, LIMIT, REACH};
use vstd::prelude::*;

verus! {

/// A square cell of the grid. Its filter always follows from its team.
#[derive(Clone, Copy, Debug, PartialEq, Eq, Structural)]
pub struct Tile {
    pub ix: u32,
    pub iy: u32,
    pub team: Team,
    pub filter: CollisionFilter,
}

/// A moving circular body. Only its position and velocity ever change.
#[derive(Clone, Copy, Debug, PartialEq, Eq, Structural)]
pub struct Ball {
    pub position: Vector,
    pub velocity: Vector,
    pub radius: i64,
    pub team: Team,
}

impl Tile {
    /// The filter agrees with the team.
    pub open spec fn wf(self) -> bool {
        self.filter == CollisionFilter::tile(self.team)
    }

    /// A tile of the given team at the given grid coordinates.
    pub open spec fn spec_new(ix: u32, iy: u32, team: Team) -> Tile {
        Tile { ix, iy, team, filter: CollisionFilter::tile(team) }
    }

    /// The same tile on the given team, with that team's filter.
    pub open spec fn spec_with_team(self, team: Team) -> Tile {
        Tile { ix: self.ix, iy: self.iy, team, filter: CollisionFilter::tile(team) }
    }

    /// The same tile on the other team.
    pub open spec fn spec_flipped(self) -> Tile {
        self.with_team(self.team.opposite())
    }

    /// The grid coordinates of the tile.
    pub open spec fn spec_id(self) -> TileId {
        TileId { ix: self.ix, iy: self.iy }
    }

    /// A tile of the given team at the given grid coordinates.
    #[verifier::when_used_as_spec(spec_new)]
    pub fn new(ix: u32, iy: u32, team: Team) -> (t: Tile)
        ensures
            t == Tile::spec_new(ix, iy, team),
            t.wf(),
    {
        Tile { ix, iy, team, filter: CollisionFilter::tile(team) }
    }

    /// The same tile on the given team: team and filter change together.
    #[verifier::when_used_as_spec(spec_with_team)]
    pub fn with_team(self, team: Team) -> (t: Tile)
        ensures
            t == self.spec_with_team(team),
            t.wf(),
            t.team == team,
            t.id() == self.id(),
    {
        Tile { ix: self.ix, iy: self.iy, team, filter: CollisionFilter::tile(team) }
    }

    /// The same tile on the other team.
    #[verifier::when_used_as_spec(spec_flipped)]
    pub fn flipped(self) -> (t: Tile)
        ensures
            t == self.spec_flipped(),
            t.wf(),
            t.team == self.team.opposite(),
    {
        self.with_team(self.team.opposite())
    }

    /// The grid coordinates of the tile.
    #[verifier::when_used_as_spec(spec_id)]
    pub fn id(self) -> (id: TileId)
        ensures
            id == self.spec_id(),
    {
        TileId { ix: self.ix, iy: self.iy }
    }

    /// The sprite that shows the tile: 0 for team `A`, 1 for team `B`.
    pub fn sprite_index(self) -> (index: u32)
        ensures
            index == self.team.sprite_index(),
    {
        self.team.sprite_index()
    }
}

/// A well-formed tile that changes sides twice is the tile it was.
pub proof fn lemma_flip_twice(tile: Tile)
    requires
        tile.wf(),
    ensures
        tile.flipped().flipped() == tile,
        tile.flipped().team != tile.team,
{
}

impl Ball {
    /// The collision filter of the ball, which follows from its team.
    pub open spec fn spec_filter(self) -> CollisionFilter {
        CollisionFilter::ball(self.team)
    }

    /// The circle the ball covers.
    pub open spec fn spec_shape(self) -> Circle {
        Circle { center: self.position, radius: self.radius }
    }

    /// The collision filter of the ball.
    #[verifier::when_used_as_spec(spec_filter)]
    pub fn filter(self) -> (f: CollisionFilter)
        ensures
            f == self.spec_filter(),
    {
        CollisionFilter::ball(self.team)
    }

    /// The circle the ball covers.
    #[verifier::when_used_as_spec(spec_shape)]
    pub fn shape(self) -> (c: Circle)
        ensures
            c == self.spec_shape(),
    {
        Circle { center: self.position, radius: self.radius }
    }

    /// The ball lies wholly inside the outer wall, touching it at most, and its
    /// speed along each axis is within the limit. This holds of every ball
    /// between two ticks.
    pub open spec fn spec_rests_in(self, field: Field) -> bool {
        &&& 1 <= self.radius
        &&& field.left() + self.radius <= self.position.x <= field.right() - self.radius
        &&& field.bottom() + self.radius <= self.position.y <= field.top() - self.radius
        &&& self.velocity.within(LIMIT as int)
    }

    /// The bounds that hold of a ball while a step moves it about.
    pub open spec fn in_flight(self) -> bool {
        &&& 1 <= self.radius <= LIMIT
        &&& self.position.within(REACH as int)
        &&& self.velocity.within(LIMIT as int)
    }

    /// Whether the ball lies wholly inside the outer wall of `field` with a
    /// speed within the limit.
    #[verifier::when_used_as_spec(spec_rests_in)]
    pub fn rests_in(self, field: Field) -> (b: bool)
        requires
            field.wf(),
        ensures
            b == self.spec_rests_in(field),
    {
        proof {
            field.lemma_extent();
        }
        self.radius >= 1 && self.radius <= LIMIT && field.left() + self.radius <= self.position.x
            && self.position.x <= field.right() - self.radius && field.bottom() + self.radius
            <= self.position.y && self.position.y <= field.top() - self.radius && -LIMIT
            <= self.velocity.x && self.velocity.x <= LIMIT && -LIMIT <= self.velocity.y
            && self.velocity.y <= LIMIT
    }

    /// A ball at rest in a field has its centre strictly inside the outer
    /// wall, and is within the bounds of a ball in flight.
    pub proof fn lemma_rest(self, field: Field)
        requires
            field.wf(),
            self.rests_in(field),
        ensures
            field.left() < self.position.x < field.right(),
            field.bottom() < self.position.y < field.top(),
            2 * self.radius <= field.width(),
            2 * self.radius <= field.height(),
            self.position.within(LIMIT as int),
            self.in_flight(),
    {
        field.lemma_extent();
    }
}

} // verus!
