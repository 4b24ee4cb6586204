//! The world: the tile grid, the balls and the wall around them.

use crate::body::{Ball, Tile};
use crate::config::{Config, ConfigError};
use crate::field::{Field, TileId};
use crate::filter::Team;
use crate::geometry::{Vector, LIMIT};
use vstd::prelude::*;

verus! {

/// What a [`World`] holds, as mathematical values: the grid, the timestep,
/// the tiles in the order of their numbers and the balls in the order of
/// their slots.
pub struct WorldState {
    pub field: Field,
    pub timestep: i64,
    pub tiles: Seq<Tile>,
    pub balls: Seq<Ball>,
}

/// The owner of every body. Tiles are found by grid coordinates, balls by slot.
pub struct World {
    pub(crate) field: Field,
    pub(crate) timestep: i64,
    pub(crate) tiles: Vec<Tile>,
    pub(crate) balls: Vec<Ball>,
}

/// A lookup named a tile outside the grid or a ball slot that is not there.
#[derive(Clone, Copy, Debug, PartialEq, Eq, Structural)]
pub enum BoundsError {
    Tile(TileId),
    Ball(usize),
}

/// A ball was given a state that cannot be simulated: a place that is not
/// wholly inside the outer wall, or a speed beyond the limit.
#[derive(Clone, Copy, Debug, PartialEq, Eq, Structural)]
pub struct NumericalError {
    /// The slot of the offending ball.
    pub ball: usize,
}

/// Why a ball could not be placed.
#[derive(Clone, Copy, Debug, PartialEq, Eq, Structural)]
pub enum PlacementError {
    Bounds(BoundsError),
    Numerical(NumericalError),
}

impl WorldState {
    /// The invariant of the world: a sound grid and timestep, one tile for
    /// every cell of the grid at the place of its number, every tile's filter
    /// agreeing with its team, and every ball inside the outer wall. There
    /// are no more balls than slots can be counted.
    pub open spec fn wf(self) -> bool {
        &&& self.field.wf()
        &&& 1 <= self.timestep <= LIMIT
        &&& self.tiles.len() == self.field.tile_count()
        &&& self.balls.len() <= usize::MAX
        &&& forall|i: int|
            0 <= i < self.tiles.len() ==> (#[trigger] self.tiles[i]).wf() && self.tiles[i].id()
                == self.field.id_at(i as usize)
        &&& forall|b: int| 0 <= b < self.balls.len() ==> (#[trigger] self.balls[b]).rests_in(self.field)
    }

    /// The tile with the given grid coordinates.
    pub open spec fn tile(self, id: TileId) -> Tile {
        self.tiles[self.field.index(id) as int]
    }

    /// The state with one tile put on the given team.
    pub open spec fn with_tile_team(self, id: TileId, team: Team) -> WorldState {
        WorldState {
            tiles: self.tiles.update(self.field.index(id) as int, self.tile(id).with_team(team)),
            ..self
        }
    }

    /// The state with one ball moved to a new place and velocity.
    pub open spec fn with_ball(self, slot: int, position: Vector, velocity: Vector) -> WorldState {
        WorldState {
            balls: self.balls.update(
                slot,
                Ball { position, velocity, radius: self.balls[slot].radius, team: self.balls[slot].team },
            ),
            ..self
        }
    }

    /// The tile with the given coordinates is the one at the place of its number.
    pub proof fn lemma_tile(self, id: TileId)
        requires
            self.wf(),
            self.field.holds(id),
        ensures
            0 <= self.field.index(id) < self.tiles.len(),
            self.tile(id).id() == id,
            self.tile(id).wf(),
    {
        self.field.lemma_tile(id);
    }
}

/// On which team a tile of column `ix` starts: `A` left of the middle, `B`
/// from the middle on. With an odd width the middle column is `B`'s.
pub open spec fn initial_team(config: Config, ix: u32) -> Team {
    if ix < config.grid_width / 2 {
        Team::A
    } else {
        Team::B
    }
}

/// The tile with the given number as the world starts.
pub open spec fn initial_tile(config: Config, index: int) -> Tile {
    let id = config.field().id_at(index as usize);
    Tile::new(id.ix, id.iy, initial_team(config, id.ix))
}

/// The world as it starts: every tile on its side of the middle, ball `A` in
/// slot 0 and ball `B` in slot 1.
pub open spec fn initial_state(config: Config) -> WorldState {
    WorldState {
        field: config.field(),
        timestep: config.timestep,
        tiles: Seq::new(config.field().tile_count() as nat, |i: int| initial_tile(config, i)),
        balls: seq![config.start_ball(Team::A), config.start_ball(Team::B)],
    }
}

/// The starting world of sound parameters satisfies the invariant.
pub proof fn lemma_initial_state(config: Config)
    requires
        config.fault() is None,
    ensures
        initial_state(config).wf(),
        initial_state(config).tiles.len() == config.grid_width * config.grid_height,
        initial_state(config).balls.len() == 2,
{
    config.lemma_sound();
    config.field().lemma_extent();
    let s = initial_state(config);
    assert forall|i: int| 0 <= i < s.tiles.len() implies (#[trigger] s.tiles[i]).wf()
        && s.tiles[i].id() == s.field.id_at(i as usize) by {}
    assert forall|b: int| 0 <= b < s.balls.len() implies (#[trigger] s.balls[b]).rests_in(
        s.field,
    ) by {
        assert(b == 0 || b == 1);
    }
}

impl View for World {
    type V = WorldState;

    /// The grid, the timestep, the tiles and the balls the world holds.
    open(crate) spec fn view(&self) -> WorldState {
        WorldState {
            field: self.field,
            timestep: self.timestep,
            tiles: self.tiles@,
            balls: self.balls@,
        }
    }
}

impl World {
    /// The invariant that every world keeps, see [`WorldState::wf`].
    pub open spec fn wf(&self) -> bool {
        self@.wf()
    }

    /// Builds the starting world for the given parameters, or reports their first fault.
    pub fn new(config: &Config) -> (r: Result<World, ConfigError>)
        ensures
            match r {
                Ok(world) => config.fault() is None && world@ == initial_state(*config)
                    && world.wf(),
                Err(e) => config.fault() == Some(e),
            },
    {
        match config.validate() {
            Err(e) => {
                return Err(e);
            },
            Ok(_) => {},
        }
        proof {
            config.lemma_sound();
            lemma_initial_state(*config);
        }
        let field = config.field();
        let count: usize = field.tile_count();
        let half: u32 = config.grid_width / 2;
        let mut tiles: Vec<Tile> = Vec::new();
        let mut i: usize = 0;
        while i < count
            invariant
                field == config.field(),
                field.wf(),
                count == field.tile_count(),
                half == config.grid_width / 2,
                i <= count,
                tiles.len() == i,
                forall|k: int| 0 <= k < i ==> tiles[k] == initial_tile(*config, k),
            decreases count - i,
        {
            let id = field.id_at(i);
            let team = if id.ix < half {
                Team::A
            } else {
                Team::B
            };
            tiles.push(Tile::new(id.ix, id.iy, team));
            i = i + 1;
        }
        let mut balls: Vec<Ball> = Vec::new();
        balls.push(config.make_start_ball(Team::A));
        balls.push(config.make_start_ball(Team::B));
        let world = World { field, timestep: config.timestep, tiles, balls };
        proof {
            assert(world@.tiles =~= initial_state(*config).tiles);
            assert(world@.balls =~= initial_state(*config).balls);
        }
        Ok(world)
    }

    /// The grid of the world.
    pub fn field(&self) -> (f: Field)
        ensures
            f == self@.field,
    {
        self.field
    }

    /// The time one tick advances, in microseconds.
    pub fn timestep(&self) -> (t: i64)
        ensures
            t == self@.timestep,
    {
        self.timestep
    }

    /// All tiles, in ascending order of `(ix, iy)`.
    pub fn tiles(&self) -> (tiles: &Vec<Tile>)
        ensures
            tiles@ == self@.tiles,
    {
        &self.tiles
    }

    /// All balls, in the order of their slots, which never changes.
    pub fn balls(&self) -> (balls: &Vec<Ball>)
        ensures
            balls@ == self@.balls,
    {
        &self.balls
    }

    /// Looks up the tile at the given grid coordinates.
    pub fn tile_at(&self, ix: u32, iy: u32) -> (r: Result<Tile, BoundsError>)
        requires
            self.wf(),
        ensures
            r == (if self@.field.holds(TileId { ix, iy }) {
                Ok(self@.tile(TileId { ix, iy }))
            } else {
                Err(BoundsError::Tile(TileId { ix, iy }))
            }),
            r matches Ok(tile) ==> tile.wf() && tile.ix == ix && tile.iy == iy,
    {
        let id = TileId { ix, iy };
        if !self.field.holds(id) {
            return Err(BoundsError::Tile(id));
        }
        proof {
            self@.lemma_tile(id);
        }
        Ok(self.tiles[self.field.index(id)])
    }

    /// Looks up the ball in the given slot.
    pub fn ball(&self, slot: usize) -> (r: Result<Ball, BoundsError>)
        ensures
            r == (if slot < self@.balls.len() {
                Ok(self@.balls[slot as int])
            } else {
                Err(BoundsError::Ball(slot))
            }),
    {
        if slot < self.balls.len() {
            Ok(self.balls[slot])
        } else {
            Err(BoundsError::Ball(slot))
        }
    }

    /// Puts the tile at the given grid coordinates on `team`; its filter
    /// changes with it. Nothing else changes, and nothing at all where the
    /// grid has no such tile.
    pub fn set_tile_team(&mut self, ix: u32, iy: u32, team: Team) -> (r: Result<(), BoundsError>)
        requires
            old(self).wf(),
        ensures
            final(self).wf(),
            r == (if old(self)@.field.holds(TileId { ix, iy }) {
                Ok(())
            } else {
                Err(BoundsError::Tile(TileId { ix, iy }))
            }),
            final(self)@ == (if r is Ok {
                old(self)@.with_tile_team(TileId { ix, iy }, team)
            } else {
                old(self)@
            }),
            r is Ok ==> final(self)@.tile(TileId { ix, iy }).team == team && final(self)@.tile(
                TileId { ix, iy },
            ).wf(),
    {
        let id = TileId { ix, iy };
        if !self.field.holds(id) {
            return Err(BoundsError::Tile(id));
        }
        proof {
            self@.lemma_tile(id);
        }
        let index: usize = self.field.index(id);
        let tile = self.tiles[index].with_team(team);
        self.tiles.set(index, tile);
        proof {
            assert(self@.balls == old(self)@.balls);
            assert forall|b: int| 0 <= b < self@.balls.len() implies (#[trigger] self@.balls[b]).rests_in(
                self@.field,
            ) by {
                assert(self@.balls[b] == old(self)@.balls[b]);
            }
        }
        Ok(())
    }

    /// Moves the ball in `slot` to `position` and gives it `velocity`. The
    /// ball must come to lie wholly inside the outer wall, and its speed along
    /// each axis must be within the limit; otherwise nothing changes.
    pub fn place_ball(&mut self, slot: usize, position: Vector, velocity: Vector) -> (r: Result<
        (),
        PlacementError,
    >)
        requires
            old(self).wf(),
        ensures
            final(self).wf(),
            r == (if slot >= old(self)@.balls.len() {
                Err(PlacementError::Bounds(BoundsError::Ball(slot)))
            } else if !old(self)@.with_ball(slot as int, position, velocity).balls[slot as int].rests_in(
                old(self)@.field,
            ) {
                Err(PlacementError::Numerical(NumericalError { ball: slot }))
            } else {
                Ok(())
            }),
            final(self)@ == (if r is Ok {
                old(self)@.with_ball(slot as int, position, velocity)
            } else {
                old(self)@
            }),
    {
        if slot >= self.balls.len() {
            return Err(PlacementError::Bounds(BoundsError::Ball(slot)));
        }
        let current = self.balls[slot];
        let ball = Ball { position, velocity, radius: current.radius, team: current.team };
        if !ball.rests_in(self.field) {
            return Err(PlacementError::Numerical(NumericalError { ball: slot }));
        }
        self.balls.set(slot, ball);
        proof {
            assert forall|b: int| 0 <= b < self@.balls.len() implies (#[trigger] self@.balls[b]).rests_in(
                self@.field,
            ) by {
                if b != slot {
                    assert(self@.balls[b] == old(self)@.balls[b]);
                }
            }
        }
        Ok(())
    }
}

} // verus!
