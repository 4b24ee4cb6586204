//! The parameters of a field and the faults a set of parameters can have.

use crate::body::Ball;
use crate::field::{Field, MAX_TILES};
use crate::filter::Team;
use crate::geometry::{Vector, LIMIT};
use vstd::prelude::*;

verus! {

/// The parameters of a simulation. Lengths and speeds count millionths of a
/// world unit (per second), the timestep counts microseconds.
#[derive(Clone, Copy, Debug, PartialEq, Eq, Structural)]
pub struct Config {
    /// Number of tile columns.
    pub grid_width: u32,
    /// Number of tile rows.
    pub grid_height: u32,
    /// Side of a tile.
    pub tile_size: i64,
    /// Radius of both balls.
    pub ball_radius: i64,
    /// Speed along each axis with which the balls set out: the second ball
    /// with this velocity, the first with its negation.
    pub initial_speed: Vector,
    /// Time that one tick advances.
    pub timestep: i64,
}

/// Names a parameter of a [`Config`].
#[derive(Clone, Copy, Debug, PartialEq, Eq, Structural)]
pub enum Parameter {
    GridWidth,
    GridHeight,
    TileSize,
    BallRadius,
    InitialSpeed,
    Timestep,
}

/// Why a [`Config`] cannot be used.
#[derive(Clone, Copy, Debug, PartialEq, Eq, Structural)]
pub enum ConfigError {
    /// The parameter is zero or negative. For the initial speed: a component
    /// is negative, or both are zero.
    NonPositive(Parameter),
    /// The parameter exceeds the machine limit: a length, speed or timestep
    /// above [`LIMIT`], or a grid wider or higher than [`LIMIT`] steps.
    TooLarge(Parameter),
    /// The grid has more than [`MAX_TILES`] tiles.
    TooManyTiles,
    /// A ball would not lie inside the outer wall at its starting place.
    BallOutsideField,
}

impl Config {
    /// The standard parameters.
    pub open spec fn spec_standard() -> Config {
        Config {
            grid_width: 32,
            grid_height: 18,
            tile_size: 16_000_000,
            ball_radius: 7_500_000,
            initial_speed: Vector { x: 200_000_000, y: 200_000_000 },
            timestep: 16_667,
        }
    }

    /// The standard field: 32 by 18 tiles of side 16, balls of radius 7.5
    /// moving at 200 along each axis, sixty ticks to the second.
    #[verifier::when_used_as_spec(spec_standard)]
    pub fn standard() -> (c: Config)
        ensures
            c == Config::spec_standard(),
            c.fault() is None,
    {
        let c = Config {
            grid_width: 32,
            grid_height: 18,
            tile_size: 16_000_000,
            ball_radius: 7_500_000,
            initial_speed: Vector { x: 200_000_000, y: 200_000_000 },
            timestep: 16_667,
        };
        proof {
            lemma_standard_is_sound();
        }
        c
    }

    /// The grid these parameters describe.
    pub open spec fn spec_field(self) -> Field {
        Field {
            grid_width: self.grid_width,
            grid_height: self.grid_height,
            tile_size: self.tile_size,
        }
    }

    /// The grid these parameters describe.
    #[verifier::when_used_as_spec(spec_field)]
    pub fn field(self) -> (f: Field)
        ensures
            f == self.spec_field(),
    {
        Field {
            grid_width: self.grid_width,
            grid_height: self.grid_height,
            tile_size: self.tile_size,
        }
    }

    /// Where a ball of the given team starts: a quarter of the grid width (in
    /// whole tiles) left of the centre for `A`, right of it for `B`.
    pub open spec fn start_position(self, team: Team) -> Vector {
        match team {
            Team::A => Vector { x: (-(self.tile_size * (self.grid_width / 4))) as i64, y: 0 },
            Team::B => Vector { x: (self.tile_size * (self.grid_width / 4)) as i64, y: 0 },
        }
    }

    /// With which velocity a ball of the given team starts.
    pub open spec fn start_velocity(self, team: Team) -> Vector {
        match team {
            Team::A => Vector {
                x: (-self.initial_speed.x) as i64,
                y: (-self.initial_speed.y) as i64,
            },
            Team::B => self.initial_speed,
        }
    }

    /// The ball of the given team as it starts.
    pub open spec fn start_ball(self, team: Team) -> Ball {
        Ball {
            position: self.start_position(team),
            velocity: self.start_velocity(team),
            radius: self.ball_radius,
            team,
        }
    }

    /// The first fault of the parameters in a fixed order of tests, or `None`
    /// where they describe a field that can be simulated.
    pub open spec fn fault(self) -> Option<ConfigError> {
        if self.grid_width == 0 {
            Some(ConfigError::NonPositive(Parameter::GridWidth))
        } else if self.grid_height == 0 {
            Some(ConfigError::NonPositive(Parameter::GridHeight))
        } else if self.tile_size <= 0 {
            Some(ConfigError::NonPositive(Parameter::TileSize))
        } else if self.ball_radius <= 0 {
            Some(ConfigError::NonPositive(Parameter::BallRadius))
        } else if self.initial_speed.x < 0 || self.initial_speed.y < 0 || (self.initial_speed.x
            == 0 && self.initial_speed.y == 0) {
            Some(ConfigError::NonPositive(Parameter::InitialSpeed))
        } else if self.timestep <= 0 {
            Some(ConfigError::NonPositive(Parameter::Timestep))
        } else if self.tile_size > LIMIT {
            Some(ConfigError::TooLarge(Parameter::TileSize))
        } else if self.grid_width * self.tile_size > LIMIT {
            Some(ConfigError::TooLarge(Parameter::GridWidth))
        } else if self.grid_height * self.tile_size > LIMIT {
            Some(ConfigError::TooLarge(Parameter::GridHeight))
        } else if self.grid_width * self.grid_height > MAX_TILES {
            Some(ConfigError::TooManyTiles)
        } else if self.initial_speed.x > LIMIT || self.initial_speed.y > LIMIT {
            Some(ConfigError::TooLarge(Parameter::InitialSpeed))
        } else if self.timestep > LIMIT {
            Some(ConfigError::TooLarge(Parameter::Timestep))
        } else if !self.start_ball(Team::A).rests_in(self.field()) || !self.start_ball(
            Team::B,
        ).rests_in(self.field()) {
            Some(ConfigError::BallOutsideField)
        } else {
            None
        }
    }

    /// What follows for parameters without a fault.
    pub proof fn lemma_sound(self)
        requires
            self.fault() is None,
        ensures
            self.field().wf(),
            1 <= self.timestep <= LIMIT,
            self.start_ball(Team::A).rests_in(self.field()),
            self.start_ball(Team::B).rests_in(self.field()),
            self.start_position(Team::B).x == self.tile_size * (self.grid_width / 4),
            self.start_position(Team::A).x == -self.start_position(Team::B).x,
            0 <= self.start_position(Team::B).x <= LIMIT,
    {
        let w = self.grid_width as int;
        let s = self.tile_size as int;
        let q = w / 4;
        assert(0 <= s * q <= w * s) by (nonlinear_arith)
            requires
                0 <= q <= w,
                s >= 1,
        ;
    }

    /// The start of a ball, computed.
    pub fn make_start_ball(self, team: Team) -> (ball: Ball)
        requires
            self.fault() is None,
        ensures
            ball == self.start_ball(team),
            ball.rests_in(self.field()),
    {
        proof {
            self.lemma_sound();
        }
        let x: i64 = self.tile_size * ((self.grid_width / 4) as i64);
        match team {
            Team::A => Ball {
                position: Vector { x: -x, y: 0 },
                velocity: Vector { x: -self.initial_speed.x, y: -self.initial_speed.y },
                radius: self.ball_radius,
                team,
            },
            Team::B => Ball {
                position: Vector { x, y: 0 },
                velocity: self.initial_speed,
                radius: self.ball_radius,
                team,
            },
        }
    }

    /// Tests the parameters in the order of [`Config::fault`] and reports the first fault.
    pub fn validate(&self) -> (r: Result<(), ConfigError>)
        ensures
            r is Ok <==> self.fault() is None,
            r matches Err(e) ==> self.fault() == Some(e),
    {
        if self.grid_width == 0 {
            return Err(ConfigError::NonPositive(Parameter::GridWidth));
        }
        if self.grid_height == 0 {
            return Err(ConfigError::NonPositive(Parameter::GridHeight));
        }
        if self.tile_size <= 0 {
            return Err(ConfigError::NonPositive(Parameter::TileSize));
        }
        if self.ball_radius <= 0 {
            return Err(ConfigError::NonPositive(Parameter::BallRadius));
        }
        if self.initial_speed.x < 0 || self.initial_speed.y < 0 || (self.initial_speed.x == 0
            && self.initial_speed.y == 0) {
            return Err(ConfigError::NonPositive(Parameter::InitialSpeed));
        }
        if self.timestep <= 0 {
            return Err(ConfigError::NonPositive(Parameter::Timestep));
        }
        if self.tile_size > LIMIT {
            return Err(ConfigError::TooLarge(Parameter::TileSize));
        }
        let w: u64 = self.grid_width as u64;
        let h: u64 = self.grid_height as u64;
        let s: u64 = self.tile_size as u64;
        assert(w * s <= 0xffff_ffff * 0x100_0000_0000 && h * s <= 0xffff_ffff * 0x100_0000_0000 && w
            * h <= 0xffff_ffff * 0xffff_ffff) by (nonlinear_arith)
            requires
                w <= 0xffff_ffff,
                h <= 0xffff_ffff,
                s <= 0x100_0000_0000,
        ;
        if (w as u128) * (s as u128) > LIMIT as u128 {
            return Err(ConfigError::TooLarge(Parameter::GridWidth));
        }
        if (h as u128) * (s as u128) > LIMIT as u128 {
            return Err(ConfigError::TooLarge(Parameter::GridHeight));
        }
        if w * h > MAX_TILES {
            return Err(ConfigError::TooManyTiles);
        }
        if self.initial_speed.x > LIMIT || self.initial_speed.y > LIMIT {
            return Err(ConfigError::TooLarge(Parameter::InitialSpeed));
        }
        if self.timestep > LIMIT {
            return Err(ConfigError::TooLarge(Parameter::Timestep));
        }
        let field = self.field();
        let quarter: i64 = (self.grid_width / 4) as i64;
        assert(0 <= self.tile_size * quarter <= self.grid_width * self.tile_size)
            by (nonlinear_arith)
            requires
                0 <= quarter <= self.grid_width,
                self.tile_size >= 1,
        ;
        let x: i64 = self.tile_size * quarter;
        let first = Ball {
            position: Vector { x: -x, y: 0 },
            velocity: Vector { x: -self.initial_speed.x, y: -self.initial_speed.y },
            radius: self.ball_radius,
            team: Team::A,
        };
        let second = Ball {
            position: Vector { x, y: 0 },
            velocity: self.initial_speed,
            radius: self.ball_radius,
            team: Team::B,
        };
        assert(first == self.start_ball(Team::A));
        assert(second == self.start_ball(Team::B));
        if !first.rests_in(field) || !second.rests_in(field) {
            return Err(ConfigError::BallOutsideField);
        }
        Ok(())
    }
}

impl Default for Config {
    /// The standard field, see [`Config::standard`].
    fn default() -> (c: Config)
        ensures
            c == Config::standard(),
    {
        Config::standard()
    }
}

/// The standard parameters have no fault.
pub proof fn lemma_standard_is_sound()
    ensures
        Config::standard().fault() is None,
{
    let c = Config::standard();
    assert(c.grid_width * c.tile_size == 512_000_000);
    assert(c.grid_height * c.tile_size == 288_000_000);
    assert(c.grid_width * c.grid_height == 576);
    assert(c.tile_size * (c.grid_width / 4) == 128_000_000);
    assert(c.field().left() == -256_000_000);
    assert(c.field().bottom() == -144_000_000);
}

} // verus!
