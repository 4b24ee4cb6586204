use infinite_pong::body::{Ball, Tile};
use infinite_pong::config::{Config, ConfigError, Parameter};
use infinite_pong::field::{Field, TileId};
use infinite_pong::filter::{CollisionFilter, Team};
use infinite_pong::geometry::{Vector, LIMIT};
use infinite_pong::world::{BoundsError, NumericalError, PlacementError, World};

fn standard_world() -> World {
    match World::new(&Config::standard()) {
        Ok(world) => world,
        Err(e) => panic!("the standard parameters were rejected: {:?}", e),
    }
}

#[test]
fn a_tile_follows_its_team() {
    let tile = Tile::new(3, 4, Team::A);
    assert_eq!(tile.ix, 3);
    assert_eq!(tile.iy, 4);
    assert_eq!(tile.team, Team::A);
    assert_eq!(tile.filter, CollisionFilter::tile(Team::A));
    assert_eq!(tile.id(), TileId { ix: 3, iy: 4 });
    assert_eq!(tile.sprite_index(), 0);
    let other = tile.with_team(Team::B);
    assert_eq!(other.team, Team::B);
    assert_eq!(other.filter, CollisionFilter::tile(Team::B));
    assert_eq!(other.id(), tile.id());
    assert_eq!(other.sprite_index(), 1);
    assert_eq!(tile.with_team(Team::A), tile);
}

#[test]
fn flipping_a_tile_twice_gives_it_back() {
    for team in [Team::A, Team::B] {
        let tile = Tile::new(7, 9, team);
        let once = tile.flipped();
        assert_eq!(once.team, team.opposite());
        assert_eq!(once.filter, CollisionFilter::tile(team.opposite()));
        assert_eq!(once.flipped(), tile);
    }
}

#[test]
fn a_ball_has_the_filter_and_shape_of_its_fields() {
    let ball = Ball {
        position: Vector::new(1, 2),
        velocity: Vector::new(3, 4),
        radius: 5,
        team: Team::B,
    };
    assert_eq!(ball.filter(), CollisionFilter::ball(Team::B));
    assert_eq!(ball.shape().center, Vector::new(1, 2));
    assert_eq!(ball.shape().radius, 5);
}

#[test]
fn a_ball_rests_where_it_is_inside_the_wall() {
    let field = Field { grid_width: 32, grid_height: 18, tile_size: 16_000_000 };
    let ball = |x: i64, y: i64| Ball {
        position: Vector::new(x, y),
        velocity: Vector::new(0, 0),
        radius: 7_500_000,
        team: Team::A,
    };
    assert!(ball(0, 0).rests_in(field));
    assert!(ball(-248_500_000, 136_500_000).rests_in(field));
    assert!(ball(248_500_000, -136_500_000).rests_in(field));
    assert!(!ball(-248_500_001, 0).rests_in(field));
    assert!(!ball(248_500_001, 0).rests_in(field));
    assert!(!ball(0, 136_500_001).rests_in(field));
    assert!(!ball(0, -136_500_001).rests_in(field));
    assert!(!ball(i64::MAX, i64::MIN).rests_in(field));
    let fast = Ball { velocity: Vector::new(LIMIT + 1, 0), ..ball(0, 0) };
    assert!(!fast.rests_in(field));
    let flat = Ball { radius: 0, ..ball(0, 0) };
    assert!(!flat.rests_in(field));
    let huge = Ball { radius: i64::MAX, ..ball(0, 0) };
    assert!(!huge.rests_in(field));
}

#[test]
fn the_standard_world_has_a_tile_for_every_cell() {
    let world = standard_world();
    assert_eq!(world.field(), Field { grid_width: 32, grid_height: 18, tile_size: 16_000_000 });
    assert_eq!(world.timestep(), 16_667);
    assert_eq!(world.tiles().len(), 32 * 18);
    for (index, tile) in world.tiles().iter().enumerate() {
        assert_eq!(tile.ix as usize, index / 18);
        assert_eq!(tile.iy as usize, index % 18);
        assert_eq!(tile.filter, CollisionFilter::tile(tile.team));
    }
}

#[test]
fn the_left_half_starts_on_team_a() {
    let world = standard_world();
    for ix in 0..32u32 {
        for iy in 0..18u32 {
            let tile = world.tile_at(ix, iy).unwrap();
            assert_eq!(tile.ix, ix);
            assert_eq!(tile.iy, iy);
            assert_eq!(tile.team, if ix < 16 { Team::A } else { Team::B });
            assert_eq!(tile.sprite_index(), if ix < 16 { 0 } else { 1 });
        }
    }
}

#[test]
fn an_odd_width_gives_the_middle_column_to_team_b() {
    let config = Config {
        grid_width: 5,
        grid_height: 3,
        tile_size: 3_000_000,
        ball_radius: 1_000_000,
        initial_speed: Vector::new(2_000_000, 1_000_000),
        timestep: 100_000,
    };
    let world = World::new(&config).unwrap();
    assert_eq!(world.tiles().len(), 15);
    for iy in 0..3u32 {
        assert_eq!(world.tile_at(0, iy).unwrap().team, Team::A);
        assert_eq!(world.tile_at(1, iy).unwrap().team, Team::A);
        assert_eq!(world.tile_at(2, iy).unwrap().team, Team::B);
        assert_eq!(world.tile_at(3, iy).unwrap().team, Team::B);
        assert_eq!(world.tile_at(4, iy).unwrap().team, Team::B);
    }
}

#[test]
fn a_single_column_belongs_to_team_b() {
    let config = Config { grid_width: 1, ball_radius: 1_000_000, ..Config::standard() };
    let world = World::new(&config).unwrap();
    for tile in world.tiles().iter() {
        assert_eq!(tile.team, Team::B);
    }
}

#[test]
fn the_balls_start_in_their_slots() {
    let world = standard_world();
    assert_eq!(world.balls().len(), 2);
    let a = world.balls()[0];
    assert_eq!(a.team, Team::A);
    assert_eq!(a.position, Vector::new(-128_000_000, 0));
    assert_eq!(a.velocity, Vector::new(-200_000_000, -200_000_000));
    assert_eq!(a.radius, 7_500_000);
    let b = world.balls()[1];
    assert_eq!(b.team, Team::B);
    assert_eq!(b.position, Vector::new(128_000_000, 0));
    assert_eq!(b.velocity, Vector::new(200_000_000, 200_000_000));
    assert_eq!(b.radius, 7_500_000);
    assert_eq!(world.ball(0), Ok(a));
    assert_eq!(world.ball(1), Ok(b));
    assert_eq!(world.ball(2), Err(BoundsError::Ball(2)));
    assert_eq!(world.ball(usize::MAX), Err(BoundsError::Ball(usize::MAX)));
}

#[test]
fn a_faulty_config_builds_no_world() {
    let good = Config::standard();
    let cases = [
        (Config { grid_width: 0, ..good }, ConfigError::NonPositive(Parameter::GridWidth)),
        (Config { timestep: -1, ..good }, ConfigError::NonPositive(Parameter::Timestep)),
        (Config { tile_size: LIMIT + 1, ..good }, ConfigError::TooLarge(Parameter::TileSize)),
        (Config { grid_width: 5000, grid_height: 5000, ..good }, ConfigError::TooManyTiles),
        (Config { ball_radius: 200_000_000, ..good }, ConfigError::BallOutsideField),
    ];
    for (config, expected) in cases {
        match World::new(&config) {
            Ok(_) => panic!("{:?} was accepted", config),
            Err(e) => assert_eq!(e, expected),
        }
    }
}

#[test]
fn tile_at_fails_outside_the_grid() {
    let world = standard_world();
    assert_eq!(world.tile_at(32, 0), Err(BoundsError::Tile(TileId { ix: 32, iy: 0 })));
    assert_eq!(world.tile_at(0, 18), Err(BoundsError::Tile(TileId { ix: 0, iy: 18 })));
    assert_eq!(
        world.tile_at(u32::MAX, u32::MAX),
        Err(BoundsError::Tile(TileId { ix: u32::MAX, iy: u32::MAX }))
    );
    assert!(world.tile_at(31, 17).is_ok());
}

#[test]
fn set_tile_team_changes_team_and_filter_together() {
    let mut world = standard_world();
    let before: Vec<Tile> = world.tiles().clone();
    assert_eq!(world.set_tile_team(3, 5, Team::B), Ok(()));
    let tile = world.tile_at(3, 5).unwrap();
    assert_eq!(tile.team, Team::B);
    assert_eq!(tile.filter, CollisionFilter::tile(Team::B));
    assert_eq!(tile.id(), TileId { ix: 3, iy: 5 });
    for (index, other) in world.tiles().iter().enumerate() {
        if index != 3 * 18 + 5 {
            assert_eq!(*other, before[index]);
        }
    }
    assert_eq!(world.tiles().len(), before.len());
    // setting the team a tile has changes nothing
    assert_eq!(world.set_tile_team(3, 5, Team::B), Ok(()));
    assert_eq!(world.tile_at(3, 5).unwrap(), tile);
    assert_eq!(world.set_tile_team(3, 5, Team::A), Ok(()));
    assert_eq!(*world.tiles(), before);
}

#[test]
fn set_tile_team_outside_the_grid_changes_nothing() {
    let mut world = standard_world();
    let before: Vec<Tile> = world.tiles().clone();
    assert_eq!(
        world.set_tile_team(32, 17, Team::A),
        Err(BoundsError::Tile(TileId { ix: 32, iy: 17 }))
    );
    assert_eq!(
        world.set_tile_team(0, 18, Team::B),
        Err(BoundsError::Tile(TileId { ix: 0, iy: 18 }))
    );
    assert_eq!(*world.tiles(), before);
}

#[test]
fn place_ball_moves_one_ball() {
    let mut world = standard_world();
    let other = world.balls()[1];
    assert_eq!(world.place_ball(0, Vector::new(5, -6), Vector::new(7, 0)), Ok(()));
    let ball = world.balls()[0];
    assert_eq!(ball.position, Vector::new(5, -6));
    assert_eq!(ball.velocity, Vector::new(7, 0));
    assert_eq!(ball.radius, 7_500_000);
    assert_eq!(ball.team, Team::A);
    assert_eq!(world.balls()[1], other);
    assert_eq!(world.balls().len(), 2);
}

#[test]
fn place_ball_rejects_what_cannot_be_simulated() {
    let mut world = standard_world();
    let before: Vec<Ball> = world.balls().clone();
    assert_eq!(
        world.place_ball(2, Vector::new(0, 0), Vector::new(0, 0)),
        Err(PlacementError::Bounds(BoundsError::Ball(2)))
    );
    // one step into the left wall
    assert_eq!(
        world.place_ball(0, Vector::new(-248_500_001, 0), Vector::new(0, 0)),
        Err(PlacementError::Numerical(NumericalError { ball: 0 }))
    );
    assert_eq!(
        world.place_ball(1, Vector::new(0, 136_500_001), Vector::new(0, 0)),
        Err(PlacementError::Numerical(NumericalError { ball: 1 }))
    );
    assert_eq!(
        world.place_ball(1, Vector::new(0, 0), Vector::new(0, -LIMIT - 1)),
        Err(PlacementError::Numerical(NumericalError { ball: 1 }))
    );
    assert_eq!(
        world.place_ball(0, Vector::new(i64::MIN, i64::MAX), Vector::new(i64::MAX, i64::MIN)),
        Err(PlacementError::Numerical(NumericalError { ball: 0 }))
    );
    assert_eq!(*world.balls(), before);
    // touching the wall is inside
    assert_eq!(world.place_ball(0, Vector::new(-248_500_000, 136_500_000), Vector::new(LIMIT, -LIMIT)), Ok(()));
}
