use infinite_pong::body::Tile;
use infinite_pong::config::Config;
use infinite_pong::field::TileId;
use infinite_pong::filter::{CollisionFilter, Team};
use infinite_pong::flip::InvariantViolation;
use infinite_pong::step::ContactEvent;
use infinite_pong::world::World;

fn standard_world() -> World {
    World::new(&Config::standard()).unwrap()
}

fn event(ball: usize, ix: u32, iy: u32) -> ContactEvent {
    ContactEvent { ball, tile: TileId { ix, iy } }
}

#[test]
fn no_contacts_change_nothing() {
    let mut world = standard_world();
    let before: Vec<Tile> = world.tiles().clone();
    assert_eq!(world.apply_contacts(&Vec::new()), Ok(()));
    assert_eq!(*world.tiles(), before);
}

#[test]
fn a_struck_tile_goes_over_to_the_ball() {
    let mut world = standard_world();
    let before: Vec<Tile> = world.tiles().clone();
    let balls = world.balls().clone();
    assert_eq!(world.apply_contacts(&vec![event(0, 16, 4), event(1, 15, 9)]), Ok(()));
    let first = world.tile_at(16, 4).unwrap();
    assert_eq!(first.team, Team::A);
    assert_eq!(first.filter, CollisionFilter::tile(Team::A));
    let second = world.tile_at(15, 9).unwrap();
    assert_eq!(second.team, Team::B);
    assert_eq!(second.filter, CollisionFilter::tile(Team::B));
    for (index, tile) in world.tiles().iter().enumerate() {
        if index != 16 * 18 + 4 && index != 15 * 18 + 9 {
            assert_eq!(*tile, before[index]);
        }
    }
    assert_eq!(world.tiles().len(), 576);
    assert_eq!(*world.balls(), balls);
}

#[test]
fn the_first_contact_of_a_tile_wins() {
    // both balls are reported on the same tile of team B: the first decides
    let mut world = standard_world();
    let before: Vec<Tile> = world.tiles().clone();
    assert_eq!(world.apply_contacts(&vec![event(0, 16, 9), event(1, 16, 9)]), Ok(()));
    assert_eq!(world.tile_at(16, 9).unwrap().team, Team::A);
    for (index, tile) in world.tiles().iter().enumerate() {
        if index != 16 * 18 + 9 {
            assert_eq!(*tile, before[index]);
        }
    }
}

#[test]
fn a_tile_changes_sides_once_in_a_tick_at_most() {
    let mut world = standard_world();
    let list = vec![event(0, 16, 9), event(1, 16, 9), event(0, 16, 9), event(1, 16, 9), event(0, 17, 9)];
    assert_eq!(world.apply_contacts(&list), Ok(()));
    assert_eq!(world.tile_at(16, 9).unwrap().team, Team::A);
    assert_eq!(world.tile_at(17, 9).unwrap().team, Team::A);
    // in the next tick the tile can be struck again
    assert_eq!(world.apply_contacts(&vec![event(1, 16, 9)]), Ok(()));
    assert_eq!(world.tile_at(16, 9).unwrap().team, Team::B);
}

#[test]
fn a_contact_with_a_tile_of_the_own_team_is_a_violation() {
    let mut world = standard_world();
    let before: Vec<Tile> = world.tiles().clone();
    // ball A on a tile of team A
    assert_eq!(world.apply_contacts(&vec![event(0, 3, 3)]), Err(InvariantViolation { event: 0 }));
    // the second ball is first on its tile, which is its own
    assert_eq!(
        world.apply_contacts(&vec![event(0, 16, 9), event(1, 20, 2), event(1, 3, 3)]),
        Err(InvariantViolation { event: 1 })
    );
    // the first of several is reported
    assert_eq!(
        world.apply_contacts(&vec![event(1, 3, 3), event(0, 0, 0), event(1, 31, 17)]),
        Err(InvariantViolation { event: 1 })
    );
    assert_eq!(*world.tiles(), before);
}

#[test]
fn a_contact_with_a_body_that_is_not_there_is_a_violation() {
    let mut world = standard_world();
    let before: Vec<Tile> = world.tiles().clone();
    assert_eq!(world.apply_contacts(&vec![event(2, 16, 9)]), Err(InvariantViolation { event: 0 }));
    assert_eq!(
        world.apply_contacts(&vec![event(0, 16, 9), event(0, 32, 9)]),
        Err(InvariantViolation { event: 1 })
    );
    assert_eq!(
        world.apply_contacts(&vec![event(0, 16, 9), event(1, 16, 9), event(0, 16, 18)]),
        Err(InvariantViolation { event: 2 })
    );
    // a later contact of a tile is dropped, but it must still name a ball
    assert_eq!(
        world.apply_contacts(&vec![event(0, 16, 9), event(usize::MAX, 16, 9)]),
        Err(InvariantViolation { event: 1 })
    );
    assert_eq!(*world.tiles(), before);
}

#[test]
fn a_crafted_grid_flips_like_any_other() {
    let mut world = standard_world();
    assert_eq!(world.set_tile_team(0, 0, Team::B), Ok(()));
    assert_eq!(world.apply_contacts(&vec![event(0, 0, 0)]), Ok(()));
    assert_eq!(world.tile_at(0, 0).unwrap().team, Team::A);
    assert_eq!(world.apply_contacts(&vec![event(0, 0, 0)]), Err(InvariantViolation { event: 0 }));
}
