use infinite_pong::body::Ball;
use infinite_pong::field::Field;
use infinite_pong::filter::Team;
use infinite_pong::geometry::{Aabb, Circle, Normal, Vector, LIMIT};
use infinite_pong::physics::{
    advance, bounce, confine, contact_between, displace, separation_of, span_over, sweep_bounds,
    wall_contact_of, Contact, Span, TRAVEL,
};

fn square() -> Aabb {
    Aabb { min: Vector::new(0, 0), max: Vector::new(16, 16) }
}

fn circle(x: i64, y: i64, radius: i64) -> Circle {
    Circle { center: Vector::new(x, y), radius }
}

fn standard_field() -> Field {
    Field { grid_width: 32, grid_height: 18, tile_size: 16_000_000 }
}

fn ball(x: i64, y: i64, vx: i64, vy: i64) -> Ball {
    Ball {
        position: Vector::new(x, y),
        velocity: Vector::new(vx, vy),
        radius: 7_500_000,
        team: Team::A,
    }
}

#[test]
fn displacement_is_speed_times_timestep_rounded_towards_zero() {
    assert_eq!(displace(200_000_000, 16_667), 3_333_400);
    assert_eq!(displace(-200_000_000, 16_667), -3_333_400);
    assert_eq!(displace(0, 16_667), 0);
    assert_eq!(displace(200_000_000, 0), 0);
    assert_eq!(displace(1, 999_999), 0);
    assert_eq!(displace(-1, 999_999), 0);
    assert_eq!(displace(1, 1_000_000), 1);
    assert_eq!(displace(-1, 1_000_000), -1);
    assert_eq!(displace(3, 500_000), 1);
    assert_eq!(displace(-3, 500_000), -1);
}

#[test]
fn displacement_at_the_limits_is_the_farthest_travel() {
    assert_eq!(TRAVEL, 1_208_925_819_614_629_174);
    assert_eq!(displace(LIMIT, LIMIT), TRAVEL);
    assert_eq!(displace(-LIMIT, LIMIT), -TRAVEL);
}

#[test]
fn advance_moves_by_the_displacement_and_keeps_the_rest() {
    let before = ball(-128_000_000, 0, -200_000_000, -200_000_000);
    let after = advance(before, 16_667);
    assert_eq!(after.position, Vector::new(-131_333_400, -3_333_400));
    assert_eq!(after.velocity, before.velocity);
    assert_eq!(after.radius, before.radius);
    assert_eq!(after.team, before.team);
    let still = advance(ball(5, 6, 0, 0), 16_667);
    assert_eq!(still.position, Vector::new(5, 6));
}

#[test]
fn separation_is_the_way_to_the_nearer_end() {
    assert_eq!(separation_of(0, 16, -5), 5);
    assert_eq!(separation_of(0, 16, 21), 5);
    assert_eq!(separation_of(0, 16, 0), 0);
    assert_eq!(separation_of(0, 16, 16), 0);
    assert_eq!(separation_of(0, 16, 4), -4);
    assert_eq!(separation_of(0, 16, 12), -4);
    assert_eq!(separation_of(0, 16, 8), -8);
}

#[test]
fn a_circle_that_reaches_a_face_is_pushed_back_to_touch_it() {
    assert_eq!(
        contact_between(square(), circle(-5, 8, 7)),
        Some(Contact { normal: Normal::Left, depth: 2 })
    );
    assert_eq!(
        contact_between(square(), circle(21, 8, 7)),
        Some(Contact { normal: Normal::Right, depth: 2 })
    );
    assert_eq!(
        contact_between(square(), circle(8, -5, 7)),
        Some(Contact { normal: Normal::Down, depth: 2 })
    );
    assert_eq!(
        contact_between(square(), circle(8, 22, 7)),
        Some(Contact { normal: Normal::Up, depth: 1 })
    );
}

#[test]
fn a_circle_that_only_touches_is_not_in_contact() {
    assert_eq!(contact_between(square(), circle(-7, 8, 7)), None);
    assert_eq!(contact_between(square(), circle(23, 8, 7)), None);
    assert_eq!(contact_between(square(), circle(8, -7, 7)), None);
    assert_eq!(contact_between(square(), circle(8, 23, 7)), None);
    // at a corner: 3, 4, 5
    assert_eq!(contact_between(square(), circle(-3, -4, 5)), None);
    assert_eq!(contact_between(square(), circle(20, 19, 5)), None);
    // far away
    assert_eq!(contact_between(square(), circle(-100, 8, 7)), None);
    assert_eq!(contact_between(square(), circle(8, 100, 7)), None);
}

#[test]
fn at_a_corner_the_axis_of_greater_separation_decides() {
    // equal separation: x before y
    assert_eq!(
        contact_between(square(), circle(-3, -3, 5)),
        Some(Contact { normal: Normal::Left, depth: 1 })
    );
    assert_eq!(
        contact_between(square(), circle(19, 19, 5)),
        Some(Contact { normal: Normal::Right, depth: 1 })
    );
    // farther along y
    assert_eq!(
        contact_between(square(), circle(-2, -4, 5)),
        Some(Contact { normal: Normal::Down, depth: 1 })
    );
    assert_eq!(
        contact_between(square(), circle(18, 20, 5)),
        Some(Contact { normal: Normal::Up, depth: 1 })
    );
    // farther along x
    assert_eq!(
        contact_between(square(), circle(-4, -2, 5)),
        Some(Contact { normal: Normal::Left, depth: 1 })
    );
    assert_eq!(
        contact_between(square(), circle(20, -2, 5)),
        Some(Contact { normal: Normal::Right, depth: 1 })
    );
}

#[test]
fn the_depth_at_a_corner_is_the_least_that_clears_it() {
    // radius 10, 6 across: 8 along are needed, 1 is there
    assert_eq!(
        contact_between(square(), circle(-7, -6, 10)),
        Some(Contact { normal: Normal::Left, depth: 1 })
    );
    // radius 10, 1 across: the root of 99 rounds up to 10
    assert_eq!(
        contact_between(square(), circle(-5, -1, 10)),
        Some(Contact { normal: Normal::Left, depth: 5 })
    );
    // in steps of the standard field
    let tile = Aabb { min: Vector::new(-16_000_000, -112_000_000), max: Vector::new(0, -96_000_000) };
    let at = Circle { center: Vector::new(5_161_800, -93_504_600), radius: 7_500_000 };
    assert_eq!(contact_between(tile, at), Some(Contact { normal: Normal::Right, depth: 1_910_893 }));
}

#[test]
fn a_circle_inside_a_box_leaves_by_the_nearest_face() {
    assert_eq!(
        contact_between(square(), circle(4, 8, 7)),
        Some(Contact { normal: Normal::Left, depth: 11 })
    );
    assert_eq!(
        contact_between(square(), circle(12, 8, 7)),
        Some(Contact { normal: Normal::Right, depth: 11 })
    );
    assert_eq!(
        contact_between(square(), circle(8, 3, 7)),
        Some(Contact { normal: Normal::Down, depth: 10 })
    );
    assert_eq!(
        contact_between(square(), circle(8, 13, 7)),
        Some(Contact { normal: Normal::Up, depth: 10 })
    );
    // at the very centre: x before y, the positive side
    assert_eq!(
        contact_between(square(), circle(8, 8, 7)),
        Some(Contact { normal: Normal::Right, depth: 15 })
    );
}

#[test]
fn a_resolved_contact_is_no_contact_any_more() {
    let shapes = [square(), Aabb { min: Vector::new(-40, -3), max: Vector::new(-8, 29) }];
    for shape in shapes {
        for x in -30i64..40 {
            for y in -30i64..40 {
                let start = Ball {
                    position: Vector::new(x, y),
                    velocity: Vector::new(3, -2),
                    radius: 9,
                    team: Team::B,
                };
                if let Some(c) = contact_between(shape, start.shape()) {
                    assert!(c.depth >= 1);
                    let after = bounce(start, c);
                    assert_eq!(contact_between(shape, after.shape()), None);
                    assert_eq!(after.velocity.norm_squared(), 13);
                    // one step less would not have been enough
                    let short = bounce(start, Contact { normal: c.normal, depth: c.depth - 1 });
                    assert!(contact_between(shape, short.shape()).is_some());
                }
            }
        }
    }
}

#[test]
fn bounce_moves_along_the_normal_and_mirrors_an_approaching_velocity() {
    let start = ball(10, 20, 3, -4);
    let left = bounce(start, Contact { normal: Normal::Left, depth: 5 });
    assert_eq!(left.position, Vector::new(5, 20));
    assert_eq!(left.velocity, Vector::new(-3, -4));
    let right = bounce(start, Contact { normal: Normal::Right, depth: 5 });
    assert_eq!(right.position, Vector::new(15, 20));
    assert_eq!(right.velocity, Vector::new(3, -4));
    let down = bounce(start, Contact { normal: Normal::Down, depth: 5 });
    assert_eq!(down.position, Vector::new(10, 15));
    assert_eq!(down.velocity, Vector::new(3, -4));
    let up = bounce(start, Contact { normal: Normal::Up, depth: 5 });
    assert_eq!(up.position, Vector::new(10, 25));
    assert_eq!(up.velocity, Vector::new(3, 4));
    for after in [left, right, down, up] {
        assert_eq!(after.radius, start.radius);
        assert_eq!(after.team, start.team);
        assert_eq!(after.velocity.norm_squared(), 25);
    }
}

#[test]
fn the_wall_is_met_from_inside() {
    let f = standard_field();
    // one step beyond touching the left wall
    assert_eq!(
        wall_contact_of(f, Normal::Right, circle(-248_500_001, 0, 7_500_000)),
        Some(Contact { normal: Normal::Right, depth: 1 })
    );
    assert_eq!(
        wall_contact_of(f, Normal::Left, circle(248_500_003, 0, 7_500_000)),
        Some(Contact { normal: Normal::Left, depth: 3 })
    );
    assert_eq!(
        wall_contact_of(f, Normal::Up, circle(0, -136_500_002, 7_500_000)),
        Some(Contact { normal: Normal::Up, depth: 2 })
    );
    assert_eq!(
        wall_contact_of(f, Normal::Down, circle(0, 136_500_004, 7_500_000)),
        Some(Contact { normal: Normal::Down, depth: 4 })
    );
    // a centre beyond the wall is brought back inside
    assert_eq!(
        wall_contact_of(f, Normal::Right, circle(-300_000_000, 0, 7_500_000)),
        Some(Contact { normal: Normal::Right, depth: 51_500_000 })
    );
}

#[test]
fn a_ball_that_touches_the_wall_is_not_in_contact_with_it() {
    let f = standard_field();
    assert_eq!(wall_contact_of(f, Normal::Right, circle(-248_500_000, 0, 7_500_000)), None);
    assert_eq!(wall_contact_of(f, Normal::Left, circle(248_500_000, 0, 7_500_000)), None);
    assert_eq!(wall_contact_of(f, Normal::Up, circle(0, -136_500_000, 7_500_000)), None);
    assert_eq!(wall_contact_of(f, Normal::Down, circle(0, 136_500_000, 7_500_000)), None);
    for inward in [Normal::Left, Normal::Right, Normal::Down, Normal::Up] {
        assert_eq!(wall_contact_of(f, inward, circle(0, 0, 7_500_000)), None);
    }
}

#[test]
fn confine_leaves_a_touching_ball_as_it_is() {
    let f = standard_field();
    let corner = ball(-248_500_000, -136_500_000, -200_000_000, -200_000_000);
    assert_eq!(confine(f, corner), corner);
    let inside = ball(12, -34, 200_000_000, 0);
    assert_eq!(confine(f, inside), inside);
}

#[test]
fn confine_brings_a_ball_back_and_turns_it() {
    let f = standard_field();
    let left = confine(f, ball(-251_833_399, 0, -200_000_000, 0));
    assert_eq!(left.position, Vector::new(-248_500_000, 0));
    assert_eq!(left.velocity, Vector::new(200_000_000, 0));
    let corner = confine(f, ball(250_000_000, 140_000_000, 200_000_000, 100_000_000));
    assert_eq!(corner.position, Vector::new(248_500_000, 136_500_000));
    assert_eq!(corner.velocity, Vector::new(-200_000_000, -100_000_000));
    let bottom = confine(f, ball(0, -140_000_000, 5, -6));
    assert_eq!(bottom.position, Vector::new(0, -136_500_000));
    assert_eq!(bottom.velocity, Vector::new(5, 6));
    // a ball found beyond the wall while moving inwards keeps its velocity
    let returning = confine(f, ball(-250_000_000, 0, 200_000_000, 0));
    assert_eq!(returning.position, Vector::new(-248_500_000, 0));
    assert_eq!(returning.velocity, Vector::new(200_000_000, 0));
}

#[test]
fn the_swept_box_holds_the_circle_at_both_ends() {
    let b = sweep_bounds(Vector::new(-128_000_000, 0), Vector::new(-131_333_400, -3_333_400), 7_500_000);
    assert_eq!(b.min, Vector::new(-138_833_400, -10_833_400));
    assert_eq!(b.max, Vector::new(-120_500_000, 7_500_000));
    let c = sweep_bounds(Vector::new(1, 9), Vector::new(5, 2), 3);
    assert_eq!(c.min, Vector::new(-2, -1));
    assert_eq!(c.max, Vector::new(8, 12));
    let d = sweep_bounds(Vector::new(4, 4), Vector::new(4, 4), 0);
    assert_eq!(d.min, Vector::new(4, 4));
    assert_eq!(d.max, Vector::new(4, 4));
}

#[test]
fn the_span_of_a_box_is_clamped_to_the_grid() {
    let f = standard_field();
    let b = Aabb { min: Vector::new(-138_833_400, -10_833_400), max: Vector::new(-120_500_000, 7_500_000) };
    assert_eq!(span_over(f, b), Span { ix0: 7, ix1: 8, iy0: 8, iy1: 9 });
    let all = Aabb { min: Vector::new(-300_000_000, -300_000_000), max: Vector::new(300_000_000, 300_000_000) };
    assert_eq!(span_over(f, all), Span { ix0: 0, ix1: 31, iy0: 0, iy1: 17 });
    let point = Aabb { min: Vector::new(0, 0), max: Vector::new(0, 0) };
    assert_eq!(span_over(f, point), Span { ix0: 16, ix1: 16, iy0: 9, iy1: 9 });
    let outside = Aabb { min: Vector::new(400_000_000, 0), max: Vector::new(500_000_000, 1) };
    assert_eq!(span_over(f, outside), Span { ix0: 31, ix1: 31, iy0: 9, iy1: 9 });
}
