//! The parts of a physics step: free motion, the span of tiles a move
//! reaches over, the contact of a ball with a tile or with the wall, and the
//! elastic bounce that resolves a contact.

use crate::body::Ball;
use crate::field::{Field, TileId};
use crate::geometry::{
    ceil_sqrt, ceil_sqrt_within, is_ceil_sqrt, lemma_ceil_sqrt_exists, lemma_rebound,
    lemma_square_monotonic, magnitude, Aabb, Circle, Normal, Vector, LIMIT, REACH, UNIT,
};
use vstd::prelude::*;

verus! {

/// The farthest a ball can travel along one axis in one tick: the limit on
/// speed times the limit on the timestep, in steps.
pub const TRAVEL: i64 = 1_208_925_819_614_629_174;

/// A contact of a ball with a static shape: the normal, which points from the
/// shape to the ball, and how far the ball must move along it to come clear.
#[derive(Clone, Copy, Debug, PartialEq, Eq, Structural)]
pub struct Contact {
    pub normal: Normal,
    pub depth: i64,
}

/// How far a body of the given speed moves along one axis in one tick:
/// speed times timestep, rounded towards zero to a whole step.
pub open spec fn displacement(speed: i64, timestep: i64) -> i64 {
    if speed >= 0 {
        ((speed * timestep) / (UNIT as int)) as i64
    } else {
        (-(((-speed) * timestep) / (UNIT as int))) as i64
    }
}

/// The displacement is bounded by [`TRAVEL`], has the sign of the speed, and
/// reverses with the speed.
pub proof fn lemma_displacement(speed: i64, timestep: i64)
    requires
        -LIMIT <= speed <= LIMIT,
        0 <= timestep <= LIMIT,
    ensures
        -TRAVEL <= displacement(speed, timestep) <= TRAVEL,
        speed >= 0 ==> displacement(speed, timestep) == (speed * timestep) / (UNIT as int),
        speed >= 0 ==> displacement(speed, timestep) >= 0,
        speed <= 0 ==> displacement(speed, timestep) <= 0,
        displacement((-speed) as i64, timestep) == -displacement(speed, timestep),
{
    let m: int = if speed >= 0 {
        speed as int
    } else {
        -speed
    };
    let t = timestep as int;
    assert(0 <= m * t <= 0x100_0000_0000 * 0x100_0000_0000) by (nonlinear_arith)
        requires
            0 <= m <= 0x100_0000_0000,
            0 <= t <= 0x100_0000_0000,
    ;
    let p = m * t;
    assert(0 <= p / 1_000_000 <= 1_208_925_819_614_629_174) by (nonlinear_arith)
        requires
            0 <= p <= 0x100_0000_0000 * 0x100_0000_0000,
    ;
    if speed == 0 {
        assert(0 * t == 0);
    }
}

/// Computes the [`displacement`] of one tick.
pub fn displace(speed: i64, timestep: i64) -> (d: i64)
    requires
        -LIMIT <= speed <= LIMIT,
        0 <= timestep <= LIMIT,
    ensures
        d == displacement(speed, timestep),
        -TRAVEL <= d <= TRAVEL,
{
    proof {
        lemma_displacement(speed, timestep);
    }
    let m: u64 = magnitude(speed);
    let t: u64 = timestep as u64;
    assert(0 <= m * t <= 0x100_0000_0000 * 0x100_0000_0000) by (nonlinear_arith)
        requires
            0 <= m <= 0x100_0000_0000,
            0 <= t <= 0x100_0000_0000,
    ;
    let product: u128 = (m as u128) * (t as u128);
    let steps: u128 = product / 1_000_000u128;
    if speed >= 0 {
        steps as i64
    } else {
        -(steps as i64)
    }
}

/// The ball after it has moved freely for one timestep: no gravity, no damping.
pub open spec fn advanced(ball: Ball, timestep: i64) -> Ball {
    Ball {
        position: Vector {
            x: (ball.position.x + displacement(ball.velocity.x, timestep)) as i64,
            y: (ball.position.y + displacement(ball.velocity.y, timestep)) as i64,
        },
        ..ball
    }
}

/// Moves a ball freely for one timestep.
pub fn advance(ball: Ball, timestep: i64) -> (moved: Ball)
    requires
        ball.position.within(LIMIT as int),
        ball.velocity.within(LIMIT as int),
        1 <= ball.radius <= LIMIT,
        0 <= timestep <= LIMIT,
    ensures
        moved == advanced(ball, timestep),
        moved.in_flight(),
{
    let dx: i64 = displace(ball.velocity.x, timestep);
    let dy: i64 = displace(ball.velocity.y, timestep);
    Ball {
        position: Vector { x: ball.position.x + dx, y: ball.position.y + dy },
        velocity: ball.velocity,
        radius: ball.radius,
        team: ball.team,
    }
}

/// How far the coordinate `c` lies outside the interval from `lo` to `hi`
/// along one axis; zero or negative where it lies inside.
pub open spec fn separation(lo: i64, hi: i64, c: i64) -> int {
    if lo - c >= c - hi {
        lo - c
    } else {
        c - hi
    }
}

/// The part of a separation that counts towards the distance: nothing where
/// the coordinate lies inside the interval.
pub open spec fn gap(separation: int) -> int {
    if separation > 0 {
        separation
    } else {
        0
    }
}

/// The circle reaches into the shape: the point of the shape closest to the
/// centre is nearer than the radius.
pub open spec fn penetrates(shape: Aabb, circle: Circle) -> bool {
    let gx = gap(separation(shape.min.x, shape.max.x, circle.center.x));
    let gy = gap(separation(shape.min.y, shape.max.y, circle.center.y));
    gx * gx + gy * gy < circle.radius * circle.radius
}

/// How far outside a shape the centre of a circle must lie along the contact
/// axis to be clear of it, given its distance `across` along the other axis:
/// the least whole number of steps that leaves no penetration.
pub open spec fn clearance(radius: i64, across: int) -> int {
    ceil_sqrt(radius * radius - across * across)
}

/// The contact of a circle with a box, if the circle reaches into it.
///
/// The normal lies along the axis on which the centre is separated farther
/// from the box, the x axis where both are equal, and points away from the
/// nearer face. The depth moves the circle along the normal until it touches
/// the box from outside.
pub open spec fn contact(shape: Aabb, circle: Circle) -> Option<Contact> {
    let sx = separation(shape.min.x, shape.max.x, circle.center.x);
    let sy = separation(shape.min.y, shape.max.y, circle.center.y);
    if !penetrates(shape, circle) {
        None
    } else if sx >= sy {
        Some(
            Contact {
                normal: if circle.center.x - shape.max.x >= shape.min.x - circle.center.x {
                    Normal::Right
                } else {
                    Normal::Left
                },
                depth: (clearance(circle.radius, gap(sy)) - sx) as i64,
            },
        )
    } else {
        Some(
            Contact {
                normal: if circle.center.y - shape.max.y >= shape.min.y - circle.center.y {
                    Normal::Up
                } else {
                    Normal::Down
                },
                depth: (clearance(circle.radius, gap(sx)) - sy) as i64,
            },
        )
    }
}

/// The bounds under which a contact of a circle with a box is computed.
pub open spec fn contact_ready(shape: Aabb, circle: Circle) -> bool {
    &&& shape.min.x <= shape.max.x
    &&& shape.min.y <= shape.max.y
    &&& shape.min.within(LIMIT as int)
    &&& shape.max.within(LIMIT as int)
    &&& circle.center.within(REACH as int)
    &&& 1 <= circle.radius <= LIMIT
}

/// The point reached from `position` by `depth` steps along `normal`.
pub open spec fn pushed(position: Vector, normal: Normal, depth: i64) -> Vector {
    match normal {
        Normal::Left => Vector { x: (position.x - depth) as i64, y: position.y },
        Normal::Right => Vector { x: (position.x + depth) as i64, y: position.y },
        Normal::Down => Vector { x: position.x, y: (position.y - depth) as i64 },
        Normal::Up => Vector { x: position.x, y: (position.y + depth) as i64 },
    }
}

/// The push of `depth` steps along `normal` ends within reach.
pub open spec fn lands(position: Vector, normal: Normal, depth: i64) -> bool {
    match normal {
        Normal::Left => -REACH <= position.x - depth <= REACH,
        Normal::Right => -REACH <= position.x + depth <= REACH,
        Normal::Down => -REACH <= position.y - depth <= REACH,
        Normal::Up => -REACH <= position.y + depth <= REACH,
    }
}

/// The ball after a contact is resolved: moved clear along the normal, and
/// its velocity mirrored in the surface if it moved into the surface. A ball
/// that is found in a shape while moving out of it keeps its velocity.
/// Nothing is lost to friction or damping.
pub open spec fn bounced(ball: Ball, contact: Contact) -> Ball {
    Ball {
        position: pushed(ball.position, contact.normal, contact.depth),
        velocity: ball.velocity.rebounded(contact.normal),
        ..ball
    }
}

/// What holds of the clearance of a circle that reaches into a shape.
pub proof fn lemma_clearance(radius: i64, across: int, along: int)
    requires
        1 <= radius <= LIMIT,
        0 <= across < radius,
        gap(along) * gap(along) + across * across < radius * radius,
    ensures
        is_ceil_sqrt(radius * radius - across * across, clearance(radius, across)),
        1 <= clearance(radius, across) <= radius,
        along < clearance(radius, across),
        across == 0 ==> clearance(radius, across) == radius,
{
    let r = radius as int;
    let n = r * r - across * across;
    assert(n >= 1 && n <= r * r) by (nonlinear_arith)
        requires
            0 <= across < r,
            n == r * r - across * across,
    ;
    // some number satisfies the defining property: the least one below the radius
    lemma_ceil_sqrt_exists(n, r);
    let g = clearance(radius, across);
    assert(is_ceil_sqrt(n, g));
    if g > r {
        lemma_square_monotonic(r, g - 1);
    }
    if g == 0 {
        assert(0 * 0 == 0);
    }
    if along >= g {
        lemma_square_monotonic(g, along);
    }
    if across == 0 {
        assert(across * across == 0);
        if g < r {
            lemma_square_monotonic(g, r - 1);
            assert((r - 1) * (r - 1) < r * r) by (nonlinear_arith)
                requires
                    r >= 1,
            ;
        }
    }
}

/// What holds of a contact of a circle with a box: the depth is positive,
/// the push puts the centre at the clearance from the face it leaves by, and
/// the circle no longer reaches into the box.
pub proof fn lemma_contact(shape: Aabb, circle: Circle)
    requires
        contact_ready(shape, circle),
        contact(shape, circle) is Some,
    ensures
        ({
            let c = contact(shape, circle)->Some_0;
            let p = pushed(circle.center, c.normal, c.depth);
            &&& 1 <= c.depth
            &&& c.normal.horizontal() <==> separation(shape.min.x, shape.max.x, circle.center.x)
                >= separation(shape.min.y, shape.max.y, circle.center.y)
            &&& c.normal == Normal::Right ==> shape.max.x < p.x <= shape.max.x + circle.radius && p.y
                == circle.center.y
            &&& c.normal == Normal::Left ==> shape.min.x - circle.radius <= p.x < shape.min.x && p.y
                == circle.center.y
            &&& c.normal == Normal::Up ==> shape.max.y < p.y <= shape.max.y + circle.radius && p.x
                == circle.center.x
            &&& c.normal == Normal::Down ==> shape.min.y - circle.radius <= p.y < shape.min.y && p.x
                == circle.center.x
            &&& lands(circle.center, c.normal, c.depth)
            &&& p.within(REACH as int)
            &&& !penetrates(shape, Circle { center: p, radius: circle.radius })
        }),
{
    let c = contact(shape, circle)->Some_0;
    let p = pushed(circle.center, c.normal, c.depth);
    let r = circle.radius as int;
    let sx = separation(shape.min.x, shape.max.x, circle.center.x);
    let sy = separation(shape.min.y, shape.max.y, circle.center.y);
    let gx = gap(sx);
    let gy = gap(sy);
    assert(gx < r && gy < r) by (nonlinear_arith)
        requires
            gx * gx + gy * gy < r * r,
            0 <= gx,
            0 <= gy,
            1 <= r,
    ;
    if sx >= sy {
        lemma_clearance(circle.radius, gy, sx);
        let need = clearance(circle.radius, gy);
        assert(gap(separation(shape.min.x, shape.max.x, p.x)) == need);
        assert(gap(separation(shape.min.y, shape.max.y, p.y)) == gy);
    } else {
        lemma_clearance(circle.radius, gx, sy);
        let need = clearance(circle.radius, gx);
        assert(gap(separation(shape.min.y, shape.max.y, p.y)) == need);
        assert(gap(separation(shape.min.x, shape.max.x, p.x)) == gx);
    }
}

/// Computes the [`separation`] of a coordinate from an interval.
pub fn separation_of(lo: i64, hi: i64, c: i64) -> (s: i64)
    requires
        -LIMIT <= lo <= hi <= LIMIT,
        -REACH <= c <= REACH,
    ensures
        s == separation(lo, hi, c),
{
    let below: i64 = lo - c;
    let above: i64 = c - hi;
    if below >= above {
        below
    } else {
        above
    }
}

/// Finds the [`contact`] of a circle with a box: the narrow phase.
pub fn contact_between(shape: Aabb, circle: Circle) -> (r: Option<Contact>)
    requires
        contact_ready(shape, circle),
    ensures
        r == contact(shape, circle),
        r is Some <==> penetrates(shape, circle),
{
    let radius: i64 = circle.radius;
    let sx: i64 = separation_of(shape.min.x, shape.max.x, circle.center.x);
    let sy: i64 = separation_of(shape.min.y, shape.max.y, circle.center.y);
    if sx >= radius || sy >= radius {
        proof {
            let gx = gap(sx as int);
            let gy = gap(sy as int);
            let r = radius as int;
            assert(gx * gx + gy * gy >= r * r) by (nonlinear_arith)
                requires
                    gx >= r || gy >= r,
                    gx >= 0,
                    gy >= 0,
                    r >= 1,
            ;
        }
        return None;
    }
    let gx: u64 = if sx > 0 {
        sx as u64
    } else {
        0
    };
    let gy: u64 = if sy > 0 {
        sy as u64
    } else {
        0
    };
    let r: u64 = radius as u64;
    assert(gx * gx <= r * r && gy * gy <= r * r && r * r <= 0x100_0000_0000 * 0x100_0000_0000)
        by (nonlinear_arith)
        requires
            0 <= gx <= r,
            0 <= gy <= r,
            r <= 0x100_0000_0000,
    ;
    let rr: u128 = (r as u128) * (r as u128);
    let xx: u128 = (gx as u128) * (gx as u128);
    let yy: u128 = (gy as u128) * (gy as u128);
    if xx + yy >= rr {
        return None;
    }
    if sx >= sy {
        proof {
            lemma_clearance(radius, gy as int, sx as int);
        }
        let need: u64 = ceil_sqrt_within(rr - yy, r);
        let normal = if circle.center.x - shape.max.x >= shape.min.x - circle.center.x {
            Normal::Right
        } else {
            Normal::Left
        };
        Some(Contact { normal, depth: (need as i64) - sx })
    } else {
        proof {
            lemma_clearance(radius, gx as int, sy as int);
        }
        let need: u64 = ceil_sqrt_within(rr - xx, r);
        let normal = if circle.center.y - shape.max.y >= shape.min.y - circle.center.y {
            Normal::Up
        } else {
            Normal::Down
        };
        Some(Contact { normal, depth: (need as i64) - sy })
    }
}

/// Resolves a contact: moves the ball clear and lets its velocity rebound.
pub fn bounce(ball: Ball, contact: Contact) -> (after: Ball)
    requires
        ball.in_flight(),
        lands(ball.position, contact.normal, contact.depth),
    ensures
        after == bounced(ball, contact),
        after.in_flight(),
        after.velocity.norm_sq() == ball.velocity.norm_sq(),
        after.radius == ball.radius,
        after.team == ball.team,
{
    let position = match contact.normal {
        Normal::Left => Vector { x: ball.position.x - contact.depth, y: ball.position.y },
        Normal::Right => Vector { x: ball.position.x + contact.depth, y: ball.position.y },
        Normal::Down => Vector { x: ball.position.x, y: ball.position.y - contact.depth },
        Normal::Up => Vector { x: ball.position.x, y: ball.position.y + contact.depth },
    };
    Ball {
        position,
        velocity: ball.velocity.rebound(contact.normal),
        radius: ball.radius,
        team: ball.team,
    }
}

/// The contact of a circle with one side of the outer wall, named by the
/// normal that points from that side into the field. The depth is what the
/// circle lacks to be wholly on the inner side; a circle that only touches
/// the wall is not in contact.
pub open spec fn wall_contact(field: Field, inward: Normal, circle: Circle) -> Option<Contact> {
    let depth: int = match inward {
        Normal::Right => field.left() + circle.radius - circle.center.x,
        Normal::Left => circle.center.x - (field.right() - circle.radius),
        Normal::Up => field.bottom() + circle.radius - circle.center.y,
        Normal::Down => circle.center.y - (field.top() - circle.radius),
    };
    if depth > 0 {
        Some(Contact { normal: inward, depth: depth as i64 })
    } else {
        None
    }
}

/// The ball after its contact with one side of the wall, if any, is resolved.
pub open spec fn against_wall(field: Field, ball: Ball, inward: Normal) -> Ball {
    match wall_contact(field, inward, ball.shape()) {
        Some(c) => bounced(ball, c),
        None => ball,
    }
}

/// The ball after the four sides of the wall have been resolved in turn:
/// left, top, right, bottom.
pub open spec fn walled(field: Field, ball: Ball) -> Ball {
    against_wall(
        field,
        against_wall(
            field,
            against_wall(field, against_wall(field, ball, Normal::Right), Normal::Down),
            Normal::Left,
        ),
        Normal::Up,
    )
}

/// Two states of one ball: same radius, same team, same speed.
pub open spec fn same_body(before: Ball, after: Ball) -> bool {
    &&& after.radius == before.radius
    &&& after.team == before.team
    &&& after.velocity.norm_sq() == before.velocity.norm_sq()
    &&& after.velocity.within(LIMIT as int)
}

/// Resolving one side of the wall leaves the ball on the inner side of it,
/// keeps it where it was on the inner side of the others, and changes nothing
/// where the ball does not reach beyond that side.
pub proof fn lemma_against_wall(field: Field, ball: Ball, inward: Normal)
    requires
        field.wf(),
        ball.in_flight(),
        2 * ball.radius <= field.width(),
        2 * ball.radius <= field.height(),
    ensures
        ({
            let after = against_wall(field, ball, inward);
            let r = ball.radius;
            &&& after.in_flight()
            &&& same_body(ball, after)
            &&& wall_contact(field, inward, ball.shape()) is None ==> after == ball
            &&& wall_contact(field, inward, ball.shape()) matches Some(c) ==> lands(
                ball.position,
                c.normal,
                c.depth,
            )
            &&& inward == Normal::Right ==> after.position.x >= field.left() + r
            &&& inward == Normal::Left ==> after.position.x <= field.right() - r
            &&& inward == Normal::Up ==> after.position.y >= field.bottom() + r
            &&& inward == Normal::Down ==> after.position.y <= field.top() - r
            &&& ball.position.x >= field.left() + r ==> after.position.x >= field.left() + r
            &&& ball.position.x <= field.right() - r ==> after.position.x <= field.right() - r
            &&& ball.position.y >= field.bottom() + r ==> after.position.y >= field.bottom() + r
            &&& ball.position.y <= field.top() - r ==> after.position.y <= field.top() - r
        }),
{
    field.lemma_extent();
    lemma_rebound(ball.velocity, inward);
}

/// After the wall is resolved the ball lies wholly inside it, with the speed
/// it had. A ball that was inside already, touching the wall at most, is left
/// as it was.
pub proof fn lemma_walled(field: Field, ball: Ball)
    requires
        field.wf(),
        ball.in_flight(),
        2 * ball.radius <= field.width(),
        2 * ball.radius <= field.height(),
    ensures
        walled(field, ball).rests_in(field),
        same_body(ball, walled(field, ball)),
        ball.rests_in(field) ==> walled(field, ball) == ball,
{
    let b1 = against_wall(field, ball, Normal::Right);
    lemma_against_wall(field, ball, Normal::Right);
    let b2 = against_wall(field, b1, Normal::Down);
    lemma_against_wall(field, b1, Normal::Down);
    let b3 = against_wall(field, b2, Normal::Left);
    lemma_against_wall(field, b2, Normal::Left);
    lemma_against_wall(field, b3, Normal::Up);
}

/// Finds the [`wall_contact`] of a circle with one side of the wall.
pub fn wall_contact_of(field: Field, inward: Normal, circle: Circle) -> (r: Option<Contact>)
    requires
        field.wf(),
        circle.center.within(REACH as int),
        1 <= circle.radius <= LIMIT,
    ensures
        r == wall_contact(field, inward, circle),
{
    proof {
        field.lemma_extent();
    }
    let depth: i64 = match inward {
        Normal::Right => field.left() + circle.radius - circle.center.x,
        Normal::Left => circle.center.x - (field.right() - circle.radius),
        Normal::Up => field.bottom() + circle.radius - circle.center.y,
        Normal::Down => circle.center.y - (field.top() - circle.radius),
    };
    if depth > 0 {
        Some(Contact { normal: inward, depth })
    } else {
        None
    }
}

/// Resolves the contacts of a ball with the four sides of the wall.
pub fn confine(field: Field, ball: Ball) -> (after: Ball)
    requires
        field.wf(),
        ball.in_flight(),
        2 * ball.radius <= field.width(),
        2 * ball.radius <= field.height(),
    ensures
        after == walled(field, ball),
        after.rests_in(field),
        same_body(ball, after),
        ball.rests_in(field) ==> after == ball,
{
    proof {
        lemma_walled(field, ball);
    }
    let mut current = ball;
    let sides: [Normal; 4] = [Normal::Right, Normal::Down, Normal::Left, Normal::Up];
    let mut i: usize = 0;
    while i < 4
        invariant
            field.wf(),
            ball.in_flight(),
            2 * ball.radius <= field.width(),
            2 * ball.radius <= field.height(),
            i <= 4,
            sides@ == seq![Normal::Right, Normal::Down, Normal::Left, Normal::Up],
            current.in_flight(),
            current.radius == ball.radius,
            i == 0 ==> current == ball,
            i == 1 ==> current == against_wall(field, ball, Normal::Right),
            i == 2 ==> current == against_wall(
                field,
                against_wall(field, ball, Normal::Right),
                Normal::Down,
            ),
            i == 3 ==> current == against_wall(
                field,
                against_wall(field, against_wall(field, ball, Normal::Right), Normal::Down),
                Normal::Left,
            ),
            i == 4 ==> current == walled(field, ball),
        decreases 4 - i,
    {
        let inward = sides[i];
        proof {
            lemma_against_wall(field, current, inward);
        }
        match wall_contact_of(field, inward, current.shape()) {
            Some(c) => {
                current = bounce(current, c);
            },
            None => {},
        }
        i = i + 1;
    }
    current
}

/// The columns and rows of tiles that a box reaches over, ends included.
#[derive(Clone, Copy, Debug, PartialEq, Eq, Structural)]
pub struct Span {
    pub ix0: u32,
    pub ix1: u32,
    pub iy0: u32,
    pub iy1: u32,
}

/// `a` comes before `b` in ascending order of `(ix, iy)`.
pub open spec fn precedes(a: TileId, b: TileId) -> bool {
    a.ix < b.ix || (a.ix == b.ix && a.iy < b.iy)
}

impl Span {
    /// The span is not empty and lies in the grid.
    pub open spec fn wf(self, field: Field) -> bool {
        &&& self.ix0 <= self.ix1 < field.grid_width
        &&& self.iy0 <= self.iy1 < field.grid_height
    }

    /// The number of rows of the span.
    pub open spec fn rows(self) -> int {
        self.iy1 - self.iy0 + 1
    }

    /// The number of tiles of the span.
    pub open spec fn len(self) -> nat {
        ((self.ix1 - self.ix0 + 1) * (self.iy1 - self.iy0 + 1)) as nat
    }

    /// The `k`-th tile of the span in ascending order of `(ix, iy)`.
    pub open spec fn tile(self, k: int) -> TileId {
        TileId { ix: (self.ix0 + k / self.rows()) as u32, iy: (self.iy0 + k % self.rows()) as u32 }
    }

    /// A span has at least one tile and at most as many as the grid.
    pub proof fn lemma_len(self, field: Field)
        requires
            field.wf(),
            self.wf(field),
        ensures
            1 <= self.len() <= field.tile_count(),
            self.len() == (self.ix1 - self.ix0 + 1) * self.rows(),
    {
        field.lemma_extent();
        let rows = self.rows();
        let cols = self.ix1 - self.ix0 + 1;
        assert(cols * rows <= field.grid_width * field.grid_height && cols * rows >= 1)
            by (nonlinear_arith)
            requires
                1 <= cols <= field.grid_width,
                1 <= rows <= field.grid_height,
        ;
    }

    /// The tiles of a span lie in the grid and come in ascending order.
    pub proof fn lemma_tile(self, field: Field, j: int, k: int)
        requires
            field.wf(),
            self.wf(field),
            0 <= j <= k < self.len(),
        ensures
            field.holds(self.tile(k)),
            self.tile(k).ix == self.ix0 + k / self.rows(),
            self.tile(k).iy == self.iy0 + k % self.rows(),
            j < k ==> precedes(self.tile(j), self.tile(k)),
    {
        field.lemma_extent();
        let rows = self.rows();
        let cols = self.ix1 - self.ix0 + 1;
        assert(0 <= k / rows < cols && 0 <= k % rows < rows && k == (k / rows) * rows + k % rows)
            by (nonlinear_arith)
            requires
                0 <= k < cols * rows,
                rows >= 1,
        ;
        assert(0 <= j / rows <= k / rows && 0 <= j % rows < rows && j == (j / rows) * rows + j
            % rows) by (nonlinear_arith)
            requires
                0 <= j <= k,
                rows >= 1,
        ;
    }
}

/// The box around a circle of the given radius at both ends of a move.
pub open spec fn swept_bounds(from: Vector, to: Vector, radius: i64) -> Aabb {
    Aabb {
        min: Vector {
            x: (if from.x <= to.x {
                from.x
            } else {
                to.x
            } - radius) as i64,
            y: (if from.y <= to.y {
                from.y
            } else {
                to.y
            } - radius) as i64,
        },
        max: Vector {
            x: (if from.x <= to.x {
                to.x
            } else {
                from.x
            } + radius) as i64,
            y: (if from.y <= to.y {
                to.y
            } else {
                from.y
            } + radius) as i64,
        },
    }
}

/// The tiles a box reaches over: from the column and row of its lower left
/// corner to those of its upper right corner.
pub open spec fn span_of(field: Field, bounds: Aabb) -> Span {
    Span {
        ix0: field.column_of(bounds.min.x),
        ix1: field.column_of(bounds.max.x),
        iy0: field.row_of(bounds.min.y),
        iy1: field.row_of(bounds.max.y),
    }
}

/// Computes the [`swept_bounds`] of a move.
pub fn sweep_bounds(from: Vector, to: Vector, radius: i64) -> (b: Aabb)
    requires
        from.within(REACH as int),
        to.within(REACH as int),
        0 <= radius <= LIMIT,
    ensures
        b == swept_bounds(from, to, radius),
        b.min.x <= b.max.x,
        b.min.y <= b.max.y,
{
    let (x0, x1): (i64, i64) = if from.x <= to.x {
        (from.x, to.x)
    } else {
        (to.x, from.x)
    };
    let (y0, y1): (i64, i64) = if from.y <= to.y {
        (from.y, to.y)
    } else {
        (to.y, from.y)
    };
    Aabb {
        min: Vector { x: x0 - radius, y: y0 - radius },
        max: Vector { x: x1 + radius, y: y1 + radius },
    }
}

/// Computes the [`span_of`] a box: the broad phase.
pub fn span_over(field: Field, bounds: Aabb) -> (span: Span)
    requires
        field.wf(),
        bounds.min.x <= bounds.max.x,
        bounds.min.y <= bounds.max.y,
    ensures
        span == span_of(field, bounds),
        span.wf(field),
{
    proof {
        field.lemma_cells(bounds.min.x, bounds.max.x);
        field.lemma_cells(bounds.min.y, bounds.max.y);
    }
    Span {
        ix0: field.column_of(bounds.min.x),
        ix1: field.column_of(bounds.max.x),
        iy0: field.row_of(bounds.min.y),
        iy1: field.row_of(bounds.max.y),
    }
}

} // verus!
