//! One physics step: every ball moves, its contacts with opposing tiles and
//! with the wall are resolved in a fixed order, and the tiles it struck are
//! reported.

use crate::body::{Ball, Tile};
use crate::field::{Field, TileId};
use crate::filter::{
    accepts, interacts, lemma_ball_meets_opposing_tiles, lemma_wall_meets_balls_only,
    CollisionFilter,
};
use crate::geometry::{lemma_rebound, LIMIT};
use crate::physics::{
    advance, advanced, bounce, bounced, confine, contact, contact_between, contact_ready,
    lemma_contact, lemma_displacement, lemma_walled, precedes, same_body, span_of, span_over,
    sweep_bounds, swept_bounds, walled, Contact, Span,
};
use crate::world::{World, WorldState};
use vstd::prelude::*;

verus! {

/// A ball struck a tile during a step. Contacts with the wall are resolved
/// but not reported.
#[derive(Clone, Copy, Debug, PartialEq, Eq, Structural)]
pub struct ContactEvent {
    /// The slot of the ball.
    pub ball: usize,
    /// The grid coordinates of the tile.
    pub tile: TileId,
}

/// A ball on its way through a step, and the tiles it has struck so far.
pub struct Trace {
    pub ball: Ball,
    pub hits: Seq<TileId>,
}

/// A world after a step, and the contacts of that step.
pub struct Outcome {
    pub state: WorldState,
    pub events: Seq<ContactEvent>,
}

/// The tiles are those of the field, each with the filter of its team.
pub open spec fn grid_ready(field: Field, tiles: Seq<Tile>) -> bool {
    &&& field.wf()
    &&& tiles.len() == field.tile_count()
    &&& forall|i: int| 0 <= i < tiles.len() ==> (#[trigger] tiles[i]).wf()
}

/// The contact of a ball with one tile: none where the filters of the two do
/// not let them interact.
pub open spec fn touch(field: Field, tiles: Seq<Tile>, ball: Ball, id: TileId) -> Option<Contact> {
    if interacts(ball.filter(), tiles[field.index(id) as int].filter) {
        contact(field.tile_bounds(id), ball.shape())
    } else {
        None
    }
}

/// The trace after the ball has been tested against one more tile, where it
/// then is: a contact is resolved at once and the tile recorded.
pub open spec fn visit(field: Field, tiles: Seq<Tile>, trace: Trace, id: TileId) -> Trace {
    match touch(field, tiles, trace.ball, id) {
        Some(c) => Trace { ball: bounced(trace.ball, c), hits: trace.hits.push(id) },
        None => trace,
    }
}

/// The trace of a ball after the first `k` tiles of a span have been visited
/// in ascending order of `(ix, iy)`.
pub open spec fn sweep(field: Field, tiles: Seq<Tile>, ball: Ball, span: Span, k: nat) -> Trace
    decreases k,
{
    if k == 0 {
        Trace { ball, hits: Seq::empty() }
    } else {
        visit(field, tiles, sweep(field, tiles, ball, span, (k - 1) as nat), span.tile(k - 1))
    }
}

/// One ball's step: it moves freely for one timestep, visits the tiles that
/// the box around its move reaches over, and is then held inside the wall,
/// which is tested against every ball whose filter lets the two interact.
#[verifier::opaque]
pub open spec fn stepped(field: Field, tiles: Seq<Tile>, timestep: i64, ball: Ball) -> Trace {
    let moved = advanced(ball, timestep);
    let span = span_of(field, swept_bounds(ball.position, moved.position, ball.radius));
    let swept = sweep(field, tiles, moved, span, span.len());
    Trace {
        ball: if interacts(swept.ball.filter(), CollisionFilter::wall()) {
            walled(field, swept.ball)
        } else {
            swept.ball
        },
        hits: swept.hits,
    }
}

/// The contacts of the ball in `slot` with the given tiles.
pub open spec fn events_of(slot: usize, hits: Seq<TileId>) -> Seq<ContactEvent> {
    hits.map_values(|id: TileId| ContactEvent { ball: slot, tile: id })
}

/// A visit keeps a ball within the bounds of flight, keeps its radius, team
/// and speed, and records the tile only if it is on the other team.
pub proof fn lemma_visit(field: Field, tiles: Seq<Tile>, trace: Trace, id: TileId)
    requires
        grid_ready(field, tiles),
        field.holds(id),
        trace.ball.in_flight(),
    ensures
        ({
            let after = visit(field, tiles, trace, id);
            &&& after.ball.in_flight()
            &&& same_body(trace.ball, after.ball)
            &&& contact_ready(field.tile_bounds(id), trace.ball.shape())
            &&& touch(field, tiles, trace.ball, id) matches Some(c) ==> crate::physics::lands(
                trace.ball.position,
                c.normal,
                c.depth,
            )
            &&& after.hits == trace.hits || (after.hits == trace.hits.push(id) && tiles[field.index(
                id,
            ) as int].team == trace.ball.team.opposite())
        }),
{
    field.lemma_tile(id);
    field.lemma_extent();
    let tile = tiles[field.index(id) as int];
    assert(tile.wf());
    lemma_ball_meets_opposing_tiles(trace.ball.team, tile.team);
    match touch(field, tiles, trace.ball, id) {
        Some(c) => {
            lemma_contact(field.tile_bounds(id), trace.ball.shape());
            lemma_rebound(trace.ball.velocity, c.normal);
        },
        None => {},
    }
}

/// What holds of a ball and its hits after any part of a sweep.
pub proof fn lemma_sweep(field: Field, tiles: Seq<Tile>, ball: Ball, span: Span, k: nat)
    requires
        grid_ready(field, tiles),
        span.wf(field),
        ball.in_flight(),
        k <= span.len(),
    ensures
        ({
            let t = sweep(field, tiles, ball, span, k);
            &&& t.ball.in_flight()
            &&& same_body(ball, t.ball)
            &&& forall|i: int|
                0 <= i < t.hits.len() ==> {
                    &&& field.holds(#[trigger] t.hits[i])
                    &&& tiles[field.index(t.hits[i]) as int].team == ball.team.opposite()
                    &&& (t.hits[i] == span.tile(k - 1) || precedes(t.hits[i], span.tile(k - 1)))
                }
            &&& forall|i: int, j: int|
                0 <= i < j < t.hits.len() ==> precedes(#[trigger] t.hits[i], #[trigger] t.hits[j])
        }),
    decreases k,
{
    if k > 0 {
        let before = sweep(field, tiles, ball, span, (k - 1) as nat);
        let id = span.tile(k - 1);
        lemma_sweep(field, tiles, ball, span, (k - 1) as nat);
        span.lemma_tile(field, k - 1, k - 1);
        lemma_visit(field, tiles, before, id);
        if k > 1 {
            span.lemma_tile(field, k - 2, k - 1);
        }
        let t = sweep(field, tiles, ball, span, k);
        assert forall|i: int| 0 <= i < t.hits.len() implies {
            &&& field.holds(#[trigger] t.hits[i])
            &&& tiles[field.index(t.hits[i]) as int].team == ball.team.opposite()
            &&& (t.hits[i] == span.tile(k - 1) || precedes(t.hits[i], span.tile(k - 1)))
        } by {
            if i < before.hits.len() {
                assert(t.hits[i] == before.hits[i]);
            }
        }
        assert forall|i: int, j: int| 0 <= i < j < t.hits.len() implies precedes(
            #[trigger] t.hits[i],
            #[trigger] t.hits[j],
        ) by {
            assert(t.hits[i] == before.hits[i]);
            if j < before.hits.len() {
                assert(t.hits[j] == before.hits[j]);
            }
        }
    }
}

/// The law of one ball's step. The ball ends wholly inside the outer wall
/// with the radius, team and speed it had, and every tile it struck lies in
/// the grid and was on the other team; the tiles come in ascending order of
/// `(ix, iy)`, so none comes twice.
pub proof fn lemma_stepped(field: Field, tiles: Seq<Tile>, timestep: i64, ball: Ball)
    requires
        grid_ready(field, tiles),
        1 <= timestep <= LIMIT,
        ball.rests_in(field),
    ensures
        ({
            let t = stepped(field, tiles, timestep, ball);
            &&& t.ball.rests_in(field)
            &&& same_body(ball, t.ball)
            &&& forall|i: int|
                0 <= i < t.hits.len() ==> {
                    &&& field.holds(#[trigger] t.hits[i])
                    &&& tiles[field.index(t.hits[i]) as int].team == ball.team.opposite()
                }
            &&& forall|i: int, j: int|
                0 <= i < j < t.hits.len() ==> precedes(#[trigger] t.hits[i], #[trigger] t.hits[j])
        }),
{
    reveal(stepped);
    ball.lemma_rest(field);
    field.lemma_extent();
    lemma_displacement(ball.velocity.x, timestep);
    lemma_displacement(ball.velocity.y, timestep);
    let moved = advanced(ball, timestep);
    let bounds = swept_bounds(ball.position, moved.position, ball.radius);
    let span = span_of(field, bounds);
    field.lemma_cells(bounds.min.x, bounds.max.x);
    field.lemma_cells(bounds.min.y, bounds.max.y);
    lemma_sweep(field, tiles, moved, span, span.len());
    let swept = sweep(field, tiles, moved, span, span.len());
    lemma_walled(field, swept.ball);
    lemma_wall_meets_balls_only(swept.ball.team);
}

/// Steps one ball and appends its contacts to `events`.
pub fn step_ball(
    field: Field,
    tiles: &Vec<Tile>,
    timestep: i64,
    ball: Ball,
    slot: usize,
    events: &mut Vec<ContactEvent>,
) -> (after: Ball)
    requires
        grid_ready(field, tiles@),
        1 <= timestep <= LIMIT,
        ball.rests_in(field),
    ensures
        after == stepped(field, tiles@, timestep, ball).ball,
        final(events)@ == old(events)@ + events_of(
            slot,
            stepped(field, tiles@, timestep, ball).hits,
        ),
        after.rests_in(field),
        same_body(ball, after),
{
    proof {
        reveal(stepped);
        ball.lemma_rest(field);
        field.lemma_extent();
        lemma_stepped(field, tiles@, timestep, ball);
    }
    let moved = advance(ball, timestep);
    let bounds = sweep_bounds(ball.position, moved.position, ball.radius);
    let span = span_over(field, bounds);
    proof {
        span.lemma_len(field);
    }
    let rows: u64 = (span.iy1 - span.iy0) as u64 + 1;
    let columns: u64 = (span.ix1 - span.ix0) as u64 + 1;
    assert(columns * rows == span.len());
    let count: u64 = columns * rows;
    let mut current = moved;
    let mut k: u64 = 0;
    let ghost mut hits: Seq<TileId> = Seq::empty();
    proof {
        assert(old(events)@ + events_of(slot, hits) =~= old(events)@);
    }
    while k < count
        invariant
            grid_ready(field, tiles@),
            span.wf(field),
            rows == span.rows(),
            count == span.len(),
            k <= count,
            moved.in_flight(),
            current.in_flight(),
            (Trace { ball: current, hits }) == sweep(field, tiles@, moved, span, k as nat),
            events@ == old(events)@ + events_of(slot, hits),
        decreases count - k,
    {
        proof {
            span.lemma_tile(field, k as int, k as int);
            lemma_sweep(field, tiles@, moved, span, k as nat);
        }
        let id = TileId { ix: span.ix0 + (k / rows) as u32, iy: span.iy0 + (k % rows) as u32 };
        assert(id == span.tile(k as int));
        proof {
            lemma_visit(field, tiles@, Trace { ball: current, hits }, id);
        }
        let tile = tiles[field.index(id)];
        if accepts(&current.filter(), &tile.filter) {
            match contact_between(field.tile_bounds(id), current.shape()) {
                Some(c) => {
                    current = bounce(current, c);
                    events.push(ContactEvent { ball: slot, tile: id });
                    proof {
                        assert(events_of(slot, hits.push(id)) =~= events_of(slot, hits).push(
                            ContactEvent { ball: slot, tile: id },
                        ));
                        hits = hits.push(id);
                    }
                },
                None => {},
            }
        }
        k = k + 1;
    }
    proof {
        lemma_sweep(field, tiles@, moved, span, count as nat);
        lemma_wall_meets_balls_only(current.team);
    }
    if accepts(&current.filter(), &CollisionFilter::wall()) {
        confine(field, current)
    } else {
        current
    }
}

/// The world and the contacts after the balls in the first `n` slots have
/// been stepped, in the order of their slots. No tile changes during a step,
/// so every ball meets the grid as it was when the step began.
pub open spec fn step_through(state: WorldState, n: nat) -> Outcome
    decreases n,
{
    if n == 0 {
        Outcome { state, events: Seq::empty() }
    } else {
        let before = step_through(state, (n - 1) as nat);
        let trace = stepped(state.field, state.tiles, state.timestep, state.balls[n - 1]);
        Outcome {
            state: WorldState {
                balls: before.state.balls.update(n - 1, trace.ball),
                ..before.state
            },
            events: before.events + events_of((n - 1) as usize, trace.hits),
        }
    }
}

/// The world after one physics step, and the contacts of that step.
pub open spec fn after_step(state: WorldState) -> Outcome {
    step_through(state, state.balls.len())
}

/// The event names a ball and a tile of the world, and the tile is on the
/// team opposing the ball's.
pub open spec fn sound_event(state: WorldState, event: ContactEvent) -> bool {
    &&& event.ball < state.balls.len()
    &&& state.field.holds(event.tile)
    &&& state.tile(event.tile).team == state.balls[event.ball as int].team.opposite()
}

/// `a` comes before `b` in the order of a step's contacts: by slot of the
/// ball, then by `(ix, iy)` of the tile.
pub open spec fn event_precedes(a: ContactEvent, b: ContactEvent) -> bool {
    a.ball < b.ball || (a.ball == b.ball && precedes(a.tile, b.tile))
}

/// What a step leaves alone: grid, tiles and timestep, the number of balls,
/// and every ball that has not been stepped yet.
pub proof fn lemma_step_frame(state: WorldState, n: nat)
    requires
        n <= state.balls.len(),
    ensures
        ({
            let o = step_through(state, n);
            &&& o.state.field == state.field
            &&& o.state.timestep == state.timestep
            &&& o.state.tiles == state.tiles
            &&& o.state.balls.len() == state.balls.len()
            &&& forall|b: int|
                0 <= b < state.balls.len() ==> #[trigger] o.state.balls[b] == (if b < n {
                    stepped(state.field, state.tiles, state.timestep, state.balls[b]).ball
                } else {
                    state.balls[b]
                })
        }),
    decreases n,
{
    if n > 0 {
        lemma_step_frame(state, (n - 1) as nat);
    }
}

/// The contacts of a step, for the balls stepped so far: each is between a
/// ball and a tile of the opposing team, and they come in strictly ascending
/// order, so no pair of ball and tile is reported twice.
pub proof fn lemma_step_events(state: WorldState, n: nat)
    requires
        state.wf(),
        n <= state.balls.len(),
    ensures
        ({
            let events = step_through(state, n).events;
            &&& forall|i: int|
                0 <= i < events.len() ==> sound_event(state, #[trigger] events[i]) && events[i].ball
                    < n
            &&& forall|i: int, j: int|
                0 <= i < j < events.len() ==> event_precedes(
                    #[trigger] events[i],
                    #[trigger] events[j],
                )
        }),
    decreases n,
{
    if n > 0 {
        let before = step_through(state, (n - 1) as nat).events;
        lemma_step_events(state, (n - 1) as nat);
        let ball = state.balls[n - 1];
        let trace = stepped(state.field, state.tiles, state.timestep, ball);
        lemma_stepped(state.field, state.tiles, state.timestep, ball);
        let added = events_of((n - 1) as usize, trace.hits);
        let events = step_through(state, n).events;
        assert(events == before + added);
        assert forall|i: int| 0 <= i < events.len() implies sound_event(state, #[trigger] events[i])
            && events[i].ball < n by {
            if i < before.len() {
                assert(events[i] == before[i]);
            } else {
                let h = i - before.len();
                assert(events[i] == added[h]);
                assert(added[h].tile == trace.hits[h]);
            }
        }
        assert forall|i: int, j: int| 0 <= i < j < events.len() implies event_precedes(
            #[trigger] events[i],
            #[trigger] events[j],
        ) by {
            if j < before.len() {
                assert(events[i] == before[i]);
                assert(events[j] == before[j]);
            } else if i < before.len() {
                assert(events[i] == before[i]);
                assert(events[j] == added[j - before.len()]);
            } else {
                let g = i - before.len();
                let h = j - before.len();
                assert(events[i] == added[g]);
                assert(events[j] == added[h]);
                assert(precedes(trace.hits[g], trace.hits[h]));
            }
        }
    }
}

/// The law of the physics step, for the balls stepped so far.
///
/// The world keeps its invariant, so every ball lies inside the outer wall;
/// grid, tiles and timestep are as before; and every ball keeps its radius,
/// team and speed.
pub proof fn lemma_step_through(state: WorldState, n: nat)
    requires
        state.wf(),
        n <= state.balls.len(),
    ensures
        ({
            let o = step_through(state, n);
            &&& o.state.wf()
            &&& o.state.field == state.field
            &&& o.state.timestep == state.timestep
            &&& o.state.tiles == state.tiles
            &&& o.state.balls.len() == state.balls.len()
            &&& forall|b: int|
                0 <= b < state.balls.len() ==> same_body(state.balls[b], #[trigger] o.state.balls[b])
        }),
{
    let o = step_through(state, n);
    lemma_step_frame(state, n);
    assert forall|b: int| 0 <= b < state.balls.len() implies same_body(
        state.balls[b],
        #[trigger] o.state.balls[b],
    ) && o.state.balls[b].rests_in(state.field) by {
        let ball = state.balls[b];
        assert(ball.rests_in(state.field));
        if b < n {
            lemma_stepped(state.field, state.tiles, state.timestep, ball);
        } else {
            ball.lemma_rest(state.field);
        }
    }
}

impl World {
    /// Advances every ball by one timestep and resolves its contacts.
    ///
    /// The balls are stepped in the order of their slots. Each moves freely,
    /// is tested against the tiles its move reaches over, in ascending order
    /// of `(ix, iy)` and each at the place where the ball then is, and at
    /// last against the wall. The result lists the tiles struck, in that
    /// order; no tile changes here.
    pub fn step(&mut self) -> (events: Vec<ContactEvent>)
        requires
            old(self).wf(),
        ensures
            final(self).wf(),
            final(self)@ == after_step(old(self)@).state,
            events@ == after_step(old(self)@).events,
            final(self)@.field == old(self)@.field,
            final(self)@.timestep == old(self)@.timestep,
            final(self)@.tiles == old(self)@.tiles,
            final(self)@.balls.len() == old(self)@.balls.len(),
            forall|b: int|
                0 <= b < old(self)@.balls.len() ==> same_body(
                    old(self)@.balls[b],
                    #[trigger] final(self)@.balls[b],
                ),
            forall|i: int| 0 <= i < events@.len() ==> sound_event(old(self)@, #[trigger] events@[i]),
            forall|i: int, j: int|
                0 <= i < j < events@.len() ==> event_precedes(
                    #[trigger] events@[i],
                    #[trigger] events@[j],
                ) && events@[i] != events@[j],
    {
        let ghost start = self@;
        let mut events: Vec<ContactEvent> = Vec::new();
        let n: usize = self.balls.len();
        let mut b: usize = 0;
        while b < n
            invariant
                start.wf(),
                n == start.balls.len(),
                b <= n,
                self@ == step_through(start, b as nat).state,
                events@ == step_through(start, b as nat).events,
            decreases n - b,
        {
            proof {
                lemma_step_through(start, b as nat);
                lemma_step_frame(start, b as nat);
                lemma_step_frame(start, (b + 1) as nat);
            }
            let ball = self.balls[b];
            let after = step_ball(self.field, &self.tiles, self.timestep, ball, b, &mut events);
            self.balls.set(b, after);
            b = b + 1;
        }
        proof {
            lemma_step_through(start, n as nat);
            lemma_step_events(start, n as nat);
        }
        events
    }
}

} // verus!
