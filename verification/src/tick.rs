//! The tick driver: one tick is one physics step followed by one flip pass.

use crate::flip::{after_flips, first_on, in_range, lemma_after_flips, lemma_first_on};
use crate::physics::same_body;
use crate::step::{
    after_step, event_precedes, lemma_step_events, lemma_step_through, sound_event, ContactEvent,
};
use crate::world::{World, WorldState};
use vstd::prelude::*;

verus! {

/// The world after one tick: the balls have been stepped, then the tiles
/// they struck have changed sides.
pub open spec fn after_tick(state: WorldState) -> WorldState {
    let step = after_step(state);
    after_flips(step.state, step.events)
}

/// The world after `n` ticks. Each tick starts from the world the one before
/// left behind.
pub open spec fn after_ticks(state: WorldState, n: nat) -> WorldState
    decreases n,
{
    if n == 0 {
        state
    } else {
        after_tick(after_ticks(state, (n - 1) as nat))
    }
}

/// The law of one tick. The world keeps its invariant: the grid and the
/// number of tiles stay, every tile's filter agrees with its team, and every
/// ball lies inside the outer wall. Every ball keeps its radius, team and
/// speed. A tile that no ball struck stays as it was, and a tile that was
/// struck is then on the other team.
pub proof fn lemma_tick(state: WorldState)
    requires
        state.wf(),
    ensures
        ({
            let after = after_tick(state);
            let events = after_step(state).events;
            &&& after.wf()
            &&& after.field == state.field
            &&& after.timestep == state.timestep
            &&& after.tiles.len() == state.tiles.len()
            &&& after.balls.len() == state.balls.len()
            &&& after.balls == after_step(state).state.balls
            &&& forall|b: int|
                0 <= b < state.balls.len() ==> same_body(state.balls[b], #[trigger] after.balls[b])
            &&& forall|t: int|
                0 <= t < state.tiles.len() ==> #[trigger] after.tiles[t] == (if first_on(
                    events,
                    state.tiles[t].id(),
                ) is Some {
                    state.tiles[t].flipped()
                } else {
                    state.tiles[t]
                })
        }),
{
    let step = after_step(state);
    let after = after_tick(state);
    lemma_step_through(state, state.balls.len());
    lemma_step_events(state, state.balls.len());
    lemma_after_flips(step.state, step.events);
    assert forall|t: int| 0 <= t < state.tiles.len() implies #[trigger] after.tiles[t] == (if first_on(
        step.events,
        state.tiles[t].id(),
    ) is Some {
        state.tiles[t].flipped()
    } else {
        state.tiles[t]
    }) by {
        let id = state.tiles[t].id();
        lemma_first_on(step.events, id);
        if first_on(step.events, id) is Some {
            let e = first_on(step.events, id)->Some_0;
            assert(sound_event(state, e));
            assert(id == state.field.id_at(t as usize));
            state.field.lemma_id_at(t as usize);
            assert(state.tile(id) == state.tiles[t]);
            assert(step.state.balls[e.ball as int].team == state.balls[e.ball as int].team);
        }
    }
}

/// The law of a run, for every number of ticks: the invariant of the world
/// holds, the grid and the number of tiles are those of the start, and every
/// ball has the radius, team and speed it started with.
pub proof fn lemma_ticks(state: WorldState, n: nat)
    requires
        state.wf(),
    ensures
        ({
            let after = after_ticks(state, n);
            &&& after.wf()
            &&& after.field == state.field
            &&& after.timestep == state.timestep
            &&& after.tiles.len() == state.field.grid_width * state.field.grid_height
            &&& after.balls.len() == state.balls.len()
            &&& forall|b: int|
                0 <= b < state.balls.len() ==> same_body(state.balls[b], #[trigger] after.balls[b])
            &&& forall|b: int|
                0 <= b < state.balls.len() ==> {
                    &&& state.field.left() < (#[trigger] after.balls[b]).position.x
                        < state.field.right()
                    &&& state.field.bottom() < after.balls[b].position.y < state.field.top()
                }
            &&& forall|t: int| 0 <= t < after.tiles.len() ==> (#[trigger] after.tiles[t]).wf()
        }),
    decreases n,
{
    state.field.lemma_extent();
    let after = after_ticks(state, n);
    if n == 0 {
        assert forall|b: int| 0 <= b < state.balls.len() implies same_body(
            state.balls[b],
            #[trigger] after.balls[b],
        ) by {
            state.balls[b].lemma_rest(state.field);
        }
    } else {
        let before = after_ticks(state, (n - 1) as nat);
        lemma_ticks(state, (n - 1) as nat);
        lemma_tick(before);
        assert forall|b: int| 0 <= b < state.balls.len() implies same_body(
            state.balls[b],
            #[trigger] after.balls[b],
        ) by {
            assert(same_body(state.balls[b], before.balls[b]));
            assert(same_body(before.balls[b], after.balls[b]));
        }
    }
    assert forall|b: int| 0 <= b < state.balls.len() implies {
        &&& state.field.left() < (#[trigger] after.balls[b]).position.x < state.field.right()
        &&& state.field.bottom() < after.balls[b].position.y < state.field.top()
    } by {
        after.balls[b].lemma_rest(state.field);
    }
}

/// A run is a function of the world it starts from: two runs of equal length
/// from equal worlds end in equal worlds, tick by tick.
pub proof fn lemma_replay(first: WorldState, second: WorldState, n: nat)
    requires
        first == second,
    ensures
        after_ticks(first, n) == after_ticks(second, n),
{
}

/// A run of `m + n` ticks is a run of `m` ticks followed by a run of `n` from
/// where the first ended.
pub proof fn lemma_ticks_compose(state: WorldState, m: nat, n: nat)
    ensures
        after_ticks(state, m + n) == after_ticks(after_ticks(state, m), n),
    decreases n,
{
    if n > 0 {
        lemma_ticks_compose(state, m, (n - 1) as nat);
        assert((m + n - 1) as nat == m + (n - 1) as nat);
    }
}

impl World {
    /// Advances the world by one tick and returns the contacts of its
    /// physics step, in the order in which they were resolved.
    pub fn tick(&mut self) -> (events: Vec<ContactEvent>)
        requires
            old(self).wf(),
        ensures
            final(self).wf(),
            final(self)@ == after_tick(old(self)@),
            events@ == after_step(old(self)@).events,
            final(self)@.field == old(self)@.field,
            final(self)@.timestep == old(self)@.timestep,
            final(self)@.tiles.len() == old(self)@.tiles.len(),
            final(self)@.balls.len() == old(self)@.balls.len(),
            forall|b: int|
                0 <= b < old(self)@.balls.len() ==> same_body(
                    old(self)@.balls[b],
                    #[trigger] final(self)@.balls[b],
                ),
            forall|i: int| 0 <= i < events@.len() ==> sound_event(old(self)@, #[trigger] events@[i]),
            forall|i: int, j: int|
                0 <= i < j < events@.len() ==> event_precedes(
                    #[trigger] events@[i],
                    #[trigger] events@[j],
                ) && events@[i] != events@[j],
    {
        proof {
            lemma_tick(self@);
        }
        let events = self.step();
        assert forall|i: int| 0 <= i < events@.len() implies in_range(self@, #[trigger] events@[i]) by {
            assert(sound_event(old(self)@, events@[i]));
        }
        self.flip_pass(&events);
        events
    }

    /// Advances the world by the given number of ticks.
    pub fn run(&mut self, ticks: u64)
        requires
            old(self).wf(),
        ensures
            final(self).wf(),
            final(self)@ == after_ticks(old(self)@, ticks as nat),
    {
        let mut done: u64 = 0;
        while done < ticks
            invariant
                done <= ticks,
                self.wf(),
                self@ == after_ticks(old(self)@, done as nat),
            decreases ticks - done,
        {
            let _ = self.tick();
            done = done + 1;
        }
    }
}

} // verus!
