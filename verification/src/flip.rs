//! The tile flip pass: every tile a ball struck goes over to that ball's
//! team. Where a tile occurs more than once in the contacts of a tick, the
//! first contact decides and the later ones are dropped.

use crate::body::{Ball, Tile};
use crate::field::TileId;
use crate::step::ContactEvent;
use crate::world::{World, WorldState};
use vstd::prelude::*;

verus! {

/// A contact that the filters cannot have produced: it names a body that is
/// not there, or it is the first contact of its tile and the tile is on the
/// ball's own team.
#[derive(Clone, Copy, Debug, PartialEq, Eq, Structural)]
pub struct InvariantViolation {
    /// The place of the offending contact in the list.
    pub event: usize,
}

/// The first of the contacts that names the given tile, if any.
pub open spec fn first_on(events: Seq<ContactEvent>, tile: TileId) -> Option<ContactEvent>
    decreases events.len(),
{
    if events.len() == 0 {
        None
    } else {
        match first_on(events.drop_last(), tile) {
            Some(e) => Some(e),
            None => if events.last().tile == tile {
                Some(events.last())
            } else {
                None
            },
        }
    }
}

/// `first_on` finds the contact of least index that names the tile.
pub proof fn lemma_first_on(events: Seq<ContactEvent>, tile: TileId)
    ensures
        match first_on(events, tile) {
            Some(e) => exists|i: int|
                {
                    &&& 0 <= i < events.len()
                    &&& #[trigger] events[i] == e
                    &&& e.tile == tile
                    &&& forall|j: int| 0 <= j < i ==> (#[trigger] events[j]).tile != tile
                },
            None => forall|j: int| 0 <= j < events.len() ==> (#[trigger] events[j]).tile != tile,
        },
    decreases events.len(),
{
    if events.len() > 0 {
        let front = events.drop_last();
        lemma_first_on(front, tile);
        match first_on(front, tile) {
            Some(e) => {
                let i = choose|i: int|
                    {
                        &&& 0 <= i < front.len()
                        &&& #[trigger] front[i] == e
                        &&& e.tile == tile
                        &&& forall|j: int| 0 <= j < i ==> (#[trigger] front[j]).tile != tile
                    };
                assert(events[i] == e);
                assert forall|j: int| 0 <= j < i implies (#[trigger] events[j]).tile != tile by {
                    assert(front[j] == events[j]);
                }
            },
            None => {
                assert forall|j: int| 0 <= j < events.len() - 1 implies (#[trigger] events[j]).tile
                    != tile by {
                    assert(front[j] == events[j]);
                }
                if events.last().tile == tile {
                    let i = events.len() - 1;
                    assert(events[i] == events.last());
                }
            },
        }
    }
}

/// The tile after the contacts of a tick: on the team of the ball that
/// struck it first, or as it was where none struck it.
pub open spec fn flipped_tile(balls: Seq<Ball>, events: Seq<ContactEvent>, tile: Tile) -> Tile {
    match first_on(events, tile.id()) {
        Some(e) => tile.with_team(balls[e.ball as int].team),
        None => tile,
    }
}

/// The world after the flip pass over the given contacts. Only tiles change.
pub open spec fn after_flips(state: WorldState, events: Seq<ContactEvent>) -> WorldState {
    WorldState {
        tiles: Seq::new(
            state.tiles.len(),
            |i: int| flipped_tile(state.balls, events, state.tiles[i]),
        ),
        ..state
    }
}

/// The contact names a ball and a tile of the world.
pub open spec fn in_range(state: WorldState, event: ContactEvent) -> bool {
    &&& event.ball < state.balls.len()
    &&& state.field.holds(event.tile)
}

/// The `i`-th contact is one that the filters cannot have produced: it names
/// a body that is not there, or no earlier contact names its tile and yet the
/// tile is not on the team opposing the ball's.
pub open spec fn stray(state: WorldState, events: Seq<ContactEvent>, i: int) -> bool {
    ||| !in_range(state, events[i])
    ||| (first_on(events.take(i), events[i].tile) is None && state.tile(events[i].tile).team
        != state.balls[events[i].ball as int].team.opposite())
}

/// The flip pass keeps the invariant of the world and the number of tiles,
/// and every tile stays where it is.
pub proof fn lemma_after_flips(state: WorldState, events: Seq<ContactEvent>)
    requires
        state.wf(),
    ensures
        after_flips(state, events).wf(),
        after_flips(state, events).tiles.len() == state.tiles.len(),
        after_flips(state, events).balls == state.balls,
        after_flips(state, events).field == state.field,
        after_flips(state, events).timestep == state.timestep,
{
    let after = after_flips(state, events);
    assert forall|i: int| 0 <= i < after.tiles.len() implies (#[trigger] after.tiles[i]).wf()
        && after.tiles[i].id() == after.field.id_at(i as usize) by {
        assert(state.tiles[i].wf());
    }
}

/// What one more contact adds to the flip pass: where no earlier contact
/// names its tile, that tile goes over to the ball's team; else nothing.
pub proof fn lemma_flip_one(state: WorldState, events: Seq<ContactEvent>, i: int)
    requires
        state.wf(),
        0 <= i < events.len(),
        in_range(state, events[i]),
    ensures
        ({
            let before = after_flips(state, events.take(i));
            let after = after_flips(state, events.take(i + 1));
            let e = events[i];
            let at = state.field.index(e.tile) as int;
            &&& 0 <= at < state.tiles.len()
            &&& first_on(events.take(i), e.tile) is Some ==> after == before
            &&& first_on(events.take(i), e.tile) is None ==> before.tiles[at] == state.tiles[at]
                && after.tiles == before.tiles.update(
                at,
                before.tiles[at].with_team(state.balls[e.ball as int].team),
            )
        }),
{
    let before = after_flips(state, events.take(i));
    let after = after_flips(state, events.take(i + 1));
    let e = events[i];
    let at = state.field.index(e.tile) as int;
    state.lemma_tile(e.tile);
    assert(events.take(i + 1).drop_last() =~= events.take(i));
    assert(events.take(i + 1).last() == e);
    assert forall|t: int| 0 <= t < state.tiles.len() && t != at implies after.tiles[t]
        == before.tiles[t] by {
        let id = state.tiles[t].id();
        assert(id == state.field.id_at(t as usize));
        state.field.lemma_id_at(t as usize);
        if id == e.tile {
            assert(state.field.index(id) == t);
        }
    }
    if first_on(events.take(i), e.tile) is Some {
        assert(after.tiles =~= before.tiles);
    } else {
        assert(after.tiles =~= before.tiles.update(
            at,
            before.tiles[at].with_team(state.balls[e.ball as int].team),
        ));
    }
}

/// Whether an earlier contact of the list names the tile of the `i`-th.
fn seen_before(events: &Vec<ContactEvent>, i: usize) -> (b: bool)
    requires
        i < events.len(),
    ensures
        b == first_on(events@.take(i as int), events@[i as int].tile) is Some,
{
    let tile = events[i].tile;
    let ghost front = events@.take(i as int);
    proof {
        lemma_first_on(front, tile);
    }
    let mut j: usize = 0;
    while j < i
        invariant
            i < events.len(),
            j <= i,
            tile == events@[i as int].tile,
            front == events@.take(i as int),
            forall|k: int| 0 <= k < j ==> (#[trigger] front[k]).tile != tile,
            first_on(front, tile) is None ==> forall|k: int|
                0 <= k < front.len() ==> (#[trigger] front[k]).tile != tile,
        decreases i - j,
    {
        if events[j].tile == tile {
            assert(front[j as int].tile == tile);
            return true;
        }
        j = j + 1;
    }
    proof {
        if first_on(front, tile) is Some {
            let e = first_on(front, tile)->Some_0;
            let k = choose|k: int|
                {
                    &&& 0 <= k < front.len()
                    &&& #[trigger] front[k] == e
                    &&& e.tile == tile
                    &&& forall|m: int| 0 <= m < k ==> (#[trigger] front[m]).tile != tile
                };
            assert(front[k].tile == tile);
        }
    }
    false
}

impl World {
    /// The flip pass over contacts that all name bodies of the world.
    pub(crate) fn flip_pass(&mut self, events: &Vec<ContactEvent>)
        requires
            old(self).wf(),
            forall|i: int| 0 <= i < events@.len() ==> in_range(old(self)@, #[trigger] events@[i]),
        ensures
            final(self).wf(),
            final(self)@ == after_flips(old(self)@, events@),
    {
        let ghost start = self@;
        proof {
            lemma_after_flips(start, events@.take(0));
            assert(events@.take(0) =~= Seq::<ContactEvent>::empty());
            assert(after_flips(start, events@.take(0)).tiles =~= start.tiles);
        }
        let n: usize = events.len();
        let mut i: usize = 0;
        while i < n
            invariant
                start.wf(),
                n == events.len(),
                i <= n,
                forall|k: int| 0 <= k < events@.len() ==> in_range(start, #[trigger] events@[k]),
                self@ == after_flips(start, events@.take(i as int)),
            decreases n - i,
        {
            proof {
                lemma_flip_one(start, events@, i as int);
                lemma_after_flips(start, events@.take(i as int));
                lemma_after_flips(start, events@.take(i + 1));
            }
            let event = events[i];
            assert(in_range(start, event));
            if !seen_before(events, i) {
                let at: usize = self.field.index(event.tile);
                let tile = self.tiles[at].with_team(self.balls[event.ball].team);
                self.tiles.set(at, tile);
            }
            i = i + 1;
        }
        proof {
            assert(events@.take(n as int) =~= events@);
            lemma_after_flips(start, events@);
        }
    }

    /// Tests whether the `i`-th contact is a stray one.
    fn is_stray(&self, events: &Vec<ContactEvent>, i: usize) -> (b: bool)
        requires
            self.wf(),
            i < events.len(),
        ensures
            b == stray(self@, events@, i as int),
    {
        let event = events[i];
        if event.ball >= self.balls.len() || !self.field.holds(event.tile) {
            return true;
        }
        if seen_before(events, i) {
            return false;
        }
        proof {
            self@.lemma_tile(event.tile);
        }
        let tile = self.tiles[self.field.index(event.tile)];
        tile.team != self.balls[event.ball].team.opposite()
    }

    /// Applies the contacts of a tick to the tiles, in the order of the list.
    ///
    /// The first contact of a tile puts it on the team of the ball that
    /// struck it; later contacts of the same tile are dropped. Where the list
    /// holds a stray contact, the first such is reported and nothing changes.
    pub fn apply_contacts(&mut self, events: &Vec<ContactEvent>) -> (r: Result<
        (),
        InvariantViolation,
    >)
        requires
            old(self).wf(),
        ensures
            final(self).wf(),
            match r {
                Ok(_) => {
                    &&& forall|i: int| 0 <= i < events@.len() ==> !stray(old(self)@, events@, i)
                    &&& final(self)@ == after_flips(old(self)@, events@)
                },
                Err(v) => {
                    &&& v.event < events@.len()
                    &&& stray(old(self)@, events@, v.event as int)
                    &&& forall|i: int| 0 <= i < v.event ==> !stray(old(self)@, events@, i)
                    &&& final(self)@ == old(self)@
                },
            },
    {
        let n: usize = events.len();
        let mut i: usize = 0;
        while i < n
            invariant
                self.wf(),
                self@ == old(self)@,
                n == events.len(),
                i <= n,
                forall|k: int| 0 <= k < i ==> !stray(self@, events@, k),
            decreases n - i,
        {
            if self.is_stray(events, i) {
                return Err(InvariantViolation { event: i });
            }
            i = i + 1;
        }
        assert forall|k: int| 0 <= k < events@.len() implies in_range(
            self@,
            #[trigger] events@[k],
        ) by {
            assert(!stray(self@, events@, k));
        }
        self.flip_pass(events);
        Ok(())
    }
}

} // verus!
