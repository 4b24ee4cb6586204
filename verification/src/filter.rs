//! Teams, collision layers and the filter that decides which bodies interact.

use vstd::prelude::*;

verus! {

/// One of the two opposing sides.
#[derive(Clone, Copy, Debug, PartialEq, Eq, Structural)]
pub enum Team {
    A,
    B,
}

/// The vocabulary of the collision filter: one layer per team and one for the wall.
#[derive(Clone, Copy, Debug, PartialEq, Eq, Structural)]
pub enum Layer {
    A,
    B,
    Wall,
}

/// A set of layers, kept as a bit mask (bit 0: `A`, bit 1: `B`, bit 2: `Wall`).
///
/// Bits above the third stand for no layer and are ignored everywhere.
#[derive(Clone, Copy, Debug, PartialEq, Eq, Structural)]
pub struct LayerMask {
    pub bits: u8,
}

/// The layers a body belongs to and the layers it is willing to touch.
#[derive(Clone, Copy, Debug, PartialEq, Eq, Structural)]
pub struct CollisionFilter {
    pub membership: LayerMask,
    pub acceptance: LayerMask,
}

impl Team {
    /// The other team.
    pub open spec fn spec_opposite(self) -> Team {
        match self {
            Team::A => Team::B,
            Team::B => Team::A,
        }
    }

    /// The other team.
    #[verifier::when_used_as_spec(spec_opposite)]
    pub fn opposite(self) -> (t: Team)
        ensures
            t == self.spec_opposite(),
    {
        match self {
            Team::A => Team::B,
            Team::B => Team::A,
        }
    }

    /// The sprite that shows a tile of this team: 0 for `A`, 1 for `B`.
    pub open spec fn spec_sprite_index(self) -> u32 {
        match self {
            Team::A => 0,
            Team::B => 1,
        }
    }

    /// The sprite that shows a tile of this team: 0 for `A`, 1 for `B`.
    #[verifier::when_used_as_spec(spec_sprite_index)]
    pub fn sprite_index(self) -> (index: u32)
        ensures
            index == self.spec_sprite_index(),
    {
        match self {
            Team::A => 0,
            Team::B => 1,
        }
    }

    /// The team a sprite index stands for, if any.
    pub fn from_sprite_index(index: u32) -> (team: Option<Team>)
        ensures
            team == (if index == 0 {
                Some(Team::A)
            } else if index == 1 {
                Some(Team::B)
            } else {
                None
            }),
            team matches Some(t) ==> t.sprite_index() == index,
    {
        if index == 0 {
            Some(Team::A)
        } else if index == 1 {
            Some(Team::B)
        } else {
            None
        }
    }
}

impl Layer {
    /// The layer of a team's bodies.
    pub open spec fn spec_of(team: Team) -> Layer {
        match team {
            Team::A => Layer::A,
            Team::B => Layer::B,
        }
    }

    /// The layer of a team's bodies.
    #[verifier::when_used_as_spec(spec_of)]
    pub fn of(team: Team) -> (layer: Layer)
        ensures
            layer == Layer::spec_of(team),
    {
        match team {
            Team::A => Layer::A,
            Team::B => Layer::B,
        }
    }

    /// The mask bit that stands for this layer.
    pub open spec fn spec_bit(self) -> u8 {
        match self {
            Layer::A => 1,
            Layer::B => 2,
            Layer::Wall => 4,
        }
    }

    /// The mask bit that stands for this layer.
    #[verifier::when_used_as_spec(spec_bit)]
    pub fn bit(self) -> (b: u8)
        ensures
            b == self.spec_bit(),
    {
        match self {
            Layer::A => 1,
            Layer::B => 2,
            Layer::Wall => 4,
        }
    }
}

impl View for LayerMask {
    type V = Set<Layer>;

    /// The layers whose bit is set in the mask.
    open spec fn view(&self) -> Set<Layer> {
        Set::new(|l: Layer| self.bits & l.bit() != 0)
    }
}

/// How the three layer bits of a mask decide its members and its overlap with another mask.
pub proof fn lemma_mask_bits(a: u8, b: u8)
    ensures
        (a & b & 7 != 0) == ((a & 1 != 0 && b & 1 != 0) || (a & 2 != 0 && b & 2 != 0) || (a & 4
            != 0 && b & 4 != 0)),
        (a | b) & 1 != 0 <==> a & 1 != 0 || b & 1 != 0,
        (a | b) & 2 != 0 <==> a & 2 != 0 || b & 2 != 0,
        (a | b) & 4 != 0 <==> a & 4 != 0 || b & 4 != 0,
        0u8 & b == 0,
        1u8 & 1 != 0 && 1u8 & 2 == 0 && 1u8 & 4 == 0,
        2u8 & 1 == 0 && 2u8 & 2 != 0 && 2u8 & 4 == 0,
        4u8 & 1 == 0 && 4u8 & 2 == 0 && 4u8 & 4 != 0,
{
    assert((a & b & 7 != 0) == ((a & 1 != 0 && b & 1 != 0) || (a & 2 != 0 && b & 2 != 0) || (a & 4
        != 0 && b & 4 != 0))) by (bit_vector);
    assert(((a | b) & 1 != 0 <==> a & 1 != 0 || b & 1 != 0) && ((a | b) & 2 != 0 <==> a & 2 != 0
        || b & 2 != 0) && ((a | b) & 4 != 0 <==> a & 4 != 0 || b & 4 != 0)) by (bit_vector);
    assert(0u8 & b == 0) by (bit_vector);
    assert(1u8 & 1 != 0 && 1u8 & 2 == 0 && 1u8 & 4 == 0 && 2u8 & 1 == 0 && 2u8 & 2 != 0 && 2u8 & 4
        == 0 && 4u8 & 1 == 0 && 4u8 & 2 == 0 && 4u8 & 4 != 0) by (bit_vector);
}

impl LayerMask {
    /// The mask of no layer.
    pub open spec fn spec_empty() -> LayerMask {
        LayerMask { bits: 0 }
    }

    /// The mask of one layer.
    pub open spec fn spec_single(layer: Layer) -> LayerMask {
        LayerMask { bits: layer.bit() }
    }

    /// The mask with `layer` added.
    pub open spec fn spec_with(self, layer: Layer) -> LayerMask {
        LayerMask { bits: self.bits | layer.bit() }
    }

    /// The mask of no layer.
    #[verifier::when_used_as_spec(spec_empty)]
    pub fn empty() -> (m: LayerMask)
        ensures
            m == LayerMask::spec_empty(),
            m@ == Set::<Layer>::empty(),
    {
        let m = LayerMask { bits: 0 };
        proof {
            lemma_mask_bits(0, 0);
            assert forall|l: Layer| !m@.contains(l) by {
                lemma_mask_bits(0, l.bit());
            }
            assert(m@ =~= Set::<Layer>::empty());
        }
        m
    }

    /// The mask of one layer.
    #[verifier::when_used_as_spec(spec_single)]
    pub fn single(layer: Layer) -> (m: LayerMask)
        ensures
            m == LayerMask::spec_single(layer),
            m@ == set![layer],
    {
        let m = LayerMask { bits: layer.bit() };
        proof {
            lemma_mask_bits(0, 0);
            assert(m@ =~= set![layer]);
        }
        m
    }

    /// The mask with `layer` added.
    #[verifier::when_used_as_spec(spec_with)]
    pub fn with(self, layer: Layer) -> (m: LayerMask)
        ensures
            m == self.spec_with(layer),
            m@ == self@.insert(layer),
    {
        let m = LayerMask { bits: self.bits | layer.bit() };
        proof {
            lemma_mask_bits(self.bits, layer.bit());
            assert(m@ =~= self@.insert(layer));
        }
        m
    }

    /// Whether `layer` is in the mask.
    pub fn contains(&self, layer: Layer) -> (b: bool)
        ensures
            b == self@.contains(layer),
    {
        self.bits & layer.bit() != 0
    }

    /// Whether the two masks have a layer in common.
    pub fn intersects(&self, other: &LayerMask) -> (b: bool)
        ensures
            b == share_layer(self@, other@),
    {
        proof {
            lemma_share_layer(*self, *other);
        }
        self.bits & other.bits & 7 != 0
    }
}

/// Two sets of layers have a member in common.
pub open spec fn share_layer(s: Set<Layer>, t: Set<Layer>) -> bool {
    exists|l: Layer| s.contains(l) && t.contains(l)
}

/// Two masks share a layer exactly when their three layer bits overlap.
pub proof fn lemma_share_layer(a: LayerMask, b: LayerMask)
    ensures
        share_layer(a@, b@) == (a.bits & b.bits & 7 != 0),
        share_layer(a@, b@) == !a@.disjoint(b@),
{
    lemma_mask_bits(a.bits, b.bits);
    if a.bits & b.bits & 7 != 0 {
        if a.bits & 1 != 0 && b.bits & 1 != 0 {
            assert(a@.contains(Layer::A) && b@.contains(Layer::A));
        } else if a.bits & 2 != 0 && b.bits & 2 != 0 {
            assert(a@.contains(Layer::B) && b@.contains(Layer::B));
        } else {
            assert(a@.contains(Layer::Wall) && b@.contains(Layer::Wall));
        }
    } else {
        assert forall|l: Layer| !(a@.contains(l) && b@.contains(l)) by {
            match l {
                Layer::A => {},
                Layer::B => {},
                Layer::Wall => {},
            }
        }
    }
    if share_layer(a@, b@) {
        let l = choose|l: Layer| a@.contains(l) && b@.contains(l);
        assert(a@.contains(l) && b@.contains(l));
    }
}

/// Two bodies interact exactly when each one's membership meets the other's
/// acceptance: the conjunction of both directions.
pub open spec fn interacts(x: CollisionFilter, y: CollisionFilter) -> bool {
    &&& share_layer(x.membership@, y.acceptance@)
    &&& share_layer(y.membership@, x.acceptance@)
}

/// Decides whether the bodies with filters `f_x` and `f_y` interact.
pub fn accepts(f_x: &CollisionFilter, f_y: &CollisionFilter) -> (b: bool)
    ensures
        b == interacts(*f_x, *f_y),
{
    f_x.membership.intersects(&f_y.acceptance) && f_y.membership.intersects(&f_x.acceptance)
}

impl CollisionFilter {
    /// The filter of a tile: it belongs to its team's layer and accepts the other team's.
    pub open spec fn spec_tile(team: Team) -> CollisionFilter {
        CollisionFilter {
            membership: LayerMask::single(Layer::of(team)),
            acceptance: LayerMask::single(Layer::of(team.opposite())),
        }
    }

    /// The filter of a ball: it belongs to its team's layer and accepts the
    /// other team's layer and the wall's.
    pub open spec fn spec_ball(team: Team) -> CollisionFilter {
        CollisionFilter {
            membership: LayerMask::single(Layer::of(team)),
            acceptance: LayerMask::single(Layer::of(team.opposite())).with(Layer::Wall),
        }
    }

    /// The filter of the wall: it belongs to the wall layer and accepts both teams.
    pub open spec fn spec_wall() -> CollisionFilter {
        CollisionFilter {
            membership: LayerMask::single(Layer::Wall),
            acceptance: LayerMask::single(Layer::A).with(Layer::B),
        }
    }

    /// The filter of a tile of the given team.
    #[verifier::when_used_as_spec(spec_tile)]
    pub fn tile(team: Team) -> (f: CollisionFilter)
        ensures
            f == CollisionFilter::spec_tile(team),
            f.membership@ == set![Layer::of(team)],
            f.acceptance@ == set![Layer::of(team.opposite())],
    {
        CollisionFilter {
            membership: LayerMask::single(Layer::of(team)),
            acceptance: LayerMask::single(Layer::of(team.opposite())),
        }
    }

    /// The filter of a ball of the given team.
    #[verifier::when_used_as_spec(spec_ball)]
    pub fn ball(team: Team) -> (f: CollisionFilter)
        ensures
            f == CollisionFilter::spec_ball(team),
            f.membership@ == set![Layer::of(team)],
            f.acceptance@ == set![Layer::of(team.opposite()), Layer::Wall],
    {
        CollisionFilter {
            membership: LayerMask::single(Layer::of(team)),
            acceptance: LayerMask::single(Layer::of(team.opposite())).with(Layer::Wall),
        }
    }

    /// The filter of the outer wall.
    #[verifier::when_used_as_spec(spec_wall)]
    pub fn wall() -> (f: CollisionFilter)
        ensures
            f == CollisionFilter::spec_wall(),
            f.membership@ == set![Layer::Wall],
            f.acceptance@ == set![Layer::A, Layer::B],
    {
        CollisionFilter {
            membership: LayerMask::single(Layer::Wall),
            acceptance: LayerMask::single(Layer::A).with(Layer::B),
        }
    }
}

/// Taking the opposite team twice gives the team back.
pub proof fn lemma_opposite_involution(team: Team)
    ensures
        team.opposite().opposite() == team,
        team.opposite() != team,
{
}

/// Interaction does not depend on the order of the two bodies.
pub proof fn lemma_interacts_symmetric(x: CollisionFilter, y: CollisionFilter)
    ensures
        interacts(x, y) == interacts(y, x),
{
}

/// A ball interacts with a tile exactly when the tile is on the other team.
pub proof fn lemma_ball_meets_opposing_tiles(ball: Team, tile: Team)
    ensures
        interacts(CollisionFilter::ball(ball), CollisionFilter::tile(tile)) <==> tile
            == ball.opposite(),
{
    let b = CollisionFilter::ball(ball);
    let t = CollisionFilter::tile(tile);
    lemma_share_layer(b.membership, t.acceptance);
    lemma_share_layer(t.membership, b.acceptance);
    lemma_filter_bits();
}

/// Every ball interacts with the wall, and no tile does.
pub proof fn lemma_wall_meets_balls_only(team: Team)
    ensures
        interacts(CollisionFilter::ball(team), CollisionFilter::wall()),
        !interacts(CollisionFilter::tile(team), CollisionFilter::wall()),
{
    let b = CollisionFilter::ball(team);
    let t = CollisionFilter::tile(team);
    let w = CollisionFilter::wall();
    lemma_share_layer(b.membership, w.acceptance);
    lemma_share_layer(w.membership, b.acceptance);
    lemma_share_layer(t.membership, w.acceptance);
    lemma_share_layer(w.membership, t.acceptance);
    lemma_filter_bits();
}

/// Two balls of one team never interact. Two balls of opposing teams pass the
/// filter, each accepting the other's layer: they are kept apart by the
/// physics step, which tests a ball against tiles and the wall only.
pub proof fn lemma_ball_pairs(first: Team, second: Team)
    ensures
        interacts(CollisionFilter::ball(first), CollisionFilter::ball(second)) <==> second
            == first.opposite(),
{
    let x = CollisionFilter::ball(first);
    let y = CollisionFilter::ball(second);
    lemma_share_layer(x.membership, y.acceptance);
    lemma_share_layer(y.membership, x.acceptance);
    lemma_filter_bits();
}

/// The mask arithmetic behind the three named filters.
proof fn lemma_filter_bits()
    ensures
        1u8 & 1 & 7 != 0,
        1u8 & 2 & 7 == 0,
        2u8 & 1 & 7 == 0,
        2u8 & 2 & 7 != 0,
        1u8 & (2u8 | 4u8) & 7 == 0,
        2u8 & (2u8 | 4u8) & 7 != 0,
        1u8 & (1u8 | 4u8) & 7 != 0,
        2u8 & (1u8 | 4u8) & 7 == 0,
        4u8 & (2u8 | 4u8) & 7 != 0,
        4u8 & (1u8 | 4u8) & 7 != 0,
        1u8 & (1u8 | 2u8) & 7 != 0,
        2u8 & (1u8 | 2u8) & 7 != 0,
        4u8 & 1 & 7 == 0,
        4u8 & 2 & 7 == 0,
{
    assert(1u8 & 1 & 7 != 0 && 1u8 & 2 & 7 == 0 && 2u8 & 1 & 7 == 0 && 2u8 & 2 & 7 != 0 && 1u8 & (
    2u8 | 4u8) & 7 == 0 && 2u8 & (2u8 | 4u8) & 7 != 0 && 1u8 & (1u8 | 4u8) & 7 != 0 && 2u8 & (1u8
        | 4u8) & 7 == 0 && 4u8 & (2u8 | 4u8) & 7 != 0 && 4u8 & (1u8 | 4u8) & 7 != 0 && 1u8 & (1u8
        | 2u8) & 7 != 0 && 2u8 & (1u8 | 2u8) & 7 != 0 && 4u8 & 1 & 7 == 0 && 4u8 & 2 & 7 == 0)
        by (bit_vector);
}

} // verus!
