//! Tiles, directions, and the rotation rules for tile variants.

use vstd::prelude::*;

verus! {

/// Connection labels at or above this value were generated by the
/// multi-cell tile composer.  They are "synthetic": internal seam
/// labels, scaled on rotation so that differently rotated copies of a
/// composite tile cannot match each other at a seam.
pub const SYNTHETIC_MIN: usize = 1000;

/// Largest connection label the library works with.  A label may be
/// scaled by up to 4 when a tile is rotated, and the scaled value must
/// still fit in a `usize`.
pub const LABEL_MAX: usize = usize::MAX / 4;

/// One of the six grid directions.  The first four lie in the
/// horizontal plane and are cycled by rotation; `UP` and `DOWN` are
/// the vertical axis.
#[allow(non_camel_case_types)]
#[derive(Clone, Copy, Debug, PartialEq, Eq, Structural)]
pub enum Direction {
    NORTH,
    EAST,
    SOUTH,
    WEST,
    UP,
    DOWN,
}

impl Direction {
    /// Slot of this direction in a tile's connection-label tuple.
    pub open spec fn index_spec(self) -> int {
        match self {
            Direction::NORTH => 0,
            Direction::EAST => 1,
            Direction::SOUTH => 2,
            Direction::WEST => 3,
            Direction::UP => 4,
            Direction::DOWN => 5,
        }
    }

    /// The opposite direction.
    pub open spec fn flip_spec(self) -> Direction {
        match self {
            Direction::NORTH => Direction::SOUTH,
            Direction::EAST => Direction::WEST,
            Direction::UP => Direction::DOWN,
            Direction::SOUTH => Direction::NORTH,
            Direction::WEST => Direction::EAST,
            Direction::DOWN => Direction::UP,
        }
    }

    /// The direction whose slot is `i`.
    pub open spec fn of_index(i: int) -> Direction {
        if i == 0 {
            Direction::NORTH
        } else if i == 1 {
            Direction::EAST
        } else if i == 2 {
            Direction::SOUTH
        } else if i == 3 {
            Direction::WEST
        } else if i == 4 {
            Direction::UP
        } else {
            Direction::DOWN
        }
    }

    pub fn as_index(&self) -> (r: usize)
        ensures
            r == self.index_spec(),
    {
        match self {
            Direction::NORTH => 0,
            Direction::EAST => 1,
            Direction::SOUTH => 2,
            Direction::WEST => 3,
            Direction::UP => 4,
            Direction::DOWN => 5,
        }
    }

    pub fn flip(&self) -> (r: Direction)
        ensures
            r == self.flip_spec(),
    {
        match self {
            Direction::NORTH => Direction::SOUTH,
            Direction::EAST => Direction::WEST,
            Direction::UP => Direction::DOWN,
            Direction::SOUTH => Direction::NORTH,
            Direction::WEST => Direction::EAST,
            Direction::DOWN => Direction::UP,
        }
    }

    pub fn from_index(i: usize) -> (r: Direction)
        requires
            i < 6,
        ensures
            r == Direction::of_index(i as int),
    {
        if i == 0 {
            Direction::NORTH
        } else if i == 1 {
            Direction::EAST
        } else if i == 2 {
            Direction::SOUTH
        } else if i == 3 {
            Direction::WEST
        } else if i == 4 {
            Direction::UP
        } else {
            Direction::DOWN
        }
    }
}

/// Each direction sits in its own slot, flipping moves to another
/// slot, and the slot determines the direction.
pub proof fn lemma_direction_index(d: Direction)
    ensures
        0 <= d.index_spec() < 6,
        Direction::of_index(d.index_spec()) == d,
        d.flip_spec().index_spec() != d.index_spec(),
{
}

/// An oriented tile variant: an identity (index into a rendering
/// atlas, opaque to the solver), one connection label per direction,
/// the rotation angle in degrees, and whether the catalog expansion
/// may rotate it further.
#[derive(Clone, Copy, Debug)]
pub struct WfcTile {
    pub index: u32,
    pub connection_types: [usize; 6],
    pub angle: u32,
    pub is_rotatable: bool,
}

/// Tile equality as the solver sees it: identity, labels and angle.
/// The rotation permission is bookkeeping, not part of the identity.
pub open spec fn same_tile(a: WfcTile, b: WfcTile) -> bool {
    a.index == b.index && a.connection_types@ == b.connection_types@ && a.angle == b.angle
}

impl PartialEq for WfcTile {
    fn eq(&self, other: &WfcTile) -> (r: bool) {
        let r = self.index == other.index && self.angle == other.angle
            && self.connection_types[0] == other.connection_types[0]
            && self.connection_types[1] == other.connection_types[1]
            && self.connection_types[2] == other.connection_types[2]
            && self.connection_types[3] == other.connection_types[3]
            && self.connection_types[4] == other.connection_types[4]
            && self.connection_types[5] == other.connection_types[5];
        proof {
            if r {
                assert(self.connection_types@ =~= other.connection_types@);
            }
        }
        r
    }
}

impl vstd::std_specs::cmp::PartialEqSpecImpl for WfcTile {
    open spec fn obeys_eq_spec() -> bool {
        true
    }

    open spec fn eq_spec(&self, other: &WfcTile) -> bool {
        same_tile(*self, *other)
    }
}

/// A tile the library can rotate safely: the stored angle is already
/// reduced modulo 360 and every label leaves room for rotation scaling.
pub open spec fn tile_ok(t: WfcTile) -> bool {
    &&& t.angle < 360
    &&& forall|i: int| 0 <= i < 6 ==> t.connection_types[i] <= LABEL_MAX
}

/// Rotation scaling of one label: synthetic labels are multiplied by
/// `k`, author labels are kept.
pub open spec fn scaled_label(l: usize, k: int) -> int {
    if l >= SYNTHETIC_MIN {
        l * k
    } else {
        l as int
    }
}

/// The tile produced by rotating `t` clockwise by `s` quarter turns
/// (`0 <= s < 4`): the four horizontal labels are cyclically permuted,
/// the vertical labels are rotation-scaled by `s + 1`, and the angle
/// advances by `90 * s` degrees.
pub open spec fn rotate_spec(t: WfcTile, s: int) -> WfcTile {
    WfcTile {
        index: t.index,
        connection_types: [
            t.connection_types[s % 4],
            t.connection_types[(s + 1) % 4],
            t.connection_types[(s + 2) % 4],
            t.connection_types[(s + 3) % 4],
            scaled_label(t.connection_types[4], s + 1) as usize,
            scaled_label(t.connection_types[5], s + 1) as usize,
        ],
        angle: ((t.angle + 90 * s) % 360) as u32,
        is_rotatable: t.is_rotatable,
    }
}

/// All four horizontal labels are the same: every quarter turn gives
/// an indistinguishable tile.
pub open spec fn full_symmetric(t: WfcTile) -> bool {
    &&& t.connection_types[1] == t.connection_types[0]
    &&& t.connection_types[2] == t.connection_types[0]
    &&& t.connection_types[3] == t.connection_types[0]
}

/// Two-fold symmetry: opposite sides agree, so only two rotations are
/// distinguishable.
pub open spec fn i_symmetric(t: WfcTile) -> bool {
    &&& t.connection_types[0] == t.connection_types[2]
    &&& t.connection_types[1] == t.connection_types[3]
}

/// The distinguishable oriented variants of one base tile: the tile
/// itself if it may not rotate or is fully symmetric, two rotations
/// for two-fold symmetry, and all four otherwise.
pub open spec fn expand_tile(t: WfcTile) -> Seq<WfcTile> {
    if !t.is_rotatable {
        seq![t]
    } else if full_symmetric(t) {
        seq![t]
    } else if i_symmetric(t) {
        seq![t, rotate_spec(t, 1)]
    } else {
        seq![rotate_spec(t, 0), rotate_spec(t, 1), rotate_spec(t, 2), rotate_spec(t, 3)]
    }
}

/// The full catalog expansion: each base tile's variants, in catalog
/// order.
pub open spec fn expand_list(ts: Seq<WfcTile>) -> Seq<WfcTile>
    decreases ts.len(),
{
    if ts.len() == 0 {
        Seq::empty()
    } else {
        expand_tile(ts[0]) + expand_list(ts.drop_first())
    }
}

/// Expansion processes the catalog front to back.
pub proof fn lemma_expand_push(ts: Seq<WfcTile>, t: WfcTile)
    ensures
        expand_list(ts.push(t)) == expand_list(ts) + expand_tile(t),
    decreases ts.len(),
{
    reveal_with_fuel(expand_list, 2);
    if ts.len() == 0 {
        assert(ts.push(t)[0] == t);
        assert(ts.push(t).drop_first() =~= Seq::<WfcTile>::empty());
        assert(expand_list(ts.push(t)) =~= expand_list(ts) + expand_tile(t));
    } else {
        assert(ts.push(t).drop_first() =~= ts.drop_first().push(t));
        lemma_expand_push(ts.drop_first(), t);
        assert(ts.push(t)[0] == ts[0]);
        assert(expand_list(ts.push(t)) == expand_tile(ts[0]) + expand_list(
            ts.drop_first().push(t),
        ));
        assert(expand_list(ts.push(t)) == expand_tile(ts[0]) + (expand_list(ts.drop_first())
            + expand_tile(t)));
        assert(expand_list(ts) == expand_tile(ts[0]) + expand_list(ts.drop_first()));
        assert(expand_list(ts.push(t)) =~= expand_list(ts) + expand_tile(t));
    }
}

impl WfcTile {
    /// Rotate this tile in place by `rot` quarter turns (taken modulo
    /// 4).  See `rotate_spec` for the exact effect.
    pub fn rotate(&mut self, rot: u32)
        requires
            tile_ok(*old(self)),
        ensures
            *final(self) == rotate_spec(*old(self), rot as int % 4),
    {
        let s: usize = (rot % 4) as usize;
        self.angle = (self.angle + 90 * (s as u32)) % 360;
        let arr = self.connection_types;
        let mut up_dir = arr[4];
        if up_dir >= SYNTHETIC_MIN {
            proof {
                assert(up_dir * (s + 1) <= usize::MAX) by (nonlinear_arith)
                    requires
                        up_dir <= usize::MAX / 4,
                        s <= 3,
                ;
            }
            up_dir = up_dir * (s + 1);
        }
        let mut down_dir = arr[5];
        if down_dir >= SYNTHETIC_MIN {
            proof {
                assert(down_dir * (s + 1) <= usize::MAX) by (nonlinear_arith)
                    requires
                        down_dir <= usize::MAX / 4,
                        s <= 3,
                ;
            }
            down_dir = down_dir * (s + 1);
        }
        self.connection_types = [
            arr[s % 4],
            arr[(s + 1) % 4],
            arr[(s + 2) % 4],
            arr[(s + 3) % 4],
            up_dir,
            down_dir,
        ];
        proof {
            assert(self.connection_types =~= rotate_spec(*old(self), rot as int % 4)
                .connection_types);
        }
    }
}

} // verus!
