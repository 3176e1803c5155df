//! The grid of domains: a flat, linearly addressed 3-dimensional map
//! in which every cell holds the list of tile variants still possible
//! there.

use vstd::prelude::*;
use crate::tile::{Direction, WfcTile, same_tile};

verus! {

/// A coordinate triple `[x, y, z]`.
pub type Position = [usize; 3];

/// The predicate that keeps every tile except `tile`: what the
/// backtracking removal filters a domain with.
pub open spec fn not_tile(tile: WfcTile) -> spec_fn(WfcTile) -> bool {
    |x: WfcTile| !same_tile(x, tile)
}

/// Flat offset of a position: `x + y*width + z*width*height`.
pub open spec fn flat_index(size: [usize; 3], p: Position) -> int {
    p[0] + p[1] * size[0] + p[2] * size[0] * size[1]
}

/// Every coordinate lies inside the grid bounds.
pub open spec fn pos_ok(size: [usize; 3], p: Position) -> bool {
    p[0] < size[0] && p[1] < size[1] && p[2] < size[2]
}

/// Unit step of each direction, as coordinate deltas.
pub open spec fn dir_delta(d: Direction) -> (int, int, int) {
    match d {
        Direction::NORTH => (0, -1, 0),
        Direction::EAST => (-1, 0, 0),
        Direction::SOUTH => (0, 1, 0),
        Direction::WEST => (1, 0, 0),
        Direction::UP => (0, 0, 1),
        Direction::DOWN => (0, 0, -1),
    }
}

/// The neighbouring position one step in direction `d`, or `None`
/// when that step leaves the grid.
pub open spec fn step_pos(size: [usize; 3], p: Position, d: Direction) -> Option<Position> {
    let (dx, dy, dz) = dir_delta(d);
    let x = p[0] + dx;
    let y = p[1] + dy;
    let z = p[2] + dz;
    if 0 <= x < size[0] && 0 <= y < size[1] && 0 <= z < size[2] {
        Some([x as usize, y as usize, z as usize])
    } else {
        None
    }
}

pub proof fn lemma_flat_index_bounds(size: [usize; 3], p: Position)
    requires
        pos_ok(size, p),
    ensures
        0 <= flat_index(size, p),
        flat_index(size, p) < size[0] * size[1] * size[2],
{
    assert(p[0] + p[1] * size[0] + p[2] * size[0] * size[1] < size[0] * size[1] * size[2])
        by (nonlinear_arith)
        requires
            p[0] < size[0],
            p[1] < size[1],
            p[2] < size[2],
    ;
}

/// The position whose flat offset is `i`: the inverse of
/// `flat_index`.
pub open spec fn pos_of_flat(size: [usize; 3], i: int) -> Position {
    [
        (i % (size[0] as int)) as usize,
        ((i / (size[0] as int)) % (size[1] as int)) as usize,
        (i / (size[0] as int * size[1] as int)) as usize,
    ]
}

pub proof fn lemma_pos_of_flat(size: [usize; 3], i: int)
    requires
        0 <= i < size[0] * size[1] * size[2],
    ensures
        pos_ok(size, pos_of_flat(size, i)),
        flat_index(size, pos_of_flat(size, i)) == i,
{
    let s0 = size[0] as int;
    let s1 = size[1] as int;
    let s2 = size[2] as int;
    assert(s0 >= 1 && s1 >= 1 && s2 >= 1) by (nonlinear_arith)
        requires
            s0 >= 0,
            s1 >= 0,
            s2 >= 0,
            0 <= i < s0 * s1 * s2,
    ;
    let x = i % s0;
    let r1 = i / s0;
    vstd::arithmetic::div_mod::lemma_fundamental_div_mod(i, s0);
    vstd::arithmetic::div_mod::lemma_mod_bound(i, s0);
    vstd::arithmetic::div_mod::lemma_div_pos_is_pos(i, s0);
    let y = r1 % s1;
    let z1 = r1 / s1;
    vstd::arithmetic::div_mod::lemma_fundamental_div_mod(r1, s1);
    vstd::arithmetic::div_mod::lemma_mod_bound(r1, s1);
    vstd::arithmetic::div_mod::lemma_div_pos_is_pos(r1, s1);
    // i = x + (y + z1 * s1) * s0 = x + y*s0 + z1*s0*s1
    assert(i == x + y * s0 + z1 * s0 * s1) by (nonlinear_arith)
        requires
            i == s0 * r1 + x,
            r1 == s1 * z1 + y,
    ;
    // z1 agrees with division by s0*s1
    vstd::arithmetic::div_mod::lemma_div_denominator(i, s0, s1);
    assert(i / (s0 * s1) == z1);
    // bounds on z1
    assert(z1 < s2) by (nonlinear_arith)
        requires
            i == x + y * s0 + z1 * s0 * s1,
            i < s0 * s1 * s2,
            0 <= x < s0,
            0 <= y < s1,
            0 <= z1,
    ;
    let p = pos_of_flat(size, i);
    assert(p[0] == x && p[1] == y && p[2] == z1);
}

pub proof fn lemma_flat_index_injective(size: [usize; 3], p: Position, q: Position)
    requires
        pos_ok(size, p),
        pos_ok(size, q),
        flat_index(size, p) == flat_index(size, q),
    ensures
        p == q,
{
    let s0 = size[0] as int;
    let s1 = size[1] as int;
    let n = flat_index(size, p);
    assert(n == (p[1] + s1 * p[2]) * s0 + p[0] && n == (q[1] + s1 * q[2]) * s0 + q[0])
        by (nonlinear_arith)
        requires
            n == p[0] + p[1] * size[0] + p[2] * size[0] * size[1],
            n == q[0] + q[1] * size[0] + q[2] * size[0] * size[1],
            s0 == size[0],
            s1 == size[1],
    ;
    vstd::arithmetic::div_mod::lemma_fundamental_div_mod_converse(
        n,
        s0,
        p[1] + s1 * p[2],
        p[0] as int,
    );
    vstd::arithmetic::div_mod::lemma_fundamental_div_mod_converse(
        n,
        s0,
        q[1] + s1 * q[2],
        q[0] as int,
    );
    let m = p[1] + s1 * p[2];
    vstd::arithmetic::div_mod::lemma_fundamental_div_mod_converse(m, s1, p[2] as int, p[1] as int);
    vstd::arithmetic::div_mod::lemma_fundamental_div_mod_converse(m, s1, q[2] as int, q[1] as int);
    assert(p =~= q);
}

/// Stepping to a neighbour stays in bounds, is undone by the flipped
/// direction, and never returns the starting cell.
pub proof fn lemma_step_flip(size: [usize; 3], p: Position, d: Direction, q: Position)
    requires
        pos_ok(size, p),
        step_pos(size, p, d) == Some(q),
    ensures
        pos_ok(size, q),
        step_pos(size, q, d.flip_spec()) == Some(p),
        q != p,
        flat_index(size, q) != flat_index(size, p),
{
    let r = step_pos(size, q, d.flip_spec());
    match d {
        Direction::NORTH => assert(r is Some && r->Some_0 =~= p),
        Direction::EAST => assert(r is Some && r->Some_0 =~= p),
        Direction::SOUTH => assert(r is Some && r->Some_0 =~= p),
        Direction::WEST => assert(r is Some && r->Some_0 =~= p),
        Direction::UP => assert(r is Some && r->Some_0 =~= p),
        Direction::DOWN => assert(r is Some && r->Some_0 =~= p),
    }
    if flat_index(size, q) == flat_index(size, p) {
        lemma_flat_index_injective(size, p, q);
    }
}

/// The grid: one domain (a list of still-possible tiles) per cell,
/// plus the size vector and the cached cell count.
pub struct Worldmap {
    pub values: Vec<Vec<WfcTile>>,
    pub size: [usize; 3],
    pub len: usize,
}

impl View for Worldmap {
    type V = Seq<Seq<WfcTile>>;

    open spec fn view(&self) -> Seq<Seq<WfcTile>> {
        Seq::new(self.values@.len() as nat, |i: int| self.values@[i]@)
    }
}

impl Worldmap {
    /// The cell count matches the size vector and the storage.
    pub open spec fn wf(self) -> bool {
        &&& self.len == self.size[0] * self.size[1] * self.size[2]
        &&& self.values@.len() == self.len
    }

    /// The domain of the cell at position `p`.
    pub open spec fn dom(self, p: Position) -> Seq<WfcTile> {
        self@[flat_index(self.size, p)]
    }

    /// A cell is decided when exactly one tile remains possible.
    pub open spec fn decided(self, p: Position) -> bool {
        self.dom(p).len() == 1
    }

    /// Allocate a grid of `x * y * z` empty domains.
    pub fn new3d(x: usize, y: usize, z: usize) -> (r: Worldmap)
        requires
            x * y <= usize::MAX,
            x * y * z <= usize::MAX,
        ensures
            r.wf(),
            r.size == [x, y, z],
            r.len == x * y * z,
            forall|i: int| 0 <= i < r@.len() ==> r@[i].len() == 0,
    {
        let n = x * y * z;
        let mut values: Vec<Vec<WfcTile>> = Vec::new();
        for i in 0..n
            invariant
                values@.len() == i,
                forall|j: int| 0 <= j < i ==> values@[j]@.len() == 0,
        {
            values.push(Vec::new());
        }
        let r = Worldmap { values, size: [x, y, z], len: n };
        proof {
            assert(r.size[0] == x && r.size[1] == y && r.size[2] == z);
            assert(r.size =~= [x, y, z]);
        }
        r
    }

    /// Number of cells in the grid.
    pub fn len(&self) -> (r: usize)
        ensures
            r == self.len,
    {
        self.len
    }

    /// Flat offset of an in-bounds position.
    pub fn flat_of(&self, p: Position) -> (r: usize)
        requires
            self.wf(),
            pos_ok(self.size, p),
        ensures
            r == flat_index(self.size, p),
            r < self.len,
    {
        proof {
            lemma_flat_index_bounds(self.size, p);
            assert(p[1] * self.size[0] >= 0 && p[2] * self.size[0] >= 0 && p[2] * self.size[0]
                * self.size[1] >= 0 && p[2] * self.size[0] <= p[2] * self.size[0] * self.size[1])
                by (nonlinear_arith)
                requires
                    self.size[1] >= 1,
            ;
        }
        p[0] + p[1] * self.size[0] + p[2] * self.size[0] * self.size[1]
    }

    /// Read access to the domain at flat offset `i`.
    pub fn domain_flat(&self, i: usize) -> (r: &Vec<WfcTile>)
        requires
            i < self@.len(),
        ensures
            r@ == self@[i as int],
    {
        &self.values[i]
    }

    /// Replace the domain at flat offset `i`.
    pub fn set_flat(&mut self, i: usize, d: Vec<WfcTile>)
        requires
            i < old(self)@.len(),
        ensures
            final(self).size == old(self).size,
            final(self).len == old(self).len,
            final(self)@ == old(self)@.update(i as int, d@),
            old(self).wf() ==> final(self).wf(),
    {
        self.values.set(i, d);
        proof {
            assert(self@ =~~= old(self)@.update(i as int, d@));
        }
    }

    /// Read access to the domain at position `p`.
    pub fn domain_at(&self, p: Position) -> (r: &Vec<WfcTile>)
        requires
            self.wf(),
            pos_ok(self.size, p),
        ensures
            r@ == self.dom(p),
    {
        let i = self.flat_of(p);
        &self.values[i]
    }

    /// Replace the domain at position `p`.
    pub fn set_domain(&mut self, p: Position, d: Vec<WfcTile>)
        requires
            old(self).wf(),
            pos_ok(old(self).size, p),
        ensures
            final(self).wf(),
            final(self).size == old(self).size,
            final(self).len == old(self).len,
            final(self)@ == old(self)@.update(flat_index(old(self).size, p), d@),
    {
        let i = self.flat_of(p);
        self.values.set(i, d);
        proof {
            assert(self@ =~~= old(self)@.update(flat_index(old(self).size, p), d@));
        }
    }

    /// Every grid position, in order of the first axis, then the
    /// second, then the third.
    pub fn tmp_iter(&self) -> (r: Vec<Position>)
        requires
            self.wf(),
        ensures
            r@.len() == self.len,
            forall|x: int, y: int, z: int|
                0 <= x < self.size[0] && 0 <= y < self.size[1] && 0 <= z < self.size[2]
                    ==> #[trigger] r@[x * self.size[1] * self.size[2] + y * self.size[2] + z]
                    == [x as usize, y as usize, z as usize],
    {
        let xs = self.size[0];
        let ys = self.size[1];
        let zs = self.size[2];
        proof {
            assert(xs * ys * zs == self.len) by (nonlinear_arith)
                requires
                    self.size[0] == xs,
                    self.size[1] == ys,
                    self.size[2] == zs,
                    self.len == self.size[0] * self.size[1] * self.size[2],
            ;
        }
        let mut values: Vec<Position> = Vec::new();
        let mut x: usize = 0;
        proof {
            assert(x * ys * zs == 0) by (nonlinear_arith)
                requires
                    x == 0,
            ;
        }
        while x < xs
            invariant
                x <= xs,
                values@.len() == x * ys * zs,
                forall|a: int, b: int, c: int|
                    0 <= a < xs && 0 <= b < ys && 0 <= c < zs && a * ys * zs + b * zs + c
                        < values@.len() ==> #[trigger] values@[a * ys * zs + b * zs + c] == [
                        a as usize,
                        b as usize,
                        c as usize,
                    ],
            decreases xs - x,
        {
            let mut y: usize = 0;
            proof {
                assert(y * zs == 0) by (nonlinear_arith)
                    requires
                        y == 0,
                ;
            }
            while y < ys
                invariant
                    x < xs,
                    y <= ys,
                    values@.len() == x * ys * zs + y * zs,
                    forall|a: int, b: int, c: int|
                        0 <= a < xs && 0 <= b < ys && 0 <= c < zs && a * ys * zs + b * zs + c
                            < values@.len() ==> #[trigger] values@[a * ys * zs + b * zs + c] == [
                            a as usize,
                            b as usize,
                            c as usize,
                        ],
                decreases ys - y,
            {
                let mut z: usize = 0;
                while z < zs
                    invariant
                        x < xs,
                        y < ys,
                        z <= zs,
                        values@.len() == x * ys * zs + y * zs + z,
                        forall|a: int, b: int, c: int|
                            0 <= a < xs && 0 <= b < ys && 0 <= c < zs && a * ys * zs + b * zs + c
                                < values@.len() ==> #[trigger] values@[a * ys * zs + b * zs + c]
                                == [a as usize, b as usize, c as usize],
                    decreases zs - z,
                {
                    proof {
                        assert(x * ys * zs + y * zs + z < xs * ys * zs) by (nonlinear_arith)
                            requires
                                0 <= x < xs,
                                0 <= y < ys,
                                0 <= z < zs,
                        ;
                    }
                    values.push([x, y, z]);
                    proof {
                        assert forall|a: int, b: int, c: int|
                            0 <= a < xs && 0 <= b < ys && 0 <= c < zs && a * ys * zs + b * zs + c
                                < values@.len() implies #[trigger] values@[a * ys * zs + b * zs + c]
                            == [a as usize, b as usize, c as usize] by {
                            if a * ys * zs + b * zs + c == values@.len() - 1 {
                                assert(a == x && b == y && c == z) by (nonlinear_arith)
                                    requires
                                        0 <= a < xs,
                                        0 <= b < ys,
                                        0 <= c < zs,
                                        0 <= x < xs,
                                        0 <= y < ys,
                                        0 <= z < zs,
                                        a * ys * zs + b * zs + c == x * ys * zs + y * zs + z,
                                ;
                                assert(values@.last() == [x, y, z]);
                            }
                        }
                    }
                    z = z + 1;
                }
                proof {
                    assert((y + 1) * zs == y * zs + zs) by (nonlinear_arith);
                }
                y = y + 1;
            }
            proof {
                assert((x + 1) * ys * zs == x * ys * zs + ys * zs) by (nonlinear_arith);
            }
            x = x + 1;
        }
        proof {
            assert forall|a: int, b: int, c: int|
                0 <= a < self.size[0] && 0 <= b < self.size[1] && 0 <= c
                    < self.size[2] implies #[trigger] values@[a * self.size[1] * self.size[2] + b
                * self.size[2] + c] == [a as usize, b as usize, c as usize] by {
                assert(a * ys * zs + b * zs + c < xs * ys * zs) by (nonlinear_arith)
                    requires
                        0 <= a < xs,
                        0 <= b < ys,
                        0 <= c < zs,
                ;
            }
        }
        values
    }

    /// The neighbouring position one step in direction `dir`, or
    /// `None` at the edge of the grid.
    pub fn move_(&self, square: Position, dir: &Direction) -> (r: Option<Position>)
        requires
            pos_ok(self.size, square),
        ensures
            r == step_pos(self.size, square, *dir),
    {
        let x = square[0];
        let y = square[1];
        let z = square[2];
        let xs = self.size[0];
        let ys = self.size[1];
        let zs = self.size[2];
        let r = match dir {
            Direction::NORTH => {
                if y >= 1 {
                    Some([x, y - 1, z])
                } else {
                    None
                }
            },
            Direction::EAST => {
                if x >= 1 {
                    Some([x - 1, y, z])
                } else {
                    None
                }
            },
            Direction::SOUTH => {
                if y + 1 < ys {
                    Some([x, y + 1, z])
                } else {
                    None
                }
            },
            Direction::WEST => {
                if x + 1 < xs {
                    Some([x + 1, y, z])
                } else {
                    None
                }
            },
            Direction::UP => {
                if z + 1 < zs {
                    Some([x, y, z + 1])
                } else {
                    None
                }
            },
            Direction::DOWN => {
                if z >= 1 {
                    Some([x, y, z - 1])
                } else {
                    None
                }
            },
        };
        proof {
            let e = step_pos(self.size, square, *dir);
            if r is Some || e is Some {
                assert(e is Some && r is Some);
                assert(r->Some_0 =~= e->Some_0);
            }
        }
        r
    }

    /// A full, independent copy of the grid.
    pub fn snapshot(&self) -> (r: Worldmap)
        ensures
            r@ == self@,
            r.size == self.size,
            r.len == self.len,
            self.wf() ==> r.wf(),
    {
        let mut values: Vec<Vec<WfcTile>> = Vec::new();
        let n = self.values.len();
        for i in 0..n
            invariant
                n == self.values@.len(),
                values@.len() == i,
                forall|j: int| 0 <= j < i ==> values@[j]@ == self.values@[j]@,
        {
            let src = &self.values[i];
            let mut row: Vec<WfcTile> = Vec::new();
            let m = src.len();
            for k in 0..m
                invariant
                    m == src@.len(),
                    row@.len() == k,
                    forall|j: int| 0 <= j < k ==> row@[j] == src@[j],
            {
                row.push(src[k]);
            }
            proof {
                assert(row@ =~= src@);
            }
            values.push(row);
        }
        let r = Worldmap { values, size: self.size, len: self.len };
        proof {
            assert(r@ =~~= self@);
        }
        r
    }

    /// Remove every copy of `tile` from the domain at `p`, leaving
    /// the rest of the grid untouched.  This is the backtracking
    /// operation: after a collapse of `p` to `tile` has failed, the
    /// checkpoint keeps all alternatives but the failed choice.
    pub fn exclude_tile(&mut self, p: Position, tile: WfcTile)
        requires
            old(self).wf(),
            pos_ok(old(self).size, p),
        ensures
            final(self).wf(),
            final(self).size == old(self).size,
            final(self).len == old(self).len,
            final(self)@ == old(self)@.update(
                flat_index(old(self).size, p),
                old(self).dom(p).filter(not_tile(tile)),
            ),
    {
        broadcast use vstd::seq_lib::group_filter_ensures;

        let ghost pred = not_tile(tile);
        let src = self.domain_at(p);
        let mut kept: Vec<WfcTile> = Vec::new();
        let m = src.len();
        for k in 0..m
            invariant
                m == src@.len(),
                src@ == old(self).dom(p),
                pred == not_tile(tile),
                kept@ == src@.take(k as int).filter(pred),
        {
            proof {
                assert(src@.take(k + 1) =~= src@.take(k as int).push(src@[k as int]));
                src@.take(k as int).lemma_filter_push(src@[k as int], pred);
            }
            let t = src[k];
            if !(t == tile) {
                kept.push(t);
            }
        }
        proof {
            assert(src@.take(m as int) =~= src@);
        }
        self.set_domain(p, kept);
    }
}

/// The predicate that keeps only copies of `tile`.
pub open spec fn only_tile(tile: WfcTile) -> spec_fn(WfcTile) -> bool {
    |x: WfcTile| same_tile(x, tile)
}

/// A sequence splits into the part a predicate keeps and the part
/// its complement keeps.
proof fn lemma_filter_complement(
    s: Seq<WfcTile>,
    p: spec_fn(WfcTile) -> bool,
    q: spec_fn(WfcTile) -> bool,
)
    requires
        forall|x: WfcTile| #[trigger] q(x) == !p(x),
    ensures
        s.filter(p).len() + s.filter(q).len() == s.len(),
    decreases s.len(),
{
    reveal(Seq::filter);
    if s.len() > 0 {
        lemma_filter_complement(s.drop_last(), p, q);
        assert(q(s.last()) == !p(s.last()));
    }
}

/// Backtrack correctness: when the tile of a failed collapse occurs
/// exactly once in the checkpoint's domain, excluding it leaves
/// exactly the other `n - 1` alternatives — every tile but the failed
/// one, and nothing else.
pub proof fn lemma_backtrack_exact(dom: Seq<WfcTile>, tile: WfcTile)
    requires
        dom.filter(only_tile(tile)).len() == 1,
    ensures
        dom.filter(not_tile(tile)).len() == dom.len() - 1,
        forall|k: int|
            0 <= k < dom.filter(not_tile(tile)).len() ==> !same_tile(
                #[trigger] dom.filter(not_tile(tile))[k],
                tile,
            ),
        forall|t: WfcTile|
            #[trigger] dom.contains(t) && !same_tile(t, tile) ==> dom.filter(
                not_tile(tile),
            ).contains(t),
{
    broadcast use vstd::seq_lib::group_filter_ensures;

    lemma_filter_complement(dom, only_tile(tile), not_tile(tile));
    assert forall|k: int| 0 <= k < dom.filter(not_tile(tile)).len() implies !same_tile(
        #[trigger] dom.filter(not_tile(tile))[k],
        tile,
    ) by {
        dom.lemma_filter_pred(not_tile(tile), k);
    }
    assert forall|t: WfcTile|
        #[trigger] dom.contains(t) && !same_tile(t, tile) implies dom.filter(
        not_tile(tile),
    ).contains(t) by {
        let k = choose|k: int| 0 <= k < dom.len() && dom[k] == t;
        dom.lemma_filter_contains(not_tile(tile), k);
    }
}

/// No two entries of the domain are the same tile.
pub open spec fn pairwise_distinct(s: Seq<WfcTile>) -> bool {
    forall|j: int, k: int| 0 <= j < k < s.len() ==> !same_tile(#[trigger] s[j], #[trigger] s[k])
}

/// Every domain of the grid holds each of its tiles once.  Catalogs
/// without duplicate variants give such grids, and filtering keeps
/// the property; under it, excluding a failed tile removes exactly
/// one entry, so backtracking can never empty a domain.
pub open spec fn distinct_domains(g: Seq<Seq<WfcTile>>) -> bool {
    forall|i: int| 0 <= i < g.len() ==> pairwise_distinct(#[trigger] g[i])
}

/// Filtering keeps a distinct domain distinct.
pub proof fn lemma_filter_keeps_distinct(s: Seq<WfcTile>, pred: spec_fn(WfcTile) -> bool)
    requires
        pairwise_distinct(s),
    ensures
        pairwise_distinct(s.filter(pred)),
    decreases s.len(),
{
    broadcast use vstd::seq_lib::group_filter_ensures;

    reveal(Seq::filter);
    if s.len() > 0 {
        let dl = s.drop_last();
        assert(pairwise_distinct(dl));
        lemma_filter_keeps_distinct(dl, pred);
        if pred(s.last()) {
            let f = s.filter(pred);
            assert(f == dl.filter(pred).push(s.last()));
            assert forall|j: int, k: int| 0 <= j < k < f.len() implies !same_tile(
                #[trigger] f[j],
                #[trigger] f[k],
            ) by {
                if k == f.len() - 1 {
                    assert(dl.filter(pred).contains(f[j]));
                    dl.lemma_filter_contains_rev(pred, f[j]);
                    let m = choose|m: int| 0 <= m < dl.len() && dl[m] == f[j];
                    assert(!same_tile(s[m], s[s.len() - 1]));
                }
            }
        }
    }
}

/// In a distinct domain, at most one entry matches any given tile.
pub proof fn lemma_distinct_filter_one(s: Seq<WfcTile>, tile: WfcTile)
    requires
        pairwise_distinct(s),
    ensures
        s.filter(only_tile(tile)).len() <= 1,
    decreases s.len(),
{
    broadcast use vstd::seq_lib::group_filter_ensures;

    reveal(Seq::filter);
    if s.len() > 0 {
        let dl = s.drop_last();
        assert(pairwise_distinct(dl));
        lemma_distinct_filter_one(dl, tile);
        if only_tile(tile)(s.last()) {
            let f = dl.filter(only_tile(tile));
            if f.len() > 0 {
                assert(f.contains(f[0]));
                dl.lemma_filter_contains_rev(only_tile(tile), f[0]);
                let m = choose|m: int| 0 <= m < dl.len() && dl[m] == f[0];
                assert(only_tile(tile)(f[0]));
                assert(!same_tile(s[m], s[s.len() - 1]));
                assert(false);
            }
        }
    }
}

/// A cell that was decided and is still decided after shrinking
/// holds the same single tile.
pub proof fn lemma_decided_cells_kept(a: Seq<Seq<WfcTile>>, b: Seq<Seq<WfcTile>>, i: int)
    requires
        doms_shrink(a, b),
        0 <= i < a.len(),
        a[i].len() == 1,
        b[i].len() == 1,
    ensures
        b[i] == a[i],
{
    assert(b[i].contains(b[i][0]));
    assert(a[i].contains(b[i][0]));
    assert(b[i] =~= a[i]);
}

/// Total number of tiles across all domains: the measure that shrinks
/// as the solver works.
pub open spec fn total_tiles(g: Seq<Seq<WfcTile>>) -> nat
    decreases g.len(),
{
    if g.len() == 0 {
        0
    } else {
        g[0].len() + total_tiles(g.drop_first())
    }
}

/// Domains only ever shrink: no domain grows, and no tile appears
/// that was not already possible.
pub open spec fn doms_shrink(a: Seq<Seq<WfcTile>>, b: Seq<Seq<WfcTile>>) -> bool {
    &&& b.len() == a.len()
    &&& forall|i: int| 0 <= i < a.len() ==> #[trigger] b[i].len() <= a[i].len()
    &&& forall|i: int, t: WfcTile|
        0 <= i < a.len() && #[trigger] b[i].contains(t) ==> a[i].contains(t)
}

pub proof fn lemma_doms_shrink_trans(a: Seq<Seq<WfcTile>>, b: Seq<Seq<WfcTile>>, c: Seq<
    Seq<WfcTile>,
>)
    requires
        doms_shrink(a, b),
        doms_shrink(b, c),
    ensures
        doms_shrink(a, c),
{
}

pub proof fn lemma_total_tiles_le(a: Seq<Seq<WfcTile>>, b: Seq<Seq<WfcTile>>)
    requires
        b.len() == a.len(),
        forall|i: int| 0 <= i < a.len() ==> #[trigger] b[i].len() <= a[i].len(),
    ensures
        total_tiles(b) <= total_tiles(a),
    decreases a.len(),
{
    if a.len() > 0 {
        assert(forall|i: int|
            0 <= i < a.drop_first().len() ==> #[trigger] b.drop_first()[i].len()
                <= a.drop_first()[i].len());
        lemma_total_tiles_le(a.drop_first(), b.drop_first());
        assert(b[0].len() <= a[0].len());
    }
}

pub proof fn lemma_total_tiles_lt(a: Seq<Seq<WfcTile>>, b: Seq<Seq<WfcTile>>, k: int)
    requires
        b.len() == a.len(),
        forall|i: int| 0 <= i < a.len() ==> #[trigger] b[i].len() <= a[i].len(),
        0 <= k < a.len(),
        b[k].len() < a[k].len(),
    ensures
        total_tiles(b) < total_tiles(a),
    decreases a.len(),
{
    if k == 0 {
        lemma_total_tiles_le(a.drop_first(), b.drop_first());
    } else {
        assert(forall|i: int|
            0 <= i < a.drop_first().len() ==> #[trigger] b.drop_first()[i].len()
                <= a.drop_first()[i].len());
        lemma_total_tiles_lt(a.drop_first(), b.drop_first(), k - 1);
        assert(b[0].len() <= a[0].len());
    }
}

} // verus!
