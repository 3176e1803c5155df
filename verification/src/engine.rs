//! The solver loop: owns the grid, the tile catalog and the seeded
//! generator, collapses one undecided cell at a time, propagates, and
//! backtracks out of contradictions.

use vstd::prelude::*;
use crate::consistency::{
    grid_dead_end, lemma_same_grid, lemma_settled_after_pin,
    lemma_settled_implies_locally_consistent, lemma_settled_shrink_one, locally_consistent,
    pin_compatible, pin_failure, settled, settled_except, touched_sources_ok,
};
use crate::propagate::propagate_from;
use crate::tile::{WfcTile, expand_list, lemma_expand_push, tile_ok};
use crate::worldmap::{
    Position, Worldmap, distinct_domains, doms_shrink, flat_index, lemma_backtrack_exact,
    lemma_decided_cells_kept, lemma_doms_shrink_trans, lemma_filter_keeps_distinct,
    lemma_flat_index_bounds, lemma_pos_of_flat, lemma_total_tiles_le, lemma_total_tiles_lt,
    not_tile, only_tile, pairwise_distinct, pos_of_flat, pos_ok, total_tiles,
};

verus! {

/// Relies on rand's `StdRng`, declared opaquely so that the solver
/// can carry the generator as a field.
#[verifier::external_type_specification]
#[verifier::external_body]
pub struct ExStdRng(rand::rngs::StdRng);

/// Relies on rand's `SeedableRng::seed_from_u64` for `StdRng`: builds
/// a generator from a word-sized seed; it never fails.  Nothing is
/// promised about the generator's contents.
#[verifier::external_body]
fn rng_from_seed(seed: u64) -> rand::rngs::StdRng {
    <rand::rngs::StdRng as rand::SeedableRng>::seed_from_u64(seed)
}

/// Relies on rand's `Rng::gen_range` over `0..n`: returns a value
/// below `n`.  It panics only on an empty range, which the requires
/// rules out.  The value drawn depends on the generator's state, so
/// nothing more is promised of it.
#[verifier::external_body]
fn rng_below(rng: &mut rand::rngs::StdRng, n: usize) -> (r: usize)
    requires
        n > 0,
    ensures
        r < n,
{
    rand::Rng::gen_range(rng, 0..n)
}

/// The solver's failure modes.
#[derive(Clone, Copy, Debug, PartialEq, Eq)]
pub enum WfcError {
    /// Propagation emptied the domain of the cell at this position:
    /// a recoverable dead end, answered by backtracking.
    Contradiction(Position),
    /// The cell at this position was already down to its last
    /// candidate when that candidate failed: the attempt is over.
    Unsolvable(Position),
}

/// The cell lies on the boundary: on the horizontal ring of its
/// layer, or — when the grid has more than one layer — in the bottom
/// or top layer.  A single-layer grid keeps its interior, so that a
/// flat map's border ring can be pinned without touching the middle.
pub open spec fn on_border(size: [usize; 3], p: Position) -> bool {
    ||| p[0] == 0
    ||| p[0] + 1 == size[0]
    ||| p[1] == 0
    ||| p[1] + 1 == size[1]
    ||| (size[2] > 1 && (p[2] == 0 || p[2] + 1 == size[2]))
}

/// Mid-pass state of the border pinning: every cell either has been
/// pinned to the border tile, or still draws only from what it held
/// when the pass began.
pub open spec fn pinned_or_shrunk(entry: Worldmap, cur: Worldmap, tile: WfcTile) -> bool {
    forall|p: Position| #![trigger cur.dom(p)]
        pos_ok(cur.size, p) ==> cur.dom(p) == seq![tile] || (forall|t: WfcTile|
            #[trigger] cur.dom(p).contains(t) ==> entry.dom(p).contains(t))
}

/// Position of the x-major scan index `k`: the order in which the
/// decided-cell dump walks the grid.
pub open spec fn xmajor_pos(size: [usize; 3], k: int) -> Position {
    let s1 = size[1] as int;
    let s2 = size[2] as int;
    let rem = k % (s1 * s2);
    [(k / (s1 * s2)) as usize, (rem / s2) as usize, (rem % s2) as usize]
}

proof fn lemma_xmajor_pos(size: [usize; 3], x: int, y: int, z: int)
    requires
        0 <= x < size[0],
        0 <= y < size[1],
        0 <= z < size[2],
    ensures
        xmajor_pos(size, x * size[1] * size[2] + y * size[2] + z) == [
            x as usize,
            y as usize,
            z as usize,
        ],
{
    let s1 = size[1] as int;
    let s2 = size[2] as int;
    let rem0 = y * s2 + z;
    let k = x * s1 * s2 + y * s2 + z;
    assert(k == x * (s1 * s2) + rem0 && 0 <= rem0 < s1 * s2 && s1 * s2 > 0) by (nonlinear_arith)
        requires
            k == x * s1 * s2 + y * s2 + z,
            rem0 == y * s2 + z,
            0 <= x,
            0 <= y < s1,
            0 <= z < s2,
    ;
    vstd::arithmetic::div_mod::lemma_fundamental_div_mod_converse(k, s1 * s2, x, rem0);
    vstd::arithmetic::div_mod::lemma_fundamental_div_mod_converse(rem0, s2, y, z);
    assert(xmajor_pos(size, k) =~= [x as usize, y as usize, z as usize]);
}

/// The dump of decided cells from scan index `k` on: for every
/// decided cell, its position, its tile's angle and its tile's
/// identity, in x-major scan order.
pub open spec fn dump_from(w: Worldmap, k: int) -> Seq<(usize, usize, usize, u32, u32)>
    decreases w.size[0] * w.size[1] * w.size[2] - k,
{
    let n = (w.size[0] as int) * (w.size[1] as int) * (w.size[2] as int);
    if k < 0 || k >= n {
        Seq::empty()
    } else {
        let p = xmajor_pos(w.size, k);
        let rest = dump_from(w, k + 1);
        if w.decided(p) {
            seq![(p[0], p[1], p[2], w.dom(p)[0].angle, w.dom(p)[0].index)] + rest
        } else {
            rest
        }
    }
}

/// What a successful collapse did: cell `p` was the first undecided
/// cell in flat scan order, and exactly one of its tiles was kept.
pub open spec fn collapsed_to(pre: WFC, post: WFC, p: Position) -> bool {
    &&& pos_ok(pre.worldmap.size, p)
    &&& pre.worldmap.dom(p).len() > 1
    &&& (forall|j: int|
        0 <= j < flat_index(pre.worldmap.size, p) ==> #[trigger] pre.worldmap@[j].len() <= 1)
    &&& exists|j: int|
        0 <= j < pre.worldmap.dom(p).len() && post.worldmap@ == pre.worldmap@.update(
            flat_index(pre.worldmap.size, p),
            seq![pre.worldmap.dom(p)[j]],
        )
}

/// The solver: the expanded tile catalog, the grid of domains, the
/// current seed and its generator.  `arc_clean` records whether every
/// cell that became decided has been propagated from; backtracking
/// can decide a cell without propagating, and only runs that never do
/// so come with the consistency guarantee, so a caller may test the
/// flag after a solve.
pub struct WFC {
    pub tiles: Vec<WfcTile>,
    pub worldmap: Worldmap,
    pub seed: u64,
    pub rng: rand::rngs::StdRng,
    pub arc_clean: bool,
}

impl WFC {
    /// The solver's invariant between steps: the grid is well formed,
    /// and while no backtrack has decided a cell silently, every
    /// decided cell agrees with all its neighbours.
    pub open spec fn inv(self) -> bool {
        &&& self.worldmap.wf()
        &&& self.arc_clean ==> settled(self.worldmap)
    }

    /// Build a solver: expand the catalog into every cell of the
    /// grid and seed the generator.
    pub fn init(worldmap: Worldmap, tiles: Vec<WfcTile>, seed: u64) -> (r: WFC)
        requires
            worldmap.wf(),
            forall|i: int| 0 <= i < tiles@.len() ==> tile_ok(#[trigger] tiles@[i]),
        ensures
            r.inv(),
            r.seed == seed,
            r.tiles == tiles,
            r.worldmap.wf(),
            r.worldmap.size == worldmap.size,
            r.worldmap.len == worldmap.len,
            forall|i: int| 0 <= i < r.worldmap@.len() ==> #[trigger] r.worldmap@[i] == expand_list(tiles@),
            r.arc_clean == (r.worldmap.len == 0 || expand_list(tiles@).len() != 1),
    {
        let rng = rng_from_seed(seed);
        let mut wfc = WFC { tiles, worldmap, seed, rng, arc_clean: true };
        wfc.init_worldmap();
        wfc
    }

    /// Re-seed the generator for a fresh attempt.
    pub fn init_rng(&mut self, seed: u64)
        ensures
            final(self).seed == seed,
            final(self).worldmap == old(self).worldmap,
            final(self).tiles == old(self).tiles,
            final(self).arc_clean == old(self).arc_clean,
    {
        self.seed = seed;
        self.rng = rng_from_seed(seed);
    }

    /// Fill `square` with the expanded variants of the catalog.
    pub fn init_tile(tiles: &Vec<WfcTile>, square: &mut Vec<WfcTile>)
        requires
            forall|i: int| 0 <= i < tiles@.len() ==> tile_ok(#[trigger] tiles@[i]),
        ensures
            final(square)@ == expand_list(tiles@),
    {
        square.clear();
        let n = tiles.len();
        let mut k: usize = 0;
        while k < n
            invariant
                n == tiles@.len(),
                forall|i: int| 0 <= i < tiles@.len() ==> tile_ok(#[trigger] tiles@[i]),
                k <= n,
                square@ == expand_list(tiles@.take(k as int)),
            decreases n - k,
        {
            proof {
                assert(tiles@.take(k + 1) =~= tiles@.take(k as int).push(tiles@[k as int]));
                lemma_expand_push(tiles@.take(k as int), tiles@[k as int]);
            }
            let tile = tiles[k];
            if !tile.is_rotatable {
                square.push(tile);
            } else if tile.connection_types[1] == tile.connection_types[0]
                && tile.connection_types[2] == tile.connection_types[0]
                && tile.connection_types[3] == tile.connection_types[0] {
                // fully symmetric: rotation changes nothing visible
                square.push(tile);
            } else if tile.connection_types[0] == tile.connection_types[2]
                && tile.connection_types[1] == tile.connection_types[3] {
                // two-fold symmetry: two rotations are distinguishable
                square.push(tile);
                let mut r1 = tile;
                r1.rotate(1);
                square.push(r1);
            } else {
                // all four rotations are distinguishable
                let mut t0 = tile;
                t0.rotate(0);
                square.push(t0);
                let mut t1 = tile;
                t1.rotate(1);
                square.push(t1);
                let mut t2 = tile;
                t2.rotate(2);
                square.push(t2);
                let mut t3 = tile;
                t3.rotate(3);
                square.push(t3);
            }
            proof {
                assert(square@ =~= expand_list(tiles@.take(k + 1)));
            }
            k = k + 1;
        }
        proof {
            assert(tiles@.take(n as int) =~= tiles@);
        }
    }

    /// Reset every cell's domain to the full expanded catalog.
    pub fn init_worldmap(&mut self)
        requires
            old(self).worldmap.wf(),
            forall|i: int| 0 <= i < old(self).tiles@.len() ==> tile_ok(#[trigger] old(self).tiles@[i]),
        ensures
            final(self).inv(),
            final(self).worldmap.wf(),
            final(self).worldmap.size == old(self).worldmap.size,
            final(self).worldmap.len == old(self).worldmap.len,
            final(self).tiles == old(self).tiles,
            final(self).seed == old(self).seed,
            forall|i: int|
                0 <= i < final(self).worldmap@.len() ==> #[trigger] final(self).worldmap@[i]
                    == expand_list(old(self).tiles@),
            final(self).arc_clean == (final(self).worldmap.len == 0 || expand_list(
                old(self).tiles@,
            ).len() != 1),
    {
        let n = self.worldmap.len();
        let mut i: usize = 0;
        while i < n
            invariant
                self.worldmap.wf(),
                n == self.worldmap.len,
                self.worldmap.size == old(self).worldmap.size,
                self.worldmap.len == old(self).worldmap.len,
                self.tiles == old(self).tiles,
                self.seed == old(self).seed,
                forall|j: int| 0 <= j < old(self).tiles@.len() ==> tile_ok(#[trigger] old(self).tiles@[j]),
                i <= n,
                forall|j: int|
                    0 <= j < i ==> #[trigger] self.worldmap@[j] == expand_list(old(self).tiles@),
            decreases n - i,
        {
            let mut square: Vec<WfcTile> = Vec::new();
            WFC::init_tile(&self.tiles, &mut square);
            self.worldmap.set_flat(i, square);
            i = i + 1;
        }
        let clean = if self.worldmap.len() == 0 {
            true
        } else {
            self.worldmap.domain_flat(0).len() != 1
        };
        self.arc_clean = clean;
        proof {
            if self.worldmap.len > 0 {
                assert(self.worldmap@[0] == expand_list(old(self).tiles@));
            }
            if clean {
                assert forall|p: Position, d: crate::tile::Direction|
                    pos_ok(self.worldmap.size, p) && self.worldmap.decided(
                        p,
                    ) implies #[trigger] crate::consistency::arc_ok(self.worldmap, p, d) by {
                    lemma_flat_index_bounds(self.worldmap.size, p);
                    assert(self.worldmap.dom(p) == expand_list(old(self).tiles@));
                    assert(false);
                }
            }
        }
    }

    /// The first cell, in order of increasing flat offset, whose
    /// domain still holds more than one tile; empty when every cell
    /// is decided (or empty).
    fn find_squares_in_order(&self) -> (r: Vec<Position>)
        requires
            self.worldmap.wf(),
        ensures
            r@.len() <= 1,
            r@.len() == 1 ==> {
                let p = r@[0];
                &&& pos_ok(self.worldmap.size, p)
                &&& self.worldmap.dom(p).len() > 1
                &&& forall|j: int|
                    0 <= j < flat_index(self.worldmap.size, p) ==> #[trigger] self.worldmap@[j].len()
                        <= 1
            },
            r@.len() == 0 ==> forall|j: int|
                0 <= j < self.worldmap@.len() ==> #[trigger] self.worldmap@[j].len() <= 1,
    {
        let n = self.worldmap.len();
        let mut r: Vec<Position> = Vec::new();
        let mut i: usize = 0;
        while i < n
            invariant
                self.worldmap.wf(),
                n == self.worldmap.len,
                i <= n,
                r@.len() == 0,
                forall|j: int| 0 <= j < i ==> #[trigger] self.worldmap@[j].len() <= 1,
            decreases n - i,
        {
            let dlen = self.worldmap.domain_flat(i).len();
            if dlen > 1 {
                proof {
                    lemma_pos_of_flat(self.worldmap.size, i as int);
                    assert(self.worldmap.size[1] >= 1 && self.worldmap.size[0] >= 1)
                        by (nonlinear_arith)
                        requires
                            (i as int) < (self.worldmap.size[0] as int) * (
                            self.worldmap.size[1] as int) * (self.worldmap.size[2] as int),
                            0 <= i as int,
                            self.worldmap.size[0] >= 0,
                            self.worldmap.size[1] >= 0,
                            self.worldmap.size[2] >= 0,
                    ;
                }
                let sx = self.worldmap.size[0];
                let sy = self.worldmap.size[1];
                let x = i % sx;
                let rest = i / sx;
                let y = rest % sy;
                let z = rest / sy;
                let p = [x, y, z];
                proof {
                    vstd::arithmetic::div_mod::lemma_div_denominator(
                        i as int,
                        sx as int,
                        sy as int,
                    );
                    assert(p =~= pos_of_flat(self.worldmap.size, i as int));
                    assert(flat_index(self.worldmap.size, p) == i);
                }
                r.push(p);
                return r;
            }
            i = i + 1;
        }
        r
    }

    /// Collapse the first undecided cell to one tile drawn uniformly
    /// from its domain, or report that every cell is decided.
    #[verifier::rlimit(50)]
    pub fn collapse(&mut self) -> (r: Option<Position>)
        requires
            old(self).worldmap.wf(),
        ensures
            final(self).worldmap.wf(),
            final(self).worldmap.size == old(self).worldmap.size,
            final(self).worldmap.len == old(self).worldmap.len,
            final(self).tiles == old(self).tiles,
            final(self).seed == old(self).seed,
            final(self).arc_clean == old(self).arc_clean,
            r is None ==> final(self).worldmap == old(self).worldmap,
            r is None ==> forall|i: int|
                0 <= i < old(self).worldmap@.len() ==> #[trigger] old(self).worldmap@[i].len()
                    <= 1,
            r matches Some(p) ==> collapsed_to(*old(self), *final(self), p),
    {
        let squares = self.find_squares_in_order();
        if squares.len() == 0 {
            return None;
        }
        let square = squares[0];
        let n = self.worldmap.domain_at(square).len();
        let idx = rng_below(&mut self.rng, n);
        let selected = self.worldmap.domain_at(square)[idx];
        let mut d: Vec<WfcTile> = Vec::new();
        d.push(selected);
        self.worldmap.set_domain(square, d);
        proof {
            assert(d@ =~= seq![old(self).worldmap.dom(square)[idx as int]]);
            assert(collapsed_to(*old(self), *self, square)) by {
                assert(0 <= idx < old(self).worldmap.dom(square).len() && self.worldmap@ == old(
                    self,
                ).worldmap@.update(
                    flat_index(old(self).worldmap.size, square),
                    seq![old(self).worldmap.dom(square)[idx as int]],
                ));
            }
        }
        Some(square)
    }

    /// Re-filter the neighbourhood of `square` after its domain
    /// changed.  Domains only shrink and no non-empty domain is
    /// emptied in place; on success every cell the pass changed is
    /// left consistent with all its neighbours, and a contradiction
    /// reports a cell none of whose remaining tiles can face what a
    /// neighbour still offers.
    pub fn propagate(&mut self, square: Position) -> (r: Result<(), WfcError>)
        requires
            old(self).worldmap.wf(),
            pos_ok(old(self).worldmap.size, square),
        ensures
            final(self).worldmap.wf(),
            final(self).worldmap.size == old(self).worldmap.size,
            final(self).worldmap.len == old(self).worldmap.len,
            final(self).tiles == old(self).tiles,
            final(self).seed == old(self).seed,
            doms_shrink(old(self).worldmap@, final(self).worldmap@),
            forall|i: int|
                0 <= i < old(self).worldmap@.len() && old(self).worldmap@[i].len() > 0
                    ==> #[trigger] final(self).worldmap@[i].len() > 0,
            r is Ok && settled_except(old(self).worldmap, square) ==> settled(
                final(self).worldmap,
            ),
            r is Ok ==> touched_sources_ok(old(self).worldmap@, final(self).worldmap, square),
            (forall|d: crate::tile::Direction|
                crate::consistency::arc_ok(old(self).worldmap, square, d)) ==> (r is Ok
                && final(self).worldmap@ == old(self).worldmap@),
            distinct_domains(old(self).worldmap@) ==> distinct_domains(final(self).worldmap@),
            r is Ok ==> final(self).arc_clean == old(self).arc_clean,
            old(self).inv() ==> final(self).inv(),
            r matches Err(e) ==> e is Contradiction,
            r matches Err(e) ==> (e matches WfcError::Contradiction(cp) && pos_ok(
                old(self).worldmap.size,
                cp,
            ) && grid_dead_end(final(self).worldmap@, old(self).worldmap.size, cp)),
    {
        let ghost w0 = self.worldmap;
        match propagate_from(&mut self.worldmap, square) {
            Ok(()) => {
                proof {
                    if old(self).inv() && old(self).arc_clean {
                        assert forall|p: Position, d: crate::tile::Direction|
                            pos_ok(w0.size, p) && w0.decided(p) && p
                                != square implies #[trigger] crate::consistency::arc_ok(w0, p, d)
                            || (crate::worldmap::step_pos(w0.size, p, d) == Some(square)
                            && w0.decided(square)) by {
                            assert(crate::consistency::arc_ok(w0, p, d));
                        }
                        assert(settled_except(w0, square));
                    }
                }
                Ok(())
            },
            Err(p) => {
                self.arc_clean = false;
                Err(WfcError::Contradiction(p))
            },
        }
    }

    /// Pin `square` to exactly `tile` and propagate the consequences.
    /// On contradiction the grid is restored unchanged: pinning never
    /// partially applies.
    pub fn add_tile(&mut self, square: Position, tile: WfcTile) -> (r: Result<(), WfcError>)
        requires
            old(self).worldmap.wf(),
            pos_ok(old(self).worldmap.size, square),
        ensures
            final(self).worldmap.wf(),
            final(self).worldmap.size == old(self).worldmap.size,
            final(self).worldmap.len == old(self).worldmap.len,
            final(self).tiles == old(self).tiles,
            final(self).seed == old(self).seed,
            old(self).inv() ==> final(self).inv(),
            final(self).arc_clean == old(self).arc_clean,
            r is Ok ==> final(self).worldmap.dom(square) == seq![tile],
            r is Ok ==> doms_shrink(
                old(self).worldmap@.update(
                    flat_index(old(self).worldmap.size, square),
                    seq![tile],
                ),
                final(self).worldmap@,
            ),
            r is Ok ==> forall|i: int|
                0 <= i < old(self).worldmap@.len() && i != flat_index(
                    old(self).worldmap.size,
                    square,
                ) && old(self).worldmap@[i].len() > 0 ==> #[trigger] final(self).worldmap@[i].len()
                    > 0,
            r is Ok && settled(old(self).worldmap) ==> settled(final(self).worldmap),
            distinct_domains(old(self).worldmap@) ==> distinct_domains(final(self).worldmap@),
            pin_compatible(old(self).worldmap, square, tile) ==> r is Ok,
            r matches Err(e) ==> (e is Contradiction && final(self).worldmap@ == old(
                self,
            ).worldmap@),
            r matches Err(WfcError::Contradiction(cp)) ==> pos_ok(old(self).worldmap.size, cp)
                && pin_failure(
                old(self).worldmap@.update(
                    flat_index(old(self).worldmap.size, square),
                    seq![tile],
                ),
                old(self).worldmap.size,
                cp,
            ),
    {
        let backup = self.worldmap.snapshot();
        let mut d: Vec<WfcTile> = Vec::new();
        d.push(tile);
        self.worldmap.set_domain(square, d);
        let ghost pinned = self.worldmap;
        proof {
            lemma_flat_index_bounds(self.worldmap.size, square);
            assert(pinned.dom(square) =~= seq![tile]);
            if distinct_domains(old(self).worldmap@) {
                assert forall|i: int|
                    0 <= i < pinned@.len() implies pairwise_distinct(#[trigger] pinned@[i]) by {
                    if i != flat_index(old(self).worldmap.size, square) {
                        assert(pinned@[i] == old(self).worldmap@[i]);
                        assert(pairwise_distinct(old(self).worldmap@[i]));
                    }
                }
            }
            if pin_compatible(old(self).worldmap, square, tile) {
                // nothing will be filtered: every arc out of the pinned
                // cell already holds
                assert forall|d: crate::tile::Direction|
                    crate::consistency::arc_ok(pinned, square, d) by {
                    let n = crate::worldmap::step_pos(pinned.size, square, d);
                    if n is Some {
                        let q = n->Some_0;
                        crate::worldmap::lemma_step_flip(pinned.size, square, d, q);
                        crate::worldmap::lemma_flat_index_bounds(pinned.size, q);
                        assert(pinned.dom(q) == old(self).worldmap.dom(q));
                        assert forall|j: int| 0 <= j < pinned.dom(q).len() implies
                            crate::consistency::exposes(
                            pinned.dom(square),
                            d.index_spec(),
                            #[trigger] pinned.dom(q)[j].connection_types[
                                d.flip_spec().index_spec()],
                        ) by {
                            assert(crate::consistency::compat(
                                tile,
                                d,
                                old(self).worldmap.dom(q)[j],
                            ));
                            assert(pinned.dom(square)[0].connection_types[d.index_spec()]
                                == pinned.dom(q)[j].connection_types[d.flip_spec().index_spec()]);
                        }
                    }
                }
            }
        }
        match propagate_from(&mut self.worldmap, square) {
            Ok(()) => {
                proof {
                    if settled(old(self).worldmap) {
                        lemma_settled_after_pin(old(self).worldmap, pinned, square);
                    }
                    let fsq = flat_index(old(self).worldmap.size, square);
                    assert(self.worldmap@[fsq].len() > 0);
                    assert(self.worldmap@[fsq].contains(self.worldmap@[fsq][0]));
                    assert(pinned@[fsq].contains(self.worldmap@[fsq][0]));
                    assert(self.worldmap.dom(square) =~= seq![tile]);
                    assert(pinned@ =~= old(self).worldmap@.update(fsq, seq![tile]));
                }
                Ok(())
            },
            Err(p) => {
                let ghost broken = self.worldmap;
                self.worldmap = backup;
                proof {
                    if old(self).inv() && old(self).arc_clean {
                        lemma_same_grid(old(self).worldmap, self.worldmap, square);
                    }
                    // the discarded propagation state witnesses that the
                    // contradiction is real: it descends from the pinned
                    // grid and holds a genuine dead end at `p`
                    let fsq = flat_index(old(self).worldmap.size, square);
                    assert(pinned@ =~= old(self).worldmap@.update(fsq, seq![tile]));
                    assert forall|i: int|
                        0 <= i < pinned@.len() && pinned@[i].len()
                            == 1 implies #[trigger] broken@[i] == pinned@[i] by {
                        assert(broken@[i].len() > 0);
                        assert(broken@[i].contains(broken@[i][0]));
                        assert(pinned@[i].contains(broken@[i][0]));
                        assert(broken@[i] =~= pinned@[i]);
                    }
                    assert(pin_failure(pinned@, old(self).worldmap.size, p)) by {
                        assert(doms_shrink(pinned@, broken@) && (forall|i: int|
                            0 <= i < pinned@.len() && pinned@[i].len() > 0
                                ==> #[trigger] broken@[i].len() > 0) && (forall|i: int|
                            0 <= i < pinned@.len() && pinned@[i].len() == 1
                                ==> #[trigger] broken@[i] == pinned@[i]) && grid_dead_end(
                            broken@,
                            old(self).worldmap.size,
                            p,
                        ));
                    }
                }
                Err(WfcError::Contradiction(p))
            },
        }
    }

    /// During the border pass, the next boundary pin cannot fail:
    /// every tile a neighbour still holds was either held when the
    /// pass began — and then faces `tile` by hypothesis — or is the
    /// border tile itself, which faces itself.
    proof fn lemma_border_pin_ready(entry: Worldmap, cur: Worldmap, p: Position, tile: WfcTile)
        requires
            cur.size == entry.size,
            pos_ok(cur.size, p),
            pinned_or_shrunk(entry, cur, tile),
            pin_compatible(entry, p, tile),
            forall|d: crate::tile::Direction| #[trigger] crate::consistency::compat(tile, d, tile),
        ensures
            pin_compatible(cur, p, tile),
    {
        assert forall|d: crate::tile::Direction|
            {
                let n = #[trigger] crate::worldmap::step_pos(cur.size, p, d);
                n is Some ==> forall|j: int|
                    0 <= j < cur.dom(n->Some_0).len() ==> crate::consistency::compat(
                        tile,
                        d,
                        #[trigger] cur.dom(n->Some_0)[j],
                    )
            } by {
            let n = crate::worldmap::step_pos(cur.size, p, d);
            if n is Some {
                let q = n->Some_0;
                crate::worldmap::lemma_step_flip(cur.size, p, d, q);
                assert(crate::worldmap::step_pos(entry.size, p, d) == Some(q));
                assert forall|j: int|
                    0 <= j < cur.dom(q).len() implies crate::consistency::compat(
                    tile,
                    d,
                    #[trigger] cur.dom(q)[j],
                ) by {
                    let t = cur.dom(q)[j];
                    if cur.dom(q) == seq![tile] {
                        assert(t == tile);
                        assert(crate::consistency::compat(tile, d, tile));
                    } else {
                        assert(cur.dom(q).contains(t));
                        assert(entry.dom(q).contains(t));
                        let k = choose|k: int|
                            0 <= k < entry.dom(q).len() && entry.dom(q)[k] == t;
                        assert(crate::consistency::compat(tile, d, entry.dom(q)[k]));
                    }
                }
            }
        }
    }

    /// Pin every boundary cell (see `on_border`) to `tile`.  On
    /// contradiction the whole grid is restored: the pinning pass
    /// never partially applies.  It is owed success when `tile` can
    /// face itself and everything the boundary's neighbours held.
    pub fn surround_border(&mut self, tile: WfcTile) -> (r: Result<(), WfcError>)
        requires
            old(self).worldmap.wf(),
        ensures
            final(self).worldmap.wf(),
            final(self).worldmap.size == old(self).worldmap.size,
            final(self).worldmap.len == old(self).worldmap.len,
            final(self).tiles == old(self).tiles,
            final(self).seed == old(self).seed,
            final(self).arc_clean == old(self).arc_clean,
            old(self).inv() ==> final(self).inv(),
            r is Ok ==> forall|p: Position|
                pos_ok(final(self).worldmap.size, p) && on_border(final(self).worldmap.size, p)
                    ==> #[trigger] final(self).worldmap.dom(p) == seq![tile],
            ((forall|p: Position|
                pos_ok(old(self).worldmap.size, p) && on_border(old(self).worldmap.size, p)
                    ==> #[trigger] pin_compatible(old(self).worldmap, p, tile)) && (
            forall|d: crate::tile::Direction|
                crate::consistency::compat(tile, d, tile))) ==> r is Ok,
            r matches Err(e) ==> (e is Contradiction && final(self).worldmap@ == old(
                self,
            ).worldmap@),
            r matches Err(WfcError::Contradiction(cp)) ==> pos_ok(old(self).worldmap.size, cp),
    {
        let backup = self.worldmap.snapshot();
        let sx = self.worldmap.size[0];
        let sy = self.worldmap.size[1];
        let sz = self.worldmap.size[2];
        let ghost size = self.worldmap.size;
        let ghost hyp = (forall|p: Position|
            pos_ok(size, p) && on_border(size, p) ==> #[trigger] pin_compatible(
                old(self).worldmap,
                p,
                tile,
            )) && (forall|d: crate::tile::Direction| crate::consistency::compat(tile, d, tile));
        let mut x: usize = 0;
        while x < sx
            invariant
                self.worldmap.wf(),
                self.worldmap.size == old(self).worldmap.size,
                self.worldmap.len == old(self).worldmap.len,
                self.tiles == old(self).tiles,
                self.seed == old(self).seed,
                self.arc_clean == old(self).arc_clean,
                old(self).inv() ==> self.inv(),
                size == old(self).worldmap.size,
                sx == size[0],
                sy == size[1],
                sz == size[2],
                backup.wf(),
                backup@ == old(self).worldmap@,
                backup.size == old(self).worldmap.size,
                backup.len == old(self).worldmap.len,
                hyp == ((forall|p: Position|
                    pos_ok(size, p) && on_border(size, p) ==> #[trigger] pin_compatible(
                        old(self).worldmap,
                        p,
                        tile,
                    )) && (forall|d: crate::tile::Direction|
                    crate::consistency::compat(tile, d, tile))),
                pinned_or_shrunk(old(self).worldmap, self.worldmap, tile),
                x <= sx,
                forall|p: Position|
                    pos_ok(size, p) && on_border(size, p) && p[0] < x
                        ==> #[trigger] self.worldmap.dom(p) == seq![tile],
            decreases sx - x,
        {
            let mut y: usize = 0;
            while y < sy
                invariant
                    self.worldmap.wf(),
                    self.worldmap.size == old(self).worldmap.size,
                    self.worldmap.len == old(self).worldmap.len,
                    self.tiles == old(self).tiles,
                    self.seed == old(self).seed,
                    self.arc_clean == old(self).arc_clean,
                    old(self).inv() ==> self.inv(),
                    size == old(self).worldmap.size,
                    sx == size[0],
                    sy == size[1],
                    sz == size[2],
                    backup.wf(),
                    backup@ == old(self).worldmap@,
                    backup.size == old(self).worldmap.size,
                    backup.len == old(self).worldmap.len,
                    hyp == ((forall|p: Position|
                        pos_ok(size, p) && on_border(size, p) ==> #[trigger] pin_compatible(
                            old(self).worldmap,
                            p,
                            tile,
                        )) && (forall|d: crate::tile::Direction|
                        crate::consistency::compat(tile, d, tile))),
                    pinned_or_shrunk(old(self).worldmap, self.worldmap, tile),
                    x < sx,
                    y <= sy,
                    forall|p: Position|
                        pos_ok(size, p) && on_border(size, p) && (p[0] < x || (p[0] == x && p[1]
                            < y)) ==> #[trigger] self.worldmap.dom(p) == seq![tile],
                decreases sy - y,
            {
                let mut z: usize = 0;
                while z < sz
                    invariant
                        self.worldmap.wf(),
                        self.worldmap.size == old(self).worldmap.size,
                        self.worldmap.len == old(self).worldmap.len,
                        self.tiles == old(self).tiles,
                        self.seed == old(self).seed,
                        self.arc_clean == old(self).arc_clean,
                        old(self).inv() ==> self.inv(),
                        size == old(self).worldmap.size,
                        sx == size[0],
                        sy == size[1],
                        sz == size[2],
                        backup.wf(),
                        backup@ == old(self).worldmap@,
                        backup.size == old(self).worldmap.size,
                        backup.len == old(self).worldmap.len,
                        hyp == ((forall|p: Position|
                            pos_ok(size, p) && on_border(size, p) ==> #[trigger] pin_compatible(
                                old(self).worldmap,
                                p,
                                tile,
                            )) && (forall|d: crate::tile::Direction|
                            crate::consistency::compat(tile, d, tile))),
                        pinned_or_shrunk(old(self).worldmap, self.worldmap, tile),
                        x < sx,
                        y < sy,
                        z <= sz,
                        forall|p: Position|
                            pos_ok(size, p) && on_border(size, p) && (p[0] < x || (p[0] == x && (
                            p[1] < y || (p[1] == y && p[2] < z))))
                                ==> #[trigger] self.worldmap.dom(p) == seq![tile],
                    decreases sz - z,
                {
                    if x == 0 || x + 1 == sx || y == 0 || y + 1 == sy || (sz > 1 && (z == 0 || z
                        + 1 == sz)) {
                        let ghost before = self.worldmap;
                        proof {
                            if hyp {
                                assert(on_border(size, [x as usize, y as usize, z as usize]));
                                assert(pin_compatible(
                                    old(self).worldmap,
                                    [x as usize, y as usize, z as usize],
                                    tile,
                                ));
                                WFC::lemma_border_pin_ready(
                                    old(self).worldmap,
                                    before,
                                    [x, y, z],
                                    tile,
                                );
                            }
                        }
                        let res = self.add_tile([x, y, z], tile);
                        match res {
                            Ok(()) => {
                                proof {
                                    let fsq = flat_index(size, [x, y, z]);
                                    lemma_flat_index_bounds(size, [x, y, z]);
                                    assert forall|p: Position|
                                        pos_ok(size, p) && on_border(size, p) && (p[0] < x || (
                                        p[0] == x && (p[1] < y || (p[1] == y && p[2] < z
                                            + 1)))) implies #[trigger] self.worldmap.dom(p)
                                        == seq![tile] by {
                                        let fp = flat_index(size, p);
                                        lemma_flat_index_bounds(size, p);
                                        if p == [
                                            x as usize,
                                            y as usize,
                                            z as usize,
                                        ] {
                                        } else {
                                            if fp == fsq {
                                                crate::worldmap::lemma_flat_index_injective(
                                                    size,
                                                    p,
                                                    [x, y, z],
                                                );
                                            }
                                            assert(before.dom(p) == seq![tile]);
                                            assert(before@.update(fsq, seq![tile])[fp].len() > 0);
                                            assert(self.worldmap@[fp].len() > 0);
                                            assert(self.worldmap@[fp].len() <= 1);
                                            assert(self.worldmap@[fp].contains(
                                                self.worldmap@[fp][0],
                                            ));
                                            assert(before@.update(fsq, seq![tile])[fp].contains(
                                                self.worldmap@[fp][0],
                                            ));
                                            assert(self.worldmap.dom(p) =~= seq![tile]);
                                        }
                                    }
                                    assert forall|p: Position| #![trigger self.worldmap.dom(p)]
                                        pos_ok(size, p) implies self.worldmap.dom(p) == seq![tile]
                                        || (forall|t: WfcTile|
                                        #[trigger] self.worldmap.dom(p).contains(t)
                                            ==> old(self).worldmap.dom(p).contains(t)) by {
                                        let fp = flat_index(size, p);
                                        lemma_flat_index_bounds(size, p);
                                        if fp == fsq {
                                            crate::worldmap::lemma_flat_index_injective(
                                                size,
                                                p,
                                                [x, y, z],
                                            );
                                        } else if before.dom(p) == seq![tile] {
                                            assert(before@.update(fsq, seq![tile])[fp].len() > 0);
                                            assert(self.worldmap@[fp].len() > 0);
                                            assert(self.worldmap@[fp].len() <= 1);
                                            assert(self.worldmap@[fp].contains(
                                                self.worldmap@[fp][0],
                                            ));
                                            assert(before@.update(fsq, seq![tile])[fp].contains(
                                                self.worldmap@[fp][0],
                                            ));
                                            assert(self.worldmap.dom(p) =~= seq![tile]);
                                        } else {
                                            assert forall|t: WfcTile|
                                                #[trigger] self.worldmap.dom(p).contains(
                                                t,
                                            ) implies old(self).worldmap.dom(p).contains(t) by {
                                                assert(self.worldmap@[fp].contains(t));
                                                assert(before@.update(fsq, seq![tile])[fp]
                                                    .contains(t));
                                                assert(before.dom(p).contains(t));
                                            }
                                        }
                                    }
                                }
                            },
                            Err(e) => {
                                proof {
                                    if hyp {
                                        assert(false);
                                    }
                                }
                                self.worldmap = backup;
                                proof {
                                    if old(self).inv() && old(self).arc_clean {
                                        lemma_same_grid(
                                            old(self).worldmap,
                                            self.worldmap,
                                            [x, y, z],
                                        );
                                    }
                                }
                                return Err(e);
                            },
                        }
                    }
                    z = z + 1;
                }
                y = y + 1;
            }
            x = x + 1;
        }
        Ok(())
    }

    /// One collapse-and-propagate cycle: pick the first undecided
    /// cell, collapse it to one random tile and propagate.  On
    /// contradiction, retry from the checkpoint with the failed
    /// choice excluded; when the failed cell has no alternative left,
    /// the attempt is unsolvable.  Returns `Ok(true)` once every cell
    /// is decided.
    pub fn wfc_step(&mut self) -> (r: Result<bool, WfcError>)
        requires
            old(self).inv(),
        ensures
            final(self).inv(),
            final(self).worldmap.wf(),
            final(self).worldmap.size == old(self).worldmap.size,
            final(self).worldmap.len == old(self).worldmap.len,
            final(self).tiles == old(self).tiles,
            final(self).seed == old(self).seed,
            final(self).arc_clean ==> old(self).arc_clean,
            doms_shrink(old(self).worldmap@, final(self).worldmap@),
            (forall|i: int|
                0 <= i < old(self).worldmap@.len() ==> #[trigger] old(self).worldmap@[i].len()
                    <= 1) ==> (r == Ok::<bool, WfcError>(true) && final(self).worldmap == old(
                self,
            ).worldmap),
            r == Ok::<bool, WfcError>(false) ==> exists|p: Position|
                pos_ok(old(self).worldmap.size, p) && old(self).worldmap.dom(p).len() > 1
                    && #[trigger] final(self).worldmap.decided(p),
            match r {
                Ok(done) => {
                    &&& (done ==> forall|i: int|
                        0 <= i < final(self).worldmap@.len()
                            ==> #[trigger] final(self).worldmap@[i].len() <= 1)
                    &&& (!done ==> total_tiles(final(self).worldmap@) < total_tiles(
                        old(self).worldmap@,
                    ))
                },
                Err(e) => e is Unsolvable,
            },
            r matches Err(WfcError::Unsolvable(up)) ==> pos_ok(old(self).worldmap.size, up)
                && final(self).worldmap.decided(up) && grid_dead_end(
                final(self).worldmap@,
                old(self).worldmap.size,
                up,
            ),
            distinct_domains(old(self).worldmap@) ==> distinct_domains(final(self).worldmap@),
            (distinct_domains(old(self).worldmap@) && (forall|i: int|
                0 <= i < old(self).worldmap@.len() ==> #[trigger] old(self).worldmap@[i].len()
                    > 0)) ==> (forall|i: int|
                0 <= i < final(self).worldmap@.len() ==> #[trigger] final(self).worldmap@[i].len()
                    > 0),
    {
        let mut checkpoint = self.worldmap.snapshot();
        proof {
            if self.arc_clean {
                lemma_same_grid(self.worldmap, checkpoint, [0, 0, 0]);
            }
        }
        loop
            invariant
                self.inv(),
                checkpoint.wf(),
                checkpoint.size == old(self).worldmap.size,
                checkpoint.len == old(self).worldmap.len,
                self.worldmap.size == old(self).worldmap.size,
                self.worldmap.len == old(self).worldmap.len,
                self.worldmap@ == checkpoint@,
                self.tiles == old(self).tiles,
                self.seed == old(self).seed,
                self.arc_clean ==> old(self).arc_clean,
                self.arc_clean ==> settled(checkpoint),
                doms_shrink(old(self).worldmap@, checkpoint@),
                (forall|i: int|
                    0 <= i < old(self).worldmap@.len() ==> #[trigger] old(
                        self,
                    ).worldmap@[i].len() <= 1) ==> self.worldmap == old(self).worldmap,
                distinct_domains(old(self).worldmap@) ==> distinct_domains(checkpoint@),
                (distinct_domains(old(self).worldmap@) && (forall|i: int|
                    0 <= i < old(self).worldmap@.len() ==> #[trigger] old(
                        self,
                    ).worldmap@[i].len() > 0)) ==> (forall|i: int|
                    0 <= i < checkpoint@.len() ==> #[trigger] checkpoint@[i].len() > 0),
            decreases total_tiles(checkpoint@),
        {
            let ghost w_top = self.worldmap;
            let ghost cp_top = checkpoint;
            match self.collapse() {
                None => {
                    return Ok(true);
                },
                Some(square) => {
                    proof {
                        lemma_flat_index_bounds(w_top.size, square);
                        if forall|i: int|
                            0 <= i < old(self).worldmap@.len() ==> #[trigger] old(
                                self,
                            ).worldmap@[i].len() <= 1 {
                            // every domain held at most one tile, so no
                            // cell with two candidates can exist
                            assert(old(self).worldmap@[flat_index(w_top.size, square)].len()
                                <= 1);
                            assert(false);
                        }
                    }
                    let ghost jj = choose|j: int|
                        0 <= j < w_top.dom(square).len() && self.worldmap@ == w_top@.update(
                            flat_index(w_top.size, square),
                            seq![w_top.dom(square)[j]],
                        );
                    let ghost chosen = w_top.dom(square)[jj];
                    let ghost w_col = self.worldmap;
                    let ghost fsq = flat_index(w_top.size, square);
                    proof {
                        lemma_flat_index_bounds(w_top.size, square);
                        assert(w_col.dom(square) =~= seq![chosen]);
                        assert(doms_shrink(w_top@, w_col@)) by {
                            assert forall|i: int, t: WfcTile|
                                0 <= i < w_top@.len() && #[trigger] w_col@[i].contains(t) implies
                                w_top@[i].contains(t) by {
                                if i == fsq {
                                    assert(t == chosen);
                                }
                            }
                        }
                        if distinct_domains(old(self).worldmap@) {
                            assert forall|i: int|
                                0 <= i < w_col@.len() implies pairwise_distinct(
                                #[trigger] w_col@[i],
                            ) by {
                                if i != fsq {
                                    assert(w_col@[i] == w_top@[i] && w_top@[i] == cp_top@[i]);
                                    assert(pairwise_distinct(cp_top@[i]));
                                }
                            }
                            if forall|i: int|
                                0 <= i < old(self).worldmap@.len() ==> #[trigger] old(
                                    self,
                                ).worldmap@[i].len() > 0 {
                                assert(forall|i: int|
                                    0 <= i < w_col@.len() ==> #[trigger] w_col@[i].len() > 0);
                            }
                        }
                    }
                    match propagate_from(&mut self.worldmap, square) {
                        Ok(()) => {
                            proof {
                                lemma_total_tiles_lt(w_top@, w_col@, fsq);
                                lemma_total_tiles_le(w_col@, self.worldmap@);
                                lemma_total_tiles_le(old(self).worldmap@, checkpoint@);
                                lemma_doms_shrink_trans(w_top@, w_col@, self.worldmap@);
                                lemma_doms_shrink_trans(
                                    old(self).worldmap@,
                                    w_top@,
                                    self.worldmap@,
                                );
                                if self.arc_clean {
                                    lemma_same_grid(cp_top, w_top, square);
                                    lemma_settled_after_pin(w_top, w_col, square);
                                }
                                // the collapsed cell was undecided at entry
                                // and is decided now
                                assert(self.worldmap@[fsq].len() > 0);
                                assert(self.worldmap.decided(square));
                                assert(old(self).worldmap.dom(square).len() > 1);
                            }
                            return Ok(false);
                        },
                        Err(cpos) => {
                            // A contradiction at a cell whose checkpoint
                            // domain is down to its last candidate has no
                            // local alternative: the attempt is over.
                            let cp_dom_len = checkpoint.domain_at(cpos).len();
                            if cp_dom_len == 1 {
                                self.arc_clean = false;
                                proof {
                                    lemma_doms_shrink_trans(w_top@, w_col@, self.worldmap@);
                                    lemma_doms_shrink_trans(
                                        old(self).worldmap@,
                                        w_top@,
                                        self.worldmap@,
                                    );
                                    // the cell held its last candidate when
                                    // it failed, so it is decided in the
                                    // state handed back
                                    let fcp = flat_index(w_top.size, cpos);
                                    lemma_flat_index_bounds(w_top.size, cpos);
                                    if fcp == fsq {
                                        crate::worldmap::lemma_flat_index_injective(
                                            w_top.size,
                                            cpos,
                                            square,
                                        );
                                        assert(w_col@[fcp].len() == 1);
                                    } else {
                                        assert(w_col@[fcp] == w_top@[fcp]);
                                        assert(w_col@[fcp].len() == 1);
                                    }
                                    assert(self.worldmap@[fcp].len() > 0);
                                    assert(self.worldmap.decided(cpos));
                                }
                                return Err(WfcError::Unsolvable(cpos));
                            }
                            proof {
                                assert(self.worldmap@[fsq].len() > 0);
                                assert(self.worldmap@[fsq].contains(self.worldmap@[fsq][0]));
                                assert(w_col@[fsq].contains(self.worldmap@[fsq][0]));
                            }
                            let sel = self.worldmap.domain_at(square)[0];
                            proof {
                                assert(sel == chosen);
                            }
                            let ghost cp_before = checkpoint;
                            checkpoint.exclude_tile(square, sel);
                            proof {
                                broadcast use vstd::seq_lib::group_filter_ensures;

                                let pred = not_tile(sel);
                                let cdom = cp_before.dom(square);
                                cdom.lemma_filter_len(pred);
                                // The failed choice really leaves: its own
                                // entry fails the keep-predicate.
                                if checkpoint.dom(square).len() == cdom.len() {
                                    crate::propagate::lemma_filter_full(cdom, pred);
                                    assert(pred(cdom[jj]));
                                    assert(false);
                                }
                                lemma_total_tiles_lt(cp_before@, checkpoint@, fsq);
                                assert(doms_shrink(cp_before@, checkpoint@)) by {
                                    assert forall|i: int, t: WfcTile|
                                        0 <= i < cp_before@.len() && #[trigger] checkpoint@[i].contains(
                                            t,
                                        ) implies cp_before@[i].contains(t) by {
                                        if i == fsq {
                                            cdom.lemma_filter_contains_rev(pred, t);
                                        }
                                    }
                                }
                                lemma_doms_shrink_trans(
                                    old(self).worldmap@,
                                    cp_before@,
                                    checkpoint@,
                                );
                                if distinct_domains(old(self).worldmap@) {
                                    // nothing is duplicated, so the
                                    // exclusion removes exactly one entry
                                    assert(pairwise_distinct(cdom));
                                    assert forall|i: int|
                                        0 <= i < checkpoint@.len() implies pairwise_distinct(
                                        #[trigger] checkpoint@[i],
                                    ) by {
                                        if i == fsq {
                                            lemma_filter_keeps_distinct(cdom, pred);
                                        } else {
                                            assert(checkpoint@[i] == cp_before@[i]);
                                            assert(pairwise_distinct(cp_before@[i]));
                                        }
                                    }
                                    crate::worldmap::lemma_distinct_filter_one(cdom, sel);
                                    assert(crate::worldmap::only_tile(sel)(cdom[jj]));
                                    cdom.lemma_filter_contains(
                                        crate::worldmap::only_tile(sel),
                                        jj,
                                    );
                                    assert(cdom.filter(
                                        crate::worldmap::only_tile(sel),
                                    ).len() == 1);
                                    lemma_backtrack_exact(cdom, sel);
                                    assert(checkpoint@[fsq].len() == cdom.len() - 1);
                                }
                            }
                            let new_len = checkpoint.domain_at(square).len();
                            if new_len == 1 {
                                self.arc_clean = false;
                            } else {
                                proof {
                                    if self.arc_clean {
                                        lemma_settled_shrink_one(cp_before, checkpoint, square);
                                    }
                                }
                            }
                            self.worldmap = checkpoint.snapshot();
                            proof {
                                if self.arc_clean {
                                    lemma_same_grid(checkpoint, self.worldmap, square);
                                }
                            }
                        },
                    }
                },
            }
        }
    }

    /// Collapse and propagate until the grid is fully decided or the
    /// current seed is found unsolvable.
    pub fn run(&mut self) -> (r: Result<(), WfcError>)
        requires
            old(self).inv(),
        ensures
            final(self).inv(),
            final(self).worldmap.wf(),
            final(self).worldmap.size == old(self).worldmap.size,
            final(self).worldmap.len == old(self).worldmap.len,
            final(self).tiles == old(self).tiles,
            final(self).seed == old(self).seed,
            final(self).arc_clean ==> old(self).arc_clean,
            doms_shrink(old(self).worldmap@, final(self).worldmap@),
            r is Ok ==> forall|i: int|
                0 <= i < final(self).worldmap@.len() ==> #[trigger] final(self).worldmap@[i].len()
                    <= 1,
            r is Ok && final(self).arc_clean ==> locally_consistent(final(self).worldmap),
            (forall|i: int|
                0 <= i < old(self).worldmap@.len() ==> #[trigger] old(self).worldmap@[i].len()
                    <= 1) ==> (r is Ok && final(self).worldmap == old(self).worldmap),
            r matches Err(e) ==> e is Unsolvable,
            r matches Err(WfcError::Unsolvable(up)) ==> pos_ok(old(self).worldmap.size, up)
                && final(self).worldmap.decided(up) && grid_dead_end(
                final(self).worldmap@,
                old(self).worldmap.size,
                up,
            ),
            distinct_domains(old(self).worldmap@) ==> distinct_domains(final(self).worldmap@),
            (distinct_domains(old(self).worldmap@) && (forall|i: int|
                0 <= i < old(self).worldmap@.len() ==> #[trigger] old(self).worldmap@[i].len()
                    > 0)) ==> (forall|i: int|
                0 <= i < final(self).worldmap@.len() ==> #[trigger] final(self).worldmap@[i].len()
                    > 0),
            (distinct_domains(old(self).worldmap@) && (forall|i: int|
                0 <= i < old(self).worldmap@.len() ==> #[trigger] old(self).worldmap@[i].len()
                    > 0) && r is Ok) ==> (forall|i: int|
                0 <= i < final(self).worldmap@.len() ==> #[trigger] final(self).worldmap@[i].len()
                    == 1),
            (distinct_domains(old(self).worldmap@) && (forall|i: int|
                0 <= i < old(self).worldmap@.len() ==> #[trigger] old(self).worldmap@[i].len()
                    > 0) && r is Ok) ==> (forall|p: Position|
                pos_ok(old(self).worldmap.size, p) && old(self).worldmap.decided(p)
                    ==> #[trigger] final(self).worldmap.dom(p) == old(self).worldmap.dom(p)),
    {
        loop
            invariant
                self.inv(),
                self.worldmap.size == old(self).worldmap.size,
                self.worldmap.len == old(self).worldmap.len,
                self.tiles == old(self).tiles,
                self.seed == old(self).seed,
                self.arc_clean ==> old(self).arc_clean,
                doms_shrink(old(self).worldmap@, self.worldmap@),
                (forall|i: int|
                    0 <= i < old(self).worldmap@.len() ==> #[trigger] old(
                        self,
                    ).worldmap@[i].len() <= 1) ==> self.worldmap == old(self).worldmap,
                distinct_domains(old(self).worldmap@) ==> distinct_domains(self.worldmap@),
                (distinct_domains(old(self).worldmap@) && (forall|i: int|
                    0 <= i < old(self).worldmap@.len() ==> #[trigger] old(
                        self,
                    ).worldmap@[i].len() > 0)) ==> (forall|i: int|
                    0 <= i < self.worldmap@.len() ==> #[trigger] self.worldmap@[i].len() > 0),
            decreases total_tiles(self.worldmap@),
        {
            let ghost before = self.worldmap;
            proof {
                if forall|i: int|
                    0 <= i < old(self).worldmap@.len() ==> #[trigger] old(self).worldmap@[i].len()
                        <= 1 {
                    assert(forall|i: int|
                        0 <= i < before@.len() ==> #[trigger] before@[i].len() <= 1);
                }
            }
            match self.wfc_step() {
                Ok(true) => {
                    proof {
                        lemma_doms_shrink_trans(old(self).worldmap@, before@, self.worldmap@);
                        if self.arc_clean {
                            lemma_settled_implies_locally_consistent(self.worldmap);
                        }
                        if distinct_domains(old(self).worldmap@) && (forall|i: int|
                            0 <= i < old(self).worldmap@.len() ==> #[trigger] old(
                                self,
                            ).worldmap@[i].len() > 0) {
                            assert forall|p: Position|
                                pos_ok(old(self).worldmap.size, p) && old(self).worldmap.decided(
                                    p,
                                ) implies #[trigger] self.worldmap.dom(p) == old(
                                self,
                            ).worldmap.dom(p) by {
                                lemma_flat_index_bounds(old(self).worldmap.size, p);
                                lemma_decided_cells_kept(
                                    old(self).worldmap@,
                                    self.worldmap@,
                                    flat_index(old(self).worldmap.size, p),
                                );
                            }
                        }
                    }
                    return Ok(());
                },
                Ok(false) => {
                    proof {
                        lemma_doms_shrink_trans(old(self).worldmap@, before@, self.worldmap@);
                    }
                },
                Err(e) => {
                    proof {
                        lemma_doms_shrink_trans(old(self).worldmap@, before@, self.worldmap@);
                    }
                    return Err(e);
                },
            }
        }
    }

    /// Try whole attempts, one seed after another: after a fatal
    /// failure, restore the starting grid, bump the seed, reseed the
    /// generator and run again, up to `attempts` times in all.
    pub fn run_until_success(&mut self, attempts: u64) -> (r: Result<(), WfcError>)
        requires
            old(self).inv(),
            attempts >= 1,
            old(self).seed + attempts <= u64::MAX,
        ensures
            final(self).inv(),
            final(self).worldmap.wf(),
            final(self).worldmap.size == old(self).worldmap.size,
            final(self).worldmap.len == old(self).worldmap.len,
            final(self).tiles == old(self).tiles,
            final(self).seed < old(self).seed + attempts,
            doms_shrink(old(self).worldmap@, final(self).worldmap@),
            r is Ok ==> forall|i: int|
                0 <= i < final(self).worldmap@.len() ==> #[trigger] final(self).worldmap@[i].len()
                    <= 1,
            r is Ok && final(self).arc_clean ==> locally_consistent(final(self).worldmap),
            (forall|i: int|
                0 <= i < old(self).worldmap@.len() ==> #[trigger] old(self).worldmap@[i].len()
                    <= 1) ==> (r is Ok && final(self).worldmap == old(self).worldmap),
            r matches Err(e) ==> e is Unsolvable,
            r matches Err(WfcError::Unsolvable(up)) ==> pos_ok(old(self).worldmap.size, up)
                && final(self).worldmap.decided(up) && grid_dead_end(
                final(self).worldmap@,
                old(self).worldmap.size,
                up,
            ),
            distinct_domains(old(self).worldmap@) ==> distinct_domains(final(self).worldmap@),
            (distinct_domains(old(self).worldmap@) && (forall|i: int|
                0 <= i < old(self).worldmap@.len() ==> #[trigger] old(self).worldmap@[i].len()
                    > 0) && r is Ok) ==> (forall|i: int|
                0 <= i < final(self).worldmap@.len() ==> #[trigger] final(self).worldmap@[i].len()
                    == 1),
            (distinct_domains(old(self).worldmap@) && (forall|i: int|
                0 <= i < old(self).worldmap@.len() ==> #[trigger] old(self).worldmap@[i].len()
                    > 0) && r is Ok) ==> (forall|p: Position|
                pos_ok(old(self).worldmap.size, p) && old(self).worldmap.decided(p)
                    ==> #[trigger] final(self).worldmap.dom(p) == old(self).worldmap.dom(p)),
    {
        let initial = self.worldmap.snapshot();
        let init_clean = self.arc_clean;
        let mut tries: u64 = 0;
        loop
            invariant
                self.inv(),
                self.worldmap.wf(),
                self.worldmap.size == old(self).worldmap.size,
                self.worldmap.len == old(self).worldmap.len,
                self.tiles == old(self).tiles,
                initial@ == old(self).worldmap@,
                initial.size == old(self).worldmap.size,
                initial.len == old(self).worldmap.len,
                tries < attempts,
                self.seed == old(self).seed + tries,
                old(self).seed + attempts <= u64::MAX,
                self.worldmap@ == initial@,
                self.arc_clean == init_clean,
                init_clean ==> settled(old(self).worldmap),
                (forall|i: int|
                    0 <= i < old(self).worldmap@.len() ==> #[trigger] old(
                        self,
                    ).worldmap@[i].len() <= 1) ==> self.worldmap == old(self).worldmap,
            decreases attempts - tries,
        {
            proof {
                if forall|i: int|
                    0 <= i < old(self).worldmap@.len() ==> #[trigger] old(self).worldmap@[i].len()
                        <= 1 {
                    assert(forall|i: int|
                        0 <= i < self.worldmap@.len() ==> #[trigger] self.worldmap@[i].len()
                            <= 1);
                }
            }
            match self.run() {
                Ok(()) => {
                    return Ok(());
                },
                Err(e) => {
                    tries = tries + 1;
                    if tries == attempts {
                        return Err(e);
                    }
                    let s = self.seed + 1;
                    self.init_rng(s);
                    self.worldmap = initial.snapshot();
                    self.arc_clean = init_clean;
                    proof {
                        if init_clean {
                            lemma_same_grid(old(self).worldmap, self.worldmap, [0, 0, 0]);
                        }
                    }
                },
            }
        }
    }

    /// Dump every decided cell as `(x, y, z, angle, identity)`, in
    /// x-major scan order.
    pub fn decided_cells(&self) -> (r: Vec<(usize, usize, usize, u32, u32)>)
        requires
            self.worldmap.wf(),
        ensures
            r@ == dump_from(self.worldmap, 0),
    {
        let sx = self.worldmap.size[0];
        let sy = self.worldmap.size[1];
        let sz = self.worldmap.size[2];
        let ghost w = self.worldmap;
        let mut r: Vec<(usize, usize, usize, u32, u32)> = Vec::new();
        let mut kk: usize = 0;
        let mut x: usize = 0;
        proof {
            assert(x * sy * sz == 0) by (nonlinear_arith)
                requires
                    x == 0,
            ;
        }
        while x < sx
            invariant
                self.worldmap == w,
                self.worldmap.wf(),
                sx == w.size[0],
                sy == w.size[1],
                sz == w.size[2],
                x <= sx,
                kk == x * sy * sz,
                r@ + dump_from(w, kk as int) == dump_from(w, 0),
                kk <= w.len,
            decreases sx - x,
        {
            let mut y: usize = 0;
            proof {
                assert(y * sz == 0) by (nonlinear_arith)
                    requires
                        y == 0,
                ;
            }
            while y < sy
                invariant
                    self.worldmap == w,
                    self.worldmap.wf(),
                    sx == w.size[0],
                    sy == w.size[1],
                    sz == w.size[2],
                    x < sx,
                    y <= sy,
                    kk == x * sy * sz + y * sz,
                    r@ + dump_from(w, kk as int) == dump_from(w, 0),
                    kk <= w.len,
                decreases sy - y,
            {
                let mut z: usize = 0;
                while z < sz
                    invariant
                        self.worldmap == w,
                        self.worldmap.wf(),
                        sx == w.size[0],
                        sy == w.size[1],
                        sz == w.size[2],
                        x < sx,
                        y < sy,
                        z <= sz,
                        kk == x * sy * sz + y * sz + z,
                        r@ + dump_from(w, kk as int) == dump_from(w, 0),
                        kk <= w.len,
                    decreases sz - z,
                {
                    proof {
                        assert(kk < sx * sy * sz) by (nonlinear_arith)
                            requires
                                kk == x * sy * sz + y * sz + z,
                                0 <= x < sx,
                                0 <= y < sy,
                                0 <= z < sz,
                        ;
                        lemma_xmajor_pos(w.size, x as int, y as int, z as int);
                        lemma_pos_of_flat_helper(w, x, y, z);
                    }
                    let p = [x, y, z];
                    let ghost r0 = r@;
                    let stack = self.worldmap.domain_at(p);
                    if stack.len() == 1 {
                        let t = stack[0];
                        r.push((x, y, z, t.angle, t.index));
                    }
                    proof {
                        assert(r@ + dump_from(w, kk + 1) =~= dump_from(w, 0));
                    }
                    z = z + 1;
                    kk = kk + 1;
                }
                proof {
                    assert((y + 1) * sz == y * sz + sz) by (nonlinear_arith);
                }
                y = y + 1;
            }
            proof {
                assert((x + 1) * sy * sz == x * sy * sz + sy * sz) by (nonlinear_arith);
            }
            x = x + 1;
        }
        proof {
            assert(kk == w.len) by (nonlinear_arith)
                requires
                    kk == x * sy * sz,
                    x == sx,
                    w.len == sx * sy * sz,
            ;
            assert(dump_from(w, kk as int) =~= Seq::<(usize, usize, usize, u32, u32)>::empty());
            assert(r@ =~= dump_from(w, 0));
        }
        r
    }
}

/// The scanned cell is in bounds: the x-major counter stays below the
/// cell count.
proof fn lemma_pos_of_flat_helper(w: Worldmap, x: usize, y: usize, z: usize)
    requires
        w.wf(),
        x < w.size[0],
        y < w.size[1],
        z < w.size[2],
    ensures
        pos_ok(w.size, [x, y, z]),
{
}

} // verus!
