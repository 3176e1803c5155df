//! What it means for the grid to be consistent: arcs between
//! neighbouring cells, the settled-grid invariant that propagation
//! maintains, and the local-consistency law for decided cells.

use vstd::prelude::*;
use crate::tile::{Direction, WfcTile};
use crate::worldmap::{
    Position, Worldmap, doms_shrink, lemma_flat_index_bounds, lemma_step_flip, pos_ok, step_pos,
};

verus! {

/// Some tile in `dom` exposes label `l` in direction slot `d`.
pub open spec fn exposes(dom: Seq<WfcTile>, d: int, l: usize) -> bool {
    exists|k: int| 0 <= k < dom.len() && dom[k].connection_types[d] == l
}

/// Two tiles may sit next to each other across direction `d`: the
/// label `a` shows toward `d` equals the label `b` shows back.
pub open spec fn compat(a: WfcTile, d: Direction, b: WfcTile) -> bool {
    a.connection_types[d.index_spec()] == b.connection_types[d.flip_spec().index_spec()]
}

/// The arc from cell `p` in direction `d` is consistent: every tile
/// still possible at the neighbour exposes, on the flipped side, a
/// label that some tile at `p` exposes toward it.  An arc that leaves
/// the grid constrains nothing.
pub open spec fn arc_ok(w: Worldmap, p: Position, d: Direction) -> bool {
    match step_pos(w.size, p, d) {
        Some(q) => forall|j: int|
            0 <= j < w.dom(q).len() ==> exposes(
                w.dom(p),
                d.index_spec(),
                #[trigger] w.dom(q)[j].connection_types[d.flip_spec().index_spec()],
            ),
        None => true,
    }
}

/// The grid is settled: every decided cell's arcs are consistent, in
/// every direction.  This holds between solver steps as long as every
/// cell that became decided has been propagated from.
pub open spec fn settled(w: Worldmap) -> bool {
    forall|p: Position, d: Direction|
        pos_ok(w.size, p) && w.decided(p) ==> #[trigger] arc_ok(w, p, d)
}

/// The grid is settled except possibly at arcs that point out of `o`
/// or into `o`: the state right after a cell has been pinned or
/// collapsed to a single tile and before propagation has run from it.
pub open spec fn settled_except(w: Worldmap, o: Position) -> bool {
    forall|p: Position, d: Direction|
        pos_ok(w.size, p) && w.decided(p) && p != o ==> #[trigger] arc_ok(w, p, d) || (step_pos(
            w.size,
            p,
            d,
        ) == Some(o) && w.decided(o))
}

/// The worklist invariant of the propagation pass: every decided
/// cell's arc is consistent, or its source cell still waits on the
/// worklist, or the arc points at a decided cell that waits there.
pub open spec fn wl_inv(w: Worldmap, wl: Seq<Position>) -> bool {
    forall|p: Position, d: Direction|
        pos_ok(w.size, p) && w.decided(p) ==> #[trigger] arc_ok(w, p, d) || wl.contains(p) || {
            let n = step_pos(w.size, p, d);
            n is Some && w.decided(n->Some_0) && wl.contains(n->Some_0)
        }
}

/// Flipping a direction twice gives the direction back.
pub proof fn lemma_flip_flip(d: Direction)
    ensures
        d.flip_spec().flip_spec() == d,
{
}

/// Between two decided cells the arc and its reverse say the same
/// thing: the two single tiles are compatible across the shared edge.
pub proof fn lemma_arc_singleton(w: Worldmap, p: Position, d: Direction, q: Position)
    requires
        pos_ok(w.size, p),
        step_pos(w.size, p, d) == Some(q),
        w.decided(p),
        w.decided(q),
    ensures
        arc_ok(w, p, d) <==> compat(w.dom(p)[0], d, w.dom(q)[0]),
        arc_ok(w, p, d) <==> arc_ok(w, q, d.flip_spec()),
{
    lemma_step_flip(w.size, p, d, q);
    lemma_flip_flip(d);
    let dp = w.dom(p);
    let dq = w.dom(q);
    if compat(dp[0], d, dq[0]) {
        assert forall|j: int| 0 <= j < dq.len() implies exposes(
            dp,
            d.index_spec(),
            dq[j].connection_types[d.flip_spec().index_spec()],
        ) by {
            assert(dp[0].connection_types[d.index_spec()] == dq[j].connection_types[
                d.flip_spec().index_spec()]);
        }
        assert forall|j: int| 0 <= j < dp.len() implies exposes(
            dq,
            d.flip_spec().index_spec(),
            dp[j].connection_types[d.flip_spec().flip_spec().index_spec()],
        ) by {
            assert(dq[0].connection_types[d.flip_spec().index_spec()] == dp[j].connection_types[
                d.index_spec()]);
        }
    }
    if arc_ok(w, p, d) {
        assert(step_pos(w.size, p, d)->Some_0 == q);
        assert(0 < w.dom(q).len() && exposes(
            w.dom(p),
            d.index_spec(),
            w.dom(q)[0].connection_types[d.flip_spec().index_spec()],
        ));
        let k = choose|k: int|
            0 <= k < w.dom(p).len() && w.dom(p)[k].connection_types[d.index_spec()] == w.dom(
                q,
            )[0].connection_types[d.flip_spec().index_spec()];
        assert(k == 0);
    }
    if arc_ok(w, q, d.flip_spec()) {
        assert(step_pos(w.size, q, d.flip_spec())->Some_0 == p);
        assert(0 < w.dom(p).len() && exposes(
            w.dom(q),
            d.flip_spec().index_spec(),
            w.dom(p)[0].connection_types[d.flip_spec().flip_spec().index_spec()],
        ));
        let k = choose|k: int|
            0 <= k < w.dom(q).len() && w.dom(q)[k].connection_types[d.flip_spec().index_spec()]
                == w.dom(p)[0].connection_types[d.index_spec()];
        assert(k == 0);
    }
}

/// Shrinking other cells' domains cannot break a consistent arc, as
/// long as the arc's own source cell is untouched: the neighbour's
/// remaining tiles were all matched before.
pub proof fn lemma_arc_ok_shrink(a: Worldmap, b: Worldmap, p: Position, d: Direction)
    requires
        a.wf(),
        b.wf(),
        b.size == a.size,
        b.len == a.len,
        pos_ok(a.size, p),
        b.dom(p) == a.dom(p),
        doms_shrink(a@, b@),
        arc_ok(a, p, d),
    ensures
        arc_ok(b, p, d),
{
    let n = step_pos(b.size, p, d);
    if n is Some {
        let q = n->Some_0;
        lemma_step_flip(a.size, p, d, q);
        lemma_flat_index_bounds(a.size, q);
        assert forall|j: int| 0 <= j < b.dom(q).len() implies exposes(
            b.dom(p),
            d.index_spec(),
            #[trigger] b.dom(q)[j].connection_types[d.flip_spec().index_spec()],
        ) by {
            let t = b.dom(q)[j];
            assert(b.dom(q).contains(t));
            assert(a.dom(q).contains(t));
            let k = choose|k: int| 0 <= k < a.dom(q).len() && a.dom(q)[k] == t;
            assert(exposes(
                a.dom(p),
                d.index_spec(),
                a.dom(q)[k].connection_types[d.flip_spec().index_spec()],
            ));
        }
    }
}

/// Consistency depends on the domains and the size vector alone: two
/// grids with the same contents are settled together.
pub proof fn lemma_same_grid(a: Worldmap, b: Worldmap, o: Position)
    requires
        a@ == b@,
        b.size == a.size,
    ensures
        settled(a) <==> settled(b),
        settled_except(a, o) <==> settled_except(b, o),
{
    assert forall|p: Position, d: Direction| #[trigger] arc_ok(a, p, d) == arc_ok(b, p, d) by {
        let n = step_pos(a.size, p, d);
        if n is Some {
            assert(a.dom(p) == b.dom(p));
            assert(a.dom(n->Some_0) == b.dom(n->Some_0));
            if arc_ok(a, p, d) {
                assert forall|j: int| 0 <= j < b.dom(n->Some_0).len() implies exposes(
                    b.dom(p),
                    d.index_spec(),
                    #[trigger] b.dom(n->Some_0)[j].connection_types[d.flip_spec().index_spec()],
                ) by {}
            }
            if arc_ok(b, p, d) {
                assert forall|j: int| 0 <= j < a.dom(n->Some_0).len() implies exposes(
                    a.dom(p),
                    d.index_spec(),
                    #[trigger] a.dom(n->Some_0)[j].connection_types[d.flip_spec().index_spec()],
                ) by {}
            }
        }
    }
    assert forall|p: Position| #[trigger] a.decided(p) == b.decided(p) by {
        assert(a.dom(p) == b.dom(p));
    }
    if settled(a) {
        assert forall|p: Position, d: Direction|
            pos_ok(b.size, p) && b.decided(p) implies #[trigger] arc_ok(b, p, d) by {
            assert(arc_ok(a, p, d));
        }
    }
    if settled(b) {
        assert forall|p: Position, d: Direction|
            pos_ok(a.size, p) && a.decided(p) implies #[trigger] arc_ok(a, p, d) by {
            assert(arc_ok(b, p, d));
        }
    }
    if settled_except(a, o) {
        assert forall|p: Position, d: Direction|
            pos_ok(b.size, p) && b.decided(p) && p != o implies #[trigger] arc_ok(b, p, d) || (
            step_pos(b.size, p, d) == Some(o) && b.decided(o)) by {
            assert(arc_ok(a, p, d) || (step_pos(a.size, p, d) == Some(o) && a.decided(o)));
        }
    }
    if settled_except(b, o) {
        assert forall|p: Position, d: Direction|
            pos_ok(a.size, p) && a.decided(p) && p != o implies #[trigger] arc_ok(a, p, d) || (
            step_pos(a.size, p, d) == Some(o) && a.decided(o)) by {
            assert(arc_ok(b, p, d) || (step_pos(b.size, p, d) == Some(o) && b.decided(o)));
        }
    }
}

/// Replacing one cell's domain by a single tile leaves the grid
/// settled except possibly at arcs that involve that cell.
pub proof fn lemma_settled_after_pin(a: Worldmap, b: Worldmap, o: Position)
    requires
        a.wf(),
        b.wf(),
        b.size == a.size,
        b.len == a.len,
        pos_ok(a.size, o),
        settled(a),
        b.decided(o),
        forall|i: int|
            0 <= i < a@.len() && i != crate::worldmap::flat_index(a.size, o) ==> #[trigger] b@[i]
                == a@[i],
    ensures
        settled_except(b, o),
{
    let fo = crate::worldmap::flat_index(a.size, o);
    lemma_flat_index_bounds(a.size, o);
    assert forall|p: Position, d: Direction|
        pos_ok(b.size, p) && b.decided(p) && p != o implies #[trigger] arc_ok(b, p, d) || (
    step_pos(b.size, p, d) == Some(o) && b.decided(o)) by {
        lemma_flat_index_bounds(a.size, p);
        if crate::worldmap::flat_index(a.size, p) == fo {
            crate::worldmap::lemma_flat_index_injective(a.size, p, o);
        } else {
            assert(b.dom(p) == a.dom(p));
            assert(a.decided(p));
            assert(arc_ok(a, p, d));
            let n = step_pos(a.size, p, d);
            if n is Some && n->Some_0 != o {
                let q = n->Some_0;
                lemma_step_flip(a.size, p, d, q);
                lemma_flat_index_bounds(a.size, q);
                if crate::worldmap::flat_index(a.size, q) == fo {
                    crate::worldmap::lemma_flat_index_injective(a.size, q, o);
                }
                assert(b.dom(q) == a.dom(q));
                assert forall|j: int| 0 <= j < b.dom(q).len() implies exposes(
                    b.dom(p),
                    d.index_spec(),
                    #[trigger] b.dom(q)[j].connection_types[d.flip_spec().index_spec()],
                ) by {}
                assert(arc_ok(b, p, d));
            }
        }
    }
}

/// Removing tiles from one cell keeps a settled grid settled, as
/// long as the removal does not leave that cell freshly decided.
pub proof fn lemma_settled_shrink_one(a: Worldmap, b: Worldmap, o: Position)
    requires
        a.wf(),
        b.wf(),
        b.size == a.size,
        b.len == a.len,
        pos_ok(a.size, o),
        settled(a),
        doms_shrink(a@, b@),
        forall|i: int|
            0 <= i < a@.len() && i != crate::worldmap::flat_index(a.size, o) ==> #[trigger] b@[i]
                == a@[i],
        b.dom(o).len() != 1,
    ensures
        settled(b),
{
    let fo = crate::worldmap::flat_index(a.size, o);
    lemma_flat_index_bounds(a.size, o);
    assert forall|p: Position, d: Direction|
        pos_ok(b.size, p) && b.decided(p) implies #[trigger] arc_ok(b, p, d) by {
        lemma_flat_index_bounds(a.size, p);
        if crate::worldmap::flat_index(a.size, p) == fo {
            crate::worldmap::lemma_flat_index_injective(a.size, p, o);
            assert(false);
        } else {
            assert(b.dom(p) == a.dom(p));
            assert(a.decided(p));
            assert(arc_ok(a, p, d));
            lemma_arc_ok_shrink(a, b, p, d);
        }
    }
}

/// The cell at `cp` is a genuine dead end in the grid `g` (read with
/// the given size vector): some in-bounds neighbour `q` faces it, its
/// own domain is not yet empty, and not one of its tiles can face
/// anything `q` still offers — the filter from `q` would empty it.
pub open spec fn grid_dead_end(g: Seq<Seq<WfcTile>>, size: [usize; 3], cp: Position) -> bool {
    exists|q: Position, d: Direction|
        {
            &&& pos_ok(size, q)
            &&& #[trigger] step_pos(size, q, d) == Some(cp)
            &&& g[crate::worldmap::flat_index(size, cp)].len() > 0
            &&& forall|j: int|
                0 <= j < g[crate::worldmap::flat_index(size, cp)].len() ==> !exposes(
                    g[crate::worldmap::flat_index(size, q)],
                    d.index_spec(),
                    #[trigger] g[crate::worldmap::flat_index(size, cp)][j].connection_types[
                        d.flip_spec().index_spec()],
                )
        }
}

/// Every cell the pass has changed — and the origin itself — has all
/// its arcs consistent: on success the affected region of a
/// propagation is arc-consistent, whatever state the pass started
/// from.
pub open spec fn touched_sources_ok(
    entry: Seq<Seq<WfcTile>>,
    w: Worldmap,
    origin: Position,
) -> bool {
    forall|p: Position, d: Direction|
        pos_ok(w.size, p) && (p == origin || w.dom(p) != entry[crate::worldmap::flat_index(
            w.size,
            p,
        )]) ==> #[trigger] arc_ok(w, p, d)
}

/// A pin really failed: some grid reachable from the pinned one by
/// pure filtering — domains only shrunk, no non-empty domain emptied,
/// every already-decided cell untouched — holds a genuine dead end at
/// `cp`.  The failing state itself is discarded when the pin is
/// rolled back, so it is bound here existentially.
pub open spec fn pin_failure(pinned: Seq<Seq<WfcTile>>, size: [usize; 3], cp: Position) -> bool {
    exists|g: Seq<Seq<WfcTile>>|
        {
            &&& doms_shrink(pinned, g)
            &&& (forall|i: int|
                0 <= i < pinned.len() && pinned[i].len() > 0 ==> #[trigger] g[i].len() > 0)
            &&& (forall|i: int|
                0 <= i < pinned.len() && pinned[i].len() == 1 ==> #[trigger] g[i] == pinned[i])
            &&& #[trigger] grid_dead_end(g, size, cp)
        }
}

/// `tile` can face everything the neighbours of `p` still consider
/// possible: pinning `p` to `tile` then filters nothing away.
pub open spec fn pin_compatible(w: Worldmap, p: Position, tile: WfcTile) -> bool {
    forall|d: Direction|
        {
            let n = #[trigger] step_pos(w.size, p, d);
            n is Some ==> forall|j: int|
                0 <= j < w.dom(n->Some_0).len() ==> compat(tile, d, #[trigger] w.dom(n->Some_0)[j])
        }
}

/// Every adjacent pair of decided cells agrees on the label across
/// the shared edge.
pub open spec fn locally_consistent(w: Worldmap) -> bool {
    forall|p: Position, d: Direction|
        {
            let n = #[trigger] step_pos(w.size, p, d);
            pos_ok(w.size, p) && w.decided(p) && n is Some && w.decided(n->Some_0) ==> compat(
                w.dom(p)[0],
                d,
                w.dom(n->Some_0)[0],
            )
        }
}

/// A settled grid is locally consistent on its decided cells.
pub proof fn lemma_settled_implies_locally_consistent(w: Worldmap)
    requires
        settled(w),
    ensures
        locally_consistent(w),
{
    assert forall|p: Position, d: Direction|
        {
            let n = #[trigger] step_pos(w.size, p, d);
            pos_ok(w.size, p) && w.decided(p) && n is Some && w.decided(n->Some_0) ==> compat(
                w.dom(p)[0],
                d,
                w.dom(n->Some_0)[0],
            )
        } by {
        let n = step_pos(w.size, p, d);
        if pos_ok(w.size, p) && w.decided(p) && n is Some && w.decided(n->Some_0) {
            assert(arc_ok(w, p, d));
            lemma_arc_singleton(w, p, d, n->Some_0);
        }
    }
}

/// Local consistency of a settled grid: two adjacent decided cells
/// agree on the connection label across their shared edge.
pub proof fn lemma_local_consistency(w: Worldmap, p: Position, d: Direction, q: Position)
    requires
        pos_ok(w.size, p),
        step_pos(w.size, p, d) == Some(q),
        settled(w),
        w.decided(p),
        w.decided(q),
    ensures
        w.dom(p)[0].connection_types[d.index_spec()] == w.dom(q)[0].connection_types[
            d.flip_spec().index_spec()],
{
    assert(arc_ok(w, p, d));
    lemma_arc_singleton(w, p, d, q);
}

} // verus!
