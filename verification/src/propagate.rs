//! The arc-consistency pass: gather the labels a cell still offers in
//! each direction, filter each neighbour's domain down to the tiles
//! that can still face them, and repeat from every cell that changed,
//! on an explicit worklist.

use vstd::prelude::*;
use crate::tile::{Direction, WfcTile, lemma_direction_index};
use crate::consistency::{
    arc_ok, exposes, grid_dead_end, lemma_arc_ok_shrink, lemma_arc_singleton, lemma_flip_flip,
    settled, settled_except, touched_sources_ok, wl_inv,
};
use crate::worldmap::{
    Position, Worldmap, distinct_domains, doms_shrink, flat_index, lemma_doms_shrink_trans,
    lemma_filter_keeps_distinct, lemma_flat_index_bounds, lemma_flat_index_injective,
    lemma_step_flip, lemma_total_tiles_le, lemma_total_tiles_lt, pairwise_distinct, pos_ok,
    step_pos, total_tiles,
};

verus! {

/// The predicate a neighbour's tiles must meet to survive filtering:
/// the label the tile exposes in slot `fd` (back toward the filtering
/// cell) is among `labels`.
pub open spec fn keeps_label(labels: Seq<usize>, fd: int) -> spec_fn(WfcTile) -> bool {
    |t: WfcTile| labels.contains(t.connection_types[fd])
}

/// A filter that removed nothing kept everything: the sequence is
/// unchanged and every element satisfies the predicate.
pub(crate) proof fn lemma_filter_full(s: Seq<WfcTile>, pred: spec_fn(WfcTile) -> bool)
    requires
        s.filter(pred).len() == s.len(),
    ensures
        s.filter(pred) == s,
        forall|i: int| 0 <= i < s.len() ==> pred(s[i]),
    decreases s.len(),
{
    broadcast use vstd::seq_lib::group_filter_ensures;

    reveal(Seq::filter);
    if s.len() > 0 {
        let dl = s.drop_last();
        dl.lemma_filter_len(pred);
        if pred(s.last()) {
            lemma_filter_full(dl, pred);
            assert(s.filter(pred) =~= s);
            assert forall|i: int| 0 <= i < s.len() implies pred(s[i]) by {
                if i < s.len() - 1 {
                    assert(pred(dl[i]));
                }
            }
        }
    }
}

/// A filter whose predicate holds of every element removes nothing.
pub(crate) proof fn lemma_filter_all(s: Seq<WfcTile>, pred: spec_fn(WfcTile) -> bool)
    requires
        forall|i: int| 0 <= i < s.len() ==> pred(s[i]),
    ensures
        s.filter(pred) == s,
    decreases s.len(),
{
    reveal(Seq::filter);
    if s.len() > 0 {
        let dl = s.drop_last();
        assert(forall|i: int| 0 <= i < dl.len() ==> pred(#[trigger] dl[i]));
        lemma_filter_all(dl, pred);
        assert(s.filter(pred) =~= s);
    }
}

/// The labels that the domain of `square` still offers, one list per
/// direction slot: label `l` appears in list `d` exactly when some
/// tile of the domain exposes `l` in direction `d`.
pub(crate) fn gather_available_connections(w: &Worldmap, square: Position) -> (r: Vec<Vec<usize>>)
    requires
        w.wf(),
        pos_ok(w.size, square),
    ensures
        r@.len() == 6,
        forall|d: int, l: usize|
            0 <= d < 6 ==> (#[trigger] r@[d]@.contains(l) <==> exposes(w.dom(square), d, l)),
{
    let stack = w.domain_at(square);
    let m = stack.len();
    let mut r: Vec<Vec<usize>> = Vec::new();
    let mut d: usize = 0;
    while d < 6
        invariant
            m == stack@.len(),
            stack@ == w.dom(square),
            d <= 6,
            r@.len() == d,
            forall|dd: int, l: usize|
                0 <= dd < d ==> (#[trigger] r@[dd]@.contains(l) <==> exposes(
                    w.dom(square),
                    dd,
                    l,
                )),
        decreases 6 - d,
    {
        let mut row: Vec<usize> = Vec::new();
        let mut k: usize = 0;
        while k < m
            invariant
                m == stack@.len(),
                stack@ == w.dom(square),
                d < 6,
                k <= m,
                forall|l: usize|
                    #[trigger] row@.contains(l) <==> exists|j: int|
                        0 <= j < k && stack@[j].connection_types[d as int] == l,
            decreases m - k,
        {
            let ghost row0 = row@;
            let l = stack[k].connection_types[d];
            row.push(l);
            proof {
                assert(row@.last() == l);
                assert forall|ll: usize| #[trigger] row@.contains(ll) implies exists|j: int|
                    0 <= j < k + 1 && stack@[j].connection_types[d as int] == ll by {
                    let ri = choose|ri: int| 0 <= ri < row@.len() && row@[ri] == ll;
                    if ri < row@.len() - 1 {
                        assert(row0[ri] == ll);
                        assert(row0.contains(ll));
                    } else {
                        assert(stack@[k as int].connection_types[d as int] == ll);
                    }
                }
                assert forall|ll: usize|
                    exists|j: int|
                        0 <= j < k + 1 && stack@[j].connection_types[d as int]
                            == ll implies #[trigger] row@.contains(ll) by {
                    let j = choose|j: int|
                        0 <= j < k + 1 && stack@[j].connection_types[d as int] == ll;
                    if j < k {
                        assert(row0.contains(ll));
                        let ri = choose|ri: int| 0 <= ri < row0.len() && row0[ri] == ll;
                        assert(row@[ri] == ll);
                    } else {
                        assert(row@.last() == ll);
                    }
                }
            }
            k = k + 1;
        }
        r.push(row);
        d = d + 1;
    }
    r
}

/// Filter the domain of the neighbour of `square` in direction `dir`
/// down to the tiles whose label toward `square` is in `labels`.
/// Reports whether the neighbour's domain changed; an emptied domain
/// is a contradiction, reported with the neighbour's position and the
/// grid left as it was.
pub(crate) fn update_tile_stack(
    w: &mut Worldmap,
    labels: &Vec<usize>,
    square: Position,
    dir: Direction,
) -> (r: Result<bool, Position>)
    requires
        old(w).wf(),
        pos_ok(old(w).size, square),
    ensures
        final(w).wf(),
        final(w).size == old(w).size,
        final(w).len == old(w).len,
        match r {
            Ok(changed) => {
                &&& !changed ==> *final(w) == *old(w)
                &&& step_pos(old(w).size, square, dir) is None ==> !changed
                &&& step_pos(old(w).size, square, dir) matches Some(q) ==> {
                    &&& final(w).dom(q) == old(w).dom(q).filter(
                        keeps_label(labels@, dir.flip_spec().index_spec()),
                    )
                    &&& final(w).dom(q).len() > 0 || old(w).dom(q).len() == 0
                    &&& forall|i: int|
                        0 <= i < old(w)@.len() && i != flat_index(old(w).size, q)
                            ==> final(w)@[i] == old(w)@[i]
                    &&& (changed <==> final(w).dom(q).len() < old(w).dom(q).len())
                }
            },
            Err(cpos) => {
                &&& *final(w) == *old(w)
                &&& step_pos(old(w).size, square, dir) == Some(cpos)
                &&& old(w).dom(cpos).len() > 0
                &&& old(w).dom(cpos).filter(keeps_label(labels@, dir.flip_spec().index_spec())).len()
                    == 0
            },
        },
{
    broadcast use vstd::seq_lib::group_filter_ensures;

    let nq = match w.move_(square, &dir) {
        Some(x) => x,
        None => {
            return Ok(false);
        },
    };
    proof {
        lemma_step_flip(w.size, square, dir, nq);
    }
    let fd = dir.flip().as_index();
    let ghost pred = keeps_label(labels@, dir.flip_spec().index_spec());
    let stack = w.domain_at(nq);
    let m = stack.len();
    let mut ok_stack: Vec<WfcTile> = Vec::new();
    let mut k: usize = 0;
    while k < m
        invariant
            m == stack@.len(),
            stack@ == old(w).dom(nq),
            pred == keeps_label(labels@, dir.flip_spec().index_spec()),
            fd == dir.flip_spec().index_spec(),
            fd < 6,
            k <= m,
            ok_stack@ == stack@.take(k as int).filter(pred),
        decreases m - k,
    {
        proof {
            assert(stack@.take(k + 1) =~= stack@.take(k as int).push(stack@[k as int]));
            stack@.take(k as int).lemma_filter_push(stack@[k as int], pred);
        }
        let t = stack[k];
        if contains_label(labels, t.connection_types[fd]) {
            ok_stack.push(t);
        }
        k = k + 1;
    }
    proof {
        assert(stack@.take(m as int) =~= stack@);
    }
    if ok_stack.len() == m {
        proof {
            lemma_filter_full(old(w).dom(nq), pred);
        }
        return Ok(false);
    }
    if ok_stack.len() == 0 {
        return Err(nq);
    }
    w.set_domain(nq, ok_stack);
    proof {
        old(w).dom(nq).lemma_filter_len(pred);
        lemma_flat_index_bounds(old(w).size, nq);
    }
    Ok(true)
}

/// The worklist invariant, refined for the cell `c` being processed:
/// directions with slot at least `i` are still to be filtered from
/// `c`, so arcs that lean on them may still be inconsistent.
pub(crate) open spec fn inner_inv(w: Worldmap, wl: Seq<Position>, c: Position, i: int) -> bool {
    forall|p: Position, d: Direction|
        pos_ok(w.size, p) && w.decided(p) ==> #[trigger] arc_ok(w, p, d) || wl.contains(p) || (p
            == c && d.index_spec() >= i) || {
            let n = step_pos(w.size, p, d);
            n is Some && w.decided(n->Some_0) && (wl.contains(n->Some_0) || (n->Some_0 == c
                && w.decided(c) && d.flip_spec().index_spec() >= i))
        }
}

/// The worklist form of the affected-region guarantee: every changed
/// cell's arc is consistent, or the cell still waits on the worklist.
pub(crate) open spec fn touched_inv(
    entry: Seq<Seq<WfcTile>>,
    w: Worldmap,
    wl: Seq<Position>,
    origin: Position,
) -> bool {
    forall|p: Position, d: Direction|
        pos_ok(w.size, p) && (p == origin || w.dom(p) != entry[flat_index(w.size, p)])
            ==> #[trigger] arc_ok(w, p, d) || wl.contains(p)
}

/// The same, refined for the cell `c` being processed: directions
/// with slot at least `i` are still to be filtered from `c`.
pub(crate) open spec fn touched_inner(
    entry: Seq<Seq<WfcTile>>,
    w: Worldmap,
    wl: Seq<Position>,
    origin: Position,
    c: Position,
    i: int,
) -> bool {
    forall|p: Position, d: Direction|
        pos_ok(w.size, p) && (p == origin || w.dom(p) != entry[flat_index(w.size, p)])
            ==> #[trigger] arc_ok(w, p, d) || wl.contains(p) || (p == c && d.index_spec() >= i)
}

/// One affected-region step at a grid edge.
proof fn lemma_touched_edge(
    entry: Seq<Seq<WfcTile>>,
    w: Worldmap,
    wl: Seq<Position>,
    origin: Position,
    c: Position,
    dir: Direction,
    i: int,
)
    requires
        pos_ok(w.size, c),
        dir.index_spec() == i,
        step_pos(w.size, c, dir) is None,
        touched_inner(entry, w, wl, origin, c, i),
    ensures
        touched_inner(entry, w, wl, origin, c, i + 1),
{
    assert forall|p: Position, d: Direction|
        pos_ok(w.size, p) && (p == origin || w.dom(p) != entry[flat_index(w.size, p)]) implies
        #[trigger] arc_ok(w, p, d) || wl.contains(p) || (p == c && d.index_spec() >= i + 1) by {
        assert(arc_ok(w, p, d) || wl.contains(p) || (p == c && d.index_spec() >= i));
        if p == c && d.index_spec() == i && !arc_ok(w, p, d) && !wl.contains(p) {
            lemma_direction_index(d);
            lemma_direction_index(dir);
            assert(d == dir);
            assert(arc_ok(w, p, d));
        }
    }
}

/// One affected-region step with a live neighbour: after filtering
/// direction `dir` from `c`, every changed cell's arc is consistent,
/// waits on the worklist, or waits on an unfiltered direction of `c`.
proof fn lemma_touched_step(
    entry: Seq<Seq<WfcTile>>,
    a: Worldmap,
    b: Worldmap,
    wla: Seq<Position>,
    wlb: Seq<Position>,
    origin: Position,
    c: Position,
    dir: Direction,
    q: Position,
    i: int,
    pred: spec_fn(WfcTile) -> bool,
    changed: bool,
)
    requires
        a.wf(),
        b.wf(),
        b.size == a.size,
        b.len == a.len,
        pos_ok(a.size, c),
        dir.index_spec() == i,
        step_pos(a.size, c, dir) == Some(q),
        b.dom(q) == a.dom(q).filter(pred),
        forall|ii: int|
            0 <= ii < a@.len() && ii != flat_index(a.size, q) ==> #[trigger] b@[ii] == a@[ii],
        changed <==> b.dom(q).len() < a.dom(q).len(),
        arc_ok(b, c, dir),
        b.dom(c) == a.dom(c),
        doms_shrink(a@, b@),
        forall|x: Position| #[trigger] wla.contains(x) ==> wlb.contains(x),
        changed ==> wlb.contains(q),
        touched_inner(entry, a, wla, origin, c, i),
    ensures
        touched_inner(entry, b, wlb, origin, c, i + 1),
{
    broadcast use vstd::seq_lib::group_filter_ensures;

    lemma_step_flip(a.size, c, dir, q);
    lemma_flat_index_bounds(a.size, q);
    let fq = flat_index(a.size, q);
    assert forall|p: Position, d: Direction|
        pos_ok(b.size, p) && (p == origin || b.dom(p) != entry[flat_index(b.size, p)]) implies
        #[trigger] arc_ok(b, p, d) || wlb.contains(p) || (p == c && d.index_spec() >= i + 1) by {
        lemma_flat_index_bounds(a.size, p);
        if p == q && changed {
            assert(wlb.contains(q));
        } else {
            if p == q {
                a.dom(q).lemma_filter_len(pred);
                lemma_filter_full(a.dom(q), pred);
            } else if flat_index(a.size, p) == fq {
                lemma_flat_index_injective(a.size, p, q);
                assert(false);
            }
            assert(b.dom(p) == a.dom(p));
            assert(p == origin || a.dom(p) != entry[flat_index(a.size, p)]);
            assert(arc_ok(a, p, d) || wla.contains(p) || (p == c && d.index_spec() >= i));
            if arc_ok(a, p, d) {
                lemma_arc_ok_shrink(a, b, p, d);
            } else if wla.contains(p) {
                assert(wlb.contains(p));
            } else if d.index_spec() == i {
                lemma_direction_index(d);
                lemma_direction_index(dir);
                assert(d == dir);
                assert(arc_ok(b, p, d));
            }
        }
    }
}

/// Run the arc-consistency pass outward from `origin` until no
/// domain changes any more, with an explicit worklist of cells whose
/// neighbours must be re-filtered.  Domains only shrink and none is
/// emptied in place; a filter that would empty one stops the pass and
/// reports that cell.  When the pass completes on a grid that was
/// settled except at the freshly decided `origin`, the whole grid is
/// settled again; and when every arc out of `origin` was already
/// consistent, the pass succeeds and changes nothing at all.
pub(crate) fn propagate_from(w: &mut Worldmap, origin: Position) -> (r: Result<(), Position>)
    requires
        old(w).wf(),
        pos_ok(old(w).size, origin),
    ensures
        final(w).wf(),
        final(w).size == old(w).size,
        final(w).len == old(w).len,
        doms_shrink(old(w)@, final(w)@),
        forall|i: int|
            0 <= i < old(w)@.len() && old(w)@[i].len() > 0 ==> #[trigger] final(w)@[i].len() > 0,
        r is Ok && settled_except(*old(w), origin) ==> settled(*final(w)),
        r is Ok ==> touched_sources_ok(old(w)@, *final(w), origin),
        (forall|d: Direction| arc_ok(*old(w), origin, d)) ==> (r is Ok && final(w)@ == old(w)@),
        distinct_domains(old(w)@) ==> distinct_domains(final(w)@),
        r matches Err(c) ==> pos_ok(old(w).size, c) && grid_dead_end(final(w)@, old(w).size, c),
{
    let ghost pre_ok = settled_except(*old(w), origin);
    let ghost stable = forall|d: Direction| arc_ok(*old(w), origin, d);
    let mut wl: Vec<Position> = Vec::new();
    wl.push(origin);
    proof {
        assert(wl@ =~= seq![origin]);
        assert(touched_inv(old(w)@, *w, wl@, origin)) by {
            assert(wl@[0] == origin);
            assert(wl@.contains(origin));
        }
        if pre_ok {
            assert(wl@[0] == origin);
            assert forall|p: Position, d: Direction|
                pos_ok(w.size, p) && w.decided(p) implies #[trigger] arc_ok(*w, p, d)
                || wl@.contains(p) || {
                let n = step_pos(w.size, p, d);
                n is Some && w.decided(n->Some_0) && wl@.contains(n->Some_0)
            } by {
                if p == origin {
                    assert(wl@.contains(p));
                } else {
                    assert(arc_ok(*w, p, d) || (step_pos(w.size, p, d) == Some(origin)
                        && w.decided(origin)));
                    if !arc_ok(*w, p, d) {
                        assert(wl@.contains(origin));
                    }
                }
            }
            assert(wl_inv(*w, wl@));
        }
    }
    while wl.len() != 0
        invariant
            w.wf(),
            w.size == old(w).size,
            w.len == old(w).len,
            pos_ok(w.size, origin),
            forall|k: int| 0 <= k < wl@.len() ==> pos_ok(w.size, #[trigger] wl@[k]),
            doms_shrink(old(w)@, w@),
            forall|i: int|
                0 <= i < old(w)@.len() && old(w)@[i].len() > 0 ==> #[trigger] w@[i].len() > 0,
            pre_ok == settled_except(*old(w), origin),
            pre_ok ==> wl_inv(*w, wl@),
            touched_inv(old(w)@, *w, wl@, origin),
            stable == (forall|d: Direction| arc_ok(*old(w), origin, d)),
            stable ==> w@ == old(w)@ && (wl@ =~= seq![origin] || wl@.len() == 0),
            distinct_domains(old(w)@) ==> distinct_domains(w@),
        decreases total_tiles(w@), wl@.len(),
    {
        let ghost wl_with_c = wl@;
        let ghost w_pop = *w;
        let c = wl.pop().unwrap();
        let ghost wl_pop = wl@;
        proof {
            assert(wl_pop == wl_with_c.drop_last());
            assert(c == wl_with_c.last());
            assert(wl_with_c.contains(wl_with_c[wl_with_c.len() - 1]));
            // Split membership in the pre-pop worklist into the popped
            // cell and the rest.
            assert forall|x: Position| wl_with_c.contains(x) implies (wl_pop.contains(x) || x
                == c) by {
                let k = choose|k: int| 0 <= k < wl_with_c.len() && wl_with_c[k] == x;
                if k < wl_with_c.len() - 1 {
                    assert(wl_pop[k] == x);
                }
            }
            assert(touched_inner(old(w)@, *w, wl_pop, origin, c, 0)) by {
                assert forall|p: Position, d: Direction|
                    pos_ok(w.size, p) && (p == origin || w.dom(p) != old(w)@[flat_index(
                        w.size,
                        p,
                    )]) implies #[trigger] arc_ok(*w, p, d) || wl_pop.contains(p) || (p == c
                    && d.index_spec() >= 0) by {
                    assert(arc_ok(*w, p, d) || wl_with_c.contains(p));
                }
            }
            if pre_ok {
                assert forall|p: Position, d: Direction|
                    pos_ok(w.size, p) && w.decided(p) implies (#[trigger] arc_ok(*w, p, d)
                    || wl_pop.contains(p) || (p == c && d.index_spec() >= 0) || {
                    let n = step_pos(w.size, p, d);
                    n is Some && w.decided(n->Some_0) && (wl_pop.contains(n->Some_0) || (n->Some_0
                        == c && w.decided(c) && d.flip_spec().index_spec() >= 0))
                }) by {
                    assert(arc_ok(*w, p, d) || wl_with_c.contains(p) || {
                        let n = step_pos(w.size, p, d);
                        n is Some && w.decided(n->Some_0) && wl_with_c.contains(n->Some_0)
                    });
                }
                assert(inner_inv(*w, wl_pop, c, 0));
            }
            if stable {
                assert(wl_with_c =~= seq![origin]);
                assert(c == origin);
            }
        }
        let conns = gather_available_connections(w, c);
        let ghost mut changed_any = false;
        let mut d_i: usize = 0;
        while d_i < 6
            invariant
                w.wf(),
                w.size == old(w).size,
                w.len == old(w).len,
                w_pop.wf(),
                w_pop.size == w.size,
                w_pop.len == w.len,
                pos_ok(w.size, c),
                d_i <= 6,
                forall|k: int| 0 <= k < wl@.len() ==> pos_ok(w.size, #[trigger] wl@[k]),
                doms_shrink(old(w)@, w@),
                doms_shrink(w_pop@, w@),
                forall|i: int|
                    0 <= i < old(w)@.len() && old(w)@[i].len() > 0 ==> #[trigger] w@[i].len() > 0,
                w.dom(c) == w_pop.dom(c),
                conns@.len() == 6,
                forall|dd: int, l: usize|
                    0 <= dd < 6 ==> (#[trigger] conns@[dd]@.contains(l) <==> exposes(
                        w_pop.dom(c),
                        dd,
                        l,
                    )),
                changed_any ==> total_tiles(w@) < total_tiles(w_pop@),
                !changed_any ==> w@ == w_pop@ && wl@ == wl_pop,
                pre_ok == settled_except(*old(w), origin),
                pre_ok ==> inner_inv(*w, wl@, c, d_i as int),
                touched_inner(old(w)@, *w, wl@, origin, c, d_i as int),
                stable == (forall|d: Direction| arc_ok(*old(w), origin, d)),
                stable ==> !changed_any && c == origin && w_pop@ == old(w)@,
                distinct_domains(old(w)@) ==> distinct_domains(w@),
            decreases 6 - d_i,
        {
            let dir = Direction::from_index(d_i);
            let ghost w_before = *w;
            let ghost wl_before = wl@;
            proof {
                crate::tile::lemma_direction_index(dir);
                assert(dir.index_spec() == d_i);
            }
            let res = update_tile_stack(w, &conns[d_i], c, dir);
            let ghost pred = keeps_label(conns@[d_i as int]@, dir.flip_spec().index_spec());
            match res {
                Err(cp) => {
                    proof {
                        lemma_step_flip(w.size, c, dir, cp);
                        if stable {
                            lemma_stable_direction(*old(w), w_before, origin, dir, conns@, d_i as int, pred);
                            lemma_filter_all(w_before.dom(cp), pred);
                        }
                        // the reported cell is a genuine dead end: nothing
                        // it still holds can face what `c` still offers
                        lemma_flat_index_bounds(w.size, cp);
                        lemma_flat_index_bounds(w.size, c);
                        broadcast use vstd::seq_lib::group_filter_ensures;

                        assert(w.dom(c) == w_pop.dom(c));
                        assert forall|j: int| 0 <= j < w.dom(cp).len() implies !exposes(
                            w.dom(c),
                            dir.index_spec(),
                            #[trigger] w.dom(cp)[j].connection_types[dir.flip_spec().index_spec()],
                        ) by {
                            let l = w.dom(cp)[j].connection_types[dir.flip_spec().index_spec()];
                            if pred(w.dom(cp)[j]) {
                                w_before.dom(cp).lemma_filter_contains(pred, j);
                            }
                            assert(!conns@[d_i as int]@.contains(l));
                            assert(!exposes(w_pop.dom(c), d_i as int, l));
                        }
                        assert(grid_dead_end(w@, old(w).size, cp)) by {
                            assert(pos_ok(w.size, c) && step_pos(w.size, c, dir) == Some(cp));
                            assert(w@[flat_index(w.size, cp)] == w.dom(cp));
                            assert(w@[flat_index(w.size, c)] == w.dom(c));
                        }
                    }
                    return Err(cp);
                },
                Ok(changed) => {
                    let ghost nstep = step_pos(w_before.size, c, dir);
                    if changed {
                        let q = match w.move_(c, &dir) {
                            Some(x) => x,
                            None => {
                                proof {
                                    assert(false);
                                }
                                return Err(c);
                            },
                        };
                        wl.push(q);
                        proof {
                            lemma_step_flip(w.size, c, dir, q);
                        }
                    }
                    proof {
                        if stable {
                            if nstep is Some {
                                lemma_stable_direction(
                                    *old(w),
                                    w_before,
                                    origin,
                                    dir,
                                    conns@,
                                    d_i as int,
                                    pred,
                                );
                                lemma_filter_all(w_before.dom(nstep->Some_0), pred);
                                assert(!changed);
                            }
                            assert(*w == w_before);
                        }
                        let wl_now = wl@;
                        assert forall|x: Position| wl_before.contains(x) implies
                            wl_now.contains(x) by {
                            let k = choose|k: int| 0 <= k < wl_before.len() && wl_before[k] == x;
                            assert(wl_now[k] == x);
                        }
                        if nstep is Some {
                            let q = nstep->Some_0;
                            lemma_step_flip(w_before.size, c, dir, q);
                            lemma_flat_index_bounds(w_before.size, q);
                            lemma_flat_index_bounds(w_before.size, c);
                            let fq = flat_index(w_before.size, q);
                            assert(w@[flat_index(w_before.size, c)] == w_before@[flat_index(
                                w_before.size,
                                c,
                            )]);
                            if changed {
                                assert(wl_now.last() == q);
                                assert(wl_now.contains(q));
                            }
                            // The filtered neighbour only shrank, and kept
                            // only tiles it already had.
                            w_before.dom(q).lemma_filter_len(pred);
                            assert forall|i: int, t: WfcTile|
                                0 <= i < w_before@.len() && #[trigger] w@[i].contains(t) implies
                                w_before@[i].contains(t) by {
                                if i == fq {
                                    w_before.dom(q).lemma_filter_contains_rev(pred, t);
                                }
                            }
                            assert(doms_shrink(w_before@, w@));
                            lemma_doms_shrink_trans(old(w)@, w_before@, w@);
                            lemma_doms_shrink_trans(w_pop@, w_before@, w@);
                            assert(w.dom(c) == w_pop.dom(c));
                            if distinct_domains(old(w)@) {
                                assert forall|i: int|
                                    0 <= i < w@.len() implies pairwise_distinct(
                                    #[trigger] w@[i],
                                ) by {
                                    if i == fq {
                                        assert(pairwise_distinct(w_before@[fq]));
                                        lemma_filter_keeps_distinct(w_before.dom(q), pred);
                                    } else {
                                        assert(w@[i] == w_before@[i]);
                                        assert(pairwise_distinct(w_before@[i]));
                                    }
                                }
                            }
                            // The freshly filtered arc is consistent.
                            assert forall|j: int| 0 <= j < w.dom(q).len() implies exposes(
                                w.dom(c),
                                dir.index_spec(),
                                #[trigger] w.dom(q)[j].connection_types[dir.flip_spec().index_spec()],
                            ) by {
                                w_before.dom(q).lemma_filter_pred(pred, j);
                                let t = w.dom(q)[j];
                                assert(conns@[d_i as int]@.contains(t.connection_types[
                                    dir.flip_spec().index_spec()]));
                            }
                            assert(arc_ok(*w, c, dir));
                            // Progress bookkeeping.
                            if changed {
                                lemma_total_tiles_lt(w_before@, w@, fq);
                                changed_any = true;
                            } else {
                                lemma_filter_full(w_before.dom(q), pred);
                                assert(w@ =~~= w_before@);
                            }
                            if pre_ok {
                                lemma_inner_step(
                                    w_before,
                                    *w,
                                    wl_before,
                                    wl_now,
                                    c,
                                    dir,
                                    q,
                                    d_i as int,
                                    pred,
                                    changed,
                                );
                            }
                            lemma_touched_step(
                                old(w)@,
                                w_before,
                                *w,
                                wl_before,
                                wl_now,
                                origin,
                                c,
                                dir,
                                q,
                                d_i as int,
                                pred,
                                changed,
                            );
                        } else {
                            assert(*w == w_before);
                            assert(wl@ == wl_before);
                            if pre_ok {
                                lemma_inner_step_edge(*w, wl@, c, dir, d_i as int);
                            }
                            lemma_touched_edge(old(w)@, *w, wl@, origin, c, dir, d_i as int);
                        }
                        if changed_any {
                            if total_tiles(w_before@) < total_tiles(w_pop@) {
                                lemma_total_tiles_le(w_before@, w@);
                            }
                        }
                    }
                    d_i = d_i + 1;
                },
            }
        }
        proof {
            if pre_ok {
                assert forall|p: Position, d: Direction|
                    pos_ok(w.size, p) && w.decided(p) implies (#[trigger] arc_ok(*w, p, d)
                    || wl@.contains(p) || {
                    let n = step_pos(w.size, p, d);
                    n is Some && w.decided(n->Some_0) && wl@.contains(n->Some_0)
                }) by {
                    crate::tile::lemma_direction_index(d);
                    assert(arc_ok(*w, p, d) || wl@.contains(p) || (p == c && d.index_spec() >= 6)
                        || {
                        let n = step_pos(w.size, p, d);
                        n is Some && w.decided(n->Some_0) && (wl@.contains(n->Some_0) || (n->Some_0
                            == c && w.decided(c) && d.flip_spec().index_spec() >= 6))
                    });
                    crate::tile::lemma_direction_index(d.flip_spec());
                }
                assert(wl_inv(*w, wl@));
            }
            assert(touched_inv(old(w)@, *w, wl@, origin)) by {
                assert forall|p: Position, d: Direction|
                    pos_ok(w.size, p) && (p == origin || w.dom(p) != old(w)@[flat_index(
                        w.size,
                        p,
                    )]) implies #[trigger] arc_ok(*w, p, d) || wl@.contains(p) by {
                    crate::tile::lemma_direction_index(d);
                    assert(arc_ok(*w, p, d) || wl@.contains(p) || (p == c && d.index_spec()
                        >= 6));
                }
            }
            if !changed_any {
                assert(w@ == w_pop@);
                assert(wl@ == wl_pop);
            }
            if stable {
                assert(wl_with_c =~= seq![origin]);
                assert(wl@ =~= wl_with_c.drop_last());
                assert(wl@.len() == 0);
            }
        }
    }
    proof {
        if pre_ok {
            assert forall|p: Position, d: Direction|
                pos_ok(w.size, p) && w.decided(p) implies #[trigger] arc_ok(*w, p, d) by {
                assert(wl@.len() == 0);
                assert(!wl@.contains(p)) by {
                    if wl@.contains(p) {
                        let k = choose|k: int| 0 <= k < wl@.len() && wl@[k] == p;
                    }
                }
                let n = step_pos(w.size, p, d);
                if n is Some {
                    assert(!wl@.contains(n->Some_0)) by {
                        if wl@.contains(n->Some_0) {
                            let k = choose|k: int| 0 <= k < wl@.len() && wl@[k] == n->Some_0;
                        }
                    }
                }
            }
            assert(settled(*w));
        }
        assert(touched_sources_ok(old(w)@, *w, origin)) by {
            assert forall|p: Position, d: Direction|
                pos_ok(w.size, p) && (p == origin || w.dom(p) != old(w)@[flat_index(
                    w.size,
                    p,
                )]) implies #[trigger] arc_ok(*w, p, d) by {
                assert(!wl@.contains(p)) by {
                    if wl@.contains(p) {
                        let k = choose|k: int| 0 <= k < wl@.len() && wl@[k] == p;
                    }
                }
            }
        }
    }
    Ok(())
}

/// One worklist step at a grid edge: filtering direction `dir` from
/// `c` touched nothing because the arc leaves the grid.
proof fn lemma_inner_step_edge(w: Worldmap, wl: Seq<Position>, c: Position, dir: Direction, i: int)
    requires
        w.wf(),
        pos_ok(w.size, c),
        dir.index_spec() == i,
        step_pos(w.size, c, dir) is None,
        inner_inv(w, wl, c, i),
    ensures
        inner_inv(w, wl, c, i + 1),
{
    assert forall|p: Position, d: Direction|
        pos_ok(w.size, p) && w.decided(p) implies (#[trigger] arc_ok(w, p, d) || wl.contains(p)
        || (p == c && d.index_spec() >= i + 1) || {
        let n = step_pos(w.size, p, d);
        n is Some && w.decided(n->Some_0) && (wl.contains(n->Some_0) || (n->Some_0 == c
            && w.decided(c) && d.flip_spec().index_spec() >= i + 1))
    }) by {
        assert(arc_ok(w, p, d) || wl.contains(p) || (p == c && d.index_spec() >= i) || {
            let n = step_pos(w.size, p, d);
            n is Some && w.decided(n->Some_0) && (wl.contains(n->Some_0) || (n->Some_0 == c
                && w.decided(c) && d.flip_spec().index_spec() >= i))
        });
        if p == c && d.index_spec() == i && !arc_ok(w, p, d) && !wl.contains(p) {
            lemma_direction_index(d);
            lemma_direction_index(dir);
            assert(d == dir);
            assert(arc_ok(w, p, d));
        }
        let n = step_pos(w.size, p, d);
        if n is Some && n->Some_0 == c && w.decided(c) && d.flip_spec().index_spec() == i
            && !arc_ok(w, p, d) && !wl.contains(p) && !wl.contains(c) {
            lemma_direction_index(d.flip_spec());
            lemma_direction_index(dir);
            assert(d.flip_spec() == dir);
            lemma_step_flip(w.size, p, d, c);
            assert(step_pos(w.size, c, d.flip_spec()) == Some(p));
            assert(false);
        }
    }
}

/// One worklist step with a live neighbour: after filtering direction
/// `dir` from `c`, every arc tracked by the invariant is consistent,
/// waits on the (possibly grown) worklist, or waits on a direction of
/// `c` not yet filtered.
proof fn lemma_inner_step(
    a: Worldmap,
    b: Worldmap,
    wla: Seq<Position>,
    wlb: Seq<Position>,
    c: Position,
    dir: Direction,
    q: Position,
    i: int,
    pred: spec_fn(WfcTile) -> bool,
    changed: bool,
)
    requires
        a.wf(),
        b.wf(),
        b.size == a.size,
        b.len == a.len,
        pos_ok(a.size, c),
        dir.index_spec() == i,
        step_pos(a.size, c, dir) == Some(q),
        b.dom(q) == a.dom(q).filter(pred),
        b.dom(q).len() > 0 || a.dom(q).len() == 0,
        forall|ii: int|
            0 <= ii < a@.len() && ii != flat_index(a.size, q) ==> #[trigger] b@[ii] == a@[ii],
        changed <==> b.dom(q).len() < a.dom(q).len(),
        arc_ok(b, c, dir),
        b.dom(c) == a.dom(c),
        doms_shrink(a@, b@),
        forall|x: Position| #[trigger] wla.contains(x) ==> wlb.contains(x),
        changed ==> wlb.contains(q),
        inner_inv(a, wla, c, i),
    ensures
        inner_inv(b, wlb, c, i + 1),
{
    broadcast use vstd::seq_lib::group_filter_ensures;

    lemma_step_flip(a.size, c, dir, q);
    lemma_flat_index_bounds(a.size, q);
    let fq = flat_index(a.size, q);
    assert forall|p: Position, d: Direction|
        pos_ok(b.size, p) && b.decided(p) implies (#[trigger] arc_ok(b, p, d) || wlb.contains(p)
        || (p == c && d.index_spec() >= i + 1) || {
        let n = step_pos(b.size, p, d);
        n is Some && b.decided(n->Some_0) && (wlb.contains(n->Some_0) || (n->Some_0 == c
            && b.decided(c) && d.flip_spec().index_spec() >= i + 1))
    }) by {
        lemma_flat_index_bounds(a.size, p);
        if p == q && changed {
            assert(wlb.contains(q));
        } else {
            if p == q {
                lemma_filter_full(a.dom(q), pred);
            } else if flat_index(a.size, p) == fq {
                lemma_flat_index_injective(a.size, p, q);
                assert(false);
            }
            assert(b.dom(p) == a.dom(p));
            assert(a.decided(p));
            assert(arc_ok(a, p, d) || wla.contains(p) || (p == c && d.index_spec() >= i) || {
                let n = step_pos(a.size, p, d);
                n is Some && a.decided(n->Some_0) && (wla.contains(n->Some_0) || (n->Some_0 == c
                    && a.decided(c) && d.flip_spec().index_spec() >= i))
            });
            if arc_ok(a, p, d) {
                lemma_arc_ok_shrink(a, b, p, d);
            } else if wla.contains(p) {
                assert(wlb.contains(p));
            } else if p == c && d.index_spec() >= i {
                if d.index_spec() == i {
                    lemma_direction_index(d);
                    lemma_direction_index(dir);
                    assert(d == dir);
                    assert(arc_ok(b, p, d));
                }
            } else {
                let n = step_pos(a.size, p, d);
                let n0 = n->Some_0;
                lemma_step_flip(a.size, p, d, n0);
                lemma_flat_index_bounds(a.size, n0);
                if flat_index(a.size, n0) == fq {
                    lemma_flat_index_injective(a.size, n0, q);
                    a.dom(q).lemma_filter_len(pred);
                    assert(b.decided(n0));
                } else {
                    assert(b.dom(n0) == a.dom(n0));
                    assert(b.decided(n0));
                }
                if wla.contains(n0) {
                    assert(wlb.contains(n0));
                } else {
                    assert(n0 == c && a.decided(c) && d.flip_spec().index_spec() >= i);
                    assert(b.dom(c) == a.dom(c));
                    assert(b.decided(c));
                    if d.flip_spec().index_spec() == i {
                        lemma_direction_index(d.flip_spec());
                        lemma_direction_index(dir);
                        assert(d.flip_spec() == dir);
                        lemma_flip_flip(d);
                        assert(step_pos(a.size, c, dir) == Some(p));
                        assert(p == q);
                        lemma_arc_singleton(b, c, dir, q);
                        assert(arc_ok(b, q, dir.flip_spec()));
                        assert(d == dir.flip_spec());
                        assert(arc_ok(b, p, d));
                    }
                }
            }
        }
    }
}

/// When the arc out of `origin` in direction `dir` is already
/// consistent, every tile of the neighbour's domain passes the
/// filter that the pass would apply there.
proof fn lemma_stable_direction(
    a: Worldmap,
    b: Worldmap,
    origin: Position,
    dir: Direction,
    conns: Seq<Vec<usize>>,
    di: int,
    pred: spec_fn(WfcTile) -> bool,
)
    requires
        a.wf(),
        b.wf(),
        b.size == a.size,
        b@ == a@,
        pos_ok(a.size, origin),
        arc_ok(a, origin, dir),
        dir.index_spec() == di,
        0 <= di < 6,
        conns.len() == 6,
        forall|dd: int, l: usize|
            0 <= dd < 6 ==> (#[trigger] conns[dd]@.contains(l) <==> exposes(b.dom(origin), dd, l)),
        pred == keeps_label(conns[di]@, dir.flip_spec().index_spec()),
    ensures
        step_pos(b.size, origin, dir) matches Some(q) ==> forall|j: int|
            0 <= j < b.dom(q).len() ==> pred(#[trigger] b.dom(q)[j]),
{
    let n = step_pos(b.size, origin, dir);
    if n is Some {
        let q = n->Some_0;
        lemma_step_flip(a.size, origin, dir, q);
        assert(b.dom(q) == a.dom(q));
        assert(b.dom(origin) == a.dom(origin));
        assert forall|j: int| 0 <= j < b.dom(q).len() implies pred(#[trigger] b.dom(q)[j]) by {
            assert(exposes(
                a.dom(origin),
                dir.index_spec(),
                a.dom(q)[j].connection_types[dir.flip_spec().index_spec()],
            ));
            assert(conns[di]@.contains(b.dom(q)[j].connection_types[
                dir.flip_spec().index_spec()]));
        }
    }
}

/// Whether `l` occurs in `labels`.
fn contains_label(labels: &Vec<usize>, l: usize) -> (r: bool)
    ensures
        r == labels@.contains(l),
{
    let n = labels.len();
    let mut k: usize = 0;
    while k < n
        invariant
            n == labels@.len(),
            k <= n,
            forall|j: int| 0 <= j < k ==> labels@[j] != l,
        decreases n - k,
    {
        if labels[k] == l {
            return true;
        }
        k = k + 1;
    }
    proof {
        assert(forall|j: int| 0 <= j < labels@.len() ==> labels@[j] != l);
    }
    false
}

} // verus!
