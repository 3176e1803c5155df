//! Composing multi-cell tiles: a rectangular arrangement of sub-tile
//! slots is welded together by fresh synthetic connection labels on
//! every internal seam, and the welded parts are emitted in all four
//! rotations, with the synthetic labels rotation-scaled so that
//! differently rotated copies never match each other's seams.

use vstd::prelude::*;
use crate::tile::{SYNTHETIC_MIN, WfcTile, rotate_spec, scaled_label, tile_ok};

verus! {

/// The sub-tile of one occupied slot: identity and author labels,
/// unrotated and barred from catalog rotation.
pub open spec fn slot_tile(o: Option<(u32, [usize; 6])>) -> Option<WfcTile> {
    match o {
        Some(t) => Some(
            WfcTile { index: t.0, connection_types: t.1, angle: 0, is_rotatable: false },
        ),
        None => None,
    }
}

/// All slots of the arrangement, converted.
pub open spec fn slots_of(v: Seq<Option<(u32, [usize; 6])>>) -> Seq<Option<WfcTile>> {
    v.map_values(|o: Option<(u32, [usize; 6])>| slot_tile(o))
}

/// `t` with the label in slot `d` replaced by `l`.
pub open spec fn with_label(t: WfcTile, d: int, l: usize) -> WfcTile {
    WfcTile {
        index: t.index,
        connection_types: [
            if d == 0 {
                l
            } else {
                t.connection_types[0]
            },
            if d == 1 {
                l
            } else {
                t.connection_types[1]
            },
            if d == 2 {
                l
            } else {
                t.connection_types[2]
            },
            if d == 3 {
                l
            } else {
                t.connection_types[3]
            },
            if d == 4 {
                l
            } else {
                t.connection_types[4]
            },
            if d == 5 {
                l
            } else {
                t.connection_types[5]
            },
        ],
        angle: t.angle,
        is_rotatable: t.is_rotatable,
    }
}

/// Weld slot `p` to its northern neighbour, if both are occupied: a
/// fresh label on `p`'s north side and the neighbour's south side.
pub open spec fn north_step(s: Seq<Option<WfcTile>>, xs: int, p: int, gen: int) -> (
    Seq<Option<WfcTile>>,
    int,
) {
    if p >= xs && s[p] is Some && s[p - xs] is Some {
        (
            s.update(p, Some(with_label(s[p]->Some_0, 0, gen as usize))).update(
                p - xs,
                Some(with_label(s[p - xs]->Some_0, 2, gen as usize)),
            ),
            gen + 1,
        )
    } else {
        (s, gen)
    }
}

/// Weld slot `p` to its neighbour one step back in the row, if both
/// are occupied.
pub open spec fn west_step(s: Seq<Option<WfcTile>>, xs: int, p: int, gen: int) -> (
    Seq<Option<WfcTile>>,
    int,
) {
    if p % xs >= 1 && s[p] is Some && s[p - 1] is Some {
        (
            s.update(p, Some(with_label(s[p]->Some_0, 1, gen as usize))).update(
                p - 1,
                Some(with_label(s[p - 1]->Some_0, 3, gen as usize)),
            ),
            gen + 1,
        )
    } else {
        (s, gen)
    }
}

/// Assign fresh seam labels to every newly adjacent pair of occupied
/// slots, walking the arrangement row by row from slot `p` to the
/// end of the rectangle.
pub open spec fn seam_pass(s: Seq<Option<WfcTile>>, xs: int, p: int, end: int, gen: int) -> (
    Seq<Option<WfcTile>>,
    int,
)
    decreases end - p,
{
    if p < 0 || p >= end {
        (s, gen)
    } else {
        let n = north_step(s, xs, p, gen);
        let w = west_step(n.0, xs, p, n.1);
        seam_pass(w.0, xs, p + 1, end, w.1)
    }
}

/// The seam pass hands out at most two fresh labels per slot, and
/// never goes backward.
pub proof fn lemma_seam_gen_bounds(s: Seq<Option<WfcTile>>, xs: int, p: int, end: int, gen: int)
    ensures
        gen <= seam_pass(s, xs, p, end, gen).1,
        p < end ==> seam_pass(s, xs, p, end, gen).1 <= gen + 2 * (end - p),
    decreases end - p,
{
    if p < 0 || p >= end {
    } else {
        let n = north_step(s, xs, p, gen);
        let w = west_step(n.0, xs, p, n.1);
        lemma_seam_gen_bounds(w.0, xs, p + 1, end, w.1);
    }
}

/// The occupied slots, in order.
pub open spec fn flatten_slots(s: Seq<Option<WfcTile>>) -> Seq<WfcTile>
    decreases s.len(),
{
    if s.len() == 0 {
        Seq::empty()
    } else {
        let rest = flatten_slots(s.drop_first());
        match s[0] {
            Some(t) => seq![t] + rest,
            None => rest,
        }
    }
}

/// `t` with its four horizontal synthetic labels scaled by `k`.
pub open spec fn scale_horizontal(t: WfcTile, k: int) -> WfcTile {
    WfcTile {
        index: t.index,
        connection_types: [
            scaled_label(t.connection_types[0], k) as usize,
            scaled_label(t.connection_types[1], k) as usize,
            scaled_label(t.connection_types[2], k) as usize,
            scaled_label(t.connection_types[3], k) as usize,
            t.connection_types[4],
            t.connection_types[5],
        ],
        angle: t.angle,
        is_rotatable: t.is_rotatable,
    }
}

/// The four rotated copies of one welded part: each rotation also
/// scales every synthetic label by the rotation count plus one.
pub open spec fn family_of(t: WfcTile) -> Seq<WfcTile> {
    seq![
        scale_horizontal(rotate_spec(t, 0), 1),
        scale_horizontal(rotate_spec(t, 1), 2),
        scale_horizontal(rotate_spec(t, 2), 3),
        scale_horizontal(rotate_spec(t, 3), 4),
    ]
}

/// The rotation families of all welded parts, in order.
pub open spec fn families(ts: Seq<WfcTile>) -> Seq<WfcTile>
    decreases ts.len(),
{
    if ts.len() == 0 {
        Seq::empty()
    } else {
        family_of(ts[0]) + families(ts.drop_first())
    }
}

/// A slot state whose labels all fit under `b`, unrotated and not
/// further rotatable: what the seam pass and the flattening keep.
pub open spec fn slot_bounded(t: WfcTile, b: int) -> bool {
    &&& t.angle == 0
    &&& !t.is_rotatable
    &&& forall|i: int| 0 <= i < 6 ==> t.connection_types[i] <= b
}

/// What the composer needs of its input: enough slots for the
/// rectangle, a seam counter in the synthetic range with room for
/// two labels per slot, and author labels small enough to scale.
pub open spec fn big_tile_input_ok(gen: int, xs: int, ys: int, v: Seq<Option<(u32, [usize; 6])>>) -> bool {
    &&& v.len() >= xs * ys
    &&& gen >= SYNTHETIC_MIN
    &&& gen + 2 * (xs * ys) <= usize::MAX / 16
    &&& forall|k: int, i: int|
        0 <= k < v.len() && 0 <= i < 6 && v[k] is Some ==> #[trigger] v[k]->Some_0.1[i]
            <= usize::MAX / 16
}

/// The composed tile set of one arrangement: its occupied slots are
/// welded with fresh labels from `gen_con` on and emitted in all four
/// rotations.  `size` gives the rectangle as `(columns, rows, _)`;
/// its third axis is not welded.  Labels above `SYNTHETIC_MIN` are
/// treated as seam labels and rotation-scaled.
pub fn create_big_tile(
    gen_con: &mut usize,
    size: (usize, usize, usize),
    big_tile: Vec<Option<(u32, [usize; 6])>>,
) -> (r: Vec<WfcTile>)
    requires
        big_tile_input_ok(*old(gen_con) as int, size.0 as int, size.1 as int, big_tile@),
    ensures
        ({
            let welded = seam_pass(
                slots_of(big_tile@),
                size.0 as int,
                0,
                size.0 * size.1,
                *old(gen_con) as int,
            );
            &&& r@ == families(flatten_slots(welded.0))
            &&& *final(gen_con) == welded.1
        }),
        forall|i: int| 0 <= i < r@.len() ==> tile_ok(#[trigger] r@[i]),
{
    let xs = size.0;
    let end = xs * size.1;
    let ghost bound = (usize::MAX / 16) as int;
    let ghost gen0 = *gen_con as int;

    // Convert the slots.
    let mut slots: Vec<Option<WfcTile>> = Vec::new();
    let n = big_tile.len();
    let mut k: usize = 0;
    while k < n
        invariant
            n == big_tile@.len(),
            k <= n,
            slots@.len() == k,
            forall|j: int| 0 <= j < k ==> slots@[j] == slot_tile(big_tile@[j]),
            forall|j: int, i: int|
                0 <= j < big_tile@.len() && 0 <= i < 6 && big_tile@[j] is Some
                    ==> #[trigger] big_tile@[j]->Some_0.1[i] <= usize::MAX / 16,
            forall|j: int|
                0 <= j < k && slots@[j] is Some ==> slot_bounded(#[trigger] slots@[j]->Some_0, bound),
            bound == (usize::MAX / 16) as int,
        decreases n - k,
    {
        let e = big_tile[k];
        match e {
            Some(t) => {
                slots.push(
                    Some(WfcTile { index: t.0, connection_types: t.1, angle: 0, is_rotatable: false }),
                );
            },
            None => {
                slots.push(None);
            },
        }
        k = k + 1;
    }
    proof {
        assert(slots@ =~= slots_of(big_tile@));
    }

    // Weld the seams.
    let ghost slots0 = slots@;
    let mut gen: usize = *gen_con;
    let mut p: usize = 0;
    while p < end
        invariant
            end == size.0 * size.1,
            xs == size.0,
            end <= slots@.len(),
            slots@.len() == slots0.len(),
            p <= end,
            gen0 <= gen as int,
            gen as int + 2 * (end - p) <= bound,
            gen0 >= SYNTHETIC_MIN,
            bound == (usize::MAX / 16) as int,
            seam_pass(slots0, xs as int, 0, end as int, gen0) == seam_pass(
                slots@,
                xs as int,
                p as int,
                end as int,
                gen as int,
            ),
            forall|j: int|
                0 <= j < slots@.len() && slots@[j] is Some ==> slot_bounded(
                    #[trigger] slots@[j]->Some_0,
                    bound,
                ),
        decreases end - p,
    {
        proof {
            assert(xs >= 1) by (nonlinear_arith)
                requires
                    (p as int) < (xs as int) * (size.1 as int),
                    0 <= p as int,
                    xs as int >= 0,
            ;
        }
        let ghost s_before = slots@;
        let ghost gen_before = gen as int;
        // north seam
        if p >= xs {
            let cur = slots[p];
            let nb = slots[p - xs];
            if cur.is_some() && nb.is_some() {
                let mut ct = cur.unwrap();
                ct.connection_types[0] = gen;
                slots.set(p, Some(ct));
                let mut nt = nb.unwrap();
                nt.connection_types[2] = gen;
                slots.set(p - xs, Some(nt));
                gen = gen + 1;
                proof {
                    assert(ct.connection_types =~= with_label(
                        s_before[p as int]->Some_0,
                        0,
                        (gen - 1) as usize,
                    ).connection_types);
                    assert(nt.connection_types =~= with_label(
                        s_before[p as int - xs as int]->Some_0,
                        2,
                        (gen - 1) as usize,
                    ).connection_types);
                }
            }
        }
        proof {
            assert(p as int % xs as int == (p % xs) as int);
            assert((slots@, gen as int) == north_step(s_before, xs as int, p as int, gen_before));
        }
        let ghost s_mid = slots@;
        let ghost gen_mid = gen as int;
        // west seam
        if p % xs >= 1 {
            let cur = slots[p];
            let nb = slots[p - 1];
            if cur.is_some() && nb.is_some() {
                let mut ct = cur.unwrap();
                ct.connection_types[1] = gen;
                slots.set(p, Some(ct));
                let mut nt = nb.unwrap();
                nt.connection_types[3] = gen;
                slots.set(p - 1, Some(nt));
                gen = gen + 1;
                proof {
                    assert(ct.connection_types =~= with_label(
                        s_mid[p as int]->Some_0,
                        1,
                        (gen - 1) as usize,
                    ).connection_types);
                    assert(s_mid[p as int - 1] is Some);
                    assert(nt.connection_types =~= with_label(
                        s_mid[p as int - 1]->Some_0,
                        3,
                        (gen - 1) as usize,
                    ).connection_types);
                }
            }
        }
        proof {
            assert((slots@, gen as int) == west_step(s_mid, xs as int, p as int, gen_mid));
            assert(seam_pass(slots@, xs as int, p + 1, end as int, gen as int) == seam_pass(
                s_before,
                xs as int,
                p as int,
                end as int,
                gen_before,
            ));
        }
        p = p + 1;
    }
    *gen_con = gen;

    // Flatten the occupied slots.
    let mut flat: Vec<WfcTile> = Vec::new();
    let m = slots.len();
    let mut q: usize = 0;
    proof {
        assert(slots@.skip(0) =~= slots@);
        assert(flat@ + flatten_slots(slots@) =~= flatten_slots(slots@));
    }
    while q < m
        invariant
            m == slots@.len(),
            q <= m,
            flat@ + flatten_slots(slots@.skip(q as int)) == flatten_slots(slots@),
            forall|j: int|
                0 <= j < slots@.len() && slots@[j] is Some ==> slot_bounded(
                    #[trigger] slots@[j]->Some_0,
                    bound,
                ),
            forall|j: int| 0 <= j < flat@.len() ==> slot_bounded(#[trigger] flat@[j], bound),
            bound == (usize::MAX / 16) as int,
        decreases m - q,
    {
        proof {
            assert(slots@.skip(q as int).drop_first() =~= slots@.skip(q + 1));
            assert(slots@.skip(q as int)[0] == slots@[q as int]);
        }
        let ghost flat0 = flat@;
        match slots[q] {
            Some(t) => {
                flat.push(t);
                proof {
                    assert(flat@ + flatten_slots(slots@.skip(q + 1)) =~= flatten_slots(slots@));
                }
            },
            None => {},
        }
        q = q + 1;
    }

    // Emit the four rotations of each part, scaling seam labels.
    let mut rv: Vec<WfcTile> = Vec::new();
    let fl = flat.len();
    let mut fi: usize = 0;
    proof {
        assert(flat@.skip(0) =~= flat@);
        assert(rv@ + families(flat@) =~= families(flat@));
    }
    while fi < fl
        invariant
            fl == flat@.len(),
            fi <= fl,
            rv@ + families(flat@.skip(fi as int)) == families(flat@),
            forall|j: int| 0 <= j < flat@.len() ==> slot_bounded(#[trigger] flat@[j], bound),
            forall|j: int| 0 <= j < rv@.len() ==> tile_ok(#[trigger] rv@[j]),
            bound == (usize::MAX / 16) as int,
        decreases fl - fi,
    {
        proof {
            assert(flat@.skip(fi as int).drop_first() =~= flat@.skip(fi + 1));
            assert(flat@.skip(fi as int)[0] == flat@[fi as int]);
        }
        let base = flat[fi];
        let mut rot: u32 = 0;
        let ghost rv_start = rv@;
        proof {
            assert(rv@ =~= rv_start + family_of(base).take(0));
        }
        while rot < 4
            invariant
                rot <= 4,
                base == flat@[fi as int],
                fi < fl,
                fl == flat@.len(),
                forall|j: int| 0 <= j < flat@.len() ==> slot_bounded(#[trigger] flat@[j], bound),
                rv@ == rv_start + family_of(base).take(rot as int),
                forall|j: int| 0 <= j < rv@.len() ==> tile_ok(#[trigger] rv@[j]),
                bound == (usize::MAX / 16) as int,
            decreases 4 - rot,
        {
            let mut t2 = base;
            proof {
                assert(tile_ok(base));
            }
            t2.rotate(rot);
            let kmul = (rot + 1) as usize;
            let ghost rotated = t2;
            proof {
                let s = rot as int % 4;
                assert(s == rot as int);
                if base.connection_types[4] >= SYNTHETIC_MIN {
                    assert(base.connection_types[4] as int * (s + 1) <= 4 * bound)
                        by (nonlinear_arith)
                        requires
                            base.connection_types[4] <= bound,
                            0 <= s < 4,
                            bound >= 0,
                    ;
                }
                if base.connection_types[5] >= SYNTHETIC_MIN {
                    assert(base.connection_types[5] as int * (s + 1) <= 4 * bound)
                        by (nonlinear_arith)
                        requires
                            base.connection_types[5] <= bound,
                            0 <= s < 4,
                            bound >= 0,
                    ;
                }
                assert(rotated.connection_types[4] <= 4 * bound && rotated.connection_types[5]
                    <= 4 * bound);
            }
            let mut h: usize = 0;
            while h < 4
                invariant
                    h <= 4,
                    kmul == rot as int + 1,
                    rot < 4,
                    slot_bounded(base, bound),
                    bound == (usize::MAX / 16) as int,
                    forall|i: int| 0 <= i < 4 ==> rotated.connection_types[i] <= bound,
                    rotated.connection_types[4] <= 4 * bound,
                    rotated.connection_types[5] <= 4 * bound,
                    t2.angle == rotated.angle,
                    t2.index == rotated.index,
                    t2.is_rotatable == rotated.is_rotatable,
                    forall|i: int|
                        h <= i < 6 ==> t2.connection_types[i] == rotated.connection_types[i],
                    forall|i: int|
                        0 <= i < h ==> t2.connection_types[i] as int == scaled_label(
                            rotated.connection_types[i],
                            kmul as int,
                        ) && t2.connection_types[i] <= 4 * bound,
                decreases 4 - h,
            {
                if t2.connection_types[h] >= SYNTHETIC_MIN {
                    proof {
                        assert(t2.connection_types[h as int] * kmul <= 4 * bound)
                            by (nonlinear_arith)
                            requires
                                t2.connection_types[h as int] <= bound,
                                1 <= kmul <= 4,
                                bound >= 0,
                        ;
                    }
                    let nv = t2.connection_types[h] * kmul;
                    t2.connection_types[h] = nv;
                }
                h = h + 1;
            }
            proof {
                assert(t2.connection_types =~= scale_horizontal(
                    rotated,
                    kmul as int,
                ).connection_types);
                assert(t2 == scale_horizontal(rotate_spec(base, rot as int), kmul as int));
                assert(tile_ok(t2)) by {
                    assert(forall|i: int|
                        0 <= i < 6 ==> #[trigger] t2.connection_types[i] as int <= 4 * bound);
                }
                assert(family_of(base).take(rot + 1) =~= family_of(base).take(rot as int).push(
                    t2,
                ));
            }
            rv.push(t2);
            rot = rot + 1;
        }
        proof {
            assert(family_of(base).take(4) =~= family_of(base));
            assert(rv@ + families(flat@.skip(fi + 1)) =~= families(flat@));
        }
        fi = fi + 1;
    }
    proof {
        assert(flatten_slots(slots@.skip(m as int)) =~= Seq::<WfcTile>::empty());
        assert(flat@ =~= flatten_slots(slots@));
        assert(families(flat@.skip(fl as int)) =~= Seq::<WfcTile>::empty());
        assert(rv@ =~= families(flat@));
    }
    rv
}

} // verus!
