//! Engine-wide laws, each proved against the same spec functions that the
//! executable contracts use.

use vstd::prelude::*;
use vstd::arithmetic::div_mod::{
    lemma_div_is_ordered, lemma_div_multiples_vanish, lemma_div_pos_is_pos,
};
use crate::engine::{
    spec_add, spec_item_size, spec_parent_bbox, spec_prestack_pos, spec_stack_active, stack_trim,
    PicoV, Stack,
};
use crate::fixed::{spec_cadd, spec_csub, spec_fracmul, tdiv, imax, imin, COORD_MAX, UV_ONE};
use crate::geom::{
    spec_anchor_x, spec_anchor_y, spec_get_bbox, Anchor, BBox, Vec2Fx,
};
use crate::frame::{
    spec_age_entry, spec_aged, spec_any_drag, spec_filled, spec_frame, spec_gc, spec_gc_upto,
    spec_order, spec_rec_upto, spec_refresh_life, spec_sweep_init, spec_sweep_step,
    spec_sweep_upto, CmdV, FrameEnv, RecSt, SweepSt,
};
use crate::item::{ItemV, Life, PItemV};
use crate::state::StateV;
use crate::statemap::{entry_of, find_key, find_key_from, has_key, keys_distinct};

verus! {

/// A value far enough from the saturation edge that the layout sums in
/// these laws stay exact.
pub open spec fn comfortably_in_range(x: int) -> bool {
    -(COORD_MAX as int) / 8 <= x <= COORD_MAX as int / 8
}

/// The anchored fraction of a non-negative size is at most the size.
proof fn lemma_frac_bound(a: int, f: int)
    requires
        0 <= a,
        -(UV_ONE as int) <= f <= UV_ONE as int,
    ensures
        -a <= tdiv(a * f, UV_ONE as int) <= a,
{
    let s = UV_ONE as int;
    if a * f >= 0 {
        assert(a * f <= a * s) by (nonlinear_arith)
            requires
                0 <= a,
                f <= s,
        ;
        lemma_div_is_ordered(a * f, a * s, s);
        lemma_div_multiples_vanish(a, s);
        lemma_div_pos_is_pos(a * f, s);
    } else {
        assert(-(a * f) <= a * s) by (nonlinear_arith)
            requires
                0 <= a,
                -s <= f,
        ;
        lemma_div_is_ordered(-(a * f), a * s, s);
        lemma_div_multiples_vanish(a, s);
        lemma_div_pos_is_pos(-(a * f), s);
    }
}

/// Anchor correctness: an item of size `(w, h)` whose position sits at
/// anchor fraction `A` occupies exactly
/// `position - A*(w, h) .. position + (1 - A)*(w, h)`, for every anchor —
/// the nine canonical points take their familiar closed forms.
pub proof fn lemma_anchor_box(size: Vec2Fx, pos: Vec2Fx, anchor: Anchor)
    requires
        anchor.wf(),
        0 <= size.x as int <= COORD_MAX as int / 4,
        0 <= size.y as int <= COORD_MAX as int / 4,
        -(COORD_MAX as int) / 4 <= pos.x as int <= COORD_MAX as int / 4,
        -(COORD_MAX as int) / 4 <= pos.y as int <= COORD_MAX as int / 4,
    ensures
        ({
            let b = spec_get_bbox(size, pos, anchor);
            &&& b.min_x as int == pos.x as int - tdiv(
                size.x as int * spec_anchor_x(anchor),
                UV_ONE as int,
            )
            &&& b.min_y as int == pos.y as int - tdiv(
                size.y as int * spec_anchor_y(anchor),
                UV_ONE as int,
            )
            &&& b.max_x as int == b.min_x as int + size.x as int
            &&& b.max_y as int == b.min_y as int + size.y as int
        }),
        anchor == Anchor::TopLeft ==> spec_get_bbox(size, pos, anchor) == (BBox {
            min_x: pos.x,
            min_y: pos.y,
            max_x: (pos.x + size.x) as i64,
            max_y: (pos.y + size.y) as i64,
        }),
        anchor == Anchor::BottomRight ==> spec_get_bbox(size, pos, anchor) == (BBox {
            min_x: (pos.x - size.x) as i64,
            min_y: (pos.y - size.y) as i64,
            max_x: pos.x,
            max_y: pos.y,
        }),
        anchor == Anchor::Center ==> ({
            let b = spec_get_bbox(size, pos, anchor);
            b.min_x as int == pos.x as int - size.x as int / 2 && b.min_y as int == pos.y as int
                - size.y as int / 2
        }),
{
    let s = UV_ONE as int;
    let ax = spec_anchor_x(anchor);
    let ay = spec_anchor_y(anchor);
    lemma_frac_bound(size.x as int, ax);
    lemma_frac_bound(size.y as int, ay);
    assert(spec_fracmul(size.x as int, ax) == tdiv(size.x as int * ax, s));
    assert(spec_fracmul(size.y as int, ay) == tdiv(size.y as int * ay, s));
    if anchor == Anchor::TopLeft {
        assert(size.x as int * 0 == 0) by (nonlinear_arith);
        assert(size.y as int * 0 == 0) by (nonlinear_arith);
    }
    if anchor == Anchor::BottomRight {
        lemma_div_multiples_vanish(size.x as int, s);
        lemma_div_multiples_vanish(size.y as int, s);
        assert(tdiv(size.x as int * s, s) == size.x as int);
        assert(tdiv(size.y as int * s, s) == size.y as int);
    }
    if anchor == Anchor::Center {
        lemma_half_fraction(size.x as int);
        lemma_half_fraction(size.y as int);
    }
}

/// Multiplying by half a unit then dividing by the unit is integer
/// halving.
proof fn lemma_half_fraction(a: int)
    requires
        0 <= a,
    ensures
        tdiv(a * (UV_ONE as int / 2), UV_ONE as int) == a / 2,
{
    let h = UV_ONE as int / 2;
    let s = UV_ONE as int;
    let q = a / 2;
    let r = a % 2;
    assert(a == 2 * q + r && 0 <= r < 2);
    assert(a * h == q * s + r * h) by (nonlinear_arith)
        requires
            a == 2 * q + r,
            h == 500_000,
            s == 1_000_000,
    ;
    assert((q * s + r * h) / s == q) by {
        vstd::arithmetic::div_mod::lemma_div_multiples_vanish_fancy(q, r * h, s);
    }
    lemma_div_pos_is_pos(a * h, s);
}

/// Stack monotonicity (forward): in a vertical forward stack with margin
/// `m >= 0`, the child added second begins at or below where the child
/// added first ended, plus the margin — provided both children lead at or
/// below the parent's top edge and all quantities stay clear of
/// saturation.
pub proof fn lemma_vstack_monotone(p: PicoV, c1: ItemV, c2: ItemV)
    requires
        p.wf(),
        c1.wf(),
        c2.wf(),
        p.stack_guard >= p.stack_stack.len(),
        p.stack_stack.len() > 0,
        ({
            let top = p.stack_stack.last();
            &&& top.vertical
            &&& !top.reverse
            &&& !top.bypass
            &&& top.margin >= 0
            &&& top.parent is Some
            &&& top.parent.unwrap().0 < p.items.len()
        }),
        c1.parent == p.stack_stack.last().parent,
        c2.parent == p.stack_stack.last().parent,
        c1.position_3d is None,
        c2.position_3d is None,
        ({
            let top = p.stack_stack.last();
            let pb = spec_parent_bbox(p, c1);
            let pos1 = spec_prestack_pos(p, c1);
            let size1 = spec_item_size(p, c1);
            let pos2 = spec_prestack_pos(p, c2);
            let size2 = spec_item_size(p, c2);
            let off1 = spec_fracmul(size1.y as int, spec_anchor_y(c1.anchor));
            let off2 = spec_fracmul(size2.y as int, spec_anchor_y(c2.anchor));
            &&& comfortably_in_range(top.end as int)
            &&& comfortably_in_range(top.margin as int)
            &&& comfortably_in_range(pb.min_y as int)
            &&& comfortably_in_range(pos1.y as int)
            &&& comfortably_in_range(pos2.y as int)
            &&& comfortably_in_range(off1)
            &&& comfortably_in_range(off2)
            &&& comfortably_in_range(size1.y as int)
            &&& comfortably_in_range(size2.y as int)
            &&& 0 <= size1.y
            &&& 0 <= size2.y
            // both children lead at or below the parent's top edge
            &&& pos1.y as int - off1 >= pb.min_y as int
            &&& pos2.y as int - off2 >= pb.min_y as int
        }),
    ensures
        ({
            let p1 = spec_add(p, c1);
            let p2 = spec_add(p1, c2);
            let b1 = p1.items.last().bbox;
            let b2 = p2.items.last().bbox;
            b2.min_y as int >= b1.max_y as int + p.stack_stack.last().margin as int
        }),
{
    let top = p.stack_stack.last();
    let pb = spec_parent_bbox(p, c1);
    let st0 = stack_trim(p.stack_stack, p.stack_guard);
    assert(st0 == p.stack_stack);
    assert(spec_stack_active(st0, c1));

    let pos1 = spec_prestack_pos(p, c1);
    let size1 = spec_item_size(p, c1);
    let off1 = spec_fracmul(size1.y as int, spec_anchor_y(c1.anchor));
    let e0 = top.end as int;
    let m = top.margin as int;

    // child one: shifted position and box
    let sh1 = crate::engine::spec_stack_shifted_pos(st0, c1, pos1);
    assert(sh1.y as int == pos1.y as int + e0);
    let b1 = spec_get_bbox(size1, sh1, c1.anchor);
    assert(b1.min_y as int == sh1.y as int - off1);
    assert(b1.max_y as int == b1.min_y as int + size1.y as int);

    let p1 = spec_add(p, c1);
    assert(p1.items.last() == crate::engine::spec_resolved_item(p, c1));
    assert(p1.items.last().bbox == b1);

    // the advanced cursor
    let st1 = crate::engine::spec_stack_advanced(st0, c1, pb, sh1, size1);
    assert(p1.stack_stack == st1);
    let e1 = st1.last().end as int;
    assert(e1 == spec_cadd(imax(e0, spec_csub(b1.max_y as int, pb.min_y as int)), m));
    assert(spec_csub(b1.max_y as int, pb.min_y as int) == b1.max_y as int - pb.min_y as int);
    assert(e1 == imax(e0, b1.max_y as int - pb.min_y as int) + m);
    assert(e1 >= b1.max_y as int - pb.min_y as int + m);

    // child two under the advanced cursor
    assert(p1.stack_guard == p.stack_guard);
    assert(st1.len() == st0.len());
    assert(stack_trim(p1.stack_stack, p1.stack_guard) == st1);
    assert(st1.last().parent == top.parent);
    assert(st1.last().vertical && !st1.last().reverse && !st1.last().bypass);
    assert(st1.last().margin == top.margin);
    assert(spec_stack_active(st1, c2));

    // the parent's box is unchanged by the first add
    let pi = top.parent.unwrap();
    assert(spec_parent_bbox(p1, c2) == p1.items[pi.0 as int].bbox);
    assert(p1.items[pi.0 as int].bbox == p.items[pi.0 as int].bbox);
    assert(spec_parent_bbox(p1, c2) == pb);
    assert(p1.window_size == p.window_size);
    lemma_layout_inputs_stable(p, p1, c2);
    let pos2 = spec_prestack_pos(p1, c2);
    let size2 = spec_item_size(p1, c2);
    assert(pos2 == spec_prestack_pos(p, c2));
    assert(size2 == spec_item_size(p, c2));
    let off2 = spec_fracmul(size2.y as int, spec_anchor_y(c2.anchor));

    let sh2 = crate::engine::spec_stack_shifted_pos(st1, c2, pos2);
    assert(sh2.y as int == spec_cadd(pos2.y as int, e1));
    let p2 = spec_add(p1, c2);
    assert(p2.items.last() == crate::engine::spec_resolved_item(p1, c2));
    let b2 = spec_get_bbox(size2, sh2, c2.anchor);
    assert(p2.items.last().bbox == b2);
    assert(b2.min_y as int == spec_csub(sh2.y as int, off2));

    // all sums stay exact, so the inequality is plain arithmetic
    assert(sh2.y as int == pos2.y as int + e1);
    assert(b2.min_y as int == pos2.y as int + e1 - off2);
    assert(b2.min_y as int >= pb.min_y as int + e1);
    assert(b2.min_y as int >= b1.max_y as int + m);
}

/// Stack monotonicity (reverse): in a reversed vertical stack the
/// inequality mirrors — the second child ends at or above where the first
/// began, minus the margin — provided both children trail at or above the
/// parent's bottom edge.
pub proof fn lemma_vstack_monotone_rev(p: PicoV, c1: ItemV, c2: ItemV)
    requires
        p.wf(),
        c1.wf(),
        c2.wf(),
        p.stack_guard >= p.stack_stack.len(),
        p.stack_stack.len() > 0,
        ({
            let top = p.stack_stack.last();
            &&& top.vertical
            &&& top.reverse
            &&& !top.bypass
            &&& top.margin >= 0
            &&& top.parent is Some
            &&& top.parent.unwrap().0 < p.items.len()
        }),
        c1.parent == p.stack_stack.last().parent,
        c2.parent == p.stack_stack.last().parent,
        c1.position_3d is None,
        c2.position_3d is None,
        ({
            let top = p.stack_stack.last();
            let pb = spec_parent_bbox(p, c1);
            let pos1 = spec_prestack_pos(p, c1);
            let size1 = spec_item_size(p, c1);
            let pos2 = spec_prestack_pos(p, c2);
            let size2 = spec_item_size(p, c2);
            let off1 = spec_fracmul(size1.y as int, spec_anchor_y(c1.anchor));
            let off2 = spec_fracmul(size2.y as int, spec_anchor_y(c2.anchor));
            &&& comfortably_in_range(top.end as int)
            &&& comfortably_in_range(top.margin as int)
            &&& comfortably_in_range(pb.max_y as int)
            &&& comfortably_in_range(pos1.y as int)
            &&& comfortably_in_range(pos2.y as int)
            &&& comfortably_in_range(off1)
            &&& comfortably_in_range(off2)
            &&& comfortably_in_range(size1.y as int)
            &&& comfortably_in_range(size2.y as int)
            &&& 0 <= size1.y
            &&& 0 <= size2.y
            // both children trail at or above the parent's bottom edge
            &&& pos1.y as int - off1 + size1.y as int <= pb.max_y as int
            &&& pos2.y as int - off2 + size2.y as int <= pb.max_y as int
        }),
    ensures
        ({
            let p1 = spec_add(p, c1);
            let p2 = spec_add(p1, c2);
            let b1 = p1.items.last().bbox;
            let b2 = p2.items.last().bbox;
            b2.max_y as int <= b1.min_y as int - p.stack_stack.last().margin as int
        }),
{
    let top = p.stack_stack.last();
    let pb = spec_parent_bbox(p, c1);
    let st0 = stack_trim(p.stack_stack, p.stack_guard);
    assert(st0 == p.stack_stack);
    assert(spec_stack_active(st0, c1));

    let pos1 = spec_prestack_pos(p, c1);
    let size1 = spec_item_size(p, c1);
    let off1 = spec_fracmul(size1.y as int, spec_anchor_y(c1.anchor));
    let e0 = top.end as int;
    let m = top.margin as int;

    let sh1 = crate::engine::spec_stack_shifted_pos(st0, c1, pos1);
    assert(sh1.y as int == pos1.y as int + e0);
    let b1 = spec_get_bbox(size1, sh1, c1.anchor);
    assert(b1.min_y as int == sh1.y as int - off1);
    assert(b1.max_y as int == b1.min_y as int + size1.y as int);

    let p1 = spec_add(p, c1);
    assert(p1.items.last() == crate::engine::spec_resolved_item(p, c1));
    assert(p1.items.last().bbox == b1);

    let st1 = crate::engine::spec_stack_advanced(st0, c1, pb, sh1, size1);
    assert(p1.stack_stack == st1);
    let e1 = st1.last().end as int;
    assert(e1 == spec_csub(imin(e0, spec_csub(b1.min_y as int, pb.max_y as int)), m));
    assert(e1 == imin(e0, b1.min_y as int - pb.max_y as int) - m);
    assert(e1 <= b1.min_y as int - pb.max_y as int - m);

    assert(p1.stack_guard == p.stack_guard);
    assert(st1.len() == st0.len());
    assert(stack_trim(p1.stack_stack, p1.stack_guard) == st1);
    assert(spec_stack_active(st1, c2));

    let pi = top.parent.unwrap();
    assert(spec_parent_bbox(p1, c2) == pb);
    assert(p1.window_size == p.window_size);
    lemma_layout_inputs_stable(p, p1, c2);
    let pos2 = spec_prestack_pos(p1, c2);
    let size2 = spec_item_size(p1, c2);
    assert(pos2 == spec_prestack_pos(p, c2));
    assert(size2 == spec_item_size(p, c2));
    let off2 = spec_fracmul(size2.y as int, spec_anchor_y(c2.anchor));

    let sh2 = crate::engine::spec_stack_shifted_pos(st1, c2, pos2);
    assert(sh2.y as int == spec_cadd(pos2.y as int, e1));
    let p2 = spec_add(p1, c2);
    let b2 = spec_get_bbox(size2, sh2, c2.anchor);
    assert(p2.items.last().bbox == b2);
    assert(sh2.y as int == pos2.y as int + e1);
    assert(b2.min_y as int == pos2.y as int + e1 - off2);
    assert(b2.max_y as int == b2.min_y as int + size2.y as int);
    assert(b2.max_y as int <= pb.max_y as int + e1);
    assert(b2.max_y as int <= b1.min_y as int - m);
}

/// The first add leaves every layout input of an unrelated later
/// declaration unchanged: window, parent box and extent, so position and
/// size resolve identically.
proof fn lemma_layout_inputs_stable(p: PicoV, p1: PicoV, c: ItemV)
    requires
        p1.window_size == p.window_size,
        c.parent is Some,
        c.parent.unwrap().0 < p.items.len(),
        p1.items.len() >= p.items.len(),
        p1.items[c.parent.unwrap().0 as int].bbox == p.items[c.parent.unwrap().0 as int].bbox,
    ensures
        spec_prestack_pos(p1, c) == spec_prestack_pos(p, c),
        spec_item_size(p1, c) == spec_item_size(p, c),
{
    assert(spec_parent_bbox(p1, c) == spec_parent_bbox(p, c));
}

// ---- facts about the frame phases, shared by the interaction and
// lifecycle laws ----

/// Aging changes no key and removes no entry.
proof fn lemma_aged_shape(state: Seq<(u64, StateV)>, env: FrameEnv)
    ensures
        spec_aged(state, env).len() == state.len(),
        forall|j: int|
            0 <= j < state.len() ==> (#[trigger] spec_aged(state, env)[j]).0 == state[j].0,
{
    assert forall|j: int|
        0 <= j < state.len() implies (#[trigger] spec_aged(state, env)[j]).0 == state[j].0 by {
        assert(spec_aged(state, env)[j] == spec_age_entry(state[j], env));
    }
}

/// Two states with pointwise equal keys give every search the same result.
proof fn lemma_find_key_congruent(
    s1: Seq<(u64, StateV)>,
    s2: Seq<(u64, StateV)>,
    k: u64,
    from: int,
)
    requires
        0 <= from,
        s1.len() == s2.len(),
        forall|j: int| 0 <= j < s1.len() ==> (#[trigger] s1[j]).0 == s2[j].0,
    ensures
        find_key_from(s1, k, from) == find_key_from(s2, k, from),
    decreases s1.len() - from,
{
    if from < s1.len() && s1[from].0 != k {
        lemma_find_key_congruent(s1, s2, k, from + 1);
    }
}

/// What one sweep does to the cache, entry by entry: keys, length and the
/// drag-blocking flag never change; an existing drag survives untouched;
/// no drag starts while one is active or without a fresh press; an entry
/// whose key no processed item bears is left exactly as it was; a
/// processed entry's lease is non-negative when the declared lives are.
proof fn lemma_sweep_props(
    items: Seq<PItemV>,
    ord: Seq<int>,
    st0: SweepSt,
    env: FrameEnv,
    k: int,
)
    requires
        0 <= k <= ord.len(),
        keys_distinct(st0.state),
        forall|t: int| 0 <= t < ord.len() ==> 0 <= #[trigger] ord[t] < items.len(),
        forall|i: int|
            0 <= i < items.len() ==> !(Life::Finite(0).spec_expired()) && !match (
            #[trigger] items[i]).life {
                Life::Finite(n) => n < 0,
                Life::Infinite => false,
            },
    ensures
        ({
            let sw = spec_sweep_upto(items, ord, st0, env, k);
            &&& sw.state.len() == st0.state.len()
            &&& sw.dragging == st0.dragging
            &&& forall|j: int|
                0 <= j < st0.state.len() ==> (#[trigger] sw.state[j]).0 == st0.state[j].0
            &&& forall|j: int|
                0 <= j < st0.state.len() && (#[trigger] st0.state[j]).1.drag is Some
                    ==> sw.state[j].1.drag == st0.state[j].1.drag
            &&& (st0.dragging || !env.buttons.just_pressed) ==> forall|j: int|
                0 <= j < st0.state.len() ==> (#[trigger] sw.state[j]).1.drag
                    == st0.state[j].1.drag
            &&& forall|j: int|
                0 <= j < st0.state.len() && (forall|t: int|
                    0 <= t < k ==> items[#[trigger] ord[t]].spatial_id != st0.state[j].0)
                    ==> (#[trigger] sw.state[j]).1 == st0.state[j].1
            &&& forall|j: int|
                0 <= j < st0.state.len() && (exists|t: int|
                    0 <= t < k && items[#[trigger] ord[t]].spatial_id == st0.state[j].0)
                    ==> !(#[trigger] sw.state[j]).1.life.spec_expired()
        }),
    decreases k,
{
    if k > 0 {
        lemma_sweep_props(items, ord, st0, env, k - 1);
        let pre = spec_sweep_upto(items, ord, st0, env, k - 1);
        let sw = spec_sweep_upto(items, ord, st0, env, k);
        let it = items[ord[k - 1]];
        crate::statemap::lemma_find_key(pre.state, it.spatial_id);
        match find_key(pre.state, it.spatial_id) {
            Option::None => {
                assert(sw == pre);
                assert forall|j: int|
                    0 <= j < st0.state.len() && (exists|t: int|
                        0 <= t < k && items[#[trigger] ord[t]].spatial_id == st0.state[j].0)
                    implies !(#[trigger] sw.state[j]).1.life.spec_expired() by {
                    let t = choose|t: int|
                        0 <= t < k && items[#[trigger] ord[t]].spatial_id == st0.state[j].0;
                    if t < k - 1 {
                        assert(!pre.state[j].1.life.spec_expired());
                    } else {
                        assert(items[ord[k - 1]].spatial_id == st0.state[j].0);
                        assert(pre.state[j].0 == st0.state[j].0);
                        assert(false);
                    }
                }
            }
            Option::Some(j0) => {
                assert(sw.state.len() == pre.state.len());
                assert forall|j: int|
                    0 <= j < st0.state.len() implies (#[trigger] sw.state[j]).0
                    == st0.state[j].0 by {
                    if j != j0 {
                        assert(sw.state[j] == pre.state[j]);
                    }
                }
                assert forall|j: int|
                    0 <= j < st0.state.len() && (#[trigger] st0.state[j]).1.drag is Some
                    implies sw.state[j].1.drag == st0.state[j].1.drag by {
                    if j != j0 {
                        assert(sw.state[j] == pre.state[j]);
                    }
                }
                if st0.dragging || !env.buttons.just_pressed {
                    assert forall|j: int|
                        0 <= j < st0.state.len() implies (#[trigger] sw.state[j]).1.drag
                        == st0.state[j].1.drag by {
                        if j != j0 {
                            assert(sw.state[j] == pre.state[j]);
                        }
                    }
                }
                assert forall|j: int|
                    0 <= j < st0.state.len() && (forall|t: int|
                        0 <= t < k ==> items[#[trigger] ord[t]].spatial_id != st0.state[j].0)
                    implies (#[trigger] sw.state[j]).1 == st0.state[j].1 by {
                    assert(items[ord[k - 1]].spatial_id != st0.state[j].0);
                    assert(pre.state[j0].0 == st0.state[j0].0);
                    assert(j != j0);
                    assert(sw.state[j] == pre.state[j]);
                }
                assert forall|j: int|
                    0 <= j < st0.state.len() && (exists|t: int|
                        0 <= t < k && items[#[trigger] ord[t]].spatial_id == st0.state[j].0)
                    implies !(#[trigger] sw.state[j]).1.life.spec_expired() by {
                    if j == j0 {
                        assert(sw.state[j].1.life == spec_refresh_life(
                            pre.state[j].1.life,
                            it.life,
                        ));
                        assert(0 <= ord[k - 1] < items.len());
                    } else {
                        assert(sw.state[j] == pre.state[j]);
                        let t = choose|t: int|
                            0 <= t < k && items[#[trigger] ord[t]].spatial_id == st0.state[j].0;
                        if t == k - 1 {
                            assert(st0.state[j].0 == it.spatial_id);
                            assert(pre.state[j].0 == st0.state[j].0);
                            assert(pre.state[j0].0 == st0.state[j0].0);
                            assert(st0.state[j0].0 == it.spatial_id);
                            if j < j0 {
                                assert(st0.state[j].0 != st0.state[j0].0);
                            } else {
                                assert(st0.state[j0].0 != st0.state[j].0);
                            }
                            assert(false);
                        } else {
                            assert(0 <= t < k - 1);
                        }
                    }
                }
            }
        }
    }
}

/// Every sweep command is a reposition, appended after what was already
/// queued.
proof fn lemma_sweep_cmds(items: Seq<PItemV>, ord: Seq<int>, st0: SweepSt, env: FrameEnv, k:
    int)
    requires
        0 <= k <= ord.len(),
        forall|t: int| 0 <= t < ord.len() ==> 0 <= #[trigger] ord[t] < items.len(),
    ensures
        ({
            let sw = spec_sweep_upto(items, ord, st0, env, k);
            &&& sw.cmds.len() >= st0.cmds.len()
            &&& forall|t: int| 0 <= t < st0.cmds.len() ==> (#[trigger] sw.cmds[t]) == st0.cmds[t]
            &&& forall|t: int|
                st0.cmds.len() <= t < sw.cmds.len() ==> (#[trigger] sw.cmds[t]) is Reposition
        }),
    decreases k,
{
    if k > 0 {
        lemma_sweep_cmds(items, ord, st0, env, k - 1);
        let pre = spec_sweep_upto(items, ord, st0, env, k - 1);
        let sw = spec_sweep_upto(items, ord, st0, env, k);
        match find_key(pre.state, items[ord[k - 1]].spatial_id) {
            Option::None => {}
            Option::Some(_) => {
                assert forall|t: int|
                    st0.cmds.len() <= t < sw.cmds.len() implies (#[trigger] sw.cmds[t])
                    is Reposition by {
                    if t < pre.cmds.len() {
                        assert(sw.cmds[t] == pre.cmds[t]);
                    }
                }
            }
        }
    }
}

// ---- the processing order covers exactly the item indices ----

proof fn lemma_insert_range(items: Seq<PItemV>, x: int, s: Seq<int>, n: int)
    requires
        0 <= x < n,
        forall|t: int| 0 <= t < s.len() ==> 0 <= #[trigger] s[t] < n,
    ensures
        crate::frame::spec_insert_idx(items, x, s).len() == s.len() + 1,
        forall|t: int|
            0 <= t < s.len() + 1 ==> 0 <= #[trigger] crate::frame::spec_insert_idx(
                items,
                x,
                s,
            )[t] < n,
    decreases s.len(),
{
    let ins = crate::frame::spec_insert_idx(items, x, s);
    if s.len() == 0 {
    } else if crate::frame::spec_before(items, x, s[0]) {
    } else {
        let s1 = s.drop_first();
        lemma_insert_range(items, x, s1, n);
        assert forall|t: int| 0 <= t < s.len() + 1 implies 0 <= #[trigger] ins[t] < n by {
            if t > 0 {
                assert(ins[t] == crate::frame::spec_insert_idx(items, x, s1)[t - 1]);
            }
        }
    }
}

/// The depth order visits only valid item indices, one per position.
proof fn lemma_order_range(items: Seq<PItemV>, k: int)
    requires
        0 <= k <= items.len(),
    ensures
        crate::frame::spec_order_upto(items, k).len() == k,
        forall|t: int|
            0 <= t < k ==> 0 <= #[trigger] crate::frame::spec_order_upto(items, k)[t] < k,
    decreases k,
{
    if k > 0 {
        lemma_order_range(items, k - 1);
        lemma_insert_range(
            items,
            k - 1,
            crate::frame::spec_order_upto(items, k - 1),
            k,
        );
    }
}

proof fn lemma_insert_contains(items: Seq<PItemV>, x: int, s: Seq<int>, v: int)
    ensures
        crate::frame::spec_insert_idx(items, x, s).contains(v) <==> (v == x || s.contains(v)),
    decreases s.len(),
{
    let ins = crate::frame::spec_insert_idx(items, x, s);
    if s.len() == 0 {
        assert(ins =~= seq![x]);
        assert(ins[0] == x);
        if v == x {
            assert(ins.contains(v));
        }
    } else if crate::frame::spec_before(items, x, s[0]) {
        assert(ins == seq![x] + s);
        if v == x {
            assert(ins[0] == v);
        }
        if s.contains(v) {
            let t = choose|t: int| 0 <= t < s.len() && s[t] == v;
            assert(ins[t + 1] == v);
        }
        if ins.contains(v) {
            let t = choose|t: int| 0 <= t < ins.len() && ins[t] == v;
            if t > 0 {
                assert(s[t - 1] == v);
            }
        }
    } else {
        let s1 = s.drop_first();
        lemma_insert_contains(items, x, s1, v);
        let ins1 = crate::frame::spec_insert_idx(items, x, s1);
        assert(ins == seq![s[0]] + ins1);
        if v == s[0] {
            assert(ins[0] == v);
            assert(s.contains(v)) by {
                assert(s[0] == v);
            }
        }
        if v == x {
            let t = choose|t: int| 0 <= t < ins1.len() && ins1[t] == v;
            assert(ins[t + 1] == v);
        }
        if s.contains(v) && v != s[0] {
            let t = choose|t: int| 0 <= t < s.len() && s[t] == v;
            if t > 0 {
                assert(s1[t - 1] == v);
                assert(s1.contains(v));
                let u = choose|u: int| 0 <= u < ins1.len() && ins1[u] == v;
                assert(ins[u + 1] == v);
            }
        }
        if ins.contains(v) && v != s[0] && v != x {
            let t = choose|t: int| 0 <= t < ins.len() && ins[t] == v;
            if t > 0 {
                assert(ins1[t - 1] == v);
                assert(ins1.contains(v));
                assert(s1.contains(v));
                let u = choose|u: int| 0 <= u < s1.len() && s1[u] == v;
                assert(s[u + 1] == v);
            }
        }
    }
}

/// Every item index appears somewhere in the processing order.
proof fn lemma_order_contains(items: Seq<PItemV>, k: int, v: int)
    requires
        0 <= v < k <= items.len(),
    ensures
        crate::frame::spec_order_upto(items, k).contains(v),
    decreases k,
{
    let ord = crate::frame::spec_order_upto(items, k);
    let prev = crate::frame::spec_order_upto(items, k - 1);
    lemma_insert_contains(items, k - 1, prev, v);
    if v < k - 1 {
        lemma_order_contains(items, k - 1, v);
    }
}

proof fn lemma_insert_nodup(items: Seq<PItemV>, x: int, s: Seq<int>)
    requires
        !s.contains(x),
        forall|a: int, b: int| 0 <= a < b < s.len() ==> s[a] != s[b],
    ensures
        forall|a: int, b: int|
            0 <= a < b < crate::frame::spec_insert_idx(items, x, s).len()
                ==> crate::frame::spec_insert_idx(items, x, s)[a] != crate::frame::spec_insert_idx(
                items,
                x,
                s,
            )[b],
    decreases s.len(),
{
    let ins = crate::frame::spec_insert_idx(items, x, s);
    if s.len() == 0 {
    } else if crate::frame::spec_before(items, x, s[0]) {
        assert(ins == seq![x] + s);
        assert forall|a: int, b: int| 0 <= a < b < ins.len() implies ins[a] != ins[b] by {
            if a == 0 {
                assert(ins[b] == s[b - 1]);
                if ins[0] == s[b - 1] {
                    assert(s.contains(x)) by {
                        assert(s[b - 1] == x);
                    }
                }
            } else {
                assert(ins[a] == s[a - 1] && ins[b] == s[b - 1]);
            }
        }
    } else {
        let s1 = s.drop_first();
        assert(!s1.contains(x)) by {
            if s1.contains(x) {
                let t = choose|t: int| 0 <= t < s1.len() && s1[t] == x;
                assert(s[t + 1] == x);
            }
        }
        assert(forall|a: int, b: int| 0 <= a < b < s1.len() ==> s1[a] != s1[b]) by {
            assert forall|a: int, b: int| 0 <= a < b < s1.len() implies s1[a] != s1[b] by {
                assert(s1[a] == s[a + 1] && s1[b] == s[b + 1]);
            }
        }
        lemma_insert_nodup(items, x, s1);
        let ins1 = crate::frame::spec_insert_idx(items, x, s1);
        assert(ins == seq![s[0]] + ins1);
        assert forall|a: int, b: int| 0 <= a < b < ins.len() implies ins[a] != ins[b] by {
            if a == 0 {
                assert(ins[b] == ins1[b - 1]);
                lemma_insert_contains(items, x, s1, s[0]);
                if ins[0] == ins1[b - 1] {
                    assert(ins1.contains(s[0])) by {
                        assert(ins1[b - 1] == s[0]);
                    }
                    if s[0] == x {
                        assert(s.contains(x)) by {
                            assert(s[0] == x);
                        }
                    } else {
                        assert(s1.contains(s[0]));
                        let t = choose|t: int| 0 <= t < s1.len() && s1[t] == s[0];
                        assert(s[t + 1] == s[0]);
                    }
                }
            } else {
                assert(ins[a] == ins1[a - 1] && ins[b] == ins1[b - 1]);
            }
        }
    }
}

/// No item index appears twice in the processing order.
proof fn lemma_order_nodup(items: Seq<PItemV>, k: int)
    requires
        0 <= k <= items.len(),
    ensures
        forall|a: int, b: int|
            0 <= a < b < k ==> crate::frame::spec_order_upto(items, k)[a]
                != crate::frame::spec_order_upto(items, k)[b],
    decreases k,
{
    if k > 0 {
        lemma_order_nodup(items, k - 1);
        lemma_order_range(items, k - 1);
        lemma_order_range(items, k);
        let prev = crate::frame::spec_order_upto(items, k - 1);
        assert(!prev.contains(k - 1)) by {
            if prev.contains(k - 1) {
                let t = choose|t: int| 0 <= t < prev.len() && prev[t] == k - 1;
                assert(0 <= prev[t] < k - 1);
            }
        }
        lemma_insert_nodup(items, k - 1, prev);
    }
}

/// A sweep never touches an entry's remembered content key.
proof fn lemma_sweep_ids(items: Seq<PItemV>, ord: Seq<int>, st0: SweepSt, env: FrameEnv, k: int)
    requires
        0 <= k <= ord.len(),
        forall|t: int| 0 <= t < ord.len() ==> 0 <= #[trigger] ord[t] < items.len(),
    ensures
        spec_sweep_upto(items, ord, st0, env, k).state.len() == st0.state.len(),
        forall|j: int|
            0 <= j < st0.state.len() ==> (#[trigger] spec_sweep_upto(
                items,
                ord,
                st0,
                env,
                k,
            ).state[j]).1.id == st0.state[j].1.id,
    decreases k,
{
    if k > 0 {
        lemma_sweep_ids(items, ord, st0, env, k - 1);
        let pre = spec_sweep_upto(items, ord, st0, env, k - 1);
        let sw = spec_sweep_upto(items, ord, st0, env, k);
        crate::statemap::lemma_find_key(pre.state, items[ord[k - 1]].spatial_id);
        match find_key(pre.state, items[ord[k - 1]].spatial_id) {
            Option::None => {}
            Option::Some(j0) => {
                assert forall|j: int|
                    0 <= j < st0.state.len() implies (#[trigger] sw.state[j]).1.id
                    == st0.state[j].1.id by {
                    if j != j0 {
                        assert(sw.state[j] == pre.state[j]);
                    }
                }
            }
        }
    }
}

/// Reconciliation is a no-op when every processed item already has an
/// entry remembering its fresh content key and the window is unchanged.
proof fn lemma_rec_noop(items: Seq<PItemV>, ord: Seq<int>, st0: RecSt, k: int)
    requires
        0 <= k <= ord.len(),
        forall|t: int| 0 <= t < ord.len() ==> 0 <= #[trigger] ord[t] < items.len(),
        forall|t: int|
            0 <= t < ord.len() ==> find_key(st0.state, items[#[trigger] ord[t]].spatial_id)
                is Some && entry_of(st0.state, items[ord[t]].spatial_id).id == items[ord[t]].id
                .unwrap(),
    ensures
        spec_rec_upto(items, ord, st0, false, k) == st0,
    decreases k,
{
    if k > 0 {
        lemma_rec_noop(items, ord, st0, k - 1);
        let it = items[ord[k - 1]];
        crate::statemap::lemma_find_key(st0.state, it.spatial_id);
    }
}

/// Every command the collection phase emits destroys the proxy of an
/// entry whose lease had expired.
proof fn lemma_gc_cmds(state: Seq<(u64, StateV)>, k: int)
    requires
        0 <= k <= state.len(),
    ensures
        forall|t: int|
            0 <= t < spec_gc_upto(state, k).1.len() ==> (#[trigger] spec_gc_upto(
                state,
                k,
            ).1[t]) is Destroy && exists|b: int|
                0 <= b < k && (#[trigger] state[b]).0 == crate::frame::spec_cmd_key(
                    spec_gc_upto(state, k).1[t],
                ) && state[b].1.life.spec_expired(),
    decreases k,
{
    if k > 0 {
        lemma_gc_cmds(state, k - 1);
        let prev = spec_gc_upto(state, k - 1);
        let g = spec_gc_upto(state, k);
        if state[k - 1].1.life.spec_expired() {
            assert forall|t: int|
                0 <= t < g.1.len() implies (#[trigger] g.1[t]) is Destroy && exists|b: int|
                0 <= b < k && (#[trigger] state[b]).0 == crate::frame::spec_cmd_key(g.1[t])
                    && state[b].1.life.spec_expired() by {
                if t < prev.1.len() {
                    assert(g.1[t] == prev.1[t]);
                    let b = choose|b: int|
                        0 <= b < k - 1 && (#[trigger] state[b]).0 == crate::frame::spec_cmd_key(
                            prev.1[t],
                        ) && state[b].1.life.spec_expired();
                    assert(state[b].0 == crate::frame::spec_cmd_key(g.1[t])
                        && state[b].1.life.spec_expired());
                } else {
                    assert(g.1[t] == (CmdV::Destroy { spatial_id: state[k - 1].0 }));
                    assert(state[k - 1].0 == crate::frame::spec_cmd_key(g.1[t])
                        && state[k - 1].1.life.spec_expired());
                }
            }
        }
    }
}

/// After reconciliation, a processed item's entry remembers exactly the
/// item's fresh content key, with its lease either carried over (existing
/// entry) or freshly set to the declared life.
proof fn lemma_rec_establishes_key(
    items: Seq<PItemV>,
    ord: Seq<int>,
    st0: RecSt,
    wc: bool,
    k: int,
    t0: int,
)
    requires
        0 <= t0 < k <= ord.len(),
        forall|t: int| 0 <= t < ord.len() ==> 0 <= #[trigger] ord[t] < items.len(),
        forall|a: int, b: int| 0 <= a < b < ord.len() ==> ord[a] != ord[b],
        forall|a: int, b: int|
            0 <= a < b < items.len() ==> (#[trigger] items[a]).spatial_id != (
            #[trigger] items[b]).spatial_id,
        forall|i: int| 0 <= i < items.len() ==> (#[trigger] items[i]).id is Some,
    ensures
        ({
            let rc = spec_rec_upto(items, ord, st0, wc, k);
            let it = items[ord[t0]];
            &&& find_key(rc.state, it.spatial_id) is Some
            &&& entry_of(rc.state, it.spatial_id).id == it.id.unwrap()
            &&& entry_of(rc.state, it.spatial_id).life == (match find_key(
                st0.state,
                it.spatial_id,
            ) {
                Option::Some(j) => st0.state[j].1.life,
                Option::None => it.life,
            })
        }),
    decreases k,
{
    let rc = spec_rec_upto(items, ord, st0, wc, k);
    let pre = spec_rec_upto(items, ord, st0, wc, k - 1);
    let it = items[ord[t0]];
    let key = it.spatial_id;
    if k - 1 > t0 {
        lemma_rec_establishes_key(items, ord, st0, wc, k - 1, t0);
        let it2 = items[ord[k - 1]];
        assert(ord[k - 1] != ord[t0]);
        assert(it2.spatial_id != key) by {
            if ord[k - 1] < ord[t0] {
                assert(items[ord[k - 1]].spatial_id != items[ord[t0]].spatial_id);
            } else {
                assert(items[ord[t0]].spatial_id != items[ord[k - 1]].spatial_id);
            }
        }
        crate::statemap::lemma_find_key(pre.state, it2.spatial_id);
        crate::statemap::lemma_find_key(pre.state, key);
        match find_key(pre.state, it2.spatial_id) {
            Option::Some(j0) => {
                if pre.state[j0].1.id != it2.id.unwrap() || wc {
                    assert(pre.state[j0].0 == it2.spatial_id);
                    crate::statemap::lemma_find_key_update(
                        pre.state,
                        key,
                        j0,
                        rc.state[j0].1,
                        0,
                    );
                    assert(pre.state.update(j0, (pre.state[j0].0, rc.state[j0].1))
                        =~= rc.state);
                    let jj = find_key(pre.state, key).unwrap();
                    assert(pre.state[jj].0 == key);
                    assert(jj != j0);
                    assert(rc.state[jj] == pre.state[jj]);
                    crate::statemap::lemma_find_key(rc.state, key);
                } else {
                    assert(rc == pre);
                }
            }
            Option::None => {
                assert(rc.state == pre.state.push(
                    (it2.spatial_id, rc.state[pre.state.len() as int].1),
                ));
                crate::statemap::lemma_find_key_push(
                    pre.state,
                    key,
                    (it2.spatial_id, rc.state[pre.state.len() as int].1),
                    0,
                );
                let jj = find_key(pre.state, key).unwrap();
                assert(rc.state[jj] == pre.state[jj]);
            }
        }
    } else {
        assert(k - 1 == t0);
        crate::statemap::lemma_find_key(pre.state, key);
        // earlier steps never touch this key
        assert forall|t: int| 0 <= t < k - 1 implies items[#[trigger] ord[t]].spatial_id
            != key by {
            assert(ord[t] != ord[t0]);
            if ord[t] < ord[t0] {
                assert(items[ord[t]].spatial_id != items[ord[t0]].spatial_id);
            } else {
                assert(items[ord[t0]].spatial_id != items[ord[t]].spatial_id);
            }
        }
        lemma_rec_untouched_key(items, ord, st0, wc, k - 1, key);
        assert(find_key(pre.state, key) == find_key(st0.state, key));
        match find_key(pre.state, key) {
            Option::Some(j0) => {
                assert(pre.state[j0].0 == key) by {
                    crate::statemap::lemma_find_key(pre.state, key);
                }
                assert(entry_of(pre.state, key) == entry_of(st0.state, key));
                if pre.state[j0].1.id != it.id.unwrap() || wc {
                    assert(rc.state == pre.state.update(j0, (key, rc.state[j0].1)));
                    crate::statemap::lemma_find_key_update(
                        pre.state,
                        key,
                        j0,
                        rc.state[j0].1,
                        0,
                    );
                    assert(pre.state.update(j0, (pre.state[j0].0, rc.state[j0].1))
                        =~= rc.state);
                    crate::statemap::lemma_find_key(rc.state, key);
                    assert(find_key(rc.state, key) == Some(j0));
                    assert(rc.state[j0].1.id == it.id.unwrap());
                    assert(rc.state[j0].1.life == pre.state[j0].1.life);
                    assert(entry_of(st0.state, key).life == st0.state[find_key(
                        st0.state,
                        key,
                    ).unwrap()].1.life);
                } else {
                    assert(rc == pre);
                }
            }
            Option::None => {
                let fresh = rc.state[pre.state.len() as int].1;
                assert(rc.state == pre.state.push((key, fresh)));
                crate::statemap::lemma_find_key_push(pre.state, key, (key, fresh), 0);
                assert(find_key(rc.state, key) == Some(pre.state.len() as int));
                assert(fresh.id == it.id.unwrap() && fresh.life == it.life);
            }
        }
    }
}

// ---- what reconciliation does to drags, lives and keys, index by index ----

/// Reconciliation never touches an entry's drag, life, hover, input or
/// selection: it only rewrites identity, box and interactability, and
/// appends fresh entries (which carry no drag). Key uniqueness survives.
proof fn lemma_rec_drags(items: Seq<PItemV>, ord: Seq<int>, st0: RecSt, wc: bool, k: int)
    requires
        0 <= k <= ord.len(),
        keys_distinct(st0.state),
        forall|t: int| 0 <= t < ord.len() ==> 0 <= #[trigger] ord[t] < items.len(),
        forall|i: int| 0 <= i < items.len() ==> (#[trigger] items[i]).id is Some,
    ensures
        ({
            let rc = spec_rec_upto(items, ord, st0, wc, k);
            &&& rc.state.len() >= st0.state.len()
            &&& keys_distinct(rc.state)
            &&& forall|j: int|
                0 <= j < st0.state.len() ==> (#[trigger] rc.state[j]).0 == st0.state[j].0
                    && rc.state[j].1.drag == st0.state[j].1.drag && rc.state[j].1.life
                    == st0.state[j].1.life && rc.state[j].1.hover == st0.state[j].1.hover
                    && rc.state[j].1.input == st0.state[j].1.input
            &&& forall|j: int|
                st0.state.len() <= j < rc.state.len() ==> (#[trigger] rc.state[j]).1.drag
                    is None
        }),
    decreases k,
{
    if k > 0 {
        lemma_rec_drags(items, ord, st0, wc, k - 1);
        let pre = spec_rec_upto(items, ord, st0, wc, k - 1);
        let rc = spec_rec_upto(items, ord, st0, wc, k);
        let it = items[ord[k - 1]];
        let key = it.spatial_id;
        crate::statemap::lemma_find_key(pre.state, key);
        match find_key(pre.state, key) {
            Option::Some(j0) => {
                if pre.state[j0].1.id != it.id.unwrap() || wc {
                    assert(rc.state.len() == pre.state.len());
                    assert forall|a: int, b: int|
                        0 <= a < b < rc.state.len() implies (#[trigger] rc.state[a]).0 != (
                        #[trigger] rc.state[b]).0 by {
                        assert(rc.state[a].0 == pre.state[a].0);
                        assert(rc.state[b].0 == pre.state[b].0);
                    }
                } else {
                    assert(rc == pre);
                }
            }
            Option::None => {
                assert(rc.state == pre.state.push(
                    (key, rc.state[pre.state.len() as int].1),
                ));
                assert forall|a: int, b: int|
                    0 <= a < b < rc.state.len() implies (#[trigger] rc.state[a]).0 != (
                    #[trigger] rc.state[b]).0 by {
                    if b < pre.state.len() {
                        assert(rc.state[a] == pre.state[a]);
                        assert(rc.state[b] == pre.state[b]);
                    } else {
                        assert(rc.state[a] == pre.state[a]);
                        assert(rc.state[b].0 == key);
                        assert(pre.state[a].0 != key);
                    }
                }
            }
        }
    }
}

/// A key no declared item bears passes through reconciliation untouched.
proof fn lemma_rec_untouched_key(
    items: Seq<PItemV>,
    ord: Seq<int>,
    st0: RecSt,
    wc: bool,
    k: int,
    key: u64,
)
    requires
        0 <= k <= ord.len(),
        forall|t: int| 0 <= t < ord.len() ==> 0 <= #[trigger] ord[t] < items.len(),
        forall|t: int| 0 <= t < k ==> items[#[trigger] ord[t]].spatial_id != key,
    ensures
        ({
            let rc = spec_rec_upto(items, ord, st0, wc, k);
            &&& find_key(rc.state, key) == find_key(st0.state, key)
            &&& (find_key(st0.state, key) is Some ==> entry_of(rc.state, key) == entry_of(
                st0.state,
                key,
            ))
        }),
    decreases k,
{
    if k > 0 {
        lemma_rec_untouched_key(items, ord, st0, wc, k - 1, key);
        let pre = spec_rec_upto(items, ord, st0, wc, k - 1);
        let rc = spec_rec_upto(items, ord, st0, wc, k);
        let it = items[ord[k - 1]];
        assert(it.spatial_id != key);
        crate::statemap::lemma_find_key(pre.state, it.spatial_id);
        crate::statemap::lemma_find_key(pre.state, key);
        match find_key(pre.state, it.spatial_id) {
            Option::Some(j0) => {
                if pre.state[j0].1.id != it.id.unwrap() || wc {
                    assert(pre.state[j0].0 == it.spatial_id);
                    crate::statemap::lemma_find_key_update(
                        pre.state,
                        key,
                        j0,
                        rc.state[j0].1,
                        0,
                    );
                    assert(pre.state.update(j0, (pre.state[j0].0, rc.state[j0].1))
                        =~= rc.state);
                    match find_key(pre.state, key) {
                        Option::Some(jj) => {
                            assert(pre.state[jj].0 == key);
                            assert(jj != j0);
                            assert(rc.state[jj] == pre.state[jj]);
                            crate::statemap::lemma_find_key(rc.state, key);
                        }
                        Option::None => {}
                    }
                }
            }
            Option::None => {
                assert(rc.state == pre.state.push(
                    (it.spatial_id, rc.state[pre.state.len() as int].1),
                ));
                crate::statemap::lemma_find_key_push(
                    pre.state,
                    key,
                    (it.spatial_id, rc.state[pre.state.len() as int].1),
                    0,
                );
                match find_key(pre.state, key) {
                    Option::Some(jj) => {
                        crate::statemap::lemma_find_key(pre.state, key);
                        assert(rc.state[jj] == pre.state[jj]);
                    }
                    Option::None => {}
                }
            }
        }
    }
}

// ---- what the garbage collection keeps, drops and announces ----

/// No occurrence of a key in the first `k` entries: the collected prefix
/// holds no such entry and no destroy command for it.
proof fn lemma_gc_absent_key(state: Seq<(u64, StateV)>, key: u64, k: int)
    requires
        0 <= k <= state.len(),
        forall|b: int| 0 <= b < k ==> (#[trigger] state[b]).0 != key,
    ensures
        !has_key(spec_gc_upto(state, k).0, key),
        forall|t: int|
            0 <= t < spec_gc_upto(state, k).1.len() ==> (#[trigger] spec_gc_upto(
                state,
                k,
            ).1[t]) != (CmdV::Destroy { spatial_id: key }),
    decreases k,
{
    if k == 0 {
        crate::statemap::lemma_find_key(spec_gc_upto(state, 0).0, key);
    } else {
        lemma_gc_absent_key(state, key, k - 1);
        let prev = spec_gc_upto(state, k - 1);
        let g = spec_gc_upto(state, k);
        if state[k - 1].1.life.spec_expired() {
            assert(g.0 == prev.0);
            assert forall|t: int| 0 <= t < g.1.len() implies (#[trigger] g.1[t]) != (
            CmdV::Destroy { spatial_id: key }) by {
                if t < prev.1.len() {
                    assert(g.1[t] == prev.1[t]);
                } else {
                    assert(g.1[t] == (CmdV::Destroy { spatial_id: state[k - 1].0 }));
                }
            }
        } else {
            crate::statemap::lemma_find_key(prev.0, key);
            crate::statemap::lemma_find_key_push(prev.0, key, state[k - 1], 0);
        }
    }
}

/// The fate of a keyed entry under collection: an expired entry vanishes
/// and its proxy is ordered destroyed; a live one is kept unchanged.
proof fn lemma_gc_key(state: Seq<(u64, StateV)>, key: u64, j0: int, k: int)
    requires
        keys_distinct(state),
        0 <= j0 < k <= state.len(),
        state[j0].0 == key,
    ensures
        state[j0].1.life.spec_expired() ==> !has_key(spec_gc_upto(state, k).0, key)
            && spec_gc_upto(state, k).1.contains(CmdV::Destroy { spatial_id: key }),
        !state[j0].1.life.spec_expired() ==> has_key(spec_gc_upto(state, k).0, key)
            && entry_of(spec_gc_upto(state, k).0, key) == state[j0].1,
    decreases k,
{
    let g = spec_gc_upto(state, k);
    let prev = spec_gc_upto(state, k - 1);
    if k - 1 > j0 {
        lemma_gc_key(state, key, j0, k - 1);
        assert(state[k - 1].0 != key);
        if state[k - 1].1.life.spec_expired() {
            assert(g.0 == prev.0);
            if state[j0].1.life.spec_expired() {
                let t = choose|t: int|
                    0 <= t < prev.1.len() && prev.1[t] == (CmdV::Destroy { spatial_id: key });
                assert(g.1[t] == (CmdV::Destroy { spatial_id: key }));
            }
        } else {
            crate::statemap::lemma_find_key(prev.0, key);
            crate::statemap::lemma_find_key_push(prev.0, key, state[k - 1], 0);
            if !state[j0].1.life.spec_expired() {
                crate::statemap::lemma_find_key(g.0, key);
                let jj = find_key(prev.0, key).unwrap();
                assert(g.0[jj] == prev.0[jj]);
            } else {
                if state[j0].1.life.spec_expired() {
                    let t = choose|t: int|
                        0 <= t < prev.1.len() && prev.1[t] == (CmdV::Destroy {
                            spatial_id: key,
                        });
                    assert(g.1[t] == (CmdV::Destroy { spatial_id: key }));
                }
            }
        }
    } else {
        assert(k - 1 == j0);
        assert forall|b: int| 0 <= b < j0 implies (#[trigger] state[b]).0 != key by {}
        lemma_gc_absent_key(state, key, j0);
        if state[j0].1.life.spec_expired() {
            assert(g.0 == prev.0);
            assert(g.1 == prev.1.push(CmdV::Destroy { spatial_id: key }));
            assert(g.1[g.1.len() - 1] == (CmdV::Destroy { spatial_id: key }));
        } else {
            assert(g.0 == prev.0.push(state[j0]));
            crate::statemap::lemma_find_key(prev.0, key);
            crate::statemap::lemma_find_key_push(prev.0, key, state[j0], 0);
            crate::statemap::lemma_find_key(g.0, key);
            assert(g.0[prev.0.len() as int] == state[j0]);
        }
    }
}

// ---- the lifecycle and drag laws over the whole frame pass ----

/// Computing content keys changes no identifying or lifecycle field.
proof fn lemma_filled_facts(items: Seq<PItemV>)
    ensures
        spec_filled(items).len() == items.len(),
        forall|j: int|
            0 <= j < items.len() ==> (#[trigger] spec_filled(items)[j]).spatial_id
                == items[j].spatial_id && spec_filled(items)[j].id is Some && spec_filled(
                items,
            )[j].life == items[j].life && spec_filled(items)[j].depth == items[j].depth
                && spec_filled(items)[j].bbox == items[j].bbox,
{
    assert forall|j: int|
        0 <= j < items.len() implies (#[trigger] spec_filled(items)[j]).spatial_id
        == items[j].spatial_id && spec_filled(items)[j].id is Some && spec_filled(items)[j].life
        == items[j].life && spec_filled(items)[j].depth == items[j].depth && spec_filled(
        items,
    )[j].bbox == items[j].bbox by {
        assert(spec_filled(items)[j] == crate::frame::spec_fill_item(items[j]));
    }
}

/// The shared spine of the frame laws: how the pass treats one key that no
/// declaration of the frame bears.
proof fn lemma_frame_untouched_key(p: PicoV, env: FrameEnv, key: u64, j0: int)
    requires
        p.wf(),
        env.wf(),
        env.window is Some,
        0 <= j0 < p.state.len(),
        p.state[j0].0 == key,
        forall|i: int| 0 <= i < p.items.len() ==> (#[trigger] p.items[i]).spatial_id != key,
        forall|i: int| 0 <= i < p.items.len() ==> !(#[trigger] p.items[i]).life.spec_expired(),
    ensures
        ({
            let aged_entry = spec_age_entry(p.state[j0], env).1;
            let r = spec_frame(p, env);
            &&& (aged_entry.life.spec_expired() ==> !has_key(r.0.state, key)
                && r.1.contains(CmdV::Destroy { spatial_id: key }))
            &&& (!aged_entry.life.spec_expired() ==> has_key(r.0.state, key) && entry_of(
                r.0.state,
                key,
            ) == aged_entry)
        }),
{
    let items = spec_filled(p.items);
    lemma_filled_facts(p.items);
    let ord = spec_order(items);
    lemma_order_range(items, items.len() as int);
    let aged = spec_aged(p.state, env);
    lemma_aged_shape(p.state, env);
    let st0 = spec_sweep_init(p, env);
    assert(st0.state == aged);
    assert(keys_distinct(aged)) by {
        assert forall|a: int, b: int| 0 <= a < b < aged.len() implies (#[trigger] aged[a]).0 != (
        #[trigger] aged[b]).0 by {
            assert(aged[a].0 == p.state[a].0);
            assert(aged[b].0 == p.state[b].0);
        }
    }
    assert(forall|j: int| 0 <= j < st0.state.len() ==> (#[trigger] st0.state[j]).0
        == p.state[j].0);
    lemma_sweep_props(items, ord, st0, env, ord.len() as int);
    let sw = spec_sweep_upto(items, ord, st0, env, ord.len() as int);
    assert(sw.state[j0].1 == aged[j0].1) by {
        assert forall|t: int|
            0 <= t < ord.len() implies items[#[trigger] ord[t]].spatial_id
            != st0.state[j0].0 by {
            assert(items[ord[t]].spatial_id == p.items[ord[t]].spatial_id);
        }
    }
    assert(sw.state[j0].0 == key);
    assert(keys_distinct(sw.state)) by {
        assert forall|a: int, b: int|
            0 <= a < b < sw.state.len() implies (#[trigger] sw.state[a]).0 != (
        #[trigger] sw.state[b]).0 by {
            assert(sw.state[a].0 == st0.state[a].0);
            assert(sw.state[b].0 == st0.state[b].0);
        }
    }
    let wc = p.window_size != env.window.unwrap();
    let rst0 = RecSt { state: sw.state, cmds: sw.cmds };
    assert(forall|i: int| 0 <= i < items.len() ==> (#[trigger] items[i]).spatial_id != key);
    assert(forall|i: int| 0 <= i < items.len() ==> (#[trigger] items[i]).id is Some);
    assert forall|t: int| 0 <= t < ord.len() implies items[#[trigger] ord[t]].spatial_id
        != key by {
        assert(0 <= ord[t] < items.len());
    }
    lemma_rec_untouched_key(items, ord, rst0, wc, ord.len() as int, key);
    lemma_rec_drags(items, ord, rst0, wc, ord.len() as int);
    let rc = spec_rec_upto(items, ord, rst0, wc, ord.len() as int);
    crate::statemap::lemma_find_key(sw.state, key);
    assert(find_key(sw.state, key) is Some) by {
        crate::statemap::lemma_find_key(sw.state, key);
        if find_key(sw.state, key) is None {
            assert(sw.state[j0].0 != key);
        }
    }
    let jsw = find_key(sw.state, key).unwrap();
    assert(jsw == j0) by {
        if jsw != j0 {
            assert(sw.state[jsw].0 == key);
            if jsw < j0 {
                assert(sw.state[jsw].0 != sw.state[j0].0);
            } else {
                assert(sw.state[j0].0 != sw.state[jsw].0);
            }
        }
    }
    assert(entry_of(sw.state, key) == aged[j0].1);
    assert(find_key(rc.state, key) == Some(j0));
    assert(entry_of(rc.state, key) == aged[j0].1);
    assert(rc.state[j0].0 == key && rc.state[j0].1 == aged[j0].1) by {
        crate::statemap::lemma_find_key(rc.state, key);
    }
    let gc = spec_gc(rc.state);
    lemma_gc_key(rc.state, key, j0, rc.state.len() as int);
    let r = spec_frame(p, env);
    assert(r.0.state == gc.0);
    assert(r.1 == rc.cmds + gc.1);
    assert(aged[j0].1 == spec_age_entry(p.state[j0], env).1);
    if aged[j0].1.life.spec_expired() {
        let t = choose|t: int|
            0 <= t < gc.1.len() && gc.1[t] == (CmdV::Destroy { spatial_id: key });
        assert(r.1[rc.cmds.len() + t] == (CmdV::Destroy { spatial_id: key }));
    }
}

/// Lifecycle, expiry half: an entry whose lease has reached zero and which
/// this frame does not redeclare is purged by the pass, and its proxy is
/// ordered destroyed — exactly one frame after it was last declared.
pub proof fn lemma_lifecycle_purged(p: PicoV, env: FrameEnv, key: u64, j0: int)
    requires
        p.wf(),
        env.wf(),
        env.window is Some,
        env.delta_time > 0,
        0 <= j0 < p.state.len(),
        p.state[j0].0 == key,
        p.state[j0].1.life == Life::Finite(0),
        forall|i: int| 0 <= i < p.items.len() ==> (#[trigger] p.items[i]).spatial_id != key,
        forall|i: int| 0 <= i < p.items.len() ==> !(#[trigger] p.items[i]).life.spec_expired(),
    ensures
        !has_key(spec_frame(p, env).0.state, key),
        spec_frame(p, env).1.contains(CmdV::Destroy { spatial_id: key }),
{
    lemma_frame_untouched_key(p, env, key, j0);
    let aged_entry = spec_age_entry(p.state[j0], env).1;
    assert(aged_entry.life == Life::Finite(
        crate::fixed::spec_csub(0, env.delta_time as int) as i64,
    ));
    assert(crate::fixed::spec_csub(0, env.delta_time as int) < 0);
}

/// Lifecycle, persistence half: an entry with an infinite lease survives
/// any number of frames without redeclaration.
pub proof fn lemma_lifecycle_infinite(p: PicoV, env: FrameEnv, key: u64, j0: int)
    requires
        p.wf(),
        env.wf(),
        env.window is Some,
        0 <= j0 < p.state.len(),
        p.state[j0].0 == key,
        p.state[j0].1.life == Life::Infinite,
        forall|i: int| 0 <= i < p.items.len() ==> (#[trigger] p.items[i]).spatial_id != key,
        forall|i: int| 0 <= i < p.items.len() ==> !(#[trigger] p.items[i]).life.spec_expired(),
    ensures
        has_key(spec_frame(p, env).0.state, key),
        entry_of(spec_frame(p, env).0.state, key).life == Life::Infinite,
{
    lemma_frame_untouched_key(p, env, key, j0);
}

/// Drag release: when the button is not held this frame, no entry of the
/// resulting cache carries a drag.
pub proof fn lemma_release_clears_drags(p: PicoV, env: FrameEnv)
    requires
        p.wf(),
        env.wf(),
        env.window is Some,
        !env.buttons.pressed,
    ensures
        forall|j: int|
            0 <= j < spec_frame(p, env).0.state.len() ==> (#[trigger] spec_frame(
                p,
                env,
            ).0.state[j]).1.drag is None,
{
    let items = spec_filled(p.items);
    lemma_filled_facts(p.items);
    let ord = spec_order(items);
    lemma_order_range(items, items.len() as int);
    let aged = spec_aged(p.state, env);
    lemma_aged_shape(p.state, env);
    let st0 = spec_sweep_init(p, env);
    assert(forall|j: int|
        0 <= j < aged.len() ==> (#[trigger] aged[j]).1.drag is None) by {
        assert forall|j: int| 0 <= j < aged.len() implies (#[trigger] aged[j]).1.drag
            is None by {
            assert(aged[j] == spec_age_entry(p.state[j], env));
        }
    }
    assert(keys_distinct(aged)) by {
        assert forall|a: int, b: int| 0 <= a < b < aged.len() implies (#[trigger] aged[a]).0 != (
        #[trigger] aged[b]).0 by {
            assert(aged[a].0 == p.state[a].0);
            assert(aged[b].0 == p.state[b].0);
        }
    }
    assert(!st0.dragging || true);
    assert(!env.buttons.just_pressed);
    lemma_sweep_drag_frozen(items, ord, st0, env, ord.len() as int);
    let sw = spec_sweep_upto(items, ord, st0, env, ord.len() as int);
    assert(forall|j: int| 0 <= j < sw.state.len() ==> (#[trigger] sw.state[j]).1.drag is None);
    assert(keys_distinct(sw.state)) by {
        lemma_sweep_keys_only(items, ord, st0, env, ord.len() as int);
        assert forall|a: int, b: int|
            0 <= a < b < sw.state.len() implies (#[trigger] sw.state[a]).0 != (
        #[trigger] sw.state[b]).0 by {
            assert(sw.state[a].0 == st0.state[a].0);
            assert(sw.state[b].0 == st0.state[b].0);
        }
    }
    let wc = p.window_size != env.window.unwrap();
    let rst0 = RecSt { state: sw.state, cmds: sw.cmds };
    lemma_rec_drags(items, ord, rst0, wc, ord.len() as int);
    let rc = spec_rec_upto(items, ord, rst0, wc, ord.len() as int);
    assert(forall|j: int| 0 <= j < rc.state.len() ==> (#[trigger] rc.state[j]).1.drag is None);
    let gc = spec_gc(rc.state);
    crate::frame::lemma_gc_membership(rc.state, rc.state.len() as int);
    assert forall|j: int| 0 <= j < gc.0.len() implies (#[trigger] gc.0[j]).1.drag is None by {
        let b = choose|b: int|
            0 <= b < rc.state.len() && #[trigger] gc.0[j] == rc.state[b] && gc.0.len() - j
                <= rc.state.len() - b;
        assert(rc.state[b].1.drag is None);
    }
}

/// Drag persistence: once an entry holds a drag, a later frame's pointer
/// move while the button stays held updates its endpoint and rolls the
/// previous-frame position — wherever the pointer is, inside the item's
/// box or far outside it.
pub proof fn lemma_drag_follows_pointer(
    p: PicoV,
    env: FrameEnv,
    key: u64,
    j0: int,
    d: crate::state::Drag,
    c: Vec2Fx,
    i0: int,
)
    requires
        p.wf(),
        env.wf(),
        env.window is Some,
        env.buttons.pressed,
        !env.buttons.just_pressed,
        env.cursor == Some(c),
        0 <= j0 < p.state.len(),
        p.state[j0].0 == key,
        p.state[j0].1.drag == Some(d),
        // the dragged item keeps being declared with an unexpired lease
        0 <= i0 < p.items.len(),
        p.items[i0].spatial_id == key,
        forall|i: int| 0 <= i < p.items.len() ==> !(#[trigger] p.items[i]).life.spec_expired(),
    ensures
        has_key(spec_frame(p, env).0.state, key),
        entry_of(spec_frame(p, env).0.state, key).drag == Some(
            crate::state::Drag { start: d.start, end: c, last_frame: d.end },
        ),
{
    let items = spec_filled(p.items);
    lemma_filled_facts(p.items);
    let ord = spec_order(items);
    lemma_order_range(items, items.len() as int);
    lemma_order_contains(items, items.len() as int, i0);
    let aged = spec_aged(p.state, env);
    lemma_aged_shape(p.state, env);
    let continued = crate::state::Drag { start: d.start, end: c, last_frame: d.end };
    assert(aged[j0].1.drag == Some(continued)) by {
        assert(aged[j0] == spec_age_entry(p.state[j0], env));
    }
    let st0 = spec_sweep_init(p, env);
    assert(keys_distinct(aged)) by {
        assert forall|a: int, b: int| 0 <= a < b < aged.len() implies (#[trigger] aged[a]).0 != (
        #[trigger] aged[b]).0 by {
            assert(aged[a].0 == p.state[a].0);
            assert(aged[b].0 == p.state[b].0);
        }
    }
    assert(forall|i: int|
        0 <= i < items.len() ==> !(Life::Finite(0)).spec_expired() && !match (
        #[trigger] items[i]).life {
            Life::Finite(n) => n < 0,
            Life::Infinite => false,
        }) by {
        assert forall|i: int|
            0 <= i < items.len() implies !match (#[trigger] items[i]).life {
            Life::Finite(n) => n < 0,
            Life::Infinite => false,
        } by {
            assert(items[i].life == p.items[i].life);
        }
    }
    lemma_sweep_props(items, ord, st0, env, ord.len() as int);
    let sw = spec_sweep_upto(items, ord, st0, env, ord.len() as int);
    assert(sw.state[j0].1.drag == Some(continued));
    assert(!sw.state[j0].1.life.spec_expired()) by {
        let t = choose|t: int| 0 <= t < ord.len() && ord[t] == i0;
        assert(items[ord[t]].spatial_id == st0.state[j0].0);
    }
    assert(sw.state[j0].0 == key);
    assert(keys_distinct(sw.state)) by {
        assert forall|a: int, b: int|
            0 <= a < b < sw.state.len() implies (#[trigger] sw.state[a]).0 != (
        #[trigger] sw.state[b]).0 by {
            assert(sw.state[a].0 == st0.state[a].0);
            assert(sw.state[b].0 == st0.state[b].0);
        }
    }
    let wc = p.window_size != env.window.unwrap();
    let rst0 = RecSt { state: sw.state, cmds: sw.cmds };
    lemma_rec_drags(items, ord, rst0, wc, ord.len() as int);
    let rc = spec_rec_upto(items, ord, rst0, wc, ord.len() as int);
    assert(rc.state[j0].0 == key && rc.state[j0].1.drag == Some(continued)
        && !rc.state[j0].1.life.spec_expired());
    lemma_gc_key(rc.state, key, j0, rc.state.len() as int);
    assert(spec_frame(p, env).0.state == spec_gc(rc.state).0);
}

/// While one entry already drags, no other entry may begin a drag this
/// frame: an entry without a drag still has none afterwards.
pub proof fn lemma_no_second_drag(
    p: PicoV,
    env: FrameEnv,
    j0: int,
    key2: u64,
    j2: int,
)
    requires
        p.wf(),
        env.wf(),
        env.window is Some,
        env.buttons.pressed,
        0 <= j0 < p.state.len(),
        p.state[j0].1.drag is Some,
        0 <= j2 < p.state.len(),
        p.state[j2].0 == key2,
        p.state[j2].1.drag is None,
    ensures
        has_key(spec_frame(p, env).0.state, key2) ==> entry_of(
            spec_frame(p, env).0.state,
            key2,
        ).drag is None,
{
    let items = spec_filled(p.items);
    lemma_filled_facts(p.items);
    let ord = spec_order(items);
    lemma_order_range(items, items.len() as int);
    let aged = spec_aged(p.state, env);
    lemma_aged_shape(p.state, env);
    assert(aged[j2].1.drag is None) by {
        assert(aged[j2] == spec_age_entry(p.state[j2], env));
    }
    let st0 = spec_sweep_init(p, env);
    assert(st0.dragging) by {
        assert(spec_any_drag(p.state));
    }
    assert(keys_distinct(aged)) by {
        assert forall|a: int, b: int| 0 <= a < b < aged.len() implies (#[trigger] aged[a]).0 != (
        #[trigger] aged[b]).0 by {
            assert(aged[a].0 == p.state[a].0);
            assert(aged[b].0 == p.state[b].0);
        }
    }
    lemma_sweep_drag_frozen(items, ord, st0, env, ord.len() as int);
    lemma_sweep_keys_only(items, ord, st0, env, ord.len() as int);
    let sw = spec_sweep_upto(items, ord, st0, env, ord.len() as int);
    assert(sw.state[j2].1.drag is None);
    assert(sw.state[j2].0 == key2);
    assert(keys_distinct(sw.state)) by {
        assert forall|a: int, b: int|
            0 <= a < b < sw.state.len() implies (#[trigger] sw.state[a]).0 != (
        #[trigger] sw.state[b]).0 by {
            assert(sw.state[a].0 == st0.state[a].0);
            assert(sw.state[b].0 == st0.state[b].0);
        }
    }
    let wc = p.window_size != env.window.unwrap();
    let rst0 = RecSt { state: sw.state, cmds: sw.cmds };
    lemma_rec_drags(items, ord, rst0, wc, ord.len() as int);
    let rc = spec_rec_upto(items, ord, rst0, wc, ord.len() as int);
    assert(rc.state[j2].0 == key2 && rc.state[j2].1.drag is None);
    lemma_gc_key(rc.state, key2, j2, rc.state.len() as int);
    assert(spec_frame(p, env).0.state == spec_gc(rc.state).0);
    if !rc.state[j2].1.life.spec_expired() {
        assert(entry_of(spec_frame(p, env).0.state, key2) == rc.state[j2].1);
    }
}

/// Depth precedence: two declared items both covering the pointer, at
/// different depths, with live interactable cache entries — on the frame
/// of a fresh press only the nearer one reports hover and receives the
/// input snapshot; the farther one reports neither.
#[verifier::rlimit(100)]
#[verifier::spinoff_prover]
proof fn lemma_depth_precedence_sweep(
    p: PicoV,
    env: FrameEnv,
    ia: int,
    ib: int,
    ja: int,
    jb: int,
    c: Vec2Fx,
)
    requires
        p.wf(),
        env.wf(),
        env.window is Some,
        env.cursor == Some(c),
        env.buttons.just_pressed,
        env.any_just_pressed,
        !spec_any_drag(p.state),
        // exactly two declarations, the first parameter the nearer
        p.items.len() == 2,
        ia == 0 || ia == 1,
        ib == 1 - ia,
        p.items[ia].depth > p.items[ib].depth,
        p.items[ia].spatial_id != p.items[ib].spatial_id,
        !p.items[ia].life.spec_expired(),
        !p.items[ib].life.spec_expired(),
        // both have surviving interactable entries from earlier frames
        0 <= ja < p.state.len(),
        0 <= jb < p.state.len(),
        ja != jb,
        p.state[ja].0 == p.items[ia].spatial_id,
        p.state[jb].0 == p.items[ib].spatial_id,
        p.state[ja].1.interactable,
        p.state[jb].1.interactable,
        // both boxes cover the pointer
        crate::geom::spec_contains(p.items[ia].bbox, c),
        crate::geom::spec_contains(p.items[ib].bbox, c),
    ensures
        ({
            let items = spec_filled(p.items);
            let ord = spec_order(items);
            let sw = spec_sweep_upto(items, ord, spec_sweep_init(p, env), env, ord.len() as int);
            &&& ord.len() == 2
            &&& forall|t: int| 0 <= t < ord.len() ==> 0 <= #[trigger] ord[t] < items.len()
            &&& sw.state.len() == p.state.len()
            &&& keys_distinct(sw.state)
            &&& sw.state[ja].0 == p.items[ia].spatial_id
            &&& sw.state[ja].1.hover
            &&& sw.state[ja].1.input == Some(env.buttons)
            &&& !sw.state[ja].1.life.spec_expired()
            &&& sw.state[jb].0 == p.items[ib].spatial_id
            &&& !sw.state[jb].1.hover
            &&& sw.state[jb].1.input is None
            &&& !sw.state[jb].1.life.spec_expired()
        }),
{
    let items = spec_filled(p.items);
    lemma_filled_facts(p.items);
    let ord = spec_order(items);
    // with two items the order is literally [nearer, farther]
    assert(crate::frame::spec_order_upto(items, 0) =~= Seq::<int>::empty());
    assert(crate::frame::spec_order_upto(items, 1) =~= seq![0int]);
    assert(items[ia].depth > items[ib].depth);
    if ia == 1 {
        assert(crate::frame::spec_before(items, 1, 0));
        assert(ord =~= seq![1int, 0int]);
    } else {
        assert(!crate::frame::spec_before(items, 1, 0));
        assert(crate::frame::spec_insert_idx(items, 1, Seq::<int>::empty()) =~= seq![1int]);
        assert(seq![0int].drop_first() =~= Seq::<int>::empty());
        assert(crate::frame::spec_insert_idx(items, 1, seq![0int]) =~= seq![0int, 1int]);
        assert(ord =~= seq![0int, 1int]);
    }
    assert(ord[0] == ia && ord[1] == ib && ord.len() == 2);

    let ka = p.items[ia].spatial_id;
    let kb = p.items[ib].spatial_id;
    let aged = spec_aged(p.state, env);
    lemma_aged_shape(p.state, env);
    assert(keys_distinct(aged)) by {
        assert forall|a: int, b: int| 0 <= a < b < aged.len() implies (#[trigger] aged[a]).0 != (
        #[trigger] aged[b]).0 by {
            assert(aged[a].0 == p.state[a].0);
            assert(aged[b].0 == p.state[b].0);
        }
    }
    assert(aged[ja] == spec_age_entry(p.state[ja], env));
    assert(aged[jb] == spec_age_entry(p.state[jb], env));
    assert(aged[ja].1.interactable && !aged[ja].1.hover && aged[ja].1.input is None);
    assert(aged[jb].1.interactable && !aged[jb].1.hover && aged[jb].1.input is None);

    let st0 = spec_sweep_init(p, env);
    assert(!st0.dragging && !st0.latch);
    assert(st0.state == aged);

    // step one: the nearer item claims the press
    crate::statemap::lemma_find_key(aged, ka);
    assert(find_key(aged, ka) is Some) by {
        if find_key(aged, ka) is None {
            assert(aged[ja].0 != ka);
        }
    }
    let fa = find_key(aged, ka).unwrap();
    assert(fa == ja) by {
        assert(aged[fa].0 == ka);
        if fa != ja {
            if fa < ja {
                assert(aged[fa].0 != aged[ja].0);
            } else {
                assert(aged[ja].0 != aged[fa].0);
            }
        }
    }
    let s1 = spec_sweep_step(st0, items, ia, env);
    assert(items[ia].spatial_id == ka);
    assert(s1.latch && s1.state.len() == aged.len());
    assert(s1.state[ja].1.hover && s1.state[ja].1.input == Some(env.buttons));
    assert(forall|j: int| 0 <= j < aged.len() && j != ja ==> (#[trigger] s1.state[j])
        == aged[j]);
    assert(s1.state[ja].0 == ka);

    // step two: the latch blocks the farther item
    crate::statemap::lemma_find_key(s1.state, kb);
    assert(find_key(s1.state, kb) is Some) by {
        if find_key(s1.state, kb) is None {
            assert(s1.state[jb].0 != kb);
        }
    }
    let fb = find_key(s1.state, kb).unwrap();
    assert(fb == jb) by {
        assert(s1.state[fb].0 == kb);
        if fb != jb {
            assert(s1.state[fb].0 == aged[fb].0 || fb == ja);
            if fb == ja {
                assert(s1.state[ja].0 == ka);
            } else {
                if fb < jb {
                    assert(aged[fb].0 != aged[jb].0);
                } else {
                    assert(aged[jb].0 != aged[fb].0);
                }
            }
        }
    }
    let s2 = spec_sweep_step(s1, items, ib, env);
    assert(items[ib].spatial_id == kb);
    assert(!s2.state[jb].1.hover && s2.state[jb].1.input is None);
    assert(s2.state[ja] == s1.state[ja]);
    assert(s2.state[jb].0 == kb);
    assert(spec_sweep_upto(items, ord, st0, env, 2) == s2) by {
        assert(spec_sweep_upto(items, ord, st0, env, 0) == st0);
        assert(spec_sweep_upto(items, ord, st0, env, 1) == spec_sweep_step(
            st0,
            items,
            ord[0],
            env,
        ));
        assert(spec_sweep_upto(items, ord, st0, env, 2) == spec_sweep_step(
            spec_sweep_upto(items, ord, st0, env, 1),
            items,
            ord[1],
            env,
        ));
    }
    let sw = spec_sweep_upto(items, ord, st0, env, ord.len() as int);
    assert(sw == s2);

    // the refreshed leases are not expired
    assert(!sw.state[ja].1.life.spec_expired()) by {
        assert(sw.state[ja].1.life == spec_refresh_life(aged[ja].1.life, items[ia].life));
        assert(items[ia].life == p.items[ia].life);
    }
    assert(!sw.state[jb].1.life.spec_expired()) by {
        assert(sw.state[jb].1.life == spec_refresh_life(aged[jb].1.life, items[ib].life));
        assert(items[ib].life == p.items[ib].life);
    }
    assert(keys_distinct(sw.state)) by {
        assert forall|a: int, b: int|
            0 <= a < b < sw.state.len() implies (#[trigger] sw.state[a]).0 != (
        #[trigger] sw.state[b]).0 by {
            assert(sw.state[a].0 == aged[a].0);
            assert(sw.state[b].0 == aged[b].0);
        }
    }

}

#[verifier::rlimit(100)]
#[verifier::spinoff_prover]
pub proof fn lemma_depth_precedence(
    p: PicoV,
    env: FrameEnv,
    ia: int,
    ib: int,
    ja: int,
    jb: int,
    c: Vec2Fx,
)
    requires
        p.wf(),
        env.wf(),
        env.window is Some,
        env.cursor == Some(c),
        env.buttons.just_pressed,
        env.any_just_pressed,
        !spec_any_drag(p.state),
        // exactly two declarations, the first parameter the nearer
        p.items.len() == 2,
        ia == 0 || ia == 1,
        ib == 1 - ia,
        p.items[ia].depth > p.items[ib].depth,
        p.items[ia].spatial_id != p.items[ib].spatial_id,
        !p.items[ia].life.spec_expired(),
        !p.items[ib].life.spec_expired(),
        // both have surviving interactable entries from earlier frames
        0 <= ja < p.state.len(),
        0 <= jb < p.state.len(),
        ja != jb,
        p.state[ja].0 == p.items[ia].spatial_id,
        p.state[jb].0 == p.items[ib].spatial_id,
        p.state[ja].1.interactable,
        p.state[jb].1.interactable,
        // both boxes cover the pointer
        crate::geom::spec_contains(p.items[ia].bbox, c),
        crate::geom::spec_contains(p.items[ib].bbox, c),
    ensures
        ({
            let r = spec_frame(p, env);
            &&& has_key(r.0.state, p.items[ia].spatial_id)
            &&& has_key(r.0.state, p.items[ib].spatial_id)
            &&& entry_of(r.0.state, p.items[ia].spatial_id).hover
            &&& entry_of(r.0.state, p.items[ia].spatial_id).input == Some(env.buttons)
            &&& !entry_of(r.0.state, p.items[ib].spatial_id).hover
            &&& entry_of(r.0.state, p.items[ib].spatial_id).input is None
        }),
{
    let items = spec_filled(p.items);
    lemma_filled_facts(p.items);
    let ord = spec_order(items);
    let ka = p.items[ia].spatial_id;
    let kb = p.items[ib].spatial_id;
    lemma_depth_precedence_sweep(p, env, ia, ib, ja, jb, c);
    let sw = spec_sweep_upto(items, ord, spec_sweep_init(p, env), env, ord.len() as int);
    // reconciliation touches neither hover nor input; collection keeps both
    let wc = p.window_size != env.window.unwrap();
    let rst0 = RecSt { state: sw.state, cmds: sw.cmds };
    assert(forall|t: int| 0 <= t < ord.len() ==> 0 <= #[trigger] ord[t] < items.len());
    lemma_rec_drags(items, ord, rst0, wc, ord.len() as int);
    let rc = spec_rec_upto(items, ord, rst0, wc, ord.len() as int);
    assert(rc.state[ja].0 == ka && rc.state[ja].1.hover && rc.state[ja].1.input == Some(
        env.buttons,
    ) && !rc.state[ja].1.life.spec_expired());
    assert(rc.state[jb].0 == kb && !rc.state[jb].1.hover && rc.state[jb].1.input is None
        && !rc.state[jb].1.life.spec_expired());
    lemma_gc_key(rc.state, ka, ja, rc.state.len() as int);
    lemma_gc_key(rc.state, kb, jb, rc.state.len() as int);
    assert(spec_frame(p, env).0.state == spec_gc(rc.state).0);
}

/// The declared lives are all unexpired, phrased the way the sweep lemma
/// wants it.
proof fn lemma_lives_ok(items0: Seq<PItemV>)
    requires
        forall|i: int| 0 <= i < items0.len() ==> !(#[trigger] items0[i]).life.spec_expired(),
    ensures
        ({
            let items = spec_filled(items0);
            forall|i: int|
                0 <= i < items.len() ==> !(Life::Finite(0)).spec_expired() && !match (
                #[trigger] items[i]).life {
                    Life::Finite(n) => n < 0,
                    Life::Infinite => false,
                }
        }),
{
    let items = spec_filled(items0);
    lemma_filled_facts(items0);
    assert forall|i: int|
        0 <= i < items.len() implies !match (#[trigger] items[i]).life {
        Life::Finite(n) => n < 0,
        Life::Infinite => false,
    } by {
        assert(items[i].life == items0[i].life);
    }
}

/// What one frame pass guarantees for every declared item: its entry
/// survives into the next frame remembering the item's fresh content key,
/// with an unexpired lease.
#[verifier::rlimit(100)]
#[verifier::spinoff_prover]
proof fn lemma_frame_establishes(p: PicoV, items0: Seq<PItemV>, env: FrameEnv, i: int)
    requires
        env.wf(),
        env.window is Some,
        keys_distinct(p.state),
        p.items == items0,
        forall|a: int, b: int|
            0 <= a < b < items0.len() ==> (#[trigger] items0[a]).spatial_id != (
            #[trigger] items0[b]).spatial_id,
        forall|j: int| 0 <= j < items0.len() ==> !(#[trigger] items0[j]).life.spec_expired(),
        0 <= i < items0.len(),
    ensures
        ({
            let r = spec_frame(p, env);
            let key = items0[i].spatial_id;
            &&& keys_distinct(r.0.state)
            &&& has_key(r.0.state, key)
            &&& entry_of(r.0.state, key).id == spec_filled(items0)[i].id.unwrap()
            &&& !entry_of(r.0.state, key).life.spec_expired()
            &&& r.0.window_size == env.window.unwrap()
        }),
{
    let items = spec_filled(items0);
    lemma_filled_facts(items0);
    let ord = spec_order(items);
    lemma_order_range(items, items.len() as int);
    lemma_order_nodup(items, items.len() as int);
    assert(forall|a: int, b: int|
        0 <= a < b < items.len() ==> (#[trigger] items[a]).spatial_id != (
        #[trigger] items[b]).spatial_id) by {
        assert forall|a: int, b: int|
            0 <= a < b < items.len() implies (#[trigger] items[a]).spatial_id != (
        #[trigger] items[b]).spatial_id by {
            assert(items[a].spatial_id == items0[a].spatial_id);
            assert(items[b].spatial_id == items0[b].spatial_id);
        }
    }
    let key = items0[i].spatial_id;
    let aged = spec_aged(p.state, env);
    lemma_aged_shape(p.state, env);
    assert(keys_distinct(aged)) by {
        assert forall|a: int, b: int| 0 <= a < b < aged.len() implies (#[trigger] aged[a]).0 != (
        #[trigger] aged[b]).0 by {
            assert(aged[a].0 == p.state[a].0);
            assert(aged[b].0 == p.state[b].0);
        }
    }
    let st0 = spec_sweep_init(p, env);
    lemma_lives_ok(items0);
    lemma_sweep_props(items, ord, st0, env, ord.len() as int);
    let sw = spec_sweep_upto(items, ord, st0, env, ord.len() as int);
    assert(keys_distinct(sw.state)) by {
        assert forall|a: int, b: int|
            0 <= a < b < sw.state.len() implies (#[trigger] sw.state[a]).0 != (
        #[trigger] sw.state[b]).0 by {
            assert(sw.state[a].0 == st0.state[a].0);
            assert(sw.state[b].0 == st0.state[b].0);
        }
    }
    let wc = p.window_size != env.window.unwrap();
    let rst0 = RecSt { state: sw.state, cmds: sw.cmds };
    lemma_rec_drags(items, ord, rst0, wc, ord.len() as int);
    lemma_order_contains(items, items.len() as int, i);
    let t0 = choose|t: int| 0 <= t < ord.len() && ord[t] == i;
    assert(items[ord[t0]].spatial_id == key);
    lemma_rec_establishes_key(items, ord, rst0, wc, ord.len() as int, t0);
    let rc = spec_rec_upto(items, ord, rst0, wc, ord.len() as int);
    crate::statemap::lemma_find_key(rc.state, key);
    let jr = find_key(rc.state, key).unwrap();
    assert(rc.state[jr].0 == key);
    assert(rc.state[jr].1.id == items[i].id.unwrap());
    assert(!rc.state[jr].1.life.spec_expired()) by {
        crate::statemap::lemma_find_key(sw.state, key);
        match find_key(sw.state, key) {
            Option::Some(js) => {
                assert(rc.state[jr].1.life == sw.state[js].1.life);
                assert(sw.state[js].0 == key);
                assert(!sw.state[js].1.life.spec_expired()) by {
                    assert(st0.state[js].0 == key);
                    assert(items[ord[t0]].spatial_id == st0.state[js].0);
                }
            }
            Option::None => {
                assert(rc.state[jr].1.life == items[i].life);
                assert(items[i].life == items0[i].life);
            }
        }
    }
    lemma_gc_key(rc.state, key, jr, rc.state.len() as int);
    crate::frame::lemma_gc_distinct(rc.state);
    assert(spec_frame(p, env).0.state == spec_gc(rc.state).0);
    assert(entry_of(spec_gc(rc.state).0, key) == rc.state[jr].1);
}

/// Idempotence: run the pass twice on the same resolved declarations —
/// with distinct geometry keys and unexpired declared lives — and the same
/// window, and the second run rebuilds nothing: it emits no create
/// command, and destroys no declared item's proxy. (That the two runs also
/// resolve identical boxes is the determinism of `spec_add`, a function of
/// its inputs.)
#[verifier::rlimit(100)]
#[verifier::spinoff_prover]
pub proof fn lemma_frame_idempotent(p: PicoV, items0: Seq<PItemV>, env: FrameEnv)
    requires
        env.wf(),
        env.window is Some,
        keys_distinct(p.state),
        p.items == items0,
        forall|a: int, b: int|
            0 <= a < b < items0.len() ==> (#[trigger] items0[a]).spatial_id != (
            #[trigger] items0[b]).spatial_id,
        forall|j: int| 0 <= j < items0.len() ==> !(#[trigger] items0[j]).life.spec_expired(),
    ensures
        ({
            let r1 = spec_frame(p, env);
            let r2 = spec_frame(PicoV { items: items0, ..r1.0 }, env);
            forall|t: int|
                0 <= t < r2.1.len() ==> !((#[trigger] r2.1[t]) is Create) && ((r2.1[t]
                    is Destroy) ==> forall|i: int|
                    0 <= i < items0.len() ==> (#[trigger] items0[i]).spatial_id
                        != crate::frame::spec_cmd_key(r2.1[t]))
        }),
{
    let items = spec_filled(items0);
    lemma_filled_facts(items0);
    let ord = spec_order(items);
    lemma_order_range(items, items.len() as int);
    let r1 = spec_frame(p, env);
    assert forall|i: int|
        0 <= i < items0.len() implies has_key(r1.0.state, (#[trigger] items0[i]).spatial_id)
        && entry_of(r1.0.state, items0[i].spatial_id).id == items[i].id.unwrap() && !entry_of(
        r1.0.state,
        items0[i].spatial_id,
    ).life.spec_expired() by {
        lemma_frame_establishes(p, items0, env, i);
    }
    if items0.len() > 0 {
        lemma_frame_establishes(p, items0, env, 0);
    } else {
        assert(keys_distinct(r1.0.state)) by {
            let aged = spec_aged(p.state, env);
            lemma_aged_shape(p.state, env);
            assert(keys_distinct(aged)) by {
                assert forall|a: int, b: int|
                    0 <= a < b < aged.len() implies (#[trigger] aged[a]).0 != (
                #[trigger] aged[b]).0 by {
                    assert(aged[a].0 == p.state[a].0);
                    assert(aged[b].0 == p.state[b].0);
                }
            }
            let st0 = spec_sweep_init(p, env);
            lemma_sweep_keys_only(items, ord, st0, env, ord.len() as int);
            let sw = spec_sweep_upto(items, ord, st0, env, ord.len() as int);
            assert(keys_distinct(sw.state)) by {
                assert forall|a: int, b: int|
                    0 <= a < b < sw.state.len() implies (#[trigger] sw.state[a]).0 != (
                #[trigger] sw.state[b]).0 by {
                    assert(sw.state[a].0 == st0.state[a].0);
                    assert(sw.state[b].0 == st0.state[b].0);
                }
            }
            let wc = p.window_size != env.window.unwrap();
            let rst0 = RecSt { state: sw.state, cmds: sw.cmds };
            lemma_rec_drags(items, ord, rst0, wc, ord.len() as int);
            crate::frame::lemma_gc_distinct(
                spec_rec_upto(items, ord, rst0, wc, ord.len() as int).state,
            );
        }
    }
    assert(r1.0.window_size == env.window.unwrap());
    assert(keys_distinct(r1.0.state));

    // ---- the second run ----
    let p2 = PicoV { items: items0, ..r1.0 };
    let r2 = spec_frame(p2, env);
    let aged2 = spec_aged(r1.0.state, env);
    lemma_aged_shape(r1.0.state, env);
    assert(forall|j: int|
        0 <= j < aged2.len() ==> (#[trigger] aged2[j]).1.id == r1.0.state[j].1.id) by {
        assert forall|j: int| 0 <= j < aged2.len() implies (#[trigger] aged2[j]).1.id
            == r1.0.state[j].1.id by {
            assert(aged2[j] == spec_age_entry(r1.0.state[j], env));
        }
    }
    assert(keys_distinct(aged2)) by {
        assert forall|a: int, b: int|
            0 <= a < b < aged2.len() implies (#[trigger] aged2[a]).0 != (
        #[trigger] aged2[b]).0 by {
            assert(aged2[a].0 == r1.0.state[a].0);
            assert(aged2[b].0 == r1.0.state[b].0);
        }
    }
    let st02 = spec_sweep_init(p2, env);
    assert(st02.state == aged2);
    lemma_sweep_keys_only(items, ord, st02, env, ord.len() as int);
    lemma_sweep_ids(items, ord, st02, env, ord.len() as int);
    lemma_sweep_cmds(items, ord, st02, env, ord.len() as int);
    lemma_lives_ok(items0);
    lemma_sweep_props(items, ord, st02, env, ord.len() as int);
    let sw2 = spec_sweep_upto(items, ord, st02, env, ord.len() as int);
    assert(keys_distinct(sw2.state)) by {
        assert forall|a: int, b: int|
            0 <= a < b < sw2.state.len() implies (#[trigger] sw2.state[a]).0 != (
        #[trigger] sw2.state[b]).0 by {
            assert(sw2.state[a].0 == st02.state[a].0);
            assert(sw2.state[b].0 == st02.state[b].0);
        }
    }
    // every declared item's entry is found with a matching content key
    let rst2 = RecSt { state: sw2.state, cmds: sw2.cmds };
    assert forall|t: int|
        0 <= t < ord.len() implies find_key(
        rst2.state,
        items[#[trigger] ord[t]].spatial_id,
    ) is Some && entry_of(rst2.state, items[ord[t]].spatial_id).id == items[ord[t]].id
        .unwrap() by {
        let i = ord[t];
        let key = items[i].spatial_id;
        assert(key == items0[i].spatial_id);
        assert(has_key(r1.0.state, key));
        crate::statemap::lemma_find_key(r1.0.state, key);
        let j1 = find_key(r1.0.state, key).unwrap();
        lemma_find_key_congruent(r1.0.state, aged2, key, 0);
        lemma_find_key_congruent(aged2, sw2.state, key, 0);
        assert(find_key(sw2.state, key) == Some(j1));
        crate::statemap::lemma_find_key(sw2.state, key);
        assert(entry_of(rst2.state, key) == sw2.state[j1].1);
        assert(sw2.state[j1].1.id == aged2[j1].1.id);
        assert(aged2[j1].1.id == r1.0.state[j1].1.id);
        assert(r1.0.state[j1].1.id == entry_of(r1.0.state, key).id);
    }
    // the window is unchanged, so reconciliation is a no-op
    let wc2 = r1.0.window_size != env.window.unwrap();
    assert(!wc2);
    lemma_rec_noop(items, ord, rst2, ord.len() as int);
    let rc2 = spec_rec_upto(items, ord, rst2, wc2, ord.len() as int);
    assert(rc2 == rst2);
    let gc2 = spec_gc(rc2.state);
    assert(r2.1 == rc2.cmds + gc2.1);
    assert(rc2.cmds == sw2.cmds);
    lemma_gc_cmds(rc2.state, rc2.state.len() as int);

    assert forall|t: int|
        0 <= t < r2.1.len() implies !((#[trigger] r2.1[t]) is Create) && ((r2.1[t]
        is Destroy) ==> forall|i: int|
        0 <= i < items0.len() ==> (#[trigger] items0[i]).spatial_id
            != crate::frame::spec_cmd_key(r2.1[t])) by {
        if t < rc2.cmds.len() {
            assert(r2.1[t] == sw2.cmds[t]);
            assert(sw2.cmds[t] is Reposition);
        } else {
            let g = r2.1[t];
            assert(g == gc2.1[t - rc2.cmds.len()]);
            assert(g is Destroy);
            let b = choose|b: int|
                0 <= b < rc2.state.len() && (#[trigger] rc2.state[b]).0
                    == crate::frame::spec_cmd_key(g) && rc2.state[b].1.life.spec_expired();
            assert forall|i: int|
                0 <= i < items0.len() implies (#[trigger] items0[i]).spatial_id
                != crate::frame::spec_cmd_key(g) by {
                let key = items0[i].spatial_id;
                if key == crate::frame::spec_cmd_key(g) {
                    // a declared item's entry was refreshed and cannot be
                    // the expired one
                    lemma_order_contains(items, items.len() as int, i);
                    let tt = choose|tt: int| 0 <= tt < ord.len() && ord[tt] == i;
                    assert(items[ord[tt]].spatial_id == key);
                    assert(st02.state[b].0 == key);
                    assert(!sw2.state[b].1.life.spec_expired()) by {
                        assert(items[ord[tt]].spatial_id == st02.state[b].0);
                    }
                    assert(false);
                }
            }
        }
    }
}

/// Length and keys of the cache never change during a sweep.
proof fn lemma_sweep_keys_only(
    items: Seq<PItemV>,
    ord: Seq<int>,
    st0: SweepSt,
    env: FrameEnv,
    k: int,
)
    requires
        0 <= k <= ord.len(),
        forall|t: int| 0 <= t < ord.len() ==> 0 <= #[trigger] ord[t] < items.len(),
    ensures
        spec_sweep_upto(items, ord, st0, env, k).state.len() == st0.state.len(),
        forall|j: int|
            0 <= j < st0.state.len() ==> (#[trigger] spec_sweep_upto(
                items,
                ord,
                st0,
                env,
                k,
            ).state[j]).0 == st0.state[j].0,
    decreases k,
{
    if k > 0 {
        lemma_sweep_keys_only(items, ord, st0, env, k - 1);
        let pre = spec_sweep_upto(items, ord, st0, env, k - 1);
        let sw = spec_sweep_upto(items, ord, st0, env, k);
        crate::statemap::lemma_find_key(pre.state, items[ord[k - 1]].spatial_id);
        match find_key(pre.state, items[ord[k - 1]].spatial_id) {
            Option::None => {}
            Option::Some(j0) => {
                assert forall|j: int|
                    0 <= j < st0.state.len() implies (#[trigger] sw.state[j]).0
                    == st0.state[j].0 by {
                    if j != j0 {
                        assert(sw.state[j] == pre.state[j]);
                    }
                }
            }
        }
    }
}

/// Without a fresh press, or while a drag is already active, the sweep
/// leaves every drag exactly as it was.
proof fn lemma_sweep_drag_frozen(
    items: Seq<PItemV>,
    ord: Seq<int>,
    st0: SweepSt,
    env: FrameEnv,
    k: int,
)
    requires
        0 <= k <= ord.len(),
        forall|t: int| 0 <= t < ord.len() ==> 0 <= #[trigger] ord[t] < items.len(),
        st0.dragging || !env.buttons.just_pressed,
    ensures
        spec_sweep_upto(items, ord, st0, env, k).state.len() == st0.state.len(),
        spec_sweep_upto(items, ord, st0, env, k).dragging == st0.dragging,
        forall|j: int|
            0 <= j < st0.state.len() ==> (#[trigger] spec_sweep_upto(
                items,
                ord,
                st0,
                env,
                k,
            ).state[j]).1.drag == st0.state[j].1.drag,
    decreases k,
{
    if k > 0 {
        lemma_sweep_drag_frozen(items, ord, st0, env, k - 1);
        let pre = spec_sweep_upto(items, ord, st0, env, k - 1);
        let sw = spec_sweep_upto(items, ord, st0, env, k);
        crate::statemap::lemma_find_key(pre.state, items[ord[k - 1]].spatial_id);
        match find_key(pre.state, items[ord[k - 1]].spatial_id) {
            Option::None => {}
            Option::Some(j0) => {
                assert forall|j: int|
                    0 <= j < st0.state.len() implies (#[trigger] sw.state[j]).1.drag
                    == st0.state[j].1.drag by {
                    if j != j0 {
                        assert(sw.state[j] == pre.state[j]);
                    }
                }
            }
        }
    }
}

} // verus!
