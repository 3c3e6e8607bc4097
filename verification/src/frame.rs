//! The once-per-frame reconciliation pass.
//!
//! `render` consumes the frame's declarations and the host environment:
//! it ages the cache, continues or clears drags, sweeps the items in
//! descending depth order for pointer interaction with single-claim
//! capture, decides create/update/destroy for every visual proxy, and
//! purges expired entries. Everything the host must do comes back as a
//! list of `ProxyCommand` values.

use vstd::prelude::*;
use crate::engine::{Pico, PicoV, AUTO_DEPTH_BASE};
use crate::fixed::{csub, in_range, spec_csub, imax};
use crate::geom::{contains, spec_contains, Anchor, BBox, Vec2Fx};
use crate::item::{spec_content_key, Life, PItemV, ProcessedPicoItem};
use crate::state::{ButtonSnapshot, Drag, StateItem, StateV};
use crate::statemap::{entries_view, find_entry, find_key, keys_distinct, StateEntry};

verus! {

/// What the host hands the core once per frame, before the pass runs.
/// A missing window (or camera, folded in by the host) short-circuits the
/// whole pass.
#[derive(Clone, Copy, Debug)]
pub struct FrameEnv {
    /// Window size in whole pixels; `None` when a required collaborator is
    /// unavailable this frame.
    pub window: Option<Vec2Fx>,
    /// Pointer position in normalized window coordinates.
    pub cursor: Option<Vec2Fx>,
    /// Primary button state.
    pub buttons: ButtonSnapshot,
    /// Whether any button was freshly pressed this frame (primary or not);
    /// this is what sets the frame's capture latch.
    pub any_just_pressed: bool,
    /// Elapsed time since the previous frame, in `UV_ONE` units of a
    /// second.
    pub delta_time: i64,
}

impl FrameEnv {
    pub open spec fn wf(self) -> bool {
        &&& match self.window {
            Option::Some(w) => w.wf() && w.x >= 0 && w.y >= 0,
            Option::None => true,
        }
        &&& match self.cursor {
            Option::Some(c) => c.wf(),
            Option::None => true,
        }
        &&& self.buttons.wf()
        &&& (self.buttons.just_pressed ==> self.any_just_pressed)
        &&& 0 <= self.delta_time
        &&& in_range(self.delta_time as int)
    }
}

/// One instruction to the host about a visual proxy, keyed by geometry key.
#[derive(Clone, Debug)]
pub enum ProxyCommand {
    /// Move an existing proxy; its content is unchanged.
    Reposition { spatial_id: u64, position: Vec2Fx, depth: i64 },
    /// Build a proxy from resolved geometry, text and style.
    Create {
        spatial_id: u64,
        position: Vec2Fx,
        size: Vec2Fx,
        depth: i64,
        anchor: Anchor,
        anchor_text: Anchor,
        text: String,
        style_words: Vec<u64>,
        interactable: bool,
    },
    /// Tear a proxy down.
    Destroy { spatial_id: u64 },
}

pub enum CmdV {
    Reposition { spatial_id: u64, position: Vec2Fx, depth: i64 },
    Create {
        spatial_id: u64,
        position: Vec2Fx,
        size: Vec2Fx,
        depth: i64,
        anchor: Anchor,
        anchor_text: Anchor,
        text: Seq<char>,
        style_words: Seq<u64>,
        interactable: bool,
    },
    Destroy { spatial_id: u64 },
}

impl View for ProxyCommand {
    type V = CmdV;

    open spec fn view(&self) -> CmdV {
        match self {
            ProxyCommand::Reposition { spatial_id, position, depth } => CmdV::Reposition {
                spatial_id: *spatial_id,
                position: *position,
                depth: *depth,
            },
            ProxyCommand::Create {
                spatial_id,
                position,
                size,
                depth,
                anchor,
                anchor_text,
                text,
                style_words,
                interactable,
            } => CmdV::Create {
                spatial_id: *spatial_id,
                position: *position,
                size: *size,
                depth: *depth,
                anchor: *anchor,
                anchor_text: *anchor_text,
                text: text@,
                style_words: style_words@,
                interactable: *interactable,
            },
            ProxyCommand::Destroy { spatial_id } => CmdV::Destroy { spatial_id: *spatial_id },
        }
    }
}

pub open spec fn cmds_view(v: Seq<ProxyCommand>) -> Seq<CmdV> {
    v.map_values(|c: ProxyCommand| c@)
}

pub open spec fn spec_is_create(c: CmdV) -> bool {
    c is Create
}

pub open spec fn spec_is_destroy(c: CmdV) -> bool {
    c is Destroy
}

pub open spec fn spec_cmd_key(c: CmdV) -> u64 {
    match c {
        CmdV::Reposition { spatial_id, .. } => spatial_id,
        CmdV::Create { spatial_id, .. } => spatial_id,
        CmdV::Destroy { spatial_id } => spatial_id,
    }
}

// ---- phase A: aging, transient reset, drag continuation ----

/// One entry at frame start: life counts down, transients reset, and an
/// active drag follows the pointer while the button stays held (regardless
/// of hit-testing) or is cleared on release.
pub open spec fn spec_age_entry(e: (u64, StateV), env: FrameEnv) -> (u64, StateV) {
    let life1 = match e.1.life {
        Life::Finite(n) => Life::Finite(spec_csub(n as int, env.delta_time as int) as i64),
        Life::Infinite => Life::Infinite,
    };
    let drag1 = if env.buttons.pressed {
        match e.1.drag {
            Option::Some(d) => match env.cursor {
                Option::Some(c) => Some(Drag { start: d.start, end: c, last_frame: d.end }),
                Option::None => Some(d),
            },
            Option::None => None,
        }
    } else {
        None
    };
    (
        e.0,
        StateV { life: life1, hover: false, input: None, drag: drag1, ..e.1 },
    )
}

pub open spec fn spec_aged(state: Seq<(u64, StateV)>, env: FrameEnv) -> Seq<(u64, StateV)> {
    state.map_values(|e: (u64, StateV)| spec_age_entry(e, env))
}

pub open spec fn spec_any_drag(state: Seq<(u64, StateV)>) -> bool {
    exists|i: int| 0 <= i < state.len() && (#[trigger] state[i]).1.drag is Some
}

/// The frame-global condition blocking any new drag: some entry already
/// holds one while the button is down.
pub open spec fn spec_currently_dragging(state: Seq<(u64, StateV)>, env: FrameEnv) -> bool {
    env.buttons.pressed && spec_any_drag(state)
}

// ---- phase B: content keys ----

pub open spec fn spec_fill_item(it: PItemV) -> PItemV {
    if it.id is Some {
        it
    } else {
        PItemV { id: Some(spec_content_key(it)), ..it }
    }
}

/// Items up to `k` have their content key computed (unless overridden).
pub open spec fn spec_filled_upto(items: Seq<PItemV>, k: int) -> Seq<PItemV> {
    Seq::new(items.len(), |j: int| if j < k { spec_fill_item(items[j]) } else { items[j] })
}

pub open spec fn spec_filled(items: Seq<PItemV>) -> Seq<PItemV> {
    spec_filled_upto(items, items.len() as int)
}

// ---- phase C: depth order ----

/// Strict processing order: nearer (greater depth) first, declaration
/// order breaking ties. A total order on distinct indices.
pub open spec fn spec_before(items: Seq<PItemV>, a: int, b: int) -> bool {
    items[a].depth > items[b].depth || (items[a].depth == items[b].depth && a < b)
}

pub open spec fn spec_insert_idx(items: Seq<PItemV>, x: int, s: Seq<int>) -> Seq<int>
    decreases s.len(),
{
    if s.len() == 0 {
        seq![x]
    } else if spec_before(items, x, s[0]) {
        seq![x] + s
    } else {
        seq![s[0]] + spec_insert_idx(items, x, s.drop_first())
    }
}

pub open spec fn spec_order_upto(items: Seq<PItemV>, k: int) -> Seq<int>
    decreases k,
{
    if k <= 0 {
        Seq::empty()
    } else {
        spec_insert_idx(items, k - 1, spec_order_upto(items, k - 1))
    }
}

/// The interaction/reconcile processing order over item indices.
pub open spec fn spec_order(items: Seq<PItemV>) -> Seq<int> {
    spec_order_upto(items, items.len() as int)
}

// ---- phase D: interaction sweep ----

/// Running state of the depth-ordered sweep.
pub struct SweepSt {
    pub state: Seq<(u64, StateV)>,
    /// The frame's claim latch: once set, no farther item reports hover or
    /// receives input.
    pub latch: bool,
    pub interacting: bool,
    /// Whether some entry already held a drag this frame (with the button
    /// down); blocks new drags.
    pub dragging: bool,
    pub cmds: Seq<CmdV>,
}

/// Re-declaring refreshes the lease: a zero declared life keeps the
/// remaining (non-negative) life; anything else resets to the declared
/// value.
pub open spec fn spec_refresh_life(prev: Life, declared: Life) -> Life {
    match declared {
        Life::Finite(n) => {
            if n == 0 {
                match prev {
                    Life::Finite(m) => Life::Finite(imax(m as int, 0) as i64),
                    Life::Infinite => Life::Infinite,
                }
            } else {
                declared
            }
        }
        Life::Infinite => Life::Infinite,
    }
}

/// One sweep step: refresh the entry's lease and box, reposition its
/// proxy, and — while the latch is unset and the pointer is inside —
/// report hover, hand over the input snapshot, claim the press, and
/// possibly seed a drag.
pub open spec fn spec_sweep_step(st: SweepSt, items: Seq<PItemV>, i: int, env: FrameEnv)
    -> SweepSt {
    let it = items[i];
    let key = it.spatial_id;
    match find_key(st.state, key) {
        Option::None => st,
        Option::Some(j) => {
            let e = st.state[j].1;
            let cmds1 = st.cmds.push(
                CmdV::Reposition { spatial_id: key, position: it.uv_position, depth: it.depth },
            );
            let e1 = StateV {
                life: spec_refresh_life(e.life, it.life),
                bbox: it.bbox,
                ..e
            };
            let hit = e.interactable && !st.latch && match env.cursor {
                Option::Some(c) => spec_contains(it.bbox, c),
                Option::None => false,
            };
            if hit {
                let e2 = StateV { hover: true, input: Some(env.buttons), ..e1 };
                let e3 = if env.buttons.just_pressed && !st.dragging && e.drag is None {
                    StateV {
                        drag: Some(
                            Drag {
                                start: env.cursor.unwrap(),
                                end: env.cursor.unwrap(),
                                last_frame: env.cursor.unwrap(),
                            },
                        ),
                        ..e2
                    }
                } else {
                    e2
                };
                SweepSt {
                    state: st.state.update(j, (key, e3)),
                    latch: st.latch || env.any_just_pressed,
                    interacting: st.interacting || env.any_just_pressed,
                    dragging: st.dragging,
                    cmds: cmds1,
                }
            } else {
                SweepSt { state: st.state.update(j, (key, e1)), cmds: cmds1, ..st }
            }
        }
    }
}

pub open spec fn spec_sweep_upto(
    items: Seq<PItemV>,
    ord: Seq<int>,
    st0: SweepSt,
    env: FrameEnv,
    k: int,
) -> SweepSt
    decreases k,
{
    if k <= 0 {
        st0
    } else {
        spec_sweep_step(spec_sweep_upto(items, ord, st0, env, k - 1), items, ord[k - 1], env)
    }
}

// ---- phase E: reconciliation ----

pub struct RecSt {
    pub state: Seq<(u64, StateV)>,
    pub cmds: Seq<CmdV>,
}

pub open spec fn spec_item_interactable(it: PItemV) -> bool {
    it.uv_size.x > 0 || it.uv_size.y > 0
}

pub open spec fn spec_create_cmd(it: PItemV, interactable: bool) -> CmdV {
    CmdV::Create {
        spatial_id: it.spatial_id,
        position: it.uv_position,
        size: it.uv_size,
        depth: it.depth,
        anchor: it.anchor,
        anchor_text: it.style.anchor_text,
        text: it.text,
        style_words: it.style.words,
        interactable,
    }
}

/// One reconcile step: an entry whose remembered content key matches the
/// fresh one — with the window unchanged — keeps its proxy (the sweep
/// already repositioned it). Anything else tears down and rebuilds, and a
/// missing entry is created.
pub open spec fn spec_rec_step(st: RecSt, items: Seq<PItemV>, i: int, window_changed: bool)
    -> RecSt {
    let it = items[i];
    let key = it.spatial_id;
    let idv = it.id.unwrap();
    match find_key(st.state, key) {
        Option::Some(j) => {
            let e = st.state[j].1;
            if e.id != idv || window_changed {
                let inter = if spec_item_interactable(it) {
                    true
                } else {
                    e.interactable
                };
                let e1 = StateV { id: idv, bbox: it.bbox, interactable: inter, ..e };
                RecSt {
                    state: st.state.update(j, (key, e1)),
                    cmds: st.cmds.push(CmdV::Destroy { spatial_id: key }).push(
                        spec_create_cmd(it, inter),
                    ),
                }
            } else {
                st
            }
        }
        Option::None => {
            let inter = spec_item_interactable(it);
            let fresh = StateV {
                life: it.life,
                id: idv,
                bbox: it.bbox,
                interactable: inter,
                ..crate::state::spec_default_state()
            };
            RecSt {
                state: st.state.push((key, fresh)),
                cmds: st.cmds.push(spec_create_cmd(it, inter)),
            }
        }
    }
}

pub open spec fn spec_rec_upto(
    items: Seq<PItemV>,
    ord: Seq<int>,
    st0: RecSt,
    window_changed: bool,
    k: int,
) -> RecSt
    decreases k,
{
    if k <= 0 {
        st0
    } else {
        spec_rec_step(
            spec_rec_upto(items, ord, st0, window_changed, k - 1),
            items,
            ord[k - 1],
            window_changed,
        )
    }
}

// ---- phase F: lifecycle GC ----

/// Entries whose finite life has run out are dropped, each with a destroy
/// command for its proxy; infinite-life entries never expire.
pub open spec fn spec_gc_upto(state: Seq<(u64, StateV)>, k: int) -> (Seq<(u64, StateV)>, Seq<
    CmdV,
>)
    decreases k,
{
    if k <= 0 {
        (Seq::empty(), Seq::empty())
    } else {
        let prev = spec_gc_upto(state, k - 1);
        let e = state[k - 1];
        if e.1.life.spec_expired() {
            (prev.0, prev.1.push(CmdV::Destroy { spatial_id: e.0 }))
        } else {
            (prev.0.push(e), prev.1)
        }
    }
}

pub open spec fn spec_gc(state: Seq<(u64, StateV)>) -> (Seq<(u64, StateV)>, Seq<CmdV>) {
    spec_gc_upto(state, state.len() as int)
}

// ---- the whole pass ----

pub open spec fn spec_sweep_init(p: PicoV, env: FrameEnv) -> SweepSt {
    let dragging = spec_currently_dragging(p.state, env);
    SweepSt {
        state: spec_aged(p.state, env),
        latch: false,
        interacting: dragging,
        dragging,
        cmds: Seq::empty(),
    }
}

/// The frame pass as a function of the previous state and the host
/// environment. A missing window leaves everything untouched.
pub open spec fn spec_frame(p: PicoV, env: FrameEnv) -> (PicoV, Seq<CmdV>) {
    match env.window {
        Option::None => (p, Seq::empty()),
        Option::Some(win) => {
            let items = spec_filled(p.items);
            let ord = spec_order(items);
            let sw = spec_sweep_upto(items, ord, spec_sweep_init(p, env), env, ord.len() as int);
            let window_changed = p.window_size != win;
            let rc = spec_rec_upto(
                items,
                ord,
                RecSt { state: sw.state, cmds: sw.cmds },
                window_changed,
                ord.len() as int,
            );
            let gc = spec_gc(rc.state);
            (
                PicoV {
                    state: gc.0,
                    items: Seq::empty(),
                    interacting: sw.interacting,
                    stack_stack: Seq::empty(),
                    stack_guard: 0,
                    window_size: win,
                    mouse_button_input: Some(env.buttons),
                    internal_auto_depth: AUTO_DEPTH_BASE,
                },
                rc.cmds + gc.1,
            )
        }
    }
}

// ---- executable pass ----

fn copy_words(v: &Vec<u64>) -> (r: Vec<u64>)
    ensures
        r@ == v@,
{
    let mut r: Vec<u64> = Vec::new();
    let mut i: usize = 0;
    while i < v.len()
        invariant
            0 <= i <= v@.len(),
            r@ == v@.take(i as int),
        decreases v@.len() - i,
    {
        r.push(v[i]);
        proof {
            assert(v@.take(i as int).push(v@[i as int]) =~= v@.take(i as int + 1));
        }
        i = i + 1;
    }
    proof {
        assert(v@.take(v@.len() as int) =~= v@);
    }
    r
}

/// The lease-refresh rule applied when an item is redeclared.
pub fn refresh_life(prev: Life, declared: Life) -> (r: Life)
    ensures
        r == spec_refresh_life(prev, declared),
{
    match declared {
        Life::Finite(n) => {
            if n == 0 {
                match prev {
                    Life::Finite(m) => Life::Finite(
                        if m >= 0 {
                            m
                        } else {
                            0
                        },
                    ),
                    Life::Infinite => Life::Infinite,
                }
            } else {
                declared
            }
        }
        Life::Infinite => Life::Infinite,
    }
}

proof fn lemma_aged_entry_wf(e: (u64, StateV), env: FrameEnv)
    requires
        e.1.wf(),
        env.wf(),
    ensures
        spec_age_entry(e, env).1.wf(),
        spec_age_entry(e, env).0 == e.0,
{
}

fn age_phase(pico: &mut Pico, env: &FrameEnv) -> (dragging: bool)
    requires
        old(pico)@.wf(),
        env.wf(),
    ensures
        final(pico)@ == (PicoV { state: spec_aged(old(pico)@.state, *env), ..old(pico)@ }),
        dragging == spec_currently_dragging(old(pico)@.state, *env),
        final(pico)@.wf(),
{
    let ghost s0 = pico@.state;
    let mut dragging = false;
    let mut i: usize = 0;
    while i < pico.state.len()
        invariant
            0 <= i <= pico.state@.len(),
            pico.state@.len() == s0.len(),
            env.wf(),
            entries_view(pico.state@) == spec_aged(s0, *env).take(i as int) + s0.skip(i as int),
            dragging == spec_currently_dragging(s0.take(i as int), *env),
            pico@ == (PicoV { state: entries_view(pico.state@), ..old(pico)@ }),
            forall|j: int| 0 <= j < s0.len() ==> (#[trigger] s0[j]).1.wf(),
        decreases pico.state@.len() - i,
    {
        proof {
            assert(entries_view(pico.state@)[i as int] == pico.state@[i as int]@);
            assert((entries_view(pico.state@)[i as int]) == (s0.skip(i as int)[0]));
            assert(s0.skip(i as int)[0] == s0[i as int]);
        }
        if env.buttons.pressed {
            if pico.state[i].item.drag.is_some() {
                dragging = true;
            }
        }
        let dt = env.delta_time;
        let cursor = env.cursor;
        let pressed = env.buttons.pressed;
        let ghost prev = pico.state@;
        let e = &mut pico.state[i];
        match e.item.life {
            Life::Finite(n) => {
                e.item.life = Life::Finite(csub(n, dt));
            }
            Life::Infinite => {}
        }
        e.item.hover = false;
        e.item.input = None;
        if pressed {
            match e.item.drag {
                Some(d) => {
                    match cursor {
                        Some(c) => {
                            e.item.drag = Some(
                                Drag { start: d.start, end: c, last_frame: d.end },
                            );
                        }
                        None => {}
                    }
                }
                None => {}
            }
        } else {
            e.item.drag = None;
        }
        proof {
            assert(pico.state@[i as int]@ == spec_age_entry(s0[i as int], *env));
            assert(pico.state@ == prev.update(i as int, pico.state@[i as int]));
            assert(entries_view(pico.state@) =~= spec_aged(s0, *env).take(i as int + 1) + s0.skip(
                i as int + 1,
            )) by {
                let lhs = entries_view(pico.state@);
                let rhs = spec_aged(s0, *env).take(i as int + 1) + s0.skip(i as int + 1);
                assert forall|j: int| 0 <= j < lhs.len() implies lhs[j] == rhs[j] by {
                    assert(lhs[j] == pico.state@[j]@);
                    if j < i as int {
                        assert(pico.state@[j] == prev[j]);
                        assert(entries_view(prev)[j] == prev[j]@);
                        assert(entries_view(prev)[j] == (spec_aged(s0, *env).take(i as int)
                            + s0.skip(i as int))[j]);
                    } else if j == i as int {
                        assert(rhs[j] == spec_aged(s0, *env)[j]);
                        assert(spec_aged(s0, *env)[j] == spec_age_entry(s0[j], *env));
                    } else {
                        assert(pico.state@[j] == prev[j]);
                        assert(entries_view(prev)[j] == prev[j]@);
                        assert(entries_view(prev)[j] == (spec_aged(s0, *env).take(i as int)
                            + s0.skip(i as int))[j]);
                        assert(rhs[j] == s0[j]);
                    }
                }
            }
            assert(s0.take(i as int + 1).drop_last() =~= s0.take(i as int));
            assert(s0.take(i as int + 1).last() == s0[i as int]);
            if dragging {
                assert(spec_currently_dragging(s0.take(i as int + 1), *env)) by {
                    if spec_currently_dragging(s0.take(i as int), *env) {
                        let w = choose|w: int|
                            0 <= w < s0.take(i as int).len() && (#[trigger] s0.take(i as int)[w])
                                .1.drag is Some;
                        assert(s0.take(i as int + 1)[w].1.drag is Some);
                    } else {
                        assert(s0.take(i as int + 1)[i as int].1.drag is Some);
                    }
                }
            } else {
                assert(!spec_currently_dragging(s0.take(i as int + 1), *env)) by {
                    if spec_currently_dragging(s0.take(i as int + 1), *env) {
                        let w = choose|w: int|
                            0 <= w < s0.take(i as int + 1).len() && (#[trigger] s0.take(
                                i as int + 1,
                            )[w]).1.drag is Some;
                        if w < i as int {
                            assert(s0.take(i as int)[w].1.drag is Some);
                        }
                    }
                }
            }
            assert(pico@ =~~= (PicoV { state: entries_view(pico.state@), ..old(pico)@ }));
        }
        i = i + 1;
    }
    proof {
        assert(spec_aged(s0, *env).take(s0.len() as int) =~= spec_aged(s0, *env));
        assert(s0.skip(s0.len() as int) =~= Seq::<(u64, StateV)>::empty());
        assert(entries_view(pico.state@) =~= spec_aged(s0, *env));
        assert(s0.take(s0.len() as int) =~= s0);
        assert(pico@ =~~= (PicoV { state: spec_aged(s0, *env), ..old(pico)@ }));
        assert(pico@.wf()) by {
            let q = pico@;
            assert forall|j: int| 0 <= j < q.state.len() implies (#[trigger] q.state[j]).1.wf()
                && q.state[j].0 == s0[j].0 by {
                lemma_aged_entry_wf(s0[j], *env);
            }
            assert(keys_distinct(q.state));
        }
    }
    dragging
}

fn fill_phase(pico: &mut Pico)
    requires
        old(pico)@.wf(),
    ensures
        final(pico)@ == (PicoV { items: spec_filled(old(pico)@.items), ..old(pico)@ }),
        final(pico)@.wf(),
        forall|j: int|
            0 <= j < final(pico)@.items.len() ==> (#[trigger] final(pico)@.items[j]).id is Some,
{
    let ghost its0 = pico@.items;
    let mut i: usize = 0;
    while i < pico.items.len()
        invariant
            0 <= i <= pico.items@.len(),
            pico.items@.len() == its0.len(),
            pico@.items == spec_filled_upto(its0, i as int),
            pico@ == (PicoV { items: pico@.items, ..old(pico)@ }),
            forall|j: int| 0 <= j < its0.len() ==> (#[trigger] its0[j]).wf(),
        decreases pico.items@.len() - i,
    {
        proof {
            assert(pico@.items[i as int] == pico.items@[i as int]@);
            assert(pico@.items[i as int] == its0[i as int]);
        }
        let ghost prev = pico.items@;
        if pico.items[i].id.is_none() {
            let idv = pico.items[i].generate_id();
            let e = &mut pico.items[i];
            e.id = Some(idv);
        }
        proof {
            assert(pico.items@[i as int]@ == spec_fill_item(its0[i as int]));
            assert(pico@.items =~= spec_filled_upto(its0, i as int + 1)) by {
                let lhs = pico@.items;
                let rhs = spec_filled_upto(its0, i as int + 1);
                assert forall|j: int| 0 <= j < lhs.len() implies lhs[j] == rhs[j] by {
                    assert(lhs[j] == pico.items@[j]@);
                    if j != i as int {
                        assert(pico.items@[j] == prev[j]);
                        assert(prev.map_values(|it: ProcessedPicoItem| it@)[j] == prev[j]@);
                        assert(prev.map_values(|it: ProcessedPicoItem| it@)[j]
                            == spec_filled_upto(its0, i as int)[j]);
                    }
                }
            }
            assert(pico@ =~~= (PicoV { items: pico@.items, ..old(pico)@ }));
        }
        i = i + 1;
    }
    proof {
        assert(spec_filled_upto(its0, its0.len() as int) == spec_filled(its0));
        assert(pico@ =~~= (PicoV { items: spec_filled(its0), ..old(pico)@ }));
        assert(pico@.wf()) by {
            let q = pico@;
            assert(forall|j: int|
                0 <= j < q.items.len() ==> (#[trigger] q.items[j]) == spec_fill_item(its0[j]));
        }
    }
}

fn order_before(items: &Vec<ProcessedPicoItem>, a: usize, b: usize) -> (r: bool)
    requires
        a < items@.len(),
        b < items@.len(),
    ensures
        r == spec_before(items@.map_values(|it: ProcessedPicoItem| it@), a as int, b as int),
{
    let da = items[a].depth;
    let db = items[b].depth;
    proof {
        let m = items@.map_values(|it: ProcessedPicoItem| it@);
        assert(m[a as int] == items@[a as int]@);
        assert(m[b as int] == items@[b as int]@);
    }
    da > db || (da == db && a < b)
}

proof fn lemma_insert_idx_at(items: Seq<PItemV>, x: int, s: Seq<int>, j: int)
    requires
        0 <= j <= s.len(),
        forall|t: int| 0 <= t < j ==> !spec_before(items, x, #[trigger] s[t]),
        j < s.len() ==> spec_before(items, x, s[j]),
    ensures
        spec_insert_idx(items, x, s) == s.take(j) + seq![x] + s.skip(j),
    decreases s.len(),
{
    if s.len() == 0 {
        assert(spec_insert_idx(items, x, s) =~= s.take(0) + seq![x] + s.skip(0));
    } else if j == 0 {
        if spec_before(items, x, s[0]) {
            assert(spec_insert_idx(items, x, s) =~= s.take(0) + seq![x] + s.skip(0));
        } else {
            assert(false);
        }
    } else {
        assert(!spec_before(items, x, s[0]));
        let s1 = s.drop_first();
        assert(forall|t: int| 0 <= t < j - 1 ==> !spec_before(items, x, #[trigger] s1[t]));
        assert(j - 1 < s1.len() ==> spec_before(items, x, s1[j - 1]));
        lemma_insert_idx_at(items, x, s1, j - 1);
        assert(spec_insert_idx(items, x, s) == seq![s[0]] + spec_insert_idx(items, x, s1));
        assert(seq![s[0]] + (s1.take(j - 1) + seq![x] + s1.skip(j - 1)) =~= s.take(j) + seq![x]
            + s.skip(j));
    }
}

fn sort_phase(pico: &Pico) -> (order: Vec<usize>)
    ensures
        order@.map_values(|u: usize| u as int) == spec_order(pico@.items),
        order@.len() == pico@.items.len(),
        forall|t: int| 0 <= t < order@.len() ==> (#[trigger] order@[t]) < pico@.items.len(),
{
    let ghost items = pico@.items;
    let n = pico.items.len();
    let mut order: Vec<usize> = Vec::new();
    let mut i: usize = 0;
    proof {
        assert(order@.map_values(|u: usize| u as int) =~= spec_order_upto(items, 0));
    }
    while i < n
        invariant
            0 <= i <= n,
            n == pico.items@.len(),
            items == pico@.items,
            order@.map_values(|u: usize| u as int) == spec_order_upto(items, i as int),
            order@.len() == i,
            forall|t: int| 0 <= t < order@.len() ==> (#[trigger] order@[t]) < n,
        decreases n - i,
    {
        let ghost s = order@.map_values(|u: usize| u as int);
        let mut j: usize = 0;
        let mut found = false;
        while !found && j < order.len()
            invariant
                0 <= j <= order@.len(),
                i < n,
                n == pico.items@.len(),
                items == pico@.items,
                s == order@.map_values(|u: usize| u as int),
                forall|t: int| 0 <= t < order@.len() ==> (#[trigger] order@[t]) < n,
                forall|t: int| 0 <= t < j ==> !spec_before(items, i as int, #[trigger] s[t]),
                found ==> j < order@.len() && spec_before(items, i as int, s[j as int]),
            decreases order@.len() - j, (if found { 0int } else { 1int }),
        {
            proof {
                assert(s[j as int] == order@[j as int] as int);
            }
            if order_before(&pico.items, i, order[j]) {
                found = true;
            } else {
                j = j + 1;
            }
        }
        proof {
            assert(j < order@.len() ==> spec_before(items, i as int, s[j as int]));
            lemma_insert_idx_at(items, i as int, s, j as int);
        }
        order.insert(j, i);
        proof {
            assert(order@.map_values(|u: usize| u as int) =~= s.take(j as int) + seq![i as int]
                + s.skip(j as int));
            assert(order@.map_values(|u: usize| u as int) == spec_order_upto(
                items,
                i as int + 1,
            ));
        }
        i = i + 1;
    }
    order
}

#[verifier::rlimit(100)]
#[verifier::spinoff_prover]
fn sweep_phase(
    pico: &mut Pico,
    env: &FrameEnv,
    order: &Vec<usize>,
    dragging: bool,
    inter0: bool,
    cmds: &mut Vec<ProxyCommand>,
) -> (interacting: bool)
    requires
        old(pico)@.wf(),
        env.wf(),
        order@.map_values(|u: usize| u as int) == spec_order(old(pico)@.items),
        order@.len() == old(pico)@.items.len(),
        forall|t: int| 0 <= t < order@.len() ==> (#[trigger] order@[t]) < old(pico)@.items.len(),
    ensures
        ({
            let sw = spec_sweep_upto(
                old(pico)@.items,
                spec_order(old(pico)@.items),
                SweepSt {
                    state: old(pico)@.state,
                    latch: false,
                    interacting: inter0,
                    dragging,
                    cmds: cmds_view(old(cmds)@),
                },
                *env,
                old(pico)@.items.len() as int,
            );
            &&& final(pico)@ == (PicoV { state: sw.state, ..old(pico)@ })
            &&& cmds_view(final(cmds)@) == sw.cmds
            &&& interacting == sw.interacting
            &&& final(pico)@.wf()
        }),
{
    let ghost items = pico@.items;
    let ghost ord = spec_order(items);
    let ghost st0 = SweepSt {
        state: pico@.state,
        latch: false,
        interacting: inter0,
        dragging,
        cmds: cmds_view(cmds@),
    };
    let mut latch = false;
    let mut interacting = inter0;
    let mut k: usize = 0;
    while k < order.len()
        invariant
            0 <= k <= order@.len(),
            env.wf(),
            ord == spec_order(items),
            order@.map_values(|u: usize| u as int) == ord,
            order@.len() == items.len(),
            forall|t: int| 0 <= t < order@.len() ==> (#[trigger] order@[t]) < items.len(),
            items == pico@.items,
            pico@ == (PicoV { state: entries_view(pico.state@), ..old(pico)@ }),
            ({
                let sw = spec_sweep_upto(items, ord, st0, *env, k as int);
                &&& entries_view(pico.state@) == sw.state
                &&& latch == sw.latch
                &&& interacting == sw.interacting
                &&& dragging == sw.dragging
                &&& cmds_view(cmds@) == sw.cmds
            }),
            forall|j: int| 0 <= j < items.len() ==> (#[trigger] items[j]).wf(),
            forall|j: int|
                0 <= j < entries_view(pico.state@).len() ==> (#[trigger] entries_view(
                    pico.state@,
                )[j]).1.wf(),
            keys_distinct(entries_view(pico.state@)),
        decreases order@.len() - k,
    {
        let i = order[k];
        proof {
            assert(pico@.items[i as int] == pico.items@[i as int]@);
            assert(ord[k as int] == order@[k as int] as int);
        }
        let it_key = pico.items[i].spatial_id;
        let it_pos = pico.items[i].uv_position;
        let it_depth = pico.items[i].depth;
        let it_bbox = pico.items[i].bbox;
        let it_life = pico.items[i].life;
        let ghost pre = spec_sweep_upto(items, ord, st0, *env, k as int);
        let ghost stepped = spec_sweep_step(pre, items, ord[k as int], *env);
        match find_entry(&pico.state, it_key) {
            None => {
                proof {
                    assert(stepped == pre);
                }
            }
            Some(j) => {
                proof {
                    crate::statemap::lemma_find_key(pre.state, it_key);
                }
                cmds.push(
                    ProxyCommand::Reposition {
                        spatial_id: it_key,
                        position: it_pos,
                        depth: it_depth,
                    },
                );
                let cur_pt = env.cursor;
                let e_inter = pico.state[j].item.interactable;
                let hit = e_inter && !latch && match cur_pt {
                    Some(c) => contains(&it_bbox, c),
                    None => false,
                };
                let ghost prev_vec = pico.state@;
                let e = &mut pico.state[j];
                e.item.life = refresh_life(e.item.life, it_life);
                e.item.bbox = it_bbox;
                if hit {
                    e.item.hover = true;
                    e.item.input = Some(env.buttons);
                    if env.buttons.just_pressed && !dragging && e.item.drag.is_none() {
                        let c = cur_pt.unwrap();
                        e.item.drag = Some(Drag { start: c, end: c, last_frame: c });
                    }
                }
                if hit && env.any_just_pressed {
                    latch = true;
                    interacting = true;
                }
                proof {
                    assert(pico.state@ == prev_vec.update(j as int, pico.state@[j as int]));
                    assert(entries_view(pico.state@) =~= stepped.state) by {
                        let lhs = entries_view(pico.state@);
                        assert forall|t: int| 0 <= t < lhs.len() implies lhs[t]
                            == stepped.state[t] by {
                            assert(lhs[t] == pico.state@[t]@);
                            if t != j as int {
                                assert(pico.state@[t] == prev_vec[t]);
                                assert(entries_view(prev_vec)[t] == prev_vec[t]@);
                            }
                        }
                    }
                    assert(cmds_view(cmds@) =~= stepped.cmds) by {
                        let lhs = cmds_view(cmds@);
                        assert forall|t: int| 0 <= t < lhs.len() implies lhs[t]
                            == stepped.cmds[t] by {
                            assert(lhs[t] == cmds@[t]@);
                            if t < lhs.len() - 1 {
                                assert(cmds@[t] == old(cmds)@[t] || true);
                                assert(cmds_view(cmds@.take(cmds@.len() - 1))[t] == cmds@[t]@);
                            }
                        }
                    }
                    assert(latch == stepped.latch);
                    assert(interacting == stepped.interacting);
                }
            }
        }
        proof {
            assert(spec_sweep_upto(items, ord, st0, *env, k as int + 1) == stepped);
            assert(pico@ =~~= (PicoV { state: entries_view(pico.state@), ..old(pico)@ }));
        }
        k = k + 1;
    }
    proof {
        let sw = spec_sweep_upto(items, ord, st0, *env, items.len() as int);
        assert(pico@ =~~= (PicoV { state: sw.state, ..old(pico)@ }));
        assert(pico@.wf());
    }
    interacting
}

#[verifier::rlimit(100)]
#[verifier::spinoff_prover]
fn reconcile_phase(
    pico: &mut Pico,
    order: &Vec<usize>,
    window_changed: bool,
    cmds: &mut Vec<ProxyCommand>,
)
    requires
        old(pico)@.wf(),
        order@.map_values(|u: usize| u as int) == spec_order(old(pico)@.items),
        order@.len() == old(pico)@.items.len(),
        forall|t: int| 0 <= t < order@.len() ==> (#[trigger] order@[t]) < old(pico)@.items.len(),
        forall|j: int| 0 <= j < old(pico)@.items.len() ==> (#[trigger] old(pico)@.items[j]).id
            is Some,
    ensures
        ({
            let rc = spec_rec_upto(
                old(pico)@.items,
                spec_order(old(pico)@.items),
                RecSt { state: old(pico)@.state, cmds: cmds_view(old(cmds)@) },
                window_changed,
                old(pico)@.items.len() as int,
            );
            &&& final(pico)@ == (PicoV { state: rc.state, ..old(pico)@ })
            &&& cmds_view(final(cmds)@) == rc.cmds
            &&& final(pico)@.wf()
        }),
{
    let ghost items = pico@.items;
    let ghost ord = spec_order(items);
    let ghost st0 = RecSt { state: pico@.state, cmds: cmds_view(cmds@) };
    let mut k: usize = 0;
    while k < order.len()
        invariant
            0 <= k <= order@.len(),
            ord == spec_order(items),
            order@.map_values(|u: usize| u as int) == ord,
            order@.len() == items.len(),
            forall|t: int| 0 <= t < order@.len() ==> (#[trigger] order@[t]) < items.len(),
            forall|j: int| 0 <= j < items.len() ==> (#[trigger] items[j]).id is Some,
            items == pico@.items,
            pico@ == (PicoV { state: entries_view(pico.state@), ..old(pico)@ }),
            ({
                let rc = spec_rec_upto(items, ord, st0, window_changed, k as int);
                &&& entries_view(pico.state@) == rc.state
                &&& cmds_view(cmds@) == rc.cmds
            }),
            forall|j: int| 0 <= j < items.len() ==> (#[trigger] items[j]).wf(),
            forall|j: int|
                0 <= j < entries_view(pico.state@).len() ==> (#[trigger] entries_view(
                    pico.state@,
                )[j]).1.wf(),
            keys_distinct(entries_view(pico.state@)),
        decreases order@.len() - k,
    {
        let i = order[k];
        proof {
            assert(pico@.items[i as int] == pico.items@[i as int]@);
            assert(ord[k as int] == order@[k as int] as int);
        }
        let it_key = pico.items[i].spatial_id;
        let it_pos = pico.items[i].uv_position;
        let it_size = pico.items[i].uv_size;
        let it_depth = pico.items[i].depth;
        let it_bbox = pico.items[i].bbox;
        let it_life = pico.items[i].life;
        let it_anchor = pico.items[i].anchor;
        let it_anchor_text = pico.items[i].style.anchor_text;
        let idv = match pico.items[i].id {
            Some(v) => v,
            None => {
                proof {
                    assert(items[i as int].id is Some);
                    assert(false);
                }
                0
            }
        };
        let ghost pre = spec_rec_upto(items, ord, st0, window_changed, k as int);
        let ghost stepped = spec_rec_step(pre, items, ord[k as int], window_changed);
        let size_positive = it_size.x > 0 || it_size.y > 0;
        match find_entry(&pico.state, it_key) {
            Some(j) => {
                proof {
                    crate::statemap::lemma_find_key(pre.state, it_key);
                }
                let gen = pico.state[j].item.id != idv;
                if gen || window_changed {
                    let inter = if size_positive {
                        true
                    } else {
                        pico.state[j].item.interactable
                    };
                    cmds.push(ProxyCommand::Destroy { spatial_id: it_key });
                    cmds.push(
                        ProxyCommand::Create {
                            spatial_id: it_key,
                            position: it_pos,
                            size: it_size,
                            depth: it_depth,
                            anchor: it_anchor,
                            anchor_text: it_anchor_text,
                            text: pico.items[i].text.clone(),
                            style_words: copy_words(&pico.items[i].style.words),
                            interactable: inter,
                        },
                    );
                    let ghost prev_vec = pico.state@;
                    let e = &mut pico.state[j];
                    e.item.id = idv;
                    e.item.bbox = it_bbox;
                    e.item.interactable = inter;
                    proof {
                        assert(pico.state@ == prev_vec.update(j as int, pico.state@[j as int]));
                        assert(entries_view(pico.state@) =~= stepped.state) by {
                            let lhs = entries_view(pico.state@);
                            assert forall|t: int| 0 <= t < lhs.len() implies lhs[t]
                                == stepped.state[t] by {
                                assert(lhs[t] == pico.state@[t]@);
                                if t != j as int {
                                    assert(pico.state@[t] == prev_vec[t]);
                                    assert(entries_view(prev_vec)[t] == prev_vec[t]@);
                                }
                            }
                        }
                        assert(cmds_view(cmds@) =~= stepped.cmds) by {
                            let lhs = cmds_view(cmds@);
                            assert forall|t: int| 0 <= t < lhs.len() implies lhs[t]
                                == stepped.cmds[t] by {
                                assert(lhs[t] == cmds@[t]@);
                                if t < lhs.len() - 2 {
                                    assert(cmds_view(cmds@.take(cmds@.len() - 2))[t]
                                        == cmds@[t]@);
                                }
                            }
                        }
                    }
                } else {
                    proof {
                        assert(stepped == pre);
                    }
                }
            }
            None => {
                proof {
                    crate::statemap::lemma_find_key(pre.state, it_key);
                }
                let inter = size_positive;
                let mut fresh = StateItem::default();
                fresh.life = it_life;
                fresh.id = idv;
                fresh.bbox = it_bbox;
                fresh.interactable = inter;
                let ghost prev_vec = pico.state@;
                pico.state.push(StateEntry { key: it_key, item: fresh });
                cmds.push(
                    ProxyCommand::Create {
                        spatial_id: it_key,
                        position: it_pos,
                        size: it_size,
                        depth: it_depth,
                        anchor: it_anchor,
                        anchor_text: it_anchor_text,
                        text: pico.items[i].text.clone(),
                        style_words: copy_words(&pico.items[i].style.words),
                        interactable: inter,
                    },
                );
                proof {
                    assert(entries_view(pico.state@) =~= stepped.state) by {
                        let lhs = entries_view(pico.state@);
                        assert forall|t: int| 0 <= t < lhs.len() implies lhs[t]
                            == stepped.state[t] by {
                            assert(lhs[t] == pico.state@[t]@);
                            if t < lhs.len() - 1 {
                                assert(pico.state@[t] == prev_vec[t]);
                                assert(entries_view(prev_vec)[t] == prev_vec[t]@);
                            }
                        }
                    }
                    assert(cmds_view(cmds@) =~= stepped.cmds) by {
                        let lhs = cmds_view(cmds@);
                        assert forall|t: int| 0 <= t < lhs.len() implies lhs[t]
                            == stepped.cmds[t] by {
                            assert(lhs[t] == cmds@[t]@);
                            if t < lhs.len() - 1 {
                                assert(cmds_view(cmds@.take(cmds@.len() - 1))[t] == cmds@[t]@);
                            }
                        }
                    }
                    assert(keys_distinct(entries_view(pico.state@)));
                }
            }
        }
        proof {
            assert(spec_rec_upto(items, ord, st0, window_changed, k as int + 1) == stepped);
            assert(pico@ =~~= (PicoV { state: entries_view(pico.state@), ..old(pico)@ }));
        }
        k = k + 1;
    }
    proof {
        let rc = spec_rec_upto(items, ord, st0, window_changed, items.len() as int);
        assert(pico@ =~~= (PicoV { state: rc.state, ..old(pico)@ }));
        assert(pico@.wf());
    }
}

#[verifier::rlimit(100)]
#[verifier::spinoff_prover]
fn gc_phase(pico: &mut Pico, cmds: &mut Vec<ProxyCommand>)
    requires
        old(pico)@.wf(),
    ensures
        final(pico)@ == (PicoV { state: spec_gc(old(pico)@.state).0, ..old(pico)@ }),
        cmds_view(final(cmds)@) == cmds_view(old(cmds)@) + spec_gc(old(pico)@.state).1,
        final(pico)@.wf(),
{
    let ghost orig = pico@.state;
    let ghost base = cmds_view(cmds@);
    let ghost mut j: int = 0;
    let mut idx: usize = 0;
    proof {
        assert(entries_view(pico.state@) =~= spec_gc_upto(orig, 0).0 + orig.skip(0));
        assert(cmds_view(cmds@) =~= base + spec_gc_upto(orig, 0).1);
    }
    while idx < pico.state.len()
        invariant
            0 <= j <= orig.len(),
            idx == spec_gc_upto(orig, j).0.len(),
            entries_view(pico.state@) == spec_gc_upto(orig, j).0 + orig.skip(j),
            cmds_view(cmds@) == base + spec_gc_upto(orig, j).1,
            pico@ == (PicoV { state: entries_view(pico.state@), ..old(pico)@ }),
            forall|t: int| 0 <= t < orig.len() ==> (#[trigger] orig[t]).1.wf(),
            keys_distinct(orig),
        decreases orig.len() - j,
    {
        proof {
            if j >= orig.len() {
                assert(orig.skip(j) =~= Seq::<(u64, StateV)>::empty());
                assert(entries_view(pico.state@).len() == spec_gc_upto(orig, j).0.len());
                assert(false);
            }
            assert(entries_view(pico.state@)[idx as int] == orig.skip(j)[0]);
            assert(orig.skip(j)[0] == orig[j]);
            assert(entries_view(pico.state@)[idx as int] == pico.state@[idx as int]@);
        }
        let expired = pico.state[idx].item.life.expired();
        if expired {
            let key = pico.state[idx].key;
            let ghost cprev = cmds@;
            cmds.push(ProxyCommand::Destroy { spatial_id: key });
            let ghost prev_vec = pico.state@;
            let _removed = pico.state.remove(idx);
            proof {
                let jm = j;
                j = j + 1;
                let keptm = spec_gc_upto(orig, jm).0;
                let kept = spec_gc_upto(orig, j).0;
                assert(orig[jm].1.life.spec_expired());
                assert(kept == keptm);
                assert(keptm.len() == idx as int);
                assert(entries_view(prev_vec).len() == prev_vec.len());
                assert(entries_view(prev_vec) == keptm + orig.skip(jm));
                assert(prev_vec.len() == keptm.len() + orig.len() - jm);
                assert(pico.state@.len() == prev_vec.len() - 1);
                assert forall|t: int| 0 <= t < pico.state@.len() implies entries_view(
                    pico.state@,
                )[t] == (kept + orig.skip(j))[t] by {
                    assert(entries_view(pico.state@)[t] == pico.state@[t]@);
                    if t < idx as int {
                        assert(pico.state@[t] == prev_vec[t]);
                        assert(entries_view(prev_vec)[t] == prev_vec[t]@);
                        assert((keptm + orig.skip(jm))[t] == keptm[t]);
                        assert((kept + orig.skip(j))[t] == kept[t]);
                    } else {
                        assert(pico.state@[t] == prev_vec[t + 1]);
                        assert(entries_view(prev_vec)[t + 1] == prev_vec[t + 1]@);
                        assert((keptm + orig.skip(jm))[t + 1] == orig.skip(jm)[t + 1 - idx]);
                        assert(orig.skip(jm)[t + 1 - idx] == orig[jm + t + 1 - idx]);
                        assert((kept + orig.skip(j))[t] == orig.skip(j)[t - idx]);
                        assert(orig.skip(j)[t - idx] == orig[j + t - idx]);
                    }
                }
                assert(entries_view(pico.state@) =~= kept + orig.skip(j));
                assert(spec_gc_upto(orig, j).1 == spec_gc_upto(orig, jm).1.push(
                    CmdV::Destroy { spatial_id: orig[jm].0 },
                ));
                assert(key == orig[jm].0);
                assert(cmds_view(cmds@) =~= base + spec_gc_upto(orig, j).1) by {
                    let lhs = cmds_view(cmds@);
                    let rhs = base + spec_gc_upto(orig, j).1;
                    assert(cmds@ == cprev.push(ProxyCommand::Destroy { spatial_id: key }));
                    assert(cmds_view(cprev) == base + spec_gc_upto(orig, jm).1);
                    assert(cmds_view(cprev).len() == cprev.len());
                    assert(lhs.len() == cmds@.len());
                    assert forall|t: int| 0 <= t < lhs.len() implies lhs[t] == rhs[t] by {
                        assert(lhs[t] == cmds@[t]@);
                        if t < lhs.len() - 1 {
                            assert(cmds@[t] == cprev[t]);
                            assert(cmds_view(cprev)[t] == cprev[t]@);
                        } else {
                            assert(cmds@[t]@ == (CmdV::Destroy { spatial_id: key }));
                        }
                    }
                }
                assert(pico@ =~~= (PicoV { state: entries_view(pico.state@), ..old(pico)@ }));
            }
        } else {
            proof {
                j = j + 1;
                assert(spec_gc_upto(orig, j).0 =~= spec_gc_upto(orig, j - 1).0.push(orig[j - 1]));
                assert(entries_view(pico.state@) =~= spec_gc_upto(orig, j).0 + orig.skip(j)) by {
                    let lhs = entries_view(pico.state@);
                    let rhs = spec_gc_upto(orig, j).0 + orig.skip(j);
                    assert forall|t: int| 0 <= t < lhs.len() implies lhs[t] == rhs[t] by {
                        assert(lhs[t] == pico.state@[t]@);
                        assert((spec_gc_upto(orig, j - 1).0 + orig.skip(j - 1))[t] == lhs[t]);
                    }
                }
            }
            idx = idx + 1;
        }
    }
    proof {
        assert(j == orig.len()) by {
            if j < orig.len() {
                assert(orig.skip(j).len() > 0);
                assert(entries_view(pico.state@).len() == spec_gc_upto(orig, j).0.len());
            }
        }
        assert(orig.skip(j) =~= Seq::<(u64, StateV)>::empty());
        assert(entries_view(pico.state@) =~= spec_gc(orig).0);
        assert(pico@ =~~= (PicoV { state: spec_gc(orig).0, ..old(pico)@ }));
        assert(pico@.wf()) by {
            lemma_gc_wf(orig);
        }
    }
}

/// Key uniqueness survives collection on its own.
pub proof fn lemma_gc_distinct(state: Seq<(u64, StateV)>)
    requires
        keys_distinct(state),
    ensures
        keys_distinct(spec_gc(state).0),
{
    let kept = spec_gc(state).0;
    lemma_gc_membership(state, state.len() as int);
    assert forall|a: int, b: int| 0 <= a < b < kept.len() implies kept[a].0 != kept[b].0 by {
        lemma_gc_order(state, state.len() as int, a, b);
    }
}

/// GC keeps a sub-sequence: well-formedness and key uniqueness survive.
pub proof fn lemma_gc_membership(state: Seq<(u64, StateV)>, k: int)
    requires
        0 <= k <= state.len(),
    ensures
        forall|a: int|
            0 <= a < spec_gc_upto(state, k).0.len() ==> exists|b: int|
                0 <= b < k && #[trigger] spec_gc_upto(state, k).0[a] == state[b]
                    && spec_gc_upto(state, k).0.len() - a <= k - b,
    decreases k,
{
    if k > 0 {
        lemma_gc_membership(state, k - 1);
        let cur = spec_gc_upto(state, k).0;
        let prev = spec_gc_upto(state, k - 1).0;
        if !state[k - 1].1.life.spec_expired() {
            assert forall|a: int| 0 <= a < cur.len() implies exists|b: int|
                0 <= b < k && #[trigger] cur[a] == state[b] && cur.len() - a <= k - b by {
                if a < prev.len() {
                    let b = choose|b: int|
                        0 <= b < k - 1 && #[trigger] prev[a] == state[b] && prev.len() - a <= k - 1
                            - b;
                    assert(cur[a] == prev[a]);
                    assert(0 <= b < k && cur[a] == state[b] && cur.len() - a <= k - b);
                } else {
                    assert(cur[a] == state[k - 1]);
                    assert(cur.len() - a <= k - (k - 1));
                }
            }
        }
    }
}

pub proof fn lemma_gc_wf(state: Seq<(u64, StateV)>)
    requires
        keys_distinct(state),
        forall|t: int| 0 <= t < state.len() ==> (#[trigger] state[t]).1.wf(),
    ensures
        keys_distinct(spec_gc(state).0),
        forall|t: int| 0 <= t < spec_gc(state).0.len() ==> (#[trigger] spec_gc(state).0[t]).1.wf(),
    decreases state.len(),
{
    let kept = spec_gc(state).0;
    lemma_gc_membership(state, state.len() as int);
    assert forall|a: int, b: int| 0 <= a < b < kept.len() implies kept[a].0 != kept[b].0 by {
        let sa = choose|s: int|
            0 <= s < state.len() && #[trigger] kept[a] == state[s] && kept.len() - a <= state.len()
                - s;
        let sb = choose|s: int|
            0 <= s < state.len() && #[trigger] kept[b] == state[s] && kept.len() - b <= state.len()
                - s;
        if sa == sb {
            assert(kept.len() - a <= state.len() - sa);
            assert(kept.len() - b <= state.len() - sa);
            // a < b but both map to the same source suffix bound; show order
            lemma_gc_order(state, state.len() as int, a, b);
        } else {
            assert(kept[a].0 == state[sa].0);
            assert(kept[b].0 == state[sb].0);
            if sa < sb {
                assert(state[sa].0 != state[sb].0);
            } else {
                lemma_gc_order(state, state.len() as int, a, b);
            }
        }
    }
    assert forall|t: int| 0 <= t < kept.len() implies (#[trigger] kept[t]).1.wf() by {
        let s = choose|s: int|
            0 <= s < state.len() && #[trigger] kept[t] == state[s] && kept.len() - t <= state.len()
                - s;
        assert(state[s].1.wf());
    }
}

/// Kept entries preserve their source order: the `a`-th kept entry comes
/// from a strictly earlier source index than the `b`-th, for `a < b`.
proof fn lemma_gc_order(state: Seq<(u64, StateV)>, k: int, a: int, b: int)
    requires
        0 <= k <= state.len(),
        0 <= a < b < spec_gc_upto(state, k).0.len(),
        keys_distinct(state),
    ensures
        exists|sa: int, sb: int|
            0 <= sa < sb < k && #[trigger] spec_gc_upto(state, k).0[a] == state[sa]
                && #[trigger] spec_gc_upto(state, k).0[b] == state[sb],
    decreases k,
{
    if k > 0 {
        let cur = spec_gc_upto(state, k).0;
        let prev = spec_gc_upto(state, k - 1).0;
        if !state[k - 1].1.life.spec_expired() {
            if b < prev.len() {
                lemma_gc_order(state, k - 1, a, b);
                let (sa, sb): (int, int) = choose|sa: int, sb: int|
                    0 <= sa < sb < k - 1 && #[trigger] prev[a] == state[sa] && #[trigger] prev[b]
                        == state[sb];
                assert(cur[a] == prev[a] && cur[b] == prev[b]);
                assert(0 <= sa < sb < k && cur[a] == state[sa] && cur[b] == state[sb]);
            } else {
                assert(b == prev.len());
                assert(cur[b] == state[k - 1]);
                lemma_gc_membership(state, k - 1);
                let sa = choose|s: int|
                    0 <= s < k - 1 && #[trigger] prev[a] == state[s] && prev.len() - a <= k - 1
                        - s;
                assert(cur[a] == prev[a]);
                assert(0 <= sa < k - 1 < k && cur[a] == state[sa] && cur[b] == state[k - 1]);
            }
        } else {
            lemma_gc_order(state, k - 1, a, b);
            let (sa, sb): (int, int) = choose|sa: int, sb: int|
                0 <= sa < sb < k - 1 && #[trigger] prev[a] == state[sa] && #[trigger] prev[b]
                    == state[sb];
            assert(cur[a] == prev[a] && cur[b] == prev[b]);
        }
    }
}

/// The frame pass. Ages and sweeps the cache, reconciles every declared
/// item against it, purges expired entries, consumes the declaration list
/// and publishes the frame environment; the returned commands tell the
/// host what to do with its visual proxies. A missing window leaves
/// everything untouched.
pub fn render(pico: &mut Pico, env: &FrameEnv) -> (cmds: Vec<ProxyCommand>)
    requires
        old(pico)@.wf(),
        env.wf(),
    ensures
        final(pico)@ == spec_frame(old(pico)@, *env).0,
        cmds_view(cmds@) == spec_frame(old(pico)@, *env).1,
        final(pico)@.wf(),
{
    let ghost p0 = pico@;
    let win = match env.window {
        Some(w) => w,
        None => {
            let r: Vec<ProxyCommand> = Vec::new();
            proof {
                assert(cmds_view(r@) =~= Seq::<CmdV>::empty());
            }
            return r;
        }
    };
    let mut cmds: Vec<ProxyCommand> = Vec::new();
    let dragging = age_phase(pico, env);
    fill_phase(pico);
    let ghost items = pico@.items;
    let order = sort_phase(pico);
    let window_changed = !(pico.window_size == win);
    proof {
        assert(cmds_view(cmds@) =~= Seq::<CmdV>::empty());
        assert(items == spec_filled(p0.items));
        assert(pico@.state == spec_aged(p0.state, *env));
    }
    let interacting = sweep_phase(pico, env, &order, dragging, dragging, &mut cmds);
    proof {
        let st0 = SweepSt {
            state: spec_aged(p0.state, *env),
            latch: false,
            interacting: dragging,
            dragging,
            cmds: Seq::empty(),
        };
        assert(st0 == spec_sweep_init(p0, *env));
    }
    reconcile_phase(pico, &order, window_changed, &mut cmds);
    gc_phase(pico, &mut cmds);
    pico.items = Vec::new();
    pico.stack_stack = Vec::new();
    pico.stack_guard = 0;
    pico.interacting = interacting;
    pico.window_size = win;
    pico.mouse_button_input = Some(env.buttons);
    pico.internal_auto_depth = AUTO_DEPTH_BASE;
    proof {
        assert(pico@.items =~= Seq::<PItemV>::empty());
        assert(pico@ =~~= spec_frame(p0, *env).0);
        assert(cmds_view(cmds@) == spec_frame(p0, *env).1);
        assert(pico@.wf());
    }
    cmds
}

} // verus!
