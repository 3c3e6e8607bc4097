//! The per-frame declaration engine: the `Pico` resource, flow-layout
//! stacks, unit resolution against the current window, and the read
//! accessors widgets use to query last frame's interaction results.

use vstd::prelude::*;
use crate::fixed::{
    cadd, cmax, cmin, csub, in_range, muldiv, spec_cadd, spec_csub, spec_muldiv, imax, imin,
    COORD_MAX, UV_ONE,
};
use crate::geom::{
    extent, get_bbox, lerp2, spec_anchor_x, spec_anchor_y, spec_extent, spec_full_box,
    spec_get_bbox, spec_lerp2, Anchor, BBox, Vec2Fx,
};
use crate::item::{ItemIndex, ItemV, PicoItem, PItemV, ProcessedPicoItem};
use crate::state::{ButtonSnapshot, StateItem, StateV, StorageValue};
use crate::statemap::{entries_view, find_entry, find_key, keys_distinct, StateEntry};
use crate::units::{resolve_x, resolve_y, spec_resolve_x, spec_resolve_y, Val};

verus! {

/// Depth distance inserted between auto-assigned items; one fixed-point
/// step, so a million auto items fit between two explicit depth units.
pub const MAJOR_DEPTH_AUTO_STEP: i64 = 1;

/// Where the per-frame auto-depth counter restarts: 0.5 in fixed point.
pub const AUTO_DEPTH_BASE: i64 = 500_000;

/// A flow-layout cursor scoped to one parent. `end` is the running offset
/// along the active axis, in normalized units within the parent.
#[derive(Clone, Copy, Debug)]
pub struct Stack {
    pub end: i64,
    pub margin: i64,
    pub vertical: bool,
    pub reverse: bool,
    pub bypass: bool,
    pub parent: Option<ItemIndex>,
}

impl Stack {
    pub open spec fn wf(self, n_items: int) -> bool {
        &&& in_range(self.end as int)
        &&& in_range(self.margin as int)
        &&& match self.parent {
            Option::Some(p) => p.0 < n_items,
            Option::None => true,
        }
    }
}

impl Default for Stack {
    fn default() -> (r: Self)
        ensures
            r == spec_default_stack(),
    {
        Stack { end: 0, margin: 0, vertical: false, reverse: false, bypass: false, parent: None }
    }
}

pub open spec fn spec_default_stack() -> Stack {
    Stack { end: 0, margin: 0, vertical: false, reverse: false, bypass: false, parent: None }
}

/// A scope token for an open stack: its position in the stack of stacks.
/// Dropping the scope is explicit here: `Pico::pop_stack` releases the most
/// recent guard, and stale frames are lazily discarded on the next use.
#[derive(Clone, Copy, Debug, PartialEq, Eq, Structural)]
pub struct Guard {
    pub level: usize,
}

impl Guard {
    pub fn get(&self) -> (r: usize)
        ensures
            r == self.level,
    {
        self.level
    }
}

/// The abstract state of the engine.
#[verifier::ext_equal]
pub struct PicoV {
    pub state: Seq<(u64, StateV)>,
    pub items: Seq<PItemV>,
    pub interacting: bool,
    pub stack_stack: Seq<Stack>,
    pub stack_guard: int,
    pub window_size: Vec2Fx,
    pub mouse_button_input: Option<ButtonSnapshot>,
    pub internal_auto_depth: i64,
}

/// The engine. Declarations accumulate in `items` between frame passes;
/// `state` is the persistent cache keyed by geometry key.
pub struct Pico {
    pub state: Vec<StateEntry>,
    pub items: Vec<ProcessedPicoItem>,
    pub interacting: bool,
    pub stack_stack: Vec<Stack>,
    pub stack_guard: usize,
    /// Window size in whole pixels.
    pub window_size: Vec2Fx,
    /// Primary-button snapshot published by the last frame pass.
    pub mouse_button_input: Option<ButtonSnapshot>,
    pub internal_auto_depth: i64,
}

impl View for Pico {
    type V = PicoV;

    open spec fn view(&self) -> PicoV {
        PicoV {
            state: entries_view(self.state@),
            items: self.items@.map_values(|it: ProcessedPicoItem| it@),
            interacting: self.interacting,
            stack_stack: self.stack_stack@,
            stack_guard: self.stack_guard as int,
            window_size: self.window_size,
            mouse_button_input: self.mouse_button_input,
            internal_auto_depth: self.internal_auto_depth,
        }
    }
}

impl PicoV {
    /// Engine invariant: parents resolve strictly earlier, every stored
    /// value is in coordinate range, and cache keys are unique.
    pub open spec fn wf(self) -> bool {
        &&& forall|i: int|
            0 <= i < self.items.len() ==> (#[trigger] self.items[i]).wf()
        &&& forall|i: int|
            0 <= i < self.items.len() ==> match (#[trigger] self.items[i]).parent {
                Option::Some(p) => p.0 < i,
                Option::None => true,
            }
        &&& keys_distinct(self.state)
        &&& forall|i: int| 0 <= i < self.state.len() ==> (#[trigger] self.state[i]).1.wf()
        &&& forall|i: int|
            0 <= i < self.stack_stack.len() ==> (#[trigger] self.stack_stack[i]).wf(
                self.items.len() as int,
            )
        &&& self.window_size.wf()
        &&& self.window_size.x >= 0
        &&& self.window_size.y >= 0
        &&& in_range(self.internal_auto_depth as int)
        &&& self.stack_guard >= 0
    }

    /// The cache entry a resolved item maps to, if any.
    pub open spec fn spec_get_state(self, index: int) -> Option<StateV> {
        let key = self.items[index].spatial_id;
        match find_key(self.state, key) {
            Some(i) => Some(self.state[i].1),
            None => None,
        }
    }

    pub open spec fn spec_hovered(self, index: int) -> bool {
        match self.spec_get_state(index) {
            Some(st) => st.hover,
            None => false,
        }
    }

    pub open spec fn spec_clicked(self, index: int) -> bool {
        match self.spec_get_state(index) {
            Some(st) => st.hover && match st.input {
                Some(b) => b.just_pressed,
                None => false,
            },
            None => false,
        }
    }

    pub open spec fn spec_released(self, index: int) -> bool {
        match self.spec_get_state(index) {
            Some(st) => st.hover && match st.input {
                Some(b) => b.just_released,
                None => false,
            },
            None => false,
        }
    }
}

/// Stale stack frames above the guard level are discarded; self-healing
/// against inconsistent guard nesting.
pub open spec fn stack_trim(stack: Seq<Stack>, guard: int) -> Seq<Stack> {
    if guard < stack.len() {
        if guard >= 0 {
            stack.take(guard)
        } else {
            stack.take(0)
        }
    } else {
        stack
    }
}

impl Default for Pico {
    fn default() -> (r: Self)
        ensures
            r@ == spec_default_pico(),
            r@.wf(),
    {
        let r = Pico {
            state: Vec::new(),
            items: Vec::new(),
            interacting: false,
            stack_stack: Vec::new(),
            stack_guard: 0,
            window_size: Vec2Fx { x: 0, y: 0 },
            mouse_button_input: None,
            internal_auto_depth: 0,
        };
        proof {
            assert(r@ =~~= spec_default_pico());
        }
        r
    }
}

pub open spec fn spec_default_pico() -> PicoV {
    PicoV {
        state: Seq::empty(),
        items: Seq::empty(),
        interacting: false,
        stack_stack: Seq::empty(),
        stack_guard: 0,
        window_size: Vec2Fx { x: 0, y: 0 },
        mouse_button_input: None,
        internal_auto_depth: 0,
    }
}

impl Pico {
    /// Normalized horizontal extent of a `Val` against a parent extent,
    /// resolved with the current window size.
    pub fn valp_x(&self, x: Val, parent_size: Vec2Fx) -> (r: i64)
        requires
            self@.wf(),
            x.wf(),
            parent_size.wf(),
        ensures
            r as int == spec_resolve_x(self@.window_size, x, parent_size),
            in_range(r as int),
    {
        resolve_x(self.window_size, x, parent_size)
    }

    /// Normalized vertical extent of a `Val` against a parent extent.
    pub fn valp_y(&self, y: Val, parent_size: Vec2Fx) -> (r: i64)
        requires
            self@.wf(),
            y.wf(),
            parent_size.wf(),
        ensures
            r as int == spec_resolve_y(self@.window_size, y, parent_size),
            in_range(r as int),
    {
        resolve_y(self.window_size, y, parent_size)
    }

    /// A `Val` as a fraction of the whole window, horizontally.
    pub fn val_x(&self, v: Val) -> (r: i64)
        requires
            self@.wf(),
            v.wf(),
        ensures
            r as int == spec_resolve_x(
                self@.window_size,
                v,
                Vec2Fx { x: UV_ONE, y: UV_ONE },
            ),
            in_range(r as int),
    {
        resolve_x(self.window_size, v, Vec2Fx { x: UV_ONE, y: UV_ONE })
    }

    /// A `Val` as a fraction of the whole window, vertically.
    pub fn val_y(&self, v: Val) -> (r: i64)
        requires
            self@.wf(),
            v.wf(),
        ensures
            r as int == spec_resolve_y(
                self@.window_size,
                v,
                Vec2Fx { x: UV_ONE, y: UV_ONE },
            ),
            in_range(r as int),
    {
        resolve_y(self.window_size, v, Vec2Fx { x: UV_ONE, y: UV_ONE })
    }

    /// A `Val` in thousandths of a pixel, horizontally.
    pub fn val_x_px(&self, v: Val) -> (r: i64)
        requires
            self@.wf(),
            v.wf(),
        ensures
            r as int == spec_muldiv(
                spec_resolve_x(self@.window_size, v, Vec2Fx { x: UV_ONE, y: UV_ONE }),
                self@.window_size.x as int,
                1000,
            ),
    {
        let u = self.val_x(v);
        muldiv(u, self.window_size.x, 1000)
    }

    /// A `Val` in thousandths of a pixel, vertically.
    pub fn val_y_px(&self, v: Val) -> (r: i64)
        requires
            self@.wf(),
            v.wf(),
        ensures
            r as int == spec_muldiv(
                spec_resolve_y(self@.window_size, v, Vec2Fx { x: UV_ONE, y: UV_ONE }),
                self@.window_size.y as int,
                1000,
            ),
    {
        let u = self.val_y(v);
        muldiv(u, self.window_size.y, 1000)
    }

    /// A normalized extent in thousandths of a pixel.
    pub fn uv_scale_to_px(&self, uv: Vec2Fx) -> (r: Vec2Fx)
        requires
            self@.wf(),
            uv.wf(),
        ensures
            r.x as int == spec_muldiv(uv.x as int, self@.window_size.x as int, 1000),
            r.y as int == spec_muldiv(uv.y as int, self@.window_size.y as int, 1000),
            r.wf(),
    {
        Vec2Fx {
            x: muldiv(uv.x, self.window_size.x, 1000),
            y: muldiv(uv.y, self.window_size.y, 1000),
        }
    }

    /// A normalized position as a window-centered pixel offset (y down),
    /// in thousandths of a pixel.
    pub fn uv_position_to_px(&self, uv: Vec2Fx) -> (r: Vec2Fx)
        requires
            self@.wf(),
            uv.wf(),
        ensures
            r.x as int == spec_muldiv(
                spec_csub(uv.x as int, (UV_ONE / 2) as int),
                self@.window_size.x as int,
                1000,
            ),
            r.y as int == spec_muldiv(
                spec_csub(uv.y as int, (UV_ONE / 2) as int),
                self@.window_size.y as int,
                1000,
            ),
            r.wf(),
    {
        Vec2Fx {
            x: muldiv(csub(uv.x, UV_ONE / 2), self.window_size.x, 1000),
            y: muldiv(csub(uv.y, UV_ONE / 2), self.window_size.y, 1000),
        }
    }

    /// A normalized position as a window-centered pixel offset with y up,
    /// in thousandths of a pixel.
    pub fn uv_position_to_ws_px(&self, uv: Vec2Fx) -> (r: Vec2Fx)
        requires
            self@.wf(),
            uv.wf(),
        ensures
            r.x as int == spec_muldiv(
                spec_csub(uv.x as int, (UV_ONE / 2) as int),
                self@.window_size.x as int,
                1000,
            ),
            r.y as int == spec_muldiv(
                spec_csub((UV_ONE / 2) as int, uv.y as int),
                self@.window_size.y as int,
                1000,
            ),
            r.wf(),
    {
        Vec2Fx {
            x: muldiv(csub(uv.x, UV_ONE / 2), self.window_size.x, 1000),
            y: muldiv(csub(UV_ONE / 2, uv.y), self.window_size.y, 1000),
        }
    }

    /// The resolved item at an index. An out-of-range index is a caller
    /// contract violation, excluded here rather than met with a panic.
    pub fn get(&self, index: &ItemIndex) -> (r: &ProcessedPicoItem)
        requires
            index.0 < self@.items.len(),
        ensures
            r@ == self@.items[index.0 as int],
    {
        &self.items[index.0]
    }

    /// Mutable access to a resolved item, for pre-reconciliation style
    /// edits.
    pub fn get_mut(&mut self, index: &ItemIndex) -> (r: &mut ProcessedPicoItem)
        requires
            index.0 < old(self)@.items.len(),
        ensures
            r@ == old(self)@.items[index.0 as int],
            final(self).items@ == old(self).items@.update(index.0 as int, *final(r)),
            final(self).state@ == old(self).state@,
            final(self).stack_stack@ == old(self).stack_stack@,
            final(self).interacting == old(self).interacting,
            final(self).stack_guard == old(self).stack_guard,
            final(self).window_size == old(self).window_size,
            final(self).mouse_button_input == old(self).mouse_button_input,
            final(self).internal_auto_depth == old(self).internal_auto_depth,
    {
        &mut self.items[index.0]
    }

    /// Index of the most recently added item (zero when none exists yet).
    pub fn last(&self) -> (r: usize)
        ensures
            r == if self@.items.len() == 0 {
                0int
            } else {
                self@.items.len() - 1
            },
    {
        if self.items.len() == 0 {
            0
        } else {
            self.items.len() - 1
        }
    }

    /// The cache entry for an item, if it survived from an earlier frame.
    pub fn get_state(&self, index: &ItemIndex) -> (r: Option<&StateItem>)
        requires
            index.0 < self@.items.len(),
        ensures
            match r {
                Some(st) => self@.spec_get_state(index.0 as int) == Some(st@),
                None => self@.spec_get_state(index.0 as int) is None,
            },
    {
        let key = self.items[index.0].spatial_id;
        proof {
            assert(self@.items[index.0 as int] == self.items@[index.0 as int]@);
        }
        match find_entry(&self.state, key) {
            Some(i) => {
                proof {
                    crate::statemap::lemma_find_key(entries_view(self.state@), key);
                    assert(entries_view(self.state@)[i as int] == self.state@[i as int]@);
                }
                Some(&self.state[i].item)
            }
            None => None,
        }
    }

    /// Whether the item was hovered in the last frame pass.
    pub fn hovered(&self, index: &ItemIndex) -> (r: bool)
        requires
            index.0 < self@.items.len(),
        ensures
            r == self@.spec_hovered(index.0 as int),
    {
        match self.get_state(index) {
            Some(st) => st.hover,
            None => false,
        }
    }

    /// Whether the item was hovered with the primary button freshly
    /// pressed, and the item captured that press.
    pub fn clicked(&self, index: &ItemIndex) -> (r: bool)
        requires
            index.0 < self@.items.len(),
        ensures
            r == self@.spec_clicked(index.0 as int),
    {
        match self.get_state(index) {
            Some(st) => {
                if st.hover {
                    match st.input {
                        Some(b) => b.just_pressed,
                        None => false,
                    }
                } else {
                    false
                }
            }
            None => false,
        }
    }

    /// Whether the item was hovered with the primary button freshly
    /// released, and the item captured that release.
    pub fn released(&self, index: &ItemIndex) -> (r: bool)
        requires
            index.0 < self@.items.len(),
        ensures
            r == self@.spec_released(index.0 as int),
    {
        match self.get_state(index) {
            Some(st) => {
                if st.hover {
                    match st.input {
                        Some(b) => b.just_released,
                        None => false,
                    }
                } else {
                    false
                }
            }
            None => false,
        }
    }

    /// The drag record on the item's cache entry, if one is active.
    pub fn dragged(&self, index: &ItemIndex) -> (r: Option<Drag>)
        requires
            index.0 < self@.items.len(),
        ensures
            r == match self@.spec_get_state(index.0 as int) {
                Some(st) => st.drag,
                None => None::<Drag>,
            },
    {
        match self.get_state(index) {
            Some(st) => st.drag,
            None => None,
        }
    }

    /// Center of the item's resolved box.
    pub fn center(&self, index: &ItemIndex) -> (r: Vec2Fx)
        requires
            self@.wf(),
            index.0 < self@.items.len(),
        ensures
            r.x as int == spec_muldiv(
                spec_cadd(
                    self@.items[index.0 as int].bbox.min_x as int,
                    self@.items[index.0 as int].bbox.max_x as int,
                ),
                1,
                2,
            ),
            r.y as int == spec_muldiv(
                spec_cadd(
                    self@.items[index.0 as int].bbox.min_y as int,
                    self@.items[index.0 as int].bbox.max_y as int,
                ),
                1,
                2,
            ),
    {
        let b = self.items[index.0].bbox;
        proof {
            assert(self@.items[index.0 as int].wf());
        }
        Vec2Fx { x: muldiv(cadd(b.min_x, b.max_x), 1, 2), y: muldiv(cadd(b.min_y, b.max_y), 1, 2) }
    }

    /// The next auto depth: advance the per-frame counter by one step.
    pub fn auto_depth(&mut self) -> (r: i64)
        requires
            old(self)@.wf(),
        ensures
            r as int == spec_cadd(old(self)@.internal_auto_depth as int, 1),
            final(self)@ == (PicoV { internal_auto_depth: r, ..old(self)@ }),
            final(self)@.wf(),
    {
        let d = cadd(self.internal_auto_depth, MAJOR_DEPTH_AUTO_STEP);
        self.internal_auto_depth = d;
        proof {
            assert(final(self)@ =~~= (PicoV { internal_auto_depth: d, ..old(self)@ }));
        }
        d
    }

    /// Discard stack frames whose guard has already been released.
    pub fn update_stack(&mut self)
        requires
            old(self)@.wf(),
        ensures
            final(self)@ == (PicoV {
                stack_stack: stack_trim(old(self)@.stack_stack, old(self)@.stack_guard),
                ..old(self)@
            }),
            final(self)@.wf(),
    {
        while self.stack_guard < self.stack_stack.len()
            invariant
                self@.wf(),
                stack_trim(self@.stack_stack, self@.stack_guard) == stack_trim(
                    old(self)@.stack_stack,
                    old(self)@.stack_guard,
                ),
                self@ == (PicoV { stack_stack: self@.stack_stack, ..old(self)@ }),
            decreases self.stack_stack.len(),
        {
            proof {
                let s = self@.stack_stack;
                let g = self@.stack_guard;
                assert(s.drop_last() =~= s.take(s.len() - 1));
                assert(stack_trim(s.take(s.len() - 1), g) =~= stack_trim(s, g));
            }
            self.stack_stack.pop();
            proof {
                assert(self@ =~~= (PicoV { stack_stack: self@.stack_stack, ..old(self)@ }));
            }
        }
        proof {
            assert(stack_trim(self@.stack_stack, self@.stack_guard) =~= self@.stack_stack);
            assert(final(self)@ =~~= (PicoV {
                stack_stack: stack_trim(old(self)@.stack_stack, old(self)@.stack_guard),
                ..old(self)@
            }));
        }
    }

    /// Release the most recent stack guard; the frame itself is discarded
    /// lazily on the next declaration.
    pub fn pop_stack(&mut self)
        ensures
            final(self)@ == (PicoV {
                stack_guard: if old(self)@.stack_guard > 0 {
                    old(self)@.stack_guard - 1
                } else {
                    0
                },
                ..old(self)@
            }),
            old(self)@.wf() ==> final(self)@.wf(),
    {
        if self.stack_guard > 0 {
            self.stack_guard = self.stack_guard - 1;
        }
        proof {
            assert(final(self)@ =~~= (PicoV {
                stack_guard: if old(self)@.stack_guard > 0 {
                    old(self)@.stack_guard - 1
                } else {
                    0
                },
                ..old(self)@
            }));
        }
    }
}

pub use crate::state::Drag;

// ---- layout resolution: the mathematical model of `add` ----

/// Whether the per-frame auto-depth counter advances for this declaration.
pub open spec fn spec_auto_advances(item: ItemV) -> bool {
    item.depth is None && item.parent is None
}

/// The resolved depth: explicit depths are offset by the parent's depth
/// (bumped one step when equal, so a child draws in front); omitted depths
/// come from the parent's depth and the depth its earlier children used,
/// or from the frame's auto counter at top level.
pub open spec fn spec_item_depth(p: PicoV, item: ItemV) -> int {
    match item.parent {
        Option::Some(pi) => {
            let pd = p.items[pi.0 as int].depth as int;
            let cmd = p.items[pi.0 as int].child_max_depth as int;
            match item.depth {
                Option::Some(d) => {
                    let d2 = spec_cadd(d as int, pd);
                    if d2 == pd {
                        spec_cadd(pd, MAJOR_DEPTH_AUTO_STEP as int)
                    } else {
                        d2
                    }
                }
                Option::None => spec_cadd(imax(pd, cmd), MAJOR_DEPTH_AUTO_STEP as int),
            }
        }
        Option::None => match item.depth {
            Option::Some(d) => d as int,
            Option::None => spec_cadd(
                p.internal_auto_depth as int,
                MAJOR_DEPTH_AUTO_STEP as int,
            ),
        },
    }
}

pub open spec fn spec_auto_after(p: PicoV, item: ItemV) -> i64 {
    if spec_auto_advances(item) {
        spec_cadd(p.internal_auto_depth as int, MAJOR_DEPTH_AUTO_STEP as int) as i64
    } else {
        p.internal_auto_depth
    }
}

/// The items list with the parent's `child_max_depth` raised to cover the
/// new child.
pub open spec fn spec_items_bumped(p: PicoV, item: ItemV) -> Seq<PItemV> {
    match item.parent {
        Option::Some(pi) => {
            let par = p.items[pi.0 as int];
            p.items.update(
                pi.0 as int,
                PItemV {
                    child_max_depth: imax(
                        par.child_max_depth as int,
                        spec_item_depth(p, item),
                    ) as i64,
                    ..par
                },
            )
        }
        Option::None => p.items,
    }
}

pub open spec fn spec_parent_bbox(p: PicoV, item: ItemV) -> BBox {
    match item.parent {
        Option::Some(pi) => p.items[pi.0 as int].bbox,
        Option::None => spec_full_box(),
    }
}

/// Where within the parent a resolved offset `v` places the origin, for a
/// parent anchor fraction `a`: `v` pushes away from the anchored edge, and
/// from a centered anchor it pushes toward the bottom-right.
pub open spec fn spec_origin(v: int, a: int) -> int {
    let t = spec_cadd(crate::fixed::spec_fracmul(v, UV_ONE as int - 2 * a), a);
    if a == UV_ONE as int / 2 {
        spec_cadd(t, v)
    } else {
        t
    }
}

/// The item's position before any stack shift: the parent-anchored origin
/// plus the declaration's raw offset, interpolated into the parent's box.
pub open spec fn spec_prestack_pos(p: PicoV, item: ItemV) -> Vec2Fx {
    let pb = spec_parent_bbox(p, item);
    let ext = spec_extent(pb);
    let vx = crate::units::spec_scale(
        spec_resolve_x(p.window_size, item.x, ext),
        UV_ONE as int,
        ext.x as int,
    );
    let vy = crate::units::spec_scale(
        spec_resolve_y(p.window_size, item.y, ext),
        UV_ONE as int,
        ext.y as int,
    );
    let px = spec_cadd(item.uv_position.x as int, spec_origin(vx, spec_anchor_x(item.anchor_parent)));
    let py = spec_cadd(item.uv_position.y as int, spec_origin(vy, spec_anchor_y(item.anchor_parent)));
    spec_lerp2(
        Vec2Fx { x: pb.min_x, y: pb.min_y },
        Vec2Fx { x: pb.max_x, y: pb.max_y },
        Vec2Fx { x: px as i64, y: py as i64 },
    )
}

/// The item's absolute size: the declared fraction of the parent's extent.
pub open spec fn spec_item_size(p: PicoV, item: ItemV) -> Vec2Fx {
    let pb = spec_parent_bbox(p, item);
    let ext = spec_extent(pb);
    let vw = crate::units::spec_scale(
        spec_resolve_x(p.window_size, item.width, ext),
        UV_ONE as int,
        ext.x as int,
    );
    let vh = crate::units::spec_scale(
        spec_resolve_y(p.window_size, item.height, ext),
        UV_ONE as int,
        ext.y as int,
    );
    Vec2Fx {
        x: crate::fixed::spec_fracmul(spec_cadd(item.uv_size.x as int, vw), ext.x as int) as i64,
        y: crate::fixed::spec_fracmul(spec_cadd(item.uv_size.y as int, vh), ext.y as int) as i64,
    }
}

/// Whether the top stack frame applies to this declaration: it must not be
/// a bypass frame and its parent must be the item's parent.
pub open spec fn spec_stack_active(stack: Seq<Stack>, item: ItemV) -> bool {
    &&& stack.len() > 0
    &&& item.parent is Some
    &&& !stack.last().bypass
    &&& stack.last().parent == item.parent
}

/// The position after the stack cursor's shift along its axis.
pub open spec fn spec_stack_shifted_pos(stack: Seq<Stack>, item: ItemV, pos1: Vec2Fx) -> Vec2Fx {
    if spec_stack_active(stack, item) {
        let top = stack.last();
        if top.vertical {
            Vec2Fx { x: pos1.x, y: spec_cadd(pos1.y as int, top.end as int) as i64 }
        } else {
            Vec2Fx { x: spec_cadd(pos1.x as int, top.end as int) as i64, y: pos1.y }
        }
    } else {
        pos1
    }
}

/// The cursor value after placing an item: the item's far edge relative to
/// the parent's near edge, plus the margin (mirrored for reverse stacks),
/// never receding behind the previous cursor.
pub open spec fn spec_stack_advanced(
    stack: Seq<Stack>,
    item: ItemV,
    pb: BBox,
    pos2: Vec2Fx,
    size: Vec2Fx,
) -> Seq<Stack> {
    if spec_stack_active(stack, item) {
        let top = stack.last();
        let bb = spec_get_bbox(size, pos2, item.anchor);
        let e = if top.vertical {
            if top.reverse {
                spec_csub(
                    imin(top.end as int, spec_csub(bb.min_y as int, pb.max_y as int)),
                    top.margin as int,
                )
            } else {
                spec_cadd(
                    imax(top.end as int, spec_csub(bb.max_y as int, pb.min_y as int)),
                    top.margin as int,
                )
            }
        } else {
            if top.reverse {
                spec_csub(
                    imin(top.end as int, spec_csub(bb.min_x as int, pb.max_x as int)),
                    top.margin as int,
                )
            } else {
                spec_cadd(
                    imax(top.end as int, spec_csub(bb.max_x as int, pb.min_x as int)),
                    top.margin as int,
                )
            }
        };
        stack.update(stack.len() - 1, Stack { end: e as i64, ..top })
    } else {
        stack
    }
}

/// The geometry key: the caller's override, or the hash of the resolved
/// placement fields.
pub open spec fn spec_item_key(item: ItemV, pos2: Vec2Fx, size: Vec2Fx, depth: i64) -> u64 {
    match item.spatial_id {
        Option::Some(k) => k,
        Option::None => crate::item::spec_spatial_id(
            pos2,
            size,
            depth,
            item.position_3d,
            item.anchor,
            item.style.anchor_text,
            item.parent,
        ),
    }
}

/// A 3-D item's final position adds the host projection; a missing
/// projection leaves the 2-D offset alone.
pub open spec fn spec_final_pos(item: ItemV, pos2: Vec2Fx) -> Vec2Fx {
    if item.position_3d is Some && item.projected is Some {
        let pr = item.projected.unwrap();
        Vec2Fx {
            x: spec_cadd(pr.x as int, pos2.x as int) as i64,
            y: spec_cadd(pr.y as int, pos2.y as int) as i64,
        }
    } else {
        pos2
    }
}

/// A 3-D item without a projection this frame gets an empty box, so
/// hit-testing fails closed.
pub open spec fn spec_item_bbox(item: ItemV, pos2: Vec2Fx, size: Vec2Fx) -> BBox {
    if item.position_3d is Some && item.projected is None {
        BBox { min_x: 0, min_y: 0, max_x: 0, max_y: 0 }
    } else {
        spec_get_bbox(size, spec_final_pos(item, pos2), item.anchor)
    }
}

/// The fully resolved item a declaration becomes.
pub open spec fn spec_resolved_item(p: PicoV, item: ItemV) -> PItemV {
    let stack0 = stack_trim(p.stack_stack, p.stack_guard);
    let depth = spec_item_depth(p, item) as i64;
    let pos1 = spec_prestack_pos(p, item);
    let size = spec_item_size(p, item);
    let pos2 = spec_stack_shifted_pos(stack0, item, pos1);
    PItemV {
        text: item.text,
        style: item.style,
        uv_position: spec_final_pos(item, pos2),
        uv_size: size,
        position_3d: item.position_3d,
        depth,
        child_max_depth: 0,
        life: item.life,
        id: item.id,
        spatial_id: spec_item_key(item, pos2, size, depth),
        parent: item.parent,
        bbox: spec_item_bbox(item, pos2, size),
        anchor: item.anchor,
    }
}

/// The engine state after one declaration: the resolved item is appended,
/// the parent's child depth raised, the stack cursor advanced, and the
/// auto-depth counter moved on.
pub open spec fn spec_add(p: PicoV, item: ItemV) -> PicoV {
    let stack0 = stack_trim(p.stack_stack, p.stack_guard);
    let pos1 = spec_prestack_pos(p, item);
    let size = spec_item_size(p, item);
    let pos2 = spec_stack_shifted_pos(stack0, item, pos1);
    let pb = spec_parent_bbox(p, item);
    PicoV {
        items: spec_items_bumped(p, item).push(spec_resolved_item(p, item)),
        stack_stack: spec_stack_advanced(stack0, item, pb, pos2, size),
        internal_auto_depth: spec_auto_after(p, item),
        ..p
    }
}

fn origin_frac(v: i64, a: i64) -> (r: i64)
    requires
        in_range(v as int),
        -UV_ONE <= a <= UV_ONE,
    ensures
        r as int == spec_origin(v as int, a as int),
        in_range(r as int),
{
    let t = cadd(crate::fixed::fracmul(v, UV_ONE - 2 * a), a);
    if a == UV_ONE / 2 {
        cadd(t, v)
    } else {
        t
    }
}

fn same_parent(a: Option<ItemIndex>, b: Option<ItemIndex>) -> (r: bool)
    ensures
        r == (a == b),
{
    match (a, b) {
        (Option::None, Option::None) => true,
        (Option::Some(x), Option::Some(y)) => x.0 == y.0,
        _ => false,
    }
}

impl Pico {
    /// Resolve a declaration into an absolute item and append it. The
    /// parent, if any, must already be resolved this frame: a forward or
    /// out-of-range parent reference is a caller contract violation.
    #[verifier::rlimit(100)]
    #[verifier::spinoff_prover]
    pub fn add(&mut self, item: PicoItem) -> (r: ItemIndex)
        requires
            old(self)@.wf(),
            item@.wf(),
            match item@.parent {
                Option::Some(pi) => pi.0 < old(self)@.items.len(),
                Option::None => true,
            },
        ensures
            final(self)@ == spec_add(old(self)@, item@),
            final(self)@.wf(),
            r.0 == old(self)@.items.len(),
            final(self)@.items.len() == old(self)@.items.len() + 1,
            final(self)@.items[r.0 as int] == spec_resolved_item(old(self)@, item@),
    {
        let ghost p0 = self@;
        let ghost iv = item@;
        self.update_stack();

        // Depth resolution, and the auto counter where it applies.
        let mut depth: i64 = 0;
        match item.parent {
            Some(pi) => {
                let pd = self.items[pi.0].depth;
                let cmd = self.items[pi.0].child_max_depth;
                proof {
                    assert(self@.items[pi.0 as int] == self.items@[pi.0 as int]@);
                    assert(self@.items[pi.0 as int].wf());
                }
                match item.depth {
                    Some(d) => {
                        let d2 = cadd(d, pd);
                        depth = if d2 == pd {
                            cadd(pd, MAJOR_DEPTH_AUTO_STEP)
                        } else {
                            d2
                        };
                    }
                    None => {
                        depth = cadd(cmax(pd, cmd), MAJOR_DEPTH_AUTO_STEP);
                    }
                }
            }
            None => {
                match item.depth {
                    Some(d) => {
                        depth = d;
                    }
                    None => {
                        let a = cadd(self.internal_auto_depth, MAJOR_DEPTH_AUTO_STEP);
                        self.internal_auto_depth = a;
                        depth = a;
                    }
                }
            }
        }
        proof {
            assert(depth as int == spec_item_depth(p0, iv));
            assert(self.internal_auto_depth == spec_auto_after(p0, iv));
        }

        // Parent box, extent, and the parent's child-depth bump.
        let pb: BBox = match item.parent {
            Some(pi) => self.items[pi.0].bbox,
            None => BBox::full(),
        };
        if let Some(pi) = item.parent {
            let cur = self.items[pi.0].child_max_depth;
            let nb = cmax(cur, depth);
            let e = &mut self.items[pi.0];
            e.child_max_depth = nb;
        }
        proof {
            assert(pb == spec_parent_bbox(p0, iv));
            assert(self@.items =~= spec_items_bumped(p0, iv)) by {
                match iv.parent {
                    Option::Some(pi) => {
                        assert(forall|j: int|
                            0 <= j < self.items@.len() ==> self@.items[j] == (
                            #[trigger] self.items@[j])@);
                    }
                    Option::None => {}
                }
            }
            assert(pb.wf());
        }

        let ext = extent(&pb);
        let vx = crate::units::scale(resolve_x(self.window_size, item.x, ext), UV_ONE, ext.x);
        let vy = crate::units::scale(resolve_y(self.window_size, item.y, ext), UV_ONE, ext.y);
        let ax = item.anchor_parent.frac_x();
        let ay = item.anchor_parent.frac_y();
        let px = cadd(item.uv_position.x, origin_frac(vx, ax));
        let py = cadd(item.uv_position.y, origin_frac(vy, ay));
        let pos1 = lerp2(
            Vec2Fx { x: pb.min_x, y: pb.min_y },
            Vec2Fx { x: pb.max_x, y: pb.max_y },
            Vec2Fx { x: px, y: py },
        );
        proof {
            assert(pos1 == spec_prestack_pos(p0, iv));
        }

        let vw = crate::units::scale(resolve_x(self.window_size, item.width, ext), UV_ONE, ext.x);
        let vh = crate::units::scale(resolve_y(self.window_size, item.height, ext), UV_ONE, ext.y);
        let size = Vec2Fx {
            x: crate::fixed::fracmul(cadd(item.uv_size.x, vw), ext.x),
            y: crate::fixed::fracmul(cadd(item.uv_size.y, vh), ext.y),
        };
        proof {
            assert(size == spec_item_size(p0, iv));
        }

        // Stack shift and cursor advance.
        let ghost stack0 = self@.stack_stack;
        let mut pos2 = pos1;
        let stack_on: bool = if self.stack_stack.len() > 0 && item.parent.is_some() {
            let top = self.stack_stack[self.stack_stack.len() - 1];
            !top.bypass && same_parent(top.parent, item.parent)
        } else {
            false
        };
        proof {
            assert(stack_on == spec_stack_active(stack0, iv));
        }
        if stack_on {
            let ti = self.stack_stack.len() - 1;
            let top = self.stack_stack[ti];
            if top.vertical {
                pos2.y = cadd(pos1.y, top.end);
            } else {
                pos2.x = cadd(pos1.x, top.end);
            }
            proof {
                assert(self@.stack_stack[ti as int].wf(self@.items.len() as int));
            }
            let bb = get_bbox(size, pos2, &item.anchor);
            let e: i64 = if top.vertical {
                if top.reverse {
                    csub(cmin(top.end, csub(bb.min_y, pb.max_y)), top.margin)
                } else {
                    cadd(cmax(top.end, csub(bb.max_y, pb.min_y)), top.margin)
                }
            } else {
                if top.reverse {
                    csub(cmin(top.end, csub(bb.min_x, pb.max_x)), top.margin)
                } else {
                    cadd(cmax(top.end, csub(bb.max_x, pb.min_x)), top.margin)
                }
            };
            let tm = &mut self.stack_stack[ti];
            tm.end = e;
        }
        proof {
            assert(pos2 == spec_stack_shifted_pos(stack0, iv, pos1));
            assert(self@.stack_stack =~= spec_stack_advanced(stack0, iv, pb, pos2, size));
        }

        // Identity, final position, box.
        let key: u64 = match item.spatial_id {
            Some(k) => k,
            None => PicoItem::generate_spatial_id(
                &pos2,
                &size,
                &depth,
                &item.position_3d,
                &item.anchor,
                &item.style.anchor_text,
                &item.parent,
            ),
        };
        proof {
            assert(key == spec_item_key(iv, pos2, size, depth));
        }
        let is3d = item.position_3d.is_some();
        let fpos: Vec2Fx;
        let bbox: BBox;
        if is3d {
            match item.projected {
                Some(pr) => {
                    fpos = Vec2Fx { x: cadd(pr.x, pos2.x), y: cadd(pr.y, pos2.y) };
                    bbox = get_bbox(size, fpos, &item.anchor);
                }
                None => {
                    fpos = pos2;
                    bbox = BBox::zero();
                }
            }
        } else {
            fpos = pos2;
            bbox = get_bbox(size, pos2, &item.anchor);
        }
        proof {
            assert(fpos == spec_final_pos(iv, pos2));
            assert(bbox == spec_item_bbox(iv, pos2, size));
        }

        let processed = ProcessedPicoItem {
            text: item.text,
            style: item.style,
            uv_position: fpos,
            uv_size: size,
            position_3d: item.position_3d,
            depth,
            child_max_depth: 0,
            life: item.life,
            id: item.id,
            spatial_id: key,
            parent: item.parent,
            bbox,
            anchor: item.anchor,
        };
        proof {
            assert(processed@ == spec_resolved_item(p0, iv));
        }
        let idx = self.items.len();
        self.items.push(processed);
        proof {
            assert(self@.items =~= spec_items_bumped(p0, iv).push(spec_resolved_item(p0, iv)));
            assert(self@ =~~= spec_add(p0, iv));
            assert(self@.wf()) by {
                let q = self@;
                assert(forall|j: int|
                    0 <= j < q.items.len() ==> (#[trigger] q.items[j]).wf());
                assert(forall|j: int|
                    0 <= j < q.stack_stack.len() ==> (#[trigger] q.stack_stack[j]).wf(
                        q.items.len() as int,
                    ));
            }
        }
        ItemIndex(idx)
    }

    /// Open a vertical stack scoped to `parent`: subsequent children of
    /// that parent flow downward (upward when `reverse`) separated by
    /// `margin`, starting `start` from the parent's edge.
    pub fn vstack(&mut self, start: Val, margin: Val, reverse: bool, parent: &ItemIndex) -> (r:
        Guard)
        requires
            old(self)@.wf(),
            start.wf(),
            margin.wf(),
            parent.0 < old(self)@.items.len(),
            old(self)@.stack_guard < usize::MAX,
        ensures
            final(self)@ == spec_vstack(old(self)@, start, margin, reverse, *parent),
            final(self)@.wf(),
            r.level == old(self)@.stack_guard + 1,
    {
        let ghost p0 = self@;
        self.update_stack();
        let bbox = self.items[parent.0].bbox;
        proof {
            assert(self@.items[parent.0 as int] == self.items@[parent.0 as int]@);
            assert(self@.items[parent.0 as int].wf());
        }
        let parent_size = extent(&bbox);
        let s = resolve_y(self.window_size, start, parent_size);
        let e = if reverse {
            -s
        } else {
            s
        };
        let m = resolve_y(self.window_size, margin, parent_size);
        self.stack_stack.push(
            Stack {
                end: e,
                margin: m,
                vertical: true,
                reverse,
                bypass: false,
                parent: Some(*parent),
            },
        );
        self.stack_guard = self.stack_guard + 1;
        proof {
            assert(self@.stack_stack =~= spec_vstack(p0, start, margin, reverse, *parent)
                .stack_stack);
            assert(self@ =~~= spec_vstack(p0, start, margin, reverse, *parent));
        }
        Guard { level: self.stack_guard }
    }

    /// Open a horizontal stack scoped to `parent`.
    pub fn hstack(&mut self, start: Val, margin: Val, reverse: bool, parent: &ItemIndex) -> (r:
        Guard)
        requires
            old(self)@.wf(),
            start.wf(),
            margin.wf(),
            parent.0 < old(self)@.items.len(),
            old(self)@.stack_guard < usize::MAX,
        ensures
            final(self)@ == spec_hstack(old(self)@, start, margin, reverse, *parent),
            final(self)@.wf(),
            r.level == old(self)@.stack_guard + 1,
    {
        let ghost p0 = self@;
        self.update_stack();
        let bbox = self.items[parent.0].bbox;
        proof {
            assert(self@.items[parent.0 as int] == self.items@[parent.0 as int]@);
            assert(self@.items[parent.0 as int].wf());
        }
        let parent_size = extent(&bbox);
        let s = resolve_x(self.window_size, start, parent_size);
        let e = if reverse {
            -s
        } else {
            s
        };
        let m = resolve_x(self.window_size, margin, parent_size);
        self.stack_stack.push(
            Stack {
                end: e,
                margin: m,
                vertical: false,
                reverse,
                bypass: false,
                parent: Some(*parent),
            },
        );
        self.stack_guard = self.stack_guard + 1;
        proof {
            assert(self@.stack_stack =~= spec_hstack(p0, start, margin, reverse, *parent)
                .stack_stack);
            assert(self@ =~~= spec_hstack(p0, start, margin, reverse, *parent));
        }
        Guard { level: self.stack_guard }
    }

    /// Open a no-op stack frame, letting a nested item opt out of the
    /// enclosing flow without disturbing its cursor.
    pub fn stack_bypass(&mut self) -> (r: Guard)
        requires
            old(self)@.wf(),
            old(self)@.stack_guard < usize::MAX,
        ensures
            final(self)@ == spec_stack_bypass(old(self)@),
            final(self)@.wf(),
            r.level == old(self)@.stack_guard + 1,
    {
        let ghost p0 = self@;
        self.update_stack();
        let mut frame = Stack::default();
        frame.bypass = true;
        self.stack_stack.push(frame);
        self.stack_guard = self.stack_guard + 1;
        proof {
            assert(self@.stack_stack =~= spec_stack_bypass(p0).stack_stack);
            assert(self@ =~~= spec_stack_bypass(p0));
        }
        Guard { level: self.stack_guard }
    }

    /// The normalized fraction of the stack parent's extent still ahead of
    /// the cursor; 1 when no stack with a parent is open.
    pub fn remaining_stack_space(&self) -> (r: i64)
        requires
            self@.wf(),
        ensures
            r as int == spec_remaining_stack_space(self@),
    {
        if self.stack_stack.len() > 0 {
            let top = self.stack_stack[self.stack_stack.len() - 1];
            proof {
                assert(self@.stack_stack[self@.stack_stack.len() - 1].wf(
                    self@.items.len() as int,
                ));
            }
            if let Some(pi) = top.parent {
                let pb = self.items[pi.0].bbox;
                proof {
                    assert(self@.items[pi.0 as int] == self.items@[pi.0 as int]@);
                    assert(self@.items[pi.0 as int].wf());
                }
                let ext = extent(&pb);
                let e = if top.reverse {
                    top.end
                } else {
                    -top.end
                };
                let axis = if top.vertical {
                    ext.y
                } else {
                    ext.x
                };
                return cadd(UV_ONE, crate::units::scale(e, UV_ONE, axis));
            }
            UV_ONE
        } else {
            UV_ONE
        }
    }
}

pub open spec fn spec_vstack(p: PicoV, start: Val, margin: Val, reverse: bool, parent: ItemIndex)
    -> PicoV {
    let st0 = stack_trim(p.stack_stack, p.stack_guard);
    let ext = spec_extent(p.items[parent.0 as int].bbox);
    let s = spec_resolve_y(p.window_size, start, ext);
    let e = if reverse {
        -s
    } else {
        s
    };
    let m = spec_resolve_y(p.window_size, margin, ext);
    PicoV {
        stack_stack: st0.push(
            Stack {
                end: e as i64,
                margin: m as i64,
                vertical: true,
                reverse,
                bypass: false,
                parent: Some(parent),
            },
        ),
        stack_guard: p.stack_guard + 1,
        ..p
    }
}

pub open spec fn spec_hstack(p: PicoV, start: Val, margin: Val, reverse: bool, parent: ItemIndex)
    -> PicoV {
    let st0 = stack_trim(p.stack_stack, p.stack_guard);
    let ext = spec_extent(p.items[parent.0 as int].bbox);
    let s = spec_resolve_x(p.window_size, start, ext);
    let e = if reverse {
        -s
    } else {
        s
    };
    let m = spec_resolve_x(p.window_size, margin, ext);
    PicoV {
        stack_stack: st0.push(
            Stack {
                end: e as i64,
                margin: m as i64,
                vertical: false,
                reverse,
                bypass: false,
                parent: Some(parent),
            },
        ),
        stack_guard: p.stack_guard + 1,
        ..p
    }
}

pub open spec fn spec_stack_bypass(p: PicoV) -> PicoV {
    let st0 = stack_trim(p.stack_stack, p.stack_guard);
    PicoV {
        stack_stack: st0.push(Stack { bypass: true, ..spec_default_stack() }),
        stack_guard: p.stack_guard + 1,
        ..p
    }
}

impl Pico {
    /// Mark or clear the selection flag on an item's cache entry; reports
    /// whether an entry existed.
    pub fn set_selected(&mut self, index: &ItemIndex, v: bool) -> (r: bool)
        requires
            old(self)@.wf(),
            index.0 < old(self)@.items.len(),
        ensures
            ({
                let key = old(self)@.items[index.0 as int].spatial_id;
                match find_key(old(self)@.state, key) {
                    Some(j) => r && final(self)@ == (PicoV {
                        state: old(self)@.state.update(
                            j,
                            (key, StateV { selected: v, ..old(self)@.state[j].1 }),
                        ),
                        ..old(self)@
                    }),
                    None => !r && final(self)@ == old(self)@,
                }
            }),
            final(self)@.wf(),
    {
        let key = self.items[index.0].spatial_id;
        proof {
            assert(self@.items[index.0 as int] == self.items@[index.0 as int]@);
        }
        match find_entry(&self.state, key) {
            Some(j) => {
                proof {
                    crate::statemap::lemma_find_key(self@.state, key);
                }
                let ghost prev_vec = self.state@;
                let e = &mut self.state[j];
                e.item.selected = v;
                proof {
                    let exp = old(self)@.state.update(
                        j as int,
                        (key, StateV { selected: v, ..old(self)@.state[j as int].1 }),
                    );
                    assert(entries_view(self.state@) =~= exp) by {
                        assert forall|t: int|
                            0 <= t < entries_view(self.state@).len() implies entries_view(
                            self.state@,
                        )[t] == exp[t] by {
                            assert(entries_view(self.state@)[t] == self.state@[t]@);
                            if t != j as int {
                                assert(self.state@[t] == prev_vec[t]);
                                assert(entries_view(prev_vec)[t] == prev_vec[t]@);
                            }
                        }
                    }
                    assert(self@ =~~= (PicoV { state: exp, ..old(self)@ }));
                    assert(self@.wf());
                }
                true
            }
            None => false,
        }
    }

    /// Remove and return the widget-private storage slot of an item's
    /// cache entry, leaving the slot empty. `None` when no entry exists or
    /// the slot was empty.
    pub fn take_storage(&mut self, index: &ItemIndex) -> (r: Option<StorageValue>)
        requires
            old(self)@.wf(),
            index.0 < old(self)@.items.len(),
        ensures
            ({
                let key = old(self)@.items[index.0 as int].spatial_id;
                match find_key(old(self)@.state, key) {
                    Some(j) => (match r {
                        Some(sv) => old(self)@.state[j].1.storage == Some(sv@),
                        None => old(self)@.state[j].1.storage is None,
                    }) && final(self)@ == (PicoV {
                        state: old(self)@.state.update(
                            j,
                            (key, StateV { storage: None, ..old(self)@.state[j].1 }),
                        ),
                        ..old(self)@
                    }),
                    None => r is None && final(self)@ == old(self)@,
                }
            }),
            final(self)@.wf(),
    {
        let key = self.items[index.0].spatial_id;
        proof {
            assert(self@.items[index.0 as int] == self.items@[index.0 as int]@);
        }
        match find_entry(&self.state, key) {
            Some(j) => {
                proof {
                    crate::statemap::lemma_find_key(self@.state, key);
                }
                let ghost prev_vec = self.state@;
                let e = &mut self.state[j];
                let out = e.item.storage.take();
                proof {
                    let exp = old(self)@.state.update(
                        j as int,
                        (key, StateV { storage: None, ..old(self)@.state[j as int].1 }),
                    );
                    assert(entries_view(self.state@) =~= exp) by {
                        assert forall|t: int|
                            0 <= t < entries_view(self.state@).len() implies entries_view(
                            self.state@,
                        )[t] == exp[t] by {
                            assert(entries_view(self.state@)[t] == self.state@[t]@);
                            if t != j as int {
                                assert(self.state@[t] == prev_vec[t]);
                                assert(entries_view(prev_vec)[t] == prev_vec[t]@);
                            }
                        }
                    }
                    assert(self@ =~~= (PicoV { state: exp, ..old(self)@ }));
                    assert(self@.wf());
                }
                out
            }
            None => None,
        }
    }

    /// Store a widget-private value on an item's cache entry; reports
    /// whether an entry existed.
    pub fn set_storage(&mut self, index: &ItemIndex, value: Option<StorageValue>) -> (r: bool)
        requires
            old(self)@.wf(),
            index.0 < old(self)@.items.len(),
        ensures
            ({
                let key = old(self)@.items[index.0 as int].spatial_id;
                let stored = match value {
                    Some(sv) => Some(sv@),
                    None => None,
                };
                match find_key(old(self)@.state, key) {
                    Some(j) => r && final(self)@ == (PicoV {
                        state: old(self)@.state.update(
                            j,
                            (key, StateV { storage: stored, ..old(self)@.state[j].1 }),
                        ),
                        ..old(self)@
                    }),
                    None => !r && final(self)@ == old(self)@,
                }
            }),
            final(self)@.wf(),
    {
        let key = self.items[index.0].spatial_id;
        proof {
            assert(self@.items[index.0 as int] == self.items@[index.0 as int]@);
        }
        match find_entry(&self.state, key) {
            Some(j) => {
                proof {
                    crate::statemap::lemma_find_key(self@.state, key);
                }
                let ghost prev_vec = self.state@;
                let ghost stored = match &value {
                    Some(sv) => Some(sv@),
                    None => None,
                };
                let e = &mut self.state[j];
                e.item.storage = value;
                proof {
                    let exp = old(self)@.state.update(
                        j as int,
                        (key, StateV { storage: stored, ..old(self)@.state[j as int].1 }),
                    );
                    assert(entries_view(self.state@) =~= exp) by {
                        assert forall|t: int|
                            0 <= t < entries_view(self.state@).len() implies entries_view(
                            self.state@,
                        )[t] == exp[t] by {
                            assert(entries_view(self.state@)[t] == self.state@[t]@);
                            if t != j as int {
                                assert(self.state@[t] == prev_vec[t]);
                                assert(entries_view(prev_vec)[t] == prev_vec[t]@);
                            }
                        }
                    }
                    assert(self@ =~~= (PicoV { state: exp, ..old(self)@ }));
                    assert(self@.wf());
                }
                true
            }
            None => false,
        }
    }
}

pub open spec fn spec_remaining_stack_space(p: PicoV) -> int {
    if p.stack_stack.len() > 0 && p.stack_stack.last().parent is Some {
        let top = p.stack_stack.last();
        let pi = top.parent.unwrap();
        let ext = spec_extent(p.items[pi.0 as int].bbox);
        let e: int = if top.reverse {
            top.end as int
        } else {
            -(top.end as int)
        };
        let axis: int = if top.vertical {
            ext.y as int
        } else {
            ext.x as int
        };
        spec_cadd(UV_ONE as int, crate::units::spec_scale(e, UV_ONE as int, axis))
    } else {
        UV_ONE as int
    }
}

} // verus!
