//! Per-frame item declarations, resolved items, and their identity keys.
//!
//! A `PicoItem` is what a caller declares each frame; `add` resolves it into
//! a `ProcessedPicoItem` with an absolute box, a depth, and a geometry key.
//! The geometry key is a pure function of resolved position, size, depth,
//! 3-D anchor, anchors and parent — not of style or text — so restyling
//! keeps interaction state. The content key additionally folds in text,
//! life and style; a mismatch forces proxy regeneration.

use vstd::prelude::*;
use crate::fixed::in_range;
use crate::geom::{Anchor, BBox, Vec2Fx, Vec3Fx};
use crate::keys::{
    anchor_words, bbox_words, fnv_words, fnv1a, opt_index_words, opt_vec3_words, push_anchor,
    push_bbox, push_opt_index, push_opt_vec3, push_text, push_vec2, push_word, text_words,
    vec2_words, word_i64,
};
use crate::units::Val;

verus! {

/// Index of an item within the current frame's declaration list.
#[derive(Clone, Copy, Debug, PartialEq, Eq, Structural)]
pub struct ItemIndex(pub usize);

/// How long a cache entry survives without being redeclared, in `UV_ONE`
/// units of a second. `Finite(0)` lives for the current frame only.
#[derive(Clone, Copy, Debug, PartialEq, Eq, Structural)]
pub enum Life {
    Finite(i64),
    Infinite,
}

impl Life {
    pub open spec fn wf(self) -> bool {
        match self {
            Life::Finite(n) => in_range(n as int),
            Life::Infinite => true,
        }
    }

    /// Whether an entry with this remaining life is expired.
    pub open spec fn spec_expired(self) -> bool {
        match self {
            Life::Finite(n) => n < 0,
            Life::Infinite => false,
        }
    }

    pub fn expired(&self) -> (r: bool)
        ensures
            r == self.spec_expired(),
    {
        match *self {
            Life::Finite(n) => n < 0,
            Life::Infinite => false,
        }
    }
}

pub open spec fn life_words(l: Life) -> Seq<u64> {
    match l {
        Life::Finite(n) => seq![0u64, word_i64(n)],
        Life::Infinite => seq![1u64, 0u64],
    }
}

/// Visual style. The core does not interpret style beyond the text anchor:
/// the host-facing fields are carried as opaque 64-bit words that only
/// feed the content key and travel to the proxy unchanged.
#[derive(Clone, Debug)]
pub struct ItemStyle {
    /// Where the text block anchors within the item's box; part of the
    /// geometry key.
    pub anchor_text: Anchor,
    /// Opaque host style parameters; part of the content key only.
    pub words: Vec<u64>,
}

pub struct StyleV {
    pub anchor_text: Anchor,
    pub words: Seq<u64>,
}

impl View for ItemStyle {
    type V = StyleV;

    open spec fn view(&self) -> StyleV {
        StyleV { anchor_text: self.anchor_text, words: self.words@ }
    }
}

impl Default for ItemStyle {
    fn default() -> (r: Self)
        ensures
            r@.anchor_text == Anchor::Center,
            r@.words == Seq::<u64>::empty(),
    {
        ItemStyle { anchor_text: Anchor::Center, words: Vec::new() }
    }
}

pub open spec fn style_words(s: StyleV) -> Seq<u64> {
    anchor_words(s.anchor_text) + seq![s.words.len() as u64] + s.words
}

impl StyleV {
    pub open spec fn wf(self) -> bool {
        self.anchor_text.wf()
    }
}

/// A caller's per-frame item declaration.
#[derive(Clone, Debug)]
pub struct PicoItem {
    pub text: String,
    pub x: Val,
    pub y: Val,
    pub width: Val,
    pub height: Val,
    pub style: ItemStyle,
    /// Where within its own box the resolved position sits.
    pub anchor: Anchor,
    /// Where within the parent's box the origin sits.
    pub anchor_parent: Anchor,
    /// Raw normalized offset, combined with `x`/`y` on `add`.
    pub uv_position: Vec2Fx,
    /// Raw normalized size, combined with `width`/`height` on `add`.
    pub uv_size: Vec2Fx,
    /// World-space anchor; position is taken from `projected` plus the 2-D
    /// offset, while identity hashes the world point itself.
    pub position_3d: Option<Vec3Fx>,
    /// Host-projected screen position of `position_3d` for this frame;
    /// `None` (e.g. behind the camera) fails closed to an empty box.
    pub projected: Option<Vec2Fx>,
    /// Explicit depth; auto-assigned when `None`.
    pub depth: Option<i64>,
    pub life: Life,
    /// Content-key override.
    pub id: Option<u64>,
    /// Geometry-key override.
    pub spatial_id: Option<u64>,
    /// Parent item, already resolved earlier this frame.
    pub parent: Option<ItemIndex>,
}

pub struct ItemV {
    pub text: Seq<char>,
    pub x: Val,
    pub y: Val,
    pub width: Val,
    pub height: Val,
    pub style: StyleV,
    pub anchor: Anchor,
    pub anchor_parent: Anchor,
    pub uv_position: Vec2Fx,
    pub uv_size: Vec2Fx,
    pub position_3d: Option<Vec3Fx>,
    pub projected: Option<Vec2Fx>,
    pub depth: Option<i64>,
    pub life: Life,
    pub id: Option<u64>,
    pub spatial_id: Option<u64>,
    pub parent: Option<ItemIndex>,
}

impl View for PicoItem {
    type V = ItemV;

    open spec fn view(&self) -> ItemV {
        ItemV {
            text: self.text@,
            x: self.x,
            y: self.y,
            width: self.width,
            height: self.height,
            style: self.style@,
            anchor: self.anchor,
            anchor_parent: self.anchor_parent,
            uv_position: self.uv_position,
            uv_size: self.uv_size,
            position_3d: self.position_3d,
            projected: self.projected,
            depth: self.depth,
            life: self.life,
            id: self.id,
            spatial_id: self.spatial_id,
            parent: self.parent,
        }
    }
}

impl ItemV {
    pub open spec fn wf(self) -> bool {
        &&& self.x.wf()
        &&& self.y.wf()
        &&& self.width.wf()
        &&& self.height.wf()
        &&& self.style.wf()
        &&& self.anchor.wf()
        &&& self.anchor_parent.wf()
        &&& self.uv_position.wf()
        &&& self.uv_size.wf()
        &&& match self.position_3d {
            Option::Some(p) => p.wf(),
            Option::None => true,
        }
        &&& match self.projected {
            Option::Some(p) => p.wf(),
            Option::None => true,
        }
        &&& match self.depth {
            Option::Some(d) => in_range(d as int),
            Option::None => true,
        }
        &&& self.life.wf()
    }
}

impl Default for PicoItem {
    fn default() -> (r: Self)
        ensures
            r@ == spec_default_item(),
    {
        PicoItem {
            text: String::new(),
            x: Val::Auto,
            y: Val::Auto,
            width: Val::Auto,
            height: Val::Auto,
            style: ItemStyle::default(),
            anchor: Anchor::Center,
            anchor_parent: Anchor::TopLeft,
            uv_position: Vec2Fx::zero(),
            uv_size: Vec2Fx::zero(),
            position_3d: None,
            projected: None,
            depth: None,
            life: Life::Finite(0),
            id: None,
            spatial_id: None,
            parent: None,
        }
    }
}

pub open spec fn spec_default_item() -> ItemV {
    ItemV {
        text: Seq::<char>::empty(),
        x: Val::Auto,
        y: Val::Auto,
        width: Val::Auto,
        height: Val::Auto,
        style: StyleV { anchor_text: Anchor::Center, words: Seq::<u64>::empty() },
        anchor: Anchor::Center,
        anchor_parent: Anchor::TopLeft,
        uv_position: Vec2Fx { x: 0, y: 0 },
        uv_size: Vec2Fx { x: 0, y: 0 },
        position_3d: None,
        projected: None,
        depth: None,
        life: Life::Finite(0),
        id: None,
        spatial_id: None,
        parent: None,
    }
}

impl PicoItem {
    /// A 2-D item at a raw normalized position.
    pub fn new2d(position: Vec2Fx, text: &str) -> (r: PicoItem)
        ensures
            r@ == (ItemV { uv_position: position, text: text@, ..spec_default_item() }),
    {
        let mut item = PicoItem::default();
        item.uv_position = position;
        item.text = text.to_owned();
        item
    }

    /// A world-anchored item; the host supplies `projected` before `add`.
    pub fn new3d(position_3d: Vec3Fx, text: &str) -> (r: PicoItem)
        ensures
            r@ == (ItemV {
                position_3d: Some(position_3d),
                text: text@,
                ..spec_default_item()
            }),
    {
        let mut item = PicoItem::default();
        item.position_3d = Some(position_3d);
        item.text = text.to_owned();
        item
    }

    /// Opt out of automatic expiry: the item persists without redeclaration.
    pub fn keep(self) -> (r: PicoItem)
        ensures
            r@ == (ItemV { life: Life::Infinite, ..self@ }),
    {
        let mut item = self;
        item.life = Life::Infinite;
        item
    }

    /// The geometry key over the identity-bearing resolved fields.
    pub fn generate_spatial_id(
        uv_position: &Vec2Fx,
        uv_size: &Vec2Fx,
        depth: &i64,
        position_3d: &Option<Vec3Fx>,
        anchor: &Anchor,
        anchor_text: &Anchor,
        parent: &Option<ItemIndex>,
    ) -> (r: u64)
        ensures
            r == spec_spatial_id(
                *uv_position,
                *uv_size,
                *depth,
                *position_3d,
                *anchor,
                *anchor_text,
                *parent,
            ),
    {
        let mut ws: Vec<u64> = Vec::new();
        push_vec2(&mut ws, *uv_position);
        push_vec2(&mut ws, *uv_size);
        push_word(&mut ws, *depth as u64);
        push_opt_vec3(&mut ws, position_3d);
        push_anchor(&mut ws, anchor);
        push_anchor(&mut ws, anchor_text);
        push_opt_index(&mut ws, match parent {
            Option::Some(p) => Some(p.0),
            Option::None => None,
        });
        proof {
            assert(ws@ =~= spatial_words(
                *uv_position,
                *uv_size,
                *depth,
                *position_3d,
                *anchor,
                *anchor_text,
                *parent,
            ));
        }
        fnv1a(&ws)
    }
}

pub open spec fn spec_index_opt(parent: Option<ItemIndex>) -> Option<usize> {
    match parent {
        Option::Some(p) => Some(p.0),
        Option::None => None,
    }
}

pub open spec fn spatial_words(
    uv_position: Vec2Fx,
    uv_size: Vec2Fx,
    depth: i64,
    position_3d: Option<Vec3Fx>,
    anchor: Anchor,
    anchor_text: Anchor,
    parent: Option<ItemIndex>,
) -> Seq<u64> {
    vec2_words(uv_position) + vec2_words(uv_size) + seq![word_i64(depth)] + opt_vec3_words(
        position_3d,
    ) + anchor_words(anchor) + anchor_words(anchor_text) + opt_index_words(
        spec_index_opt(parent),
    )
}

/// The geometry key: a pure function of resolved placement and ancestry.
pub open spec fn spec_spatial_id(
    uv_position: Vec2Fx,
    uv_size: Vec2Fx,
    depth: i64,
    position_3d: Option<Vec3Fx>,
    anchor: Anchor,
    anchor_text: Anchor,
    parent: Option<ItemIndex>,
) -> u64 {
    fnv_words(
        spatial_words(uv_position, uv_size, depth, position_3d, anchor, anchor_text, parent),
    )
}

/// An item after layout resolution: absolute box, final depth, keys.
#[derive(Clone, Debug)]
pub struct ProcessedPicoItem {
    pub text: String,
    pub style: ItemStyle,
    /// Absolute normalized position (projection included for 3-D items).
    pub uv_position: Vec2Fx,
    /// Absolute normalized size.
    pub uv_size: Vec2Fx,
    pub position_3d: Option<Vec3Fx>,
    /// Resolved depth; larger is nearer the viewer.
    pub depth: i64,
    /// Largest depth used by any of this item's children so far.
    pub child_max_depth: i64,
    pub life: Life,
    /// Content key; computed during the frame pass when `None`.
    pub id: Option<u64>,
    /// Geometry key.
    pub spatial_id: u64,
    pub parent: Option<ItemIndex>,
    pub bbox: BBox,
    pub anchor: Anchor,
}

pub struct PItemV {
    pub text: Seq<char>,
    pub style: StyleV,
    pub uv_position: Vec2Fx,
    pub uv_size: Vec2Fx,
    pub position_3d: Option<Vec3Fx>,
    pub depth: i64,
    pub child_max_depth: i64,
    pub life: Life,
    pub id: Option<u64>,
    pub spatial_id: u64,
    pub parent: Option<ItemIndex>,
    pub bbox: BBox,
    pub anchor: Anchor,
}

impl View for ProcessedPicoItem {
    type V = PItemV;

    open spec fn view(&self) -> PItemV {
        PItemV {
            text: self.text@,
            style: self.style@,
            uv_position: self.uv_position,
            uv_size: self.uv_size,
            position_3d: self.position_3d,
            depth: self.depth,
            child_max_depth: self.child_max_depth,
            life: self.life,
            id: self.id,
            spatial_id: self.spatial_id,
            parent: self.parent,
            bbox: self.bbox,
            anchor: self.anchor,
        }
    }
}

impl PItemV {
    pub open spec fn wf(self) -> bool {
        &&& self.style.wf()
        &&& self.uv_position.wf()
        &&& self.uv_size.wf()
        &&& in_range(self.depth as int)
        &&& in_range(self.child_max_depth as int)
        &&& self.life.wf()
        &&& self.bbox.wf()
        &&& self.anchor.wf()
    }
}

pub open spec fn content_words(it: PItemV) -> Seq<u64> {
    seq![it.spatial_id] + bbox_words(it.bbox) + seq![word_i64(it.depth)] + text_words(it.text)
        + life_words(it.life) + style_words(it.style)
}

/// The content key: geometry plus text, life and style. A mismatch with a
/// cache entry's remembered key is the sole trigger for regeneration.
pub open spec fn spec_content_key(it: PItemV) -> u64 {
    fnv_words(content_words(it))
}

impl ProcessedPicoItem {
    pub fn get_uv_position(&self) -> (r: Vec2Fx)
        ensures
            r == self.uv_position,
    {
        self.uv_position
    }

    pub fn get_uv_size(&self) -> (r: Vec2Fx)
        ensures
            r == self.uv_size,
    {
        self.uv_size
    }

    pub fn get_depth(&self) -> (r: i64)
        ensures
            r == self.depth,
    {
        self.depth
    }

    pub fn get_spatial_id(&self) -> (r: u64)
        ensures
            r == self.spatial_id,
    {
        self.spatial_id
    }

    pub fn get_parent(&self) -> (r: Option<ItemIndex>)
        ensures
            r == self.parent,
    {
        self.parent
    }

    pub fn get_bbox(&self) -> (r: BBox)
        ensures
            r == self.bbox,
    {
        self.bbox
    }

    pub fn get_life(&self) -> (r: Life)
        ensures
            r == self.life,
    {
        self.life
    }

    pub fn get_anchor(&self) -> (r: Anchor)
        ensures
            r == self.anchor,
    {
        self.anchor
    }

    /// The content key of this resolved item.
    pub fn generate_id(&self) -> (r: u64)
        ensures
            r == spec_content_key(self@),
    {
        let mut ws: Vec<u64> = Vec::new();
        push_word(&mut ws, self.spatial_id);
        push_bbox(&mut ws, self.bbox);
        push_word(&mut ws, self.depth as u64);
        push_text(&mut ws, &self.text);
        match self.life {
            Life::Finite(n) => {
                push_word(&mut ws, 0);
                push_word(&mut ws, n as u64);
            }
            Life::Infinite => {
                push_word(&mut ws, 1);
                push_word(&mut ws, 0);
            }
        }
        push_anchor(&mut ws, &self.style.anchor_text);
        push_word(&mut ws, self.style.words.len() as u64);
        let mut i: usize = 0;
        while i < self.style.words.len()
            invariant
                0 <= i <= self.style.words@.len(),
                ws@ == content_words(self@).take(
                    content_words(self@).len() - self.style.words@.len() + i,
                ),
        decreases self.style.words@.len() - i,
        {
            push_word(&mut ws, self.style.words[i]);
            proof {
                let cw = content_words(self@);
                assert(cw.take(cw.len() - self.style.words@.len() + i).push(
                    self.style.words@[i as int],
                ) =~= cw.take(cw.len() - self.style.words@.len() + i + 1));
            }
            i = i + 1;
        }
        proof {
            let cw = content_words(self@);
            assert(ws@ =~= cw) by {
                assert(ws@ == cw.take(cw.len() as int));
                assert(cw.take(cw.len() as int) =~= cw);
            }
        }
        fnv1a(&ws)
    }
}

} // verus!
