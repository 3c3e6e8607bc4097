//! Cross-frame persistent state: drag records, pointer snapshots, and the
//! durable per-item cache entry.

use vstd::prelude::*;
use crate::fixed::{csub, in_range, spec_csub};
use crate::geom::{BBox, Vec2Fx};
use crate::item::Life;

verus! {

/// An active drag, in normalized window coordinates.
#[derive(Clone, Copy, Debug, PartialEq, Eq, Structural)]
pub struct Drag {
    pub start: Vec2Fx,
    pub end: Vec2Fx,
    pub last_frame: Vec2Fx,
}

impl Drag {
    pub open spec fn wf(self) -> bool {
        self.start.wf() && self.end.wf() && self.last_frame.wf()
    }

    pub open spec fn spec_delta(self) -> Vec2Fx {
        Vec2Fx {
            x: spec_csub(self.end.x as int, self.last_frame.x as int) as i64,
            y: spec_csub(self.end.y as int, self.last_frame.y as int) as i64,
        }
    }

    pub open spec fn spec_total_delta(self) -> Vec2Fx {
        Vec2Fx {
            x: spec_csub(self.end.x as int, self.start.x as int) as i64,
            y: spec_csub(self.end.y as int, self.start.y as int) as i64,
        }
    }

    /// Movement since the previous frame.
    pub fn delta(&self) -> (r: Vec2Fx)
        requires
            self.wf(),
        ensures
            r == self.spec_delta(),
    {
        Vec2Fx { x: csub(self.end.x, self.last_frame.x), y: csub(self.end.y, self.last_frame.y) }
    }

    /// Movement since the drag started.
    pub fn total_delta(&self) -> (r: Vec2Fx)
        requires
            self.wf(),
        ensures
            r == self.spec_total_delta(),
    {
        Vec2Fx { x: csub(self.end.x, self.start.x), y: csub(self.end.y, self.start.y) }
    }
}

/// The primary pointer button's state for one frame.
#[derive(Clone, Copy, Debug, PartialEq, Eq, Structural)]
pub struct ButtonSnapshot {
    pub pressed: bool,
    pub just_pressed: bool,
    pub just_released: bool,
}

impl ButtonSnapshot {
    pub open spec fn wf(self) -> bool {
        (self.just_pressed ==> self.pressed) && (self.just_released ==> !self.pressed)
    }

    pub fn released() -> (r: ButtonSnapshot)
        ensures
            r == (ButtonSnapshot { pressed: false, just_pressed: false, just_released: false }),
    {
        ButtonSnapshot { pressed: false, just_pressed: false, just_released: false }
    }
}

/// Widget-private state carried across frames in a cache entry: a tagged
/// plain value with checked extraction.
#[derive(Clone, Debug)]
pub enum StorageValue {
    Num(i64),
    Pair(i64, i64),
    Text(String),
    Words(Vec<u64>),
}

pub enum StorageV {
    Num(i64),
    Pair(i64, i64),
    Text(Seq<char>),
    Words(Seq<u64>),
}

impl View for StorageValue {
    type V = StorageV;

    open spec fn view(&self) -> StorageV {
        match self {
            StorageValue::Num(n) => StorageV::Num(*n),
            StorageValue::Pair(a, b) => StorageV::Pair(*a, *b),
            StorageValue::Text(s) => StorageV::Text(s@),
            StorageValue::Words(w) => StorageV::Words(w@),
        }
    }
}

/// A durable cache entry, keyed by geometry key. Hover and the input
/// snapshot are transient (reset every frame); drag, selection and storage
/// carry forward; `id` remembers the content key last used to build the
/// visual proxy.
#[derive(Debug)]
pub struct StateItem {
    pub life: Life,
    pub hover: bool,
    pub interactable: bool,
    pub selected: bool,
    pub drag: Option<Drag>,
    pub id: u64,
    pub input: Option<ButtonSnapshot>,
    pub bbox: BBox,
    pub storage: Option<StorageValue>,
}

pub struct StateV {
    pub life: Life,
    pub hover: bool,
    pub interactable: bool,
    pub selected: bool,
    pub drag: Option<Drag>,
    pub id: u64,
    pub input: Option<ButtonSnapshot>,
    pub bbox: BBox,
    pub storage: Option<StorageV>,
}

impl View for StateItem {
    type V = StateV;

    open spec fn view(&self) -> StateV {
        StateV {
            life: self.life,
            hover: self.hover,
            interactable: self.interactable,
            selected: self.selected,
            drag: self.drag,
            id: self.id,
            input: self.input,
            bbox: self.bbox,
            storage: match &self.storage {
                Option::Some(s) => Some(s@),
                Option::None => None,
            },
        }
    }
}

impl StateV {
    pub open spec fn wf(self) -> bool {
        &&& self.life.wf()
        &&& match self.drag {
            Option::Some(d) => d.wf(),
            Option::None => true,
        }
        &&& self.bbox.wf()
    }
}

impl Default for StateItem {
    fn default() -> (r: Self)
        ensures
            r@ == spec_default_state(),
    {
        StateItem {
            life: Life::Finite(0),
            hover: false,
            interactable: false,
            selected: false,
            drag: None,
            id: 0,
            input: None,
            bbox: BBox { min_x: 0, min_y: 0, max_x: 0, max_y: 0 },
            storage: None,
        }
    }
}

pub open spec fn spec_default_state() -> StateV {
    StateV {
        life: Life::Finite(0),
        hover: false,
        interactable: false,
        selected: false,
        drag: None,
        id: 0,
        input: None,
        bbox: BBox { min_x: 0, min_y: 0, max_x: 0, max_y: 0 },
        storage: None,
    }
}

} // verus!
