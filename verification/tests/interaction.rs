use pico_ui::engine::Pico;
use pico_ui::frame::{render, FrameEnv};
use pico_ui::geom::{Anchor, Vec2Fx};
use pico_ui::item::{ItemIndex, PicoItem};
use pico_ui::state::{ButtonSnapshot, StorageValue};
use pico_ui::units::Val;

fn env_with(cursor: Option<Vec2Fx>, pressed: bool, just_pressed: bool, just_released: bool)
    -> FrameEnv {
    FrameEnv {
        window: Some(Vec2Fx { x: 1000, y: 1000 }),
        cursor,
        buttons: ButtonSnapshot { pressed, just_pressed, just_released },
        any_just_pressed: just_pressed,
        delta_time: 16_000,
    }
}

fn fresh_pico() -> Pico {
    let mut pico = Pico::default();
    pico.window_size = Vec2Fx { x: 1000, y: 1000 };
    // start at the steady-state auto-depth base, as after any frame pass
    pico.internal_auto_depth = 500_000;
    pico
}

/// A 20%-square interactable block centered at the given point.
fn block(pico: &mut Pico, center: Vec2Fx, depth: Option<i64>) -> ItemIndex {
    let mut item = PicoItem::new2d(center, "block");
    item.width = Val::Percent(20_000);
    item.height = Val::Percent(20_000);
    item.depth = depth;
    pico.add(item)
}

#[test]
fn hover_inside_box_only() {
    let mut pico = fresh_pico();
    let center = Vec2Fx { x: 500_000, y: 500_000 };
    block(&mut pico, center, None);
    render(&mut pico, &env_with(None, false, false, false));

    // pointer inside
    block(&mut pico, center, None);
    render(&mut pico, &env_with(Some(center), false, false, false));
    let i = block(&mut pico, center, None);
    assert!(pico.hovered(&i));
    assert!(!pico.clicked(&i));

    // pointer far away
    render(&mut pico, &env_with(Some(Vec2Fx { x: 0, y: 0 }), false, false, false));
    let i = block(&mut pico, center, None);
    assert!(!pico.hovered(&i));
}

#[test]
fn depth_precedence_on_click() {
    let mut pico = fresh_pico();
    let center = Vec2Fx { x: 500_000, y: 500_000 };
    let declare = |pico: &mut Pico| {
        let near = block(pico, center, Some(800_000));
        let far = block(pico, Vec2Fx { x: 520_000, y: 520_000 }, Some(200_000));
        (near, far)
    };
    declare(&mut pico);
    render(&mut pico, &env_with(None, false, false, false));
    declare(&mut pico);
    // both boxes cover the pointer; the press lands on the nearer one
    render(&mut pico, &env_with(Some(center), true, true, false));
    let (near, far) = declare(&mut pico);
    assert!(pico.clicked(&near));
    assert!(pico.hovered(&near));
    assert!(!pico.clicked(&far));
    assert!(!pico.hovered(&far));
}

#[test]
fn released_reported_on_release_frame() {
    let mut pico = fresh_pico();
    let center = Vec2Fx { x: 500_000, y: 500_000 };
    block(&mut pico, center, None);
    render(&mut pico, &env_with(None, false, false, false));
    block(&mut pico, center, None);
    render(&mut pico, &env_with(Some(center), true, true, false));
    block(&mut pico, center, None);
    render(&mut pico, &env_with(Some(center), false, false, true));
    let i = block(&mut pico, center, None);
    assert!(pico.released(&i));
    assert!(!pico.clicked(&i));
}

#[test]
fn drag_persists_outside_box_and_clears_on_release() {
    let mut pico = fresh_pico();
    let center = Vec2Fx { x: 500_000, y: 500_000 };

    block(&mut pico, center, None);
    render(&mut pico, &env_with(None, false, false, false));

    // press inside seeds the drag
    block(&mut pico, center, None);
    render(&mut pico, &env_with(Some(center), true, true, false));
    let i = block(&mut pico, center, None);
    let d = pico.dragged(&i).expect("drag seeded");
    assert_eq!(d.start, center);
    assert_eq!(d.end, center);

    // the pointer leaves the box while held: the drag keeps following
    let outside = Vec2Fx { x: 900_000, y: 100_000 };
    render(&mut pico, &env_with(Some(outside), true, false, false));
    let i = block(&mut pico, center, None);
    let d = pico.dragged(&i).expect("drag continues");
    assert_eq!(d.start, center);
    assert_eq!(d.end, outside);
    assert_eq!(d.last_frame, center);
    let delta = d.delta();
    assert_eq!(delta, Vec2Fx { x: 400_000, y: -400_000 });
    let total = d.total_delta();
    assert_eq!(total, Vec2Fx { x: 400_000, y: -400_000 });

    // releasing clears it
    render(&mut pico, &env_with(Some(outside), false, false, true));
    let i = block(&mut pico, center, None);
    assert!(pico.dragged(&i).is_none());
}

#[test]
fn no_second_drag_while_one_is_active() {
    let mut pico = fresh_pico();
    let a_center = Vec2Fx { x: 300_000, y: 300_000 };
    let b_center = Vec2Fx { x: 700_000, y: 700_000 };
    let declare = |pico: &mut Pico| {
        let a = block(pico, a_center, None);
        let b = block(pico, b_center, None);
        (a, b)
    };
    declare(&mut pico);
    render(&mut pico, &env_with(None, false, false, false));
    // press on a
    declare(&mut pico);
    render(&mut pico, &env_with(Some(a_center), true, true, false));
    // drag over to b while held; b must not start a drag
    declare(&mut pico);
    render(&mut pico, &env_with(Some(b_center), true, false, false));
    let (a, b) = declare(&mut pico);
    assert!(pico.dragged(&a).is_some());
    assert!(pico.dragged(&b).is_none());
}

#[test]
fn interacting_flag_follows_presses_and_drags() {
    let mut pico = fresh_pico();
    let center = Vec2Fx { x: 500_000, y: 500_000 };
    block(&mut pico, center, None);
    render(&mut pico, &env_with(None, false, false, false));
    assert!(!pico.interacting);
    block(&mut pico, center, None);
    render(&mut pico, &env_with(Some(center), true, true, false));
    assert!(pico.interacting);
}

#[test]
fn storage_carries_across_frames() {
    let mut pico = fresh_pico();
    let center = Vec2Fx { x: 500_000, y: 500_000 };
    block(&mut pico, center, None);
    render(&mut pico, &env_with(None, false, false, false));

    let i = block(&mut pico, center, None);
    assert!(pico.set_storage(&i, Some(StorageValue::Pair(3, 9))));
    render(&mut pico, &env_with(None, false, false, false));

    let i = block(&mut pico, center, None);
    match pico.take_storage(&i) {
        Some(StorageValue::Pair(a, b)) => {
            assert_eq!((a, b), (3, 9));
        }
        other => panic!("unexpected storage {:?}", other),
    }
    // taking empties the slot
    assert!(pico.take_storage(&i).is_none());
}

#[test]
fn selection_flag_persists() {
    let mut pico = fresh_pico();
    let center = Vec2Fx { x: 500_000, y: 500_000 };
    block(&mut pico, center, None);
    render(&mut pico, &env_with(None, false, false, false));
    let i = block(&mut pico, center, None);
    assert!(pico.set_selected(&i, true));
    render(&mut pico, &env_with(None, false, false, false));
    let i = block(&mut pico, center, None);
    assert!(pico.get_state(&i).expect("entry").selected);
}

#[test]
fn new_item_cannot_be_hovered_on_its_first_frame() {
    let mut pico = fresh_pico();
    let center = Vec2Fx { x: 500_000, y: 500_000 };
    // never seen before: no entry yet, so no hover even with the pointer
    // inside
    block(&mut pico, center, None);
    render(&mut pico, &env_with(Some(center), false, false, false));
    let i = block(&mut pico, center, None);
    // the second pass had an entry, so hover now reports
    render(&mut pico, &env_with(Some(center), false, false, false));
    let j = block(&mut pico, center, None);
    assert!(pico.hovered(&j));
    let _ = i;
}

#[test]
fn zero_size_item_is_not_interactable() {
    let mut pico = fresh_pico();
    let center = Vec2Fx { x: 500_000, y: 500_000 };
    let declare = |pico: &mut Pico| pico.add(PicoItem::new2d(center, "bare text"));
    declare(&mut pico);
    render(&mut pico, &env_with(None, false, false, false));
    declare(&mut pico);
    render(&mut pico, &env_with(Some(center), false, false, false));
    let i = declare(&mut pico);
    assert!(!pico.hovered(&i));
}
