use pico_ui::engine::Pico;
use pico_ui::fixed::{muldiv, COORD_MAX, UV_ONE};
use pico_ui::frame::{render, FrameEnv, ProxyCommand};
use pico_ui::geom::{get_bbox, Anchor, BBox, Vec2Fx};
use pico_ui::item::{Life, PicoItem};
use pico_ui::state::ButtonSnapshot;
use pico_ui::units::Val;

fn quiet_env() -> FrameEnv {
    FrameEnv {
        window: Some(Vec2Fx { x: 1000, y: 1000 }),
        cursor: None,
        buttons: ButtonSnapshot { pressed: false, just_pressed: false, just_released: false },
        any_just_pressed: false,
        delta_time: 16_000,
    }
}

fn fresh_pico() -> Pico {
    let mut pico = Pico::default();
    pico.window_size = Vec2Fx { x: 1000, y: 1000 };
    // start at the steady-state auto-depth base, as after any frame pass
    pico.internal_auto_depth = 500_000;
    pico
}

fn full_viewport_container(pico: &mut Pico) -> pico_ui::item::ItemIndex {
    let mut c = PicoItem::default();
    c.width = Val::Percent(100_000);
    c.height = Val::Percent(100_000);
    c.anchor = Anchor::TopLeft;
    c.anchor_parent = Anchor::TopLeft;
    pico.add(c)
}

#[test]
fn muldiv_exact_and_saturating() {
    assert_eq!(muldiv(10, 3, 2), 15);
    assert_eq!(muldiv(-10, 3, 2), -15);
    assert_eq!(muldiv(7, 1, 2), 3);
    assert_eq!(muldiv(-7, 1, 2), -3);
    assert_eq!(muldiv(COORD_MAX, COORD_MAX, 1), COORD_MAX);
    assert_eq!(muldiv(-COORD_MAX, COORD_MAX, 1), -COORD_MAX);
}

#[test]
fn unit_resolution_against_window() {
    let pico = fresh_pico();
    let one = Vec2Fx { x: UV_ONE, y: UV_ONE };
    // 100 pixels of a 1000-pixel window is a tenth
    assert_eq!(pico.valp_x(Val::Px(100_000), one), 100_000);
    // 10 percent of the parent extent
    assert_eq!(pico.valp_x(Val::Percent(10_000), one), 100_000);
    // viewport units
    assert_eq!(pico.valp_x(Val::Vw(50_000), one), 500_000);
    assert_eq!(pico.valp_x(Val::Vh(50_000), one), 500_000);
    assert_eq!(pico.valp_x(Val::Auto, one), 0);
}

#[test]
fn unit_resolution_aspect_ratio() {
    let mut pico = fresh_pico();
    pico.window_size = Vec2Fx { x: 2000, y: 1000 };
    let one = Vec2Fx { x: UV_ONE, y: UV_ONE };
    // 50vh on the horizontal axis of a 2:1 window is a quarter of the width
    assert_eq!(pico.valp_x(Val::Vh(50_000), one), 250_000);
    // vmin follows the height here, vmax the width
    assert_eq!(pico.valp_x(Val::VMin(100_000), one), 500_000);
    assert_eq!(pico.valp_y(Val::VMax(100_000), one), 2_000_000);
}

#[test]
fn unit_resolution_degenerate_window_is_zero() {
    let mut pico = fresh_pico();
    pico.window_size = Vec2Fx { x: 0, y: 0 };
    let one = Vec2Fx { x: UV_ONE, y: UV_ONE };
    assert_eq!(pico.valp_x(Val::Px(100_000), one), 0);
}

#[test]
fn bbox_nine_anchors() {
    let size = Vec2Fx { x: 200_000, y: 100_000 };
    let pos = Vec2Fx { x: 500_000, y: 500_000 };
    let tl = get_bbox(size, pos, &Anchor::TopLeft);
    assert_eq!(
        tl,
        BBox { min_x: 500_000, min_y: 500_000, max_x: 700_000, max_y: 600_000 }
    );
    let br = get_bbox(size, pos, &Anchor::BottomRight);
    assert_eq!(
        br,
        BBox { min_x: 300_000, min_y: 400_000, max_x: 500_000, max_y: 500_000 }
    );
    let c = get_bbox(size, pos, &Anchor::Center);
    assert_eq!(
        c,
        BBox { min_x: 400_000, min_y: 450_000, max_x: 600_000, max_y: 550_000 }
    );
    let tc = get_bbox(size, pos, &Anchor::TopCenter);
    assert_eq!(tc.min_y, 500_000);
    assert_eq!(tc.min_x, 400_000);
    let cl = get_bbox(size, pos, &Anchor::CenterLeft);
    assert_eq!(cl.min_x, 500_000);
    assert_eq!(cl.min_y, 450_000);
    let custom = get_bbox(size, pos, &Anchor::Custom(250_000, 750_000));
    // a quarter of the width, three quarters of the height
    assert_eq!(
        custom,
        BBox { min_x: 450_000, min_y: 425_000, max_x: 650_000, max_y: 525_000 }
    );
}

#[test]
fn concrete_scenario_ten_percent_child() {
    // container C over the full viewport; child A at 10%,10% with size
    // 20% x 20% anchored top-left resolves to (0.10,0.10)-(0.30,0.30)
    let mut pico = fresh_pico();
    let c = full_viewport_container(&mut pico);
    assert_eq!(
        pico.get(&c).bbox,
        BBox { min_x: 0, min_y: 0, max_x: UV_ONE, max_y: UV_ONE }
    );
    let mut a = PicoItem::default();
    a.x = Val::Percent(10_000);
    a.y = Val::Percent(10_000);
    a.width = Val::Percent(20_000);
    a.height = Val::Percent(20_000);
    a.anchor = Anchor::TopLeft;
    a.anchor_parent = Anchor::TopLeft;
    a.parent = Some(c);
    let ai = pico.add(a);
    assert_eq!(
        pico.get(&ai).bbox,
        BBox { min_x: 100_000, min_y: 100_000, max_x: 300_000, max_y: 300_000 }
    );
}

#[test]
fn concrete_scenario_restyle_keeps_geometry_key_but_regenerates() {
    let mut pico = fresh_pico();
    let env = quiet_env();

    let declare = |pico: &mut Pico, style_word: u64| {
        let c = full_viewport_container(pico);
        let mut a = PicoItem::default();
        a.x = Val::Percent(10_000);
        a.y = Val::Percent(10_000);
        a.width = Val::Percent(20_000);
        a.height = Val::Percent(20_000);
        a.anchor = Anchor::TopLeft;
        a.anchor_parent = Anchor::TopLeft;
        a.parent = Some(c);
        a.style.words = vec![style_word];
        pico.add(a)
    };

    let a1 = declare(&mut pico, 1);
    let key1 = pico.get(&a1).spatial_id;
    render(&mut pico, &env);

    // redeclared with only a style word changed: same geometry key
    let a2 = declare(&mut pico, 2);
    let key2 = pico.get(&a2).spatial_id;
    assert_eq!(key1, key2);
    let cmds = render(&mut pico, &env);
    // the restyled child must be regenerated
    let recreated = cmds.iter().any(|c| match c {
        ProxyCommand::Create { spatial_id, .. } => *spatial_id == key2,
        _ => false,
    });
    assert!(recreated);
}

#[test]
fn idempotent_second_frame_updates_only() {
    let mut pico = fresh_pico();
    let env = quiet_env();
    let declare = |pico: &mut Pico| {
        let c = full_viewport_container(pico);
        let mut a = PicoItem::new2d(Vec2Fx { x: 200_000, y: 200_000 }, "label");
        a.width = Val::Percent(30_000);
        a.height = Val::Percent(10_000);
        a.parent = Some(c);
        pico.add(a);
    };
    declare(&mut pico);
    render(&mut pico, &env);
    declare(&mut pico);
    let cmds = render(&mut pico, &env);
    for c in &cmds {
        match c {
            ProxyCommand::Reposition { .. } => {}
            ProxyCommand::Create { .. } => panic!("unchanged frame recreated a proxy"),
            ProxyCommand::Destroy { .. } => panic!("unchanged frame destroyed a proxy"),
        }
    }
    assert!(!cmds.is_empty());
}

#[test]
fn vstack_children_are_spaced_monotonically() {
    let mut pico = fresh_pico();
    let c = full_viewport_container(&mut pico);
    let _g = pico.vstack(Val::Percent(5_000), Val::Percent(2_000), false, &c);
    let mut mk = || {
        let mut ch = PicoItem::default();
        ch.width = Val::Percent(50_000);
        ch.height = Val::Percent(10_000);
        ch.anchor = Anchor::TopLeft;
        ch.anchor_parent = Anchor::TopLeft;
        ch.parent = Some(c);
        pico.add(ch)
    };
    let c1 = mk();
    let c2 = mk();
    let c3 = mk();
    pico.pop_stack();
    let b1 = pico.get(&c1).bbox;
    let b2 = pico.get(&c2).bbox;
    let b3 = pico.get(&c3).bbox;
    // each child starts at least a margin below the previous one's end
    assert!(b2.min_y >= b1.max_y + 20_000);
    assert!(b3.min_y >= b2.max_y + 20_000);
    // the first child starts at the requested offset
    assert_eq!(b1.min_y, 50_000);
    assert_eq!(b1.max_y - b1.min_y, 100_000);
}

#[test]
fn reversed_vstack_grows_upward() {
    let mut pico = fresh_pico();
    let c = full_viewport_container(&mut pico);
    let _g = pico.vstack(Val::Percent(0), Val::Percent(2_000), true, &c);
    let mut mk = || {
        let mut ch = PicoItem::default();
        ch.width = Val::Percent(50_000);
        ch.height = Val::Percent(10_000);
        ch.anchor = Anchor::BottomLeft;
        ch.anchor_parent = Anchor::BottomLeft;
        ch.parent = Some(c);
        pico.add(ch)
    };
    let c1 = mk();
    let c2 = mk();
    pico.pop_stack();
    let b1 = pico.get(&c1).bbox;
    let b2 = pico.get(&c2).bbox;
    assert!(b2.max_y <= b1.min_y - 20_000);
}

#[test]
fn stack_bypass_leaves_cursor_alone() {
    let mut pico = fresh_pico();
    let c = full_viewport_container(&mut pico);
    let _g = pico.vstack(Val::Percent(0), Val::Percent(0), false, &c);
    let mut mk = |pico: &mut Pico| {
        let mut ch = PicoItem::default();
        ch.width = Val::Percent(50_000);
        ch.height = Val::Percent(10_000);
        ch.anchor = Anchor::TopLeft;
        ch.anchor_parent = Anchor::TopLeft;
        ch.parent = Some(c);
        pico.add(ch)
    };
    let c1 = mk(&mut pico);
    {
        let _b = pico.stack_bypass();
        let free = mk(&mut pico);
        pico.pop_stack();
        // the bypassed item ignores the cursor entirely
        assert_eq!(pico.get(&free).bbox.min_y, 0);
        let _ = c1;
    }
    let c2 = mk(&mut pico);
    pico.pop_stack();
    // flow resumes where it left off
    assert_eq!(pico.get(&c2).bbox.min_y, 100_000);
}

#[test]
fn remaining_stack_space_shrinks() {
    let mut pico = fresh_pico();
    let c = full_viewport_container(&mut pico);
    let _g = pico.vstack(Val::Percent(0), Val::Percent(0), false, &c);
    assert_eq!(pico.remaining_stack_space(), UV_ONE);
    let mut ch = PicoItem::default();
    ch.width = Val::Percent(50_000);
    ch.height = Val::Percent(25_000);
    ch.anchor = Anchor::TopLeft;
    ch.anchor_parent = Anchor::TopLeft;
    ch.parent = Some(c);
    pico.add(ch);
    assert_eq!(pico.remaining_stack_space(), 750_000);
    pico.pop_stack();
}

#[test]
fn geometry_key_is_deterministic_and_content_sensitive() {
    let pos = Vec2Fx { x: 1, y: 2 };
    let size = Vec2Fx { x: 3, y: 4 };
    let k1 = PicoItem::generate_spatial_id(
        &pos,
        &size,
        &7,
        &None,
        &Anchor::Center,
        &Anchor::Center,
        &None,
    );
    let k2 = PicoItem::generate_spatial_id(
        &pos,
        &size,
        &7,
        &None,
        &Anchor::Center,
        &Anchor::Center,
        &None,
    );
    assert_eq!(k1, k2);
    let k3 = PicoItem::generate_spatial_id(
        &pos,
        &size,
        &8,
        &None,
        &Anchor::Center,
        &Anchor::Center,
        &None,
    );
    assert_ne!(k1, k3);
}

#[test]
fn auto_depth_orders_declarations() {
    let mut pico = fresh_pico();
    let a = pico.add(PicoItem::new2d(Vec2Fx { x: 0, y: 0 }, "a"));
    let b = pico.add(PicoItem::new2d(Vec2Fx { x: 0, y: 0 }, "b"));
    assert!(pico.get(&b).depth > pico.get(&a).depth);
}

#[test]
fn child_depth_exceeds_equal_parent_depth() {
    let mut pico = fresh_pico();
    let mut p = PicoItem::default();
    p.depth = Some(400_000);
    p.width = Val::Percent(100_000);
    p.height = Val::Percent(100_000);
    let pi = pico.add(p);
    let mut ch = PicoItem::default();
    ch.depth = Some(0);
    ch.parent = Some(pi);
    let ci = pico.add(ch);
    assert!(pico.get(&ci).depth > pico.get(&pi).depth);
}

#[test]
fn missing_window_short_circuits() {
    let mut pico = fresh_pico();
    full_viewport_container(&mut pico);
    let mut env = quiet_env();
    env.window = None;
    let cmds = render(&mut pico, &env);
    assert!(cmds.is_empty());
    // nothing was consumed: the declaration is still queued
    assert_eq!(pico.items.len(), 1);
    assert!(pico.state.is_empty());
}

#[test]
fn projected_3d_item_positions_and_fails_closed() {
    let mut pico = fresh_pico();
    let mut a = PicoItem::new3d(pico_ui::geom::Vec3Fx { x: 1, y: 2, z: 3 }, "tag");
    a.projected = Some(Vec2Fx { x: 400_000, y: 600_000 });
    a.uv_size = Vec2Fx { x: 100_000, y: 100_000 };
    a.anchor = Anchor::Center;
    let ai = pico.add(a);
    assert_eq!(pico.get(&ai).uv_position, Vec2Fx { x: 400_000, y: 600_000 });

    let mut b = PicoItem::new3d(pico_ui::geom::Vec3Fx { x: 1, y: 2, z: 3 }, "tag");
    b.projected = None;
    b.uv_size = Vec2Fx { x: 100_000, y: 100_000 };
    let bi = pico.add(b);
    // no projection this frame: an empty box, so hit-testing fails closed
    let bb = pico.get(&bi).bbox;
    assert_eq!(
        bb,
        BBox { min_x: 0, min_y: 0, max_x: 0, max_y: 0 }
    );
}

#[test]
fn lifecycle_life_zero_purged_one_frame_after_skip() {
    let mut pico = fresh_pico();
    let env = quiet_env();
    let c = full_viewport_container(&mut pico);
    let key = pico.get(&c).spatial_id;
    render(&mut pico, &env);
    assert!(pico.state.iter().any(|e| e.key == key));
    // not redeclared: the very next frame destroys it
    let cmds = render(&mut pico, &env);
    let destroyed = cmds.iter().any(|cmd| match cmd {
        ProxyCommand::Destroy { spatial_id } => *spatial_id == key,
        _ => false,
    });
    assert!(destroyed);
    assert!(!pico.state.iter().any(|e| e.key == key));
}

#[test]
fn lifecycle_infinite_life_survives() {
    let mut pico = fresh_pico();
    let env = quiet_env();
    let mut item = PicoItem::new2d(Vec2Fx { x: 100_000, y: 100_000 }, "pinned");
    item.width = Val::Percent(10_000);
    item.height = Val::Percent(10_000);
    let item = item.keep();
    assert_eq!(item.life, Life::Infinite);
    let idx = pico.add(item);
    let key = pico.get(&idx).spatial_id;
    render(&mut pico, &env);
    for _ in 0..10 {
        render(&mut pico, &env);
    }
    assert!(pico.state.iter().any(|e| e.key == key));
}

#[test]
fn window_resize_regenerates() {
    let mut pico = fresh_pico();
    let env = quiet_env();
    let declare = |pico: &mut Pico| {
        let mut a = PicoItem::new2d(Vec2Fx { x: 500_000, y: 500_000 }, "x");
        a.uv_size = Vec2Fx { x: 100_000, y: 100_000 };
        pico.add(a)
    };
    declare(&mut pico);
    render(&mut pico, &env);
    declare(&mut pico);
    let mut env2 = env;
    env2.window = Some(Vec2Fx { x: 800, y: 600 });
    let cmds = render(&mut pico, &env2);
    assert!(cmds.iter().any(|c| matches!(c, ProxyCommand::Create { .. })));
}

#[test]
fn duplicate_geometry_shares_one_entry() {
    // two items resolving to identical geometry share a geometry key and
    // therefore a single cache entry
    let mut pico = fresh_pico();
    let env = quiet_env();
    let declare = |pico: &mut Pico| {
        let mut a = PicoItem::new2d(Vec2Fx { x: 500_000, y: 500_000 }, "twin");
        a.uv_size = Vec2Fx { x: 100_000, y: 100_000 };
        a.depth = Some(700_000);
        let i1 = pico.add(a.clone());
        let i2 = pico.add(a);
        (i1, i2)
    };
    let (i1, i2) = declare(&mut pico);
    assert_eq!(pico.get(&i1).spatial_id, pico.get(&i2).spatial_id);
    render(&mut pico, &env);
    let key = {
        let (i1, _) = declare(&mut pico);
        pico.get(&i1).spatial_id
    };
    assert_eq!(pico.state.iter().filter(|e| e.key == key).count(), 1);
}

#[test]
fn pixel_conversions_round_trip() {
    let pico = fresh_pico();
    // 1000-pixel window: val_x_px undoes the window division
    assert_eq!(pico.val_x_px(Val::Px(250_000)), 250_000);
    let px = pico.uv_scale_to_px(Vec2Fx { x: 500_000, y: 250_000 });
    assert_eq!(px, Vec2Fx { x: 500_000, y: 250_000 });
    let centered = pico.uv_position_to_px(Vec2Fx { x: 750_000, y: 250_000 });
    assert_eq!(centered, Vec2Fx { x: 250_000, y: -250_000 });
    let ws = pico.uv_position_to_ws_px(Vec2Fx { x: 750_000, y: 250_000 });
    assert_eq!(ws, Vec2Fx { x: 250_000, y: 250_000 });
}

#[test]
fn center_and_last() {
    let mut pico = fresh_pico();
    assert_eq!(pico.last(), 0);
    let mut a = PicoItem::default();
    a.uv_position = Vec2Fx { x: 400_000, y: 600_000 };
    a.uv_size = Vec2Fx { x: 200_000, y: 100_000 };
    let i = pico.add(a);
    assert_eq!(pico.last(), 0);
    assert_eq!(pico.center(&i), Vec2Fx { x: 400_000, y: 600_000 });
    pico.add(PicoItem::default());
    assert_eq!(pico.last(), 1);
}

#[test]
fn caller_key_override_is_respected() {
    let mut pico = fresh_pico();
    let mut a = PicoItem::new2d(Vec2Fx { x: 100_000, y: 100_000 }, "pinned key");
    a.spatial_id = Some(42);
    let i = pico.add(a);
    assert_eq!(pico.get(&i).spatial_id, 42);
}
