use std::rc::Rc;

use sprite::animation::{Animation, AnimationState, Status};
use sprite::scene::Scene;
use sprite::sprite::{Sprite, SpriteProps};

struct Pixels;

// A scene driven by the library's own tween machine directly: each entry's
// behavior is a bare descriptor, its runtime state the tween state.
type Reg = Scene<Pixels, Animation, AnimationState>;

fn drive_plain(
    props: SpriteProps,
    b: &Animation,
    st: Option<AnimationState>,
    dt: i64,
) -> (SpriteProps, Option<AnimationState>, Status) {
    let mut props = props;
    let st0 = match st {
        Some(s) => s,
        None => b.to_state(&props),
    };
    let (next, status, _) = st0.update(&mut props, dt);
    (props, next, status)
}

fn fresh_scene_with_sprite() -> (Reg, u64) {
    let mut scene: Reg = Scene::new();
    let id = scene.add_child(Sprite::from_texture(Rc::new(Pixels)));
    (scene, id)
}

#[test]
fn event_advances_and_drops_finished_entries() {
    let (mut scene, id) = fresh_scene_with_sprite();
    scene.run(id, Animation::MoveTo(1_000, 4_000_000, 0));
    assert_eq!(scene.running(), 1);

    scene.event(250, &drive_plain);
    assert_eq!(scene.child(id).unwrap().position(), (1_000_000, 0));
    assert_eq!(scene.running(), 1);

    scene.event(750, &drive_plain);
    assert_eq!(scene.child(id).unwrap().position(), (4_000_000, 0));
    assert_eq!(scene.running(), 0);
}

#[test]
fn paused_entries_freeze_their_sprite() {
    let (mut scene, id) = fresh_scene_with_sprite();
    let anim = Animation::FadeOut(1_000);
    scene.run(id, anim.clone());
    scene.event(400, &drive_plain);
    assert_eq!(scene.child(id).unwrap().opacity(), 600_000);

    scene.pause(id, &anim);
    scene.event(400, &drive_plain);
    scene.event(400, &drive_plain);
    assert_eq!(scene.child(id).unwrap().opacity(), 600_000);
    assert_eq!(scene.running(), 1);

    scene.resume(id, &anim);
    scene.event(300, &drive_plain);
    assert_eq!(scene.child(id).unwrap().opacity(), 300_000);
    scene.event(300, &drive_plain);
    assert_eq!(scene.child(id).unwrap().opacity(), 0);
    assert_eq!(scene.running(), 0);
}

#[test]
fn toggle_flips_the_paused_flag() {
    let (mut scene, id) = fresh_scene_with_sprite();
    let anim = Animation::MoveBy(1_000, 1_000_000, 0);
    scene.run(id, anim.clone());
    scene.toggle(id, &anim);
    scene.event(500, &drive_plain);
    assert_eq!(scene.child(id).unwrap().position(), (0, 0));
    scene.toggle(id, &anim);
    scene.event(500, &drive_plain);
    assert_eq!(scene.child(id).unwrap().position(), (500_000, 0));
}

#[test]
fn stop_removes_the_matching_entry() {
    let (mut scene, id) = fresh_scene_with_sprite();
    let a = Animation::MoveBy(1_000, 1_000_000, 0);
    let b = Animation::RotateBy(1_000, 90_000_000);
    scene.run(id, a.clone());
    scene.run(id, b.clone());
    assert_eq!(scene.running_for_child(id).unwrap(), 2);

    scene.stop(id, &a);
    assert_eq!(scene.running_for_child(id).unwrap(), 1);
    scene.event(1_000, &drive_plain);
    let sp = scene.child(id).unwrap();
    assert_eq!(sp.position(), (0, 0));
    assert_eq!(sp.rotation(), 90_000_000);
}

#[test]
fn stop_all_clears_a_sprites_entries() {
    let (mut scene, id) = fresh_scene_with_sprite();
    scene.run(id, Animation::MoveBy(1_000, 1_000_000, 0));
    scene.run(id, Animation::FadeOut(1_000));
    assert_eq!(scene.running(), 2);
    scene.stop_all(id);
    assert_eq!(scene.running(), 0);
    assert_eq!(scene.running_for_child(id).unwrap(), 0);
}

#[test]
fn concurrent_animations_compose_within_one_tick() {
    let (mut scene, id) = fresh_scene_with_sprite();
    scene.run(id, Animation::MoveBy(1_000, 1_000_000, 0));
    scene.run(id, Animation::MoveBy(1_000, 0, 2_000_000));
    scene.event(1_000, &drive_plain);
    assert_eq!(scene.child(id).unwrap().position(), (1_000_000, 2_000_000));
    assert_eq!(scene.running(), 0);
}

#[test]
fn running_for_child_distinguishes_missing_sprites() {
    let (scene, id) = fresh_scene_with_sprite();
    assert_eq!(scene.running_for_child(id), Some(0));
    assert_eq!(scene.running_for_child(id.wrapping_add(1)), None);
}

#[test]
fn run_on_unknown_id_registers_nothing() {
    let (mut scene, id) = fresh_scene_with_sprite();
    scene.run(id.wrapping_add(1), Animation::Show);
    assert_eq!(scene.running(), 0);
}

#[test]
fn nested_children_are_found_and_removed() {
    let mut scene: Reg = Scene::new();
    let mut parent = Sprite::from_texture(Rc::new(Pixels));
    let mut middle = Sprite::from_texture(Rc::new(Pixels));
    let leaf = Sprite::from_texture(Rc::new(Pixels));
    let leaf_id = middle.add_child(leaf);
    let middle_id = parent.add_child(middle);
    let parent_id = scene.add_child(parent);

    assert!(scene.child(leaf_id).is_some());
    assert!(scene.child(middle_id).is_some());
    assert_eq!(scene.child(parent_id).unwrap().children().len(), 1);

    let removed = scene.remove_child(middle_id).unwrap();
    assert_eq!(removed.id(), middle_id);
    assert!(scene.child(middle_id).is_none());
    assert!(scene.child(leaf_id).is_none());
    assert!(scene.child(parent_id).is_some());
}

#[test]
fn removing_a_subtree_stops_its_registrations() {
    let mut scene: Reg = Scene::new();
    let mut parent = Sprite::from_texture(Rc::new(Pixels));
    let child = Sprite::from_texture(Rc::new(Pixels));
    let child_id = parent.add_child(child);
    let parent_id = scene.add_child(parent);

    scene.run(parent_id, Animation::FadeOut(1_000));
    scene.run(child_id, Animation::FadeOut(1_000));
    assert_eq!(scene.running(), 2);

    scene.remove_child(parent_id);
    assert_eq!(scene.running(), 0);
}

#[test]
fn removal_renumbers_later_siblings() {
    let mut scene: Reg = Scene::new();
    let a = scene.add_child(Sprite::from_texture(Rc::new(Pixels)));
    let b = scene.add_child(Sprite::from_texture(Rc::new(Pixels)));
    let c = scene.add_child(Sprite::from_texture(Rc::new(Pixels)));

    scene.remove_child(a);
    assert!(scene.child(a).is_none());
    assert_eq!(scene.child(b).unwrap().id(), b);
    assert_eq!(scene.child(c).unwrap().id(), c);

    scene.remove_child(b);
    assert_eq!(scene.child(c).unwrap().id(), c);
}

#[test]
fn sprite_setters_round_trip_through_getters() {
    let mut s = Sprite::from_texture(Rc::new(Pixels));
    s.set_position(7, -9);
    s.set_rotation(45_000_000);
    s.set_scale(2_000_000, 2_500_000);
    s.set_anchor(0, 1_000_000);
    s.set_color(250_000, 500_000, 750_000);
    s.set_opacity(333_333);
    s.set_visible(false);
    s.set_flip_x(true);
    s.set_flip_y(true);
    assert_eq!(s.position(), (7, -9));
    assert_eq!(s.rotation(), 45_000_000);
    assert_eq!(s.scale(), (2_000_000, 2_500_000));
    assert_eq!(s.anchor(), (0, 1_000_000));
    assert_eq!(s.color(), (250_000, 500_000, 750_000));
    assert_eq!(s.opacity(), 333_333);
    assert!(!s.visible());
    assert!(s.flip_x());
    assert!(s.flip_y());
}

#[test]
fn textures_are_shared_between_sprites() {
    let texture = Rc::new(Pixels);
    let a = Sprite::from_texture(Rc::clone(&texture));
    let b = Sprite::from_texture(Rc::clone(&texture));
    assert!(Rc::ptr_eq(a.texture(), b.texture()));
    drop(a);
    assert!(Rc::ptr_eq(b.texture(), &texture));
}

#[test]
fn deferred_removal_survives_new_registrations() {
    let (mut scene, id) = fresh_scene_with_sprite();
    scene.run(id, Animation::FadeOut(1_000));
    scene.remove_child_when_done(id);

    // Marking is sticky: a fresh animation does not unmark the sprite.
    scene.run(id, Animation::FadeOut(2_000));
    scene.event(1_000, &drive_plain);
    assert!(scene.child(id).is_some());
    scene.event(1_000, &drive_plain);
    assert!(scene.child(id).is_none());
}
