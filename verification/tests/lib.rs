use std::rc::Rc;

use ai_behavior::{Action, Behavior, State};
use input::{Event, UpdateArgs};

use sprite::animation::{Animation, AnimationState, Status};
use sprite::scene::Scene;
use sprite::sprite::{Sprite, SpriteProps};

struct FakeTexture;

type Beh = Behavior<Animation>;
type RtState = State<Animation, AnimationState>;

fn to_secs(t: i64) -> f64 {
    t as f64 / 1_000_000.0
}

fn to_ticks(t: f64) -> i64 {
    (t * 1_000_000.0).round() as i64
}

fn to_ai(s: Status) -> ai_behavior::Status {
    match s {
        Status::Running => ai_behavior::Status::Running,
        Status::Success => ai_behavior::Status::Success,
        Status::Failure => ai_behavior::Status::Failure,
    }
}

fn from_ai(s: ai_behavior::Status) -> Status {
    match s {
        ai_behavior::Status::Running => Status::Running,
        ai_behavior::Status::Success => Status::Success,
        ai_behavior::Status::Failure => Status::Failure,
    }
}

/// The behavior-tree evaluator: walks the combinator tree with the tween
/// state machine as the leaf evaluator.
fn drive(
    props: SpriteProps,
    b: &Beh,
    st: Option<RtState>,
    dt: i64,
) -> (SpriteProps, Option<RtState>, Status) {
    let mut props = props;
    let mut state = match st {
        Some(s) => s,
        None => State::new(b.clone()),
    };
    let e: Event = UpdateArgs { dt: to_secs(dt) }.into();
    let (status, _) = state.event(
        &e,
        &mut |args: ai_behavior::ActionArgs<Event, Animation, AnimationState>| {
            let dt_ticks = to_ticks(args.dt);
            let st0 = match args.state.take() {
                Some(s) => s,
                None => args.action.to_state(&props),
            };
            let (next, status, leftover) = st0.update(&mut props, dt_ticks);
            *args.state = next;
            (to_ai(status), to_secs(leftover))
        },
    );
    (props, Some(state), from_ai(status))
}

#[test]
fn pruning_stopped_sprites() {
    let mut scene: Scene<FakeTexture, Beh, RtState> = Scene::new();
    let s = Sprite::from_texture(Rc::new(FakeTexture));
    let id = scene.add_child(s);
    assert_eq!(0, scene.running_for_child(id).unwrap());

    scene.run(id, Action(Animation::FadeOut(1_000_000)));
    assert_eq!(1, scene.running_for_child(id).unwrap());

    scene.remove_child_when_done(id);
    assert!(scene.child(id).is_some());

    scene.event(900_000, &drive);

    assert_eq!(1, scene.running_for_child(id).unwrap());
    assert!(scene.child(id).is_some());

    scene.event(200_000, &drive);

    assert!(scene.child(id).is_none());
    assert!(scene.running_for_child(id).is_none());
}

#[test]
fn remove_child_when_done_when_sprite_already_stopped() {
    let mut scene: Scene<FakeTexture, Beh, RtState> = Scene::new();
    let s = Sprite::from_texture(Rc::new(FakeTexture));
    let id = scene.add_child(s);
    scene.remove_child_when_done(id);

    assert!(scene.child(id).is_none());
}

#[test]
fn remove_child_when_done_when_animations_paused() {
    let mut scene: Scene<FakeTexture, Beh, RtState> = Scene::new();
    let s = Sprite::from_texture(Rc::new(FakeTexture));
    let id = scene.add_child(s);
    let animation = Action(Animation::FadeOut(1_000_000));
    scene.run(id, animation.clone());
    scene.pause(id, &animation);
    scene.remove_child_when_done(id);

    assert!(scene.child(id).is_some());
}

#[test]
fn paused_sprite_removed_after_resume_and_completion() {
    let mut scene: Scene<FakeTexture, Beh, RtState> = Scene::new();
    let s = Sprite::from_texture(Rc::new(FakeTexture));
    let id = scene.add_child(s);
    let animation = Action(Animation::FadeOut(1_000_000));
    scene.run(id, animation.clone());
    scene.pause(id, &animation);
    scene.remove_child_when_done(id);

    scene.event(500_000, &drive);
    scene.event(500_000, &drive);
    assert!(scene.child(id).is_some());

    scene.resume(id, &animation);
    scene.event(1_100_000, &drive);
    assert!(scene.child(id).is_none());
}

#[test]
fn sequence_of_moves_carries_leftover_time() {
    let mut scene: Scene<FakeTexture, Beh, RtState> = Scene::new();
    let s = Sprite::from_texture(Rc::new(FakeTexture));
    let id = scene.add_child(s);

    let seq = ai_behavior::Sequence(vec![
        Action(Animation::MoveBy(400_000, 1_000_000, 0)),
        Action(Animation::MoveBy(400_000, 0, 2_000_000)),
    ]);
    scene.run(id, seq);

    // One tick that covers both steps: the first one's surplus drives the
    // second to completion.
    scene.event(800_000, &drive);
    let sp = scene.child(id).unwrap();
    assert_eq!(sp.position(), (1_000_000, 2_000_000));
    assert_eq!(scene.running(), 0);
}
