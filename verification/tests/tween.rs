use std::cell::Cell;
use std::rc::Rc;

use sprite::animation::{custom_function, Animation, AnimationState, Status};
use sprite::ease::EaseFunction;
use sprite::sprite::SpriteProps;
use sprite::UNIT;

#[test]
fn move_to_interpolates_and_snaps_exactly() {
    let mut props = SpriteProps::new();
    let st = Animation::MoveTo(1_000, 10_000_000, 20_000_000).to_state(&props);

    let (st, status, leftover) = st.update(&mut props, 250);
    assert_eq!(status, Status::Running);
    assert_eq!(leftover, 0);
    assert_eq!(props.position(), (2_500_000, 5_000_000));

    let (st, status, leftover) = st.unwrap().update(&mut props, 750);
    assert_eq!(status, Status::Success);
    assert_eq!(leftover, 0);
    assert_eq!(props.position(), (10_000_000, 20_000_000));
    assert!(st.is_none());
}

#[test]
fn completion_reports_surplus_time() {
    let mut props = SpriteProps::new();
    let st = Animation::RotateBy(600, 90_000_000).to_state(&props);
    let (st, status, leftover) = st.update(&mut props, 900);
    assert!(st.is_none());
    assert_eq!(status, Status::Success);
    assert_eq!(leftover, 300);
    assert_eq!(props.rotation(), 90_000_000);
}

#[test]
fn many_small_steps_drift_free() {
    let mut props = SpriteProps::new();
    let mut st = Animation::MoveBy(1_000, 333, 777).to_state(&props);
    // 999 one-tick steps stay short of the duration; the thousandth lands
    // the position exactly on the target.
    for _ in 0..999 {
        let (next, status, _) = st.update(&mut props, 1);
        assert_eq!(status, Status::Running);
        st = next.unwrap();
    }
    let (next, status, leftover) = st.update(&mut props, 1);
    assert!(next.is_none());
    assert_eq!(status, Status::Success);
    assert_eq!(leftover, 0);
    assert_eq!(props.position(), (333, 777));
}

#[test]
fn move_by_round_trip_is_exact() {
    let mut props = SpriteProps::new();
    props.set_position(123_456, -654_321);

    let st = Animation::MoveBy(500, 1_000_003, 2_000_007).to_state(&props);
    let (_, status, _) = st.update(&mut props, 500);
    assert_eq!(status, Status::Success);
    assert_eq!(props.position(), (1_123_459, 1_345_686));

    let st = Animation::MoveBy(500, -1_000_003, -2_000_007).to_state(&props);
    let (_, status, _) = st.update(&mut props, 500);
    assert_eq!(status, Status::Success);
    assert_eq!(props.position(), (123_456, -654_321));
}

#[test]
fn zero_duration_snaps_at_once() {
    let mut props = SpriteProps::new();
    let st = Animation::FadeTo(0, 250_000).to_state(&props);
    let (next, status, leftover) = st.update(&mut props, 400);
    assert!(next.is_none());
    assert_eq!(status, Status::Success);
    assert_eq!(leftover, 400);
    assert_eq!(props.opacity(), 250_000);
}

#[test]
fn fade_out_reaches_zero() {
    let mut props = SpriteProps::new();
    assert_eq!(props.opacity(), UNIT);
    let st = Animation::FadeOut(1_000).to_state(&props);
    let (st, status, _) = st.update(&mut props, 400);
    assert_eq!(status, Status::Running);
    assert_eq!(props.opacity(), 600_000);
    let (_, status, _) = st.unwrap().update(&mut props, 600);
    assert_eq!(status, Status::Success);
    assert_eq!(props.opacity(), 0);
}

#[test]
fn instantaneous_kinds_return_whole_step() {
    let mut props = SpriteProps::new();

    let st = Animation::Hide.to_state(&props);
    let (next, status, leftover) = st.update(&mut props, 777);
    assert!(next.is_none());
    assert_eq!(status, Status::Success);
    assert_eq!(leftover, 777);
    assert!(!props.visible());

    let st = Animation::ToggleVisibility.to_state(&props);
    let (_, _, leftover) = st.update(&mut props, 55);
    assert!(props.visible());
    assert_eq!(leftover, 55);

    let st = Animation::FlipX(true).to_state(&props);
    let (next, status, leftover) = st.update(&mut props, 42);
    assert!(next.is_none());
    assert_eq!(status, Status::Success);
    assert_eq!(leftover, 42);
    assert!(props.flip_x());
    assert!(!props.flip_y());
}

#[test]
fn blink_toggles_four_times_and_restores_visibility() {
    let mut props = SpriteProps::new();
    assert!(props.visible());
    let mut st = Animation::Blink(1_000_000, 2).to_state(&props);
    let mut toggles: u32 = 0;
    let mut last = props.visible();
    let mut done = false;
    for _ in 0..8 {
        assert!(!done);
        let (next, status, _) = st.update(&mut props, 125_000);
        if props.visible() != last {
            toggles += 1;
            last = props.visible();
        }
        match next {
            Some(n) => {
                assert_eq!(status, Status::Running);
                st = n;
            },
            None => {
                assert_eq!(status, Status::Success);
                done = true;
                break;
            },
        }
    }
    assert!(done);
    assert_eq!(toggles, 4);
    assert!(props.visible());
}

#[test]
fn callback_runs_once_per_invocation() {
    let counter = Rc::new(Cell::new(0u32));
    let c = Rc::clone(&counter);
    let f = custom_function(move || {
        c.set(c.get() + 1);
    });
    let mut props = SpriteProps::new();
    let st = Animation::Function(f).to_state(&props);
    let (next, status, leftover) = st.update(&mut props, 300);
    assert!(next.is_none());
    assert_eq!(status, Status::Success);
    assert_eq!(leftover, 300);
    assert_eq!(counter.get(), 1);
}

#[test]
fn callback_handles_compare_by_identity() {
    let f = custom_function(|| {});
    let g = custom_function(|| {});
    assert!(Animation::Function(f.clone()) == Animation::Function(f.clone()));
    assert!(Animation::Function(f) != Animation::Function(g));
}

#[test]
fn descriptors_compare_structurally() {
    assert!(Animation::MoveBy(5, 1, 2) == Animation::MoveBy(5, 1, 2));
    assert!(Animation::MoveBy(5, 1, 2) != Animation::MoveBy(5, 1, 3));
    assert!(Animation::MoveBy(5, 1, 2) != Animation::MoveTo(5, 1, 2));
    assert!(
        Animation::Ease(EaseFunction::EaseCubicIn, Box::new(Animation::Show))
            == Animation::Ease(EaseFunction::EaseCubicIn, Box::new(Animation::Show))
    );
    assert!(
        Animation::Ease(EaseFunction::EaseCubicIn, Box::new(Animation::Show))
            != Animation::Ease(EaseFunction::EaseCubicOut, Box::new(Animation::Show))
    );
}

#[test]
fn ease_wrap_applies_eased_factor() {
    let mut props = SpriteProps::new();
    let st = Animation::Ease(
        EaseFunction::EaseQuadraticIn,
        Box::new(Animation::MoveTo(1_000, 1_000_000, 0)),
    )
        .to_state(&props);

    // Halfway: progress one half, eased factor one quarter.
    let (st, status, _) = st.update(&mut props, 500);
    assert_eq!(status, Status::Running);
    assert_eq!(props.position(), (250_000, 0));

    // The terminal step snaps exactly, easing or not.
    let (next, status, _) = st.unwrap().update(&mut props, 500);
    assert!(next.is_none());
    assert_eq!(status, Status::Success);
    assert_eq!(props.position(), (1_000_000, 0));
}

#[test]
fn ease_wrap_falls_back_for_discrete_kinds() {
    let mut props = SpriteProps::new();
    props.set_visible(false);
    let st = Animation::Ease(EaseFunction::EaseBounceOut, Box::new(Animation::Show)).to_state(
        &props,
    );
    let (next, status, leftover) = st.update(&mut props, 99);
    assert!(next.is_none());
    assert_eq!(status, Status::Success);
    assert_eq!(leftover, 99);
    assert!(props.visible());
}

#[test]
fn to_state_captures_current_value_as_begin() {
    let mut props = SpriteProps::new();
    props.set_scale(2_000_000, 3_000_000);
    let st = Animation::ScaleTo(100, 4_000_000, 1_000_000).to_state(&props);
    let (_, status, _) = st.update(&mut props, 50);
    assert_eq!(status, Status::Running);
    // Halfway between (2, 3) and (4, 1), in millionths.
    assert_eq!(props.scale(), (3_000_000, 2_000_000));
}

#[test]
fn out_of_range_descriptor_values_are_clamped() {
    let mut props = SpriteProps::new();
    let st = Animation::MoveTo(-5, i64::MAX, i64::MIN).to_state(&props);
    let (next, status, leftover) = st.update(&mut props, 10);
    assert!(next.is_none());
    assert_eq!(status, Status::Success);
    assert_eq!(leftover, 10);
    assert_eq!(
        props.position(),
        (1_000_000_000_000_000_000, -1_000_000_000_000_000_000)
    );
}
