//! Animation descriptors and the tween state machine: the runtime state of
//! one animation effect, advanced against a sprite's properties by a time
//! step.  Times are ticks, scalars are fixed-point millionths, and the
//! machine's whole behaviour is the spec function `spec_step`: on its last
//! step an interpolated tween snaps the property exactly to begin plus
//! delta and reports the unused time, so no drift can accumulate.

use vstd::prelude::*;
use std::rc::Rc;
use crate::ease::{ease_value, unit, EaseFunction};
use crate::sprite::{PropsView, SpriteProps};
use crate::{clamp_prop, clamp_time, BLINK_LIMIT, DELTA_LIMIT, PROP_LIMIT, TIME_LIMIT, UNIT};

verus! {

/// What a tween reports after a step.
#[derive(Clone, Copy, PartialEq, Eq, Structural, Debug)]
pub enum Status {
    /// The animation still has work left.
    Running,
    /// The animation finished during this step.
    Success,
    /// The behavior combinator driving the animation gave it up.
    Failure,
}

/// A user-supplied callback, run when a callback animation fires.
pub trait Func {
    fn execute(&self);
}

/// Wraps a plain closure as a callback.
pub struct FuncImpl<F: Fn()> {
    f: F,
}

impl<F: Fn()> FuncImpl<F> {
    #[verifier::type_invariant]
    spec fn inv(self) -> bool {
        call_requires(self.f, ())
    }
}

impl<F: Fn()> Func for FuncImpl<F> {
    fn execute(&self) {
        proof {
            use_type_invariant(self);
        }
        (self.f)()
    }
}

/// A shared, comparable handle to a callback.  Cloning shares the callback;
/// two handles compare equal exactly when they carry the same token, which
/// stands for the identity of the allocation.
pub struct FuncRef {
    token: u64,
    f: Rc<Box<dyn Func>>,
}

impl FuncRef {
    /// The identity token, at the spec level.
    pub closed spec fn tok(self) -> u64 {
        self.token
    }

    /// Run the callback.
    pub fn invoke(&self) {
        (*self.f).execute()
    }
}

/// Relies on `Rc::clone`: the clone hands back the same shared value.
#[verifier::external_body]
fn rc_clone_func(f: &Rc<Box<dyn Func>>) -> (r: Rc<Box<dyn Func>>)
    ensures
        r == *f,
{
    Rc::clone(f)
}

impl Clone for FuncRef {
    /// The clone shares the callback and keeps the token.
    fn clone(&self) -> (r: FuncRef)
        ensures
            r == *self,
    {
        FuncRef { token: self.token, f: rc_clone_func(&self.f) }
    }
}

impl PartialEq for FuncRef {
    fn eq(&self, other: &FuncRef) -> (r: bool)
        ensures
            r == (self.tok() == other.tok()),
    {
        self.token == other.token
    }
}

impl vstd::std_specs::cmp::PartialEqSpecImpl for FuncRef {
    open spec fn obeys_eq_spec() -> bool {
        true
    }

    open spec fn eq_spec(&self, other: &FuncRef) -> bool {
        self.tok() == other.tok()
    }
}

/// Wrap a closure as a callback animation payload.  The handle's token is
/// drawn fresh, so distinct calls yield handles that compare unequal.
pub fn custom_function<F: Fn() + 'static>(f: F) -> (r: FuncRef)
    requires
        call_requires(f, ()),
{
    FuncRef { token: crate::sprite::fresh_id(), f: Rc::new(Box::new(FuncImpl { f })) }
}

/// Declarative description of one animation effect.  Durations are ticks,
/// scalars fixed-point millionths; values out of range are clamped when the
/// descriptor is turned into a running state.
pub enum Animation {
    /// duration, x, y: move the sprite to a position.
    MoveTo(i64, i64, i64),
    /// duration, dx, dy: move the sprite by an offset.
    MoveBy(i64, i64, i64),
    /// duration, deg: rotate the sprite to an angle.
    RotateTo(i64, i64),
    /// duration, deg: rotate the sprite by an angle.
    RotateBy(i64, i64),
    /// duration, sx, sy: scale the sprite to a scale.
    ScaleTo(i64, i64, i64),
    /// duration, sx, sy: scale the sprite by an offset.
    ScaleBy(i64, i64, i64),
    /// Set horizontal flip.
    FlipX(bool),
    /// Set vertical flip.
    FlipY(bool),
    /// Make the sprite visible.
    Show,
    /// Make the sprite invisible.
    Hide,
    /// Toggle the sprite's visibility.
    ToggleVisibility,
    /// duration, times: blink by toggling visibility across equal periods.
    Blink(i64, usize),
    /// duration: fade opacity to one.
    FadeIn(i64),
    /// duration: fade opacity to zero.
    FadeOut(i64),
    /// duration, opacity: fade opacity to a value.
    FadeTo(i64, i64),
    /// Tween the nested animation through an easing shape.
    Ease(EaseFunction, Box<Animation>),
    /// Run a user callback once.
    Function(FuncRef),
}

/// Structural equality of descriptors: the key the scheduler's registry is
/// searched by.  Callback payloads compare by their identity token.
pub open spec fn spec_anim_eq(a: Animation, b: Animation) -> bool
    decreases a,
{
    match (a, b) {
        (Animation::MoveTo(d1, x1, y1), Animation::MoveTo(d2, x2, y2)) => d1 == d2 && x1 == x2
            && y1 == y2,
        (Animation::MoveBy(d1, x1, y1), Animation::MoveBy(d2, x2, y2)) => d1 == d2 && x1 == x2
            && y1 == y2,
        (Animation::RotateTo(d1, a1), Animation::RotateTo(d2, a2)) => d1 == d2 && a1 == a2,
        (Animation::RotateBy(d1, a1), Animation::RotateBy(d2, a2)) => d1 == d2 && a1 == a2,
        (Animation::ScaleTo(d1, x1, y1), Animation::ScaleTo(d2, x2, y2)) => d1 == d2 && x1 == x2
            && y1 == y2,
        (Animation::ScaleBy(d1, x1, y1), Animation::ScaleBy(d2, x2, y2)) => d1 == d2 && x1 == x2
            && y1 == y2,
        (Animation::FlipX(f1), Animation::FlipX(f2)) => f1 == f2,
        (Animation::FlipY(f1), Animation::FlipY(f2)) => f1 == f2,
        (Animation::Show, Animation::Show) => true,
        (Animation::Hide, Animation::Hide) => true,
        (Animation::ToggleVisibility, Animation::ToggleVisibility) => true,
        (Animation::Blink(d1, n1), Animation::Blink(d2, n2)) => d1 == d2 && n1 == n2,
        (Animation::FadeIn(d1), Animation::FadeIn(d2)) => d1 == d2,
        (Animation::FadeOut(d1), Animation::FadeOut(d2)) => d1 == d2,
        (Animation::FadeTo(d1, o1), Animation::FadeTo(d2, o2)) => d1 == d2 && o1 == o2,
        (Animation::Ease(f1, i1), Animation::Ease(f2, i2)) => f1 == f2 && spec_anim_eq(*i1, *i2),
        (Animation::Function(r1), Animation::Function(r2)) => r1.tok() == r2.tok(),
        _ => false,
    }
}

impl PartialEq for Animation {
    /// Structural comparison, the registry's lookup key.
    fn eq(&self, other: &Animation) -> (r: bool)
        ensures
            r == spec_anim_eq(*self, *other),
        decreases *self,
    {
        match (self, other) {
            (Animation::MoveTo(d1, x1, y1), Animation::MoveTo(d2, x2, y2)) => d1 == d2 && x1 == x2
                && y1 == y2,
            (Animation::MoveBy(d1, x1, y1), Animation::MoveBy(d2, x2, y2)) => d1 == d2 && x1 == x2
                && y1 == y2,
            (Animation::RotateTo(d1, a1), Animation::RotateTo(d2, a2)) => d1 == d2 && a1 == a2,
            (Animation::RotateBy(d1, a1), Animation::RotateBy(d2, a2)) => d1 == d2 && a1 == a2,
            (Animation::ScaleTo(d1, x1, y1), Animation::ScaleTo(d2, x2, y2)) => d1 == d2 && x1
                == x2 && y1 == y2,
            (Animation::ScaleBy(d1, x1, y1), Animation::ScaleBy(d2, x2, y2)) => d1 == d2 && x1
                == x2 && y1 == y2,
            (Animation::FlipX(f1), Animation::FlipX(f2)) => f1 == f2,
            (Animation::FlipY(f1), Animation::FlipY(f2)) => f1 == f2,
            (Animation::Show, Animation::Show) => true,
            (Animation::Hide, Animation::Hide) => true,
            (Animation::ToggleVisibility, Animation::ToggleVisibility) => true,
            (Animation::Blink(d1, n1), Animation::Blink(d2, n2)) => d1 == d2 && n1 == n2,
            (Animation::FadeIn(d1), Animation::FadeIn(d2)) => d1 == d2,
            (Animation::FadeOut(d1), Animation::FadeOut(d2)) => d1 == d2,
            (Animation::FadeTo(d1, o1), Animation::FadeTo(d2, o2)) => d1 == d2 && o1 == o2,
            (Animation::Ease(f1, i1), Animation::Ease(f2, i2)) => *f1 == *f2 && (&**i1).eq(&**i2),
            (Animation::Function(r1), Animation::Function(r2)) => r1.eq(r2),
            _ => false,
        }
    }
}

impl vstd::std_specs::cmp::PartialEqSpecImpl for Animation {
    open spec fn obeys_eq_spec() -> bool {
        true
    }

    open spec fn eq_spec(&self, other: &Animation) -> bool {
        spec_anim_eq(*self, *other)
    }
}

impl Clone for Animation {
    /// The clone is the same descriptor value.
    fn clone(&self) -> (r: Animation)
        ensures
            r == *self,
        decreases *self,
    {
        match self {
            Animation::MoveTo(d, x, y) => Animation::MoveTo(*d, *x, *y),
            Animation::MoveBy(d, x, y) => Animation::MoveBy(*d, *x, *y),
            Animation::RotateTo(d, a) => Animation::RotateTo(*d, *a),
            Animation::RotateBy(d, a) => Animation::RotateBy(*d, *a),
            Animation::ScaleTo(d, x, y) => Animation::ScaleTo(*d, *x, *y),
            Animation::ScaleBy(d, x, y) => Animation::ScaleBy(*d, *x, *y),
            Animation::FlipX(f) => Animation::FlipX(*f),
            Animation::FlipY(f) => Animation::FlipY(*f),
            Animation::Show => Animation::Show,
            Animation::Hide => Animation::Hide,
            Animation::ToggleVisibility => Animation::ToggleVisibility,
            Animation::Blink(d, n) => Animation::Blink(*d, *n),
            Animation::FadeIn(d) => Animation::FadeIn(*d),
            Animation::FadeOut(d) => Animation::FadeOut(*d),
            Animation::FadeTo(d, o) => Animation::FadeTo(*d, *o),
            Animation::Ease(f, i) => Animation::Ease(*f, Box::new((&**i).clone())),
            Animation::Function(fr) => Animation::Function(fr.clone()),
        }
    }
}

/// The running state of one animation against one sprite.
pub enum AnimationState {
    /// elapsed, begin x, begin y, delta x, delta y, duration.
    Move(i64, i64, i64, i64, i64, i64),
    /// elapsed, begin, delta, duration.
    Rotate(i64, i64, i64, i64),
    /// elapsed, begin x, begin y, delta x, delta y, duration.
    Scale(i64, i64, i64, i64, i64, i64),
    /// flip x, flip y.
    Flip(bool, bool),
    /// visible.
    Visibility(bool),
    /// elapsed, duration, toggles done, toggles total.
    Blink(i64, i64, usize, usize),
    /// elapsed, begin, delta, duration.
    Fade(i64, i64, i64, i64),
    /// easing shape, nested state.
    Ease(EaseFunction, Box<AnimationState>),
    /// callback.
    Function(FuncRef),
}

impl Clone for AnimationState {
    /// The clone is the same running state.
    fn clone(&self) -> (r: AnimationState)
        ensures
            r == *self,
        decreases *self,
    {
        match self {
            AnimationState::Move(t, bx, by, cx, cy, d) => AnimationState::Move(
                *t,
                *bx,
                *by,
                *cx,
                *cy,
                *d,
            ),
            AnimationState::Rotate(t, b, c, d) => AnimationState::Rotate(*t, *b, *c, *d),
            AnimationState::Scale(t, bx, by, cx, cy, d) => AnimationState::Scale(
                *t,
                *bx,
                *by,
                *cx,
                *cy,
                *d,
            ),
            AnimationState::Flip(fx, fy) => AnimationState::Flip(*fx, *fy),
            AnimationState::Visibility(v) => AnimationState::Visibility(*v),
            AnimationState::Blink(t, d, c, n) => AnimationState::Blink(*t, *d, *c, *n),
            AnimationState::Fade(t, b, c, d) => AnimationState::Fade(*t, *b, *c, *d),
            AnimationState::Ease(f, i) => AnimationState::Ease(*f, Box::new((&**i).clone())),
            AnimationState::Function(fr) => AnimationState::Function(fr.clone()),
        }
    }
}

/// A time within the supported range.
pub open spec fn time_ok(v: int) -> bool {
    0 <= v <= TIME_LIMIT as int
}

/// A begin value within the stored property range.
pub open spec fn prop_ok(v: int) -> bool {
    -(PROP_LIMIT as int) <= v <= PROP_LIMIT as int
}

/// A delta within the range a difference of two properties can have.
pub open spec fn delta_ok(v: int) -> bool {
    -(DELTA_LIMIT as int) <= v <= DELTA_LIMIT as int
}

/// Well-formedness of a running state: every stored time, begin value and
/// delta is in range.  `to_state` establishes it and `update` keeps it.
pub open spec fn state_wf(st: AnimationState) -> bool
    decreases st,
{
    match st {
        AnimationState::Move(t, bx, by, cx, cy, d) => time_ok(t as int) && time_ok(d as int)
            && prop_ok(bx as int) && prop_ok(by as int) && delta_ok(cx as int) && delta_ok(
            cy as int,
        ),
        AnimationState::Rotate(t, b, c, d) => time_ok(t as int) && time_ok(d as int) && prop_ok(
            b as int,
        ) && delta_ok(c as int),
        AnimationState::Scale(t, bx, by, cx, cy, d) => time_ok(t as int) && time_ok(d as int)
            && prop_ok(bx as int) && prop_ok(by as int) && delta_ok(cx as int) && delta_ok(
            cy as int,
        ),
        AnimationState::Flip(_, _) => true,
        AnimationState::Visibility(_) => true,
        AnimationState::Blink(past, dur, cur, total) => time_ok(past as int) && time_ok(dur as int)
            && cur <= total && total <= 2 * BLINK_LIMIT,
        AnimationState::Fade(t, b, c, d) => time_ok(t as int) && time_ok(d as int) && prop_ok(
            b as int,
        ) && delta_ok(c as int),
        AnimationState::Ease(_, inner) => state_wf(*inner),
        AnimationState::Function(_) => true,
    }
}

/// `(x * y) / d` with the division truncated toward zero, for `d > 0`.
pub open spec fn mul_div_trunc(x: int, y: int, d: int) -> int {
    let prod = x * y;
    if prod >= 0 {
        prod / d
    } else {
        -((-prod) / d)
    }
}

/// The running state a descriptor starts as, against properties `p`: the
/// interpolated kinds capture the current property as the begin value;
/// durations are clamped into the supported time range, target scalars into
/// the property range, and blink counts to the supported number of
/// occurrences.  A clamped duration of zero makes the first step snap and
/// succeed at once, so no division by a zero duration can ever happen.
pub open spec fn spec_to_state(a: Animation, p: PropsView) -> AnimationState
    decreases a,
{
    match a {
        Animation::MoveTo(dur, x, y) => AnimationState::Move(
            0,
            p.pos_x as i64,
            p.pos_y as i64,
            (clamp_prop(x as int) - p.pos_x) as i64,
            (clamp_prop(y as int) - p.pos_y) as i64,
            clamp_time(dur as int) as i64,
        ),
        Animation::MoveBy(dur, cx, cy) => AnimationState::Move(
            0,
            p.pos_x as i64,
            p.pos_y as i64,
            clamp_prop(cx as int) as i64,
            clamp_prop(cy as int) as i64,
            clamp_time(dur as int) as i64,
        ),
        Animation::RotateTo(dur, deg) => AnimationState::Rotate(
            0,
            p.rotation as i64,
            (clamp_prop(deg as int) - p.rotation) as i64,
            clamp_time(dur as int) as i64,
        ),
        Animation::RotateBy(dur, c) => AnimationState::Rotate(
            0,
            p.rotation as i64,
            clamp_prop(c as int) as i64,
            clamp_time(dur as int) as i64,
        ),
        Animation::ScaleTo(dur, sx, sy) => AnimationState::Scale(
            0,
            p.scale_x as i64,
            p.scale_y as i64,
            (clamp_prop(sx as int) - p.scale_x) as i64,
            (clamp_prop(sy as int) - p.scale_y) as i64,
            clamp_time(dur as int) as i64,
        ),
        Animation::ScaleBy(dur, cx, cy) => AnimationState::Scale(
            0,
            p.scale_x as i64,
            p.scale_y as i64,
            clamp_prop(cx as int) as i64,
            clamp_prop(cy as int) as i64,
            clamp_time(dur as int) as i64,
        ),
        Animation::FlipX(fx) => AnimationState::Flip(fx, p.flip_y),
        Animation::FlipY(fy) => AnimationState::Flip(p.flip_x, fy),
        Animation::Show => AnimationState::Visibility(true),
        Animation::Hide => AnimationState::Visibility(false),
        Animation::ToggleVisibility => AnimationState::Visibility(!p.visible),
        Animation::Blink(dur, times) => AnimationState::Blink(
            0,
            clamp_time(dur as int) as i64,
            0,
            if times > BLINK_LIMIT {
                (2 * BLINK_LIMIT) as usize
            } else {
                (2 * times) as usize
            },
        ),
        Animation::FadeIn(dur) => AnimationState::Fade(
            0,
            p.opacity as i64,
            (UNIT as int - p.opacity) as i64,
            clamp_time(dur as int) as i64,
        ),
        Animation::FadeOut(dur) => AnimationState::Fade(
            0,
            p.opacity as i64,
            (0 - p.opacity) as i64,
            clamp_time(dur as int) as i64,
        ),
        Animation::FadeTo(dur, o) => AnimationState::Fade(
            0,
            p.opacity as i64,
            (clamp_prop(o as int) - p.opacity) as i64,
            clamp_time(dur as int) as i64,
        ),
        Animation::Ease(f, inner) => AnimationState::Ease(
            f,
            Box::new(spec_to_state(*inner, p)),
        ),
        Animation::Function(fr) => AnimationState::Function(fr),
    }
}

/// What one step of the tween machine produces: the continuation state if
/// any, the reported status, the unused time, and the properties after the
/// step.
pub struct StepOut {
    pub next: Option<AnimationState>,
    pub status: Status,
    pub leftover: int,
    pub props: PropsView,
}

/// One step of the tween machine on state `st`, properties `p` and a time
/// step `dt`.
///
/// Interpolated kinds that reach their duration snap the property exactly
/// to begin plus delta (clamped into the stored range), succeed, and return
/// the surplus time; otherwise they set the property to begin plus delta
/// times the progress fraction, exactly in integer arithmetic.  An ease
/// wrap applies the eased factor to the four interpolated kinds; every
/// other kind has no continuous factor to ease, so the wrap falls back to
/// the nested kind's own step and hands the nested continuation back
/// unwrapped.  Instantaneous kinds apply at once and hand the whole step
/// back.
pub open spec fn spec_step(st: AnimationState, p: PropsView, dt: int) -> StepOut
    decreases st, 0int,
{
    match st {
        AnimationState::Move(t, bx, by, cx, cy, d) => {
            let nt = t as int + dt;
            if nt >= d as int {
                StepOut {
                    next: None,
                    status: Status::Success,
                    leftover: nt - d as int,
                    props: (PropsView {
                        pos_x: clamp_prop(bx as int + cx as int),
                        pos_y: clamp_prop(by as int + cy as int),
                        ..p
                    }),
                }
            } else {
                StepOut {
                    next: Some(AnimationState::Move(nt as i64, bx, by, cx, cy, d)),
                    status: Status::Running,
                    leftover: 0,
                    props: (PropsView {
                        pos_x: clamp_prop(bx as int + mul_div_trunc(cx as int, nt, d as int)),
                        pos_y: clamp_prop(by as int + mul_div_trunc(cy as int, nt, d as int)),
                        ..p
                    }),
                }
            }
        },
        AnimationState::Rotate(t, b, c, d) => {
            let nt = t as int + dt;
            if nt >= d as int {
                StepOut {
                    next: None,
                    status: Status::Success,
                    leftover: nt - d as int,
                    props: (PropsView { rotation: clamp_prop(b as int + c as int), ..p }),
                }
            } else {
                StepOut {
                    next: Some(AnimationState::Rotate(nt as i64, b, c, d)),
                    status: Status::Running,
                    leftover: 0,
                    props: (PropsView {
                        rotation: clamp_prop(b as int + mul_div_trunc(c as int, nt, d as int)),
                        ..p
                    }),
                }
            }
        },
        AnimationState::Scale(t, bx, by, cx, cy, d) => {
            let nt = t as int + dt;
            if nt >= d as int {
                StepOut {
                    next: None,
                    status: Status::Success,
                    leftover: nt - d as int,
                    props: (PropsView {
                        scale_x: clamp_prop(bx as int + cx as int),
                        scale_y: clamp_prop(by as int + cy as int),
                        ..p
                    }),
                }
            } else {
                StepOut {
                    next: Some(AnimationState::Scale(nt as i64, bx, by, cx, cy, d)),
                    status: Status::Running,
                    leftover: 0,
                    props: (PropsView {
                        scale_x: clamp_prop(bx as int + mul_div_trunc(cx as int, nt, d as int)),
                        scale_y: clamp_prop(by as int + mul_div_trunc(cy as int, nt, d as int)),
                        ..p
                    }),
                }
            }
        },
        AnimationState::Flip(fx, fy) => StepOut {
            next: None,
            status: Status::Success,
            leftover: dt,
            props: (PropsView { flip_x: fx, flip_y: fy, ..p }),
        },
        AnimationState::Visibility(v) => StepOut {
            next: None,
            status: Status::Success,
            leftover: dt,
            props: (PropsView { visible: v, ..p }),
        },
        AnimationState::Blink(past, dur, cur, total) => {
            let nt = past as int + dt;
            if nt * total as int >= (cur as int + 1) * dur as int {
                let toggled = PropsView { visible: !p.visible, ..p };
                if nt >= dur as int {
                    StepOut {
                        next: None,
                        status: Status::Success,
                        leftover: nt - dur as int,
                        props: toggled,
                    }
                } else {
                    StepOut {
                        next: Some(
                            AnimationState::Blink(nt as i64, dur, (cur + 1) as usize, total),
                        ),
                        status: Status::Running,
                        leftover: 0,
                        props: toggled,
                    }
                }
            } else {
                StepOut {
                    next: Some(AnimationState::Blink(clamp_time(nt) as i64, dur, cur, total)),
                    status: Status::Running,
                    leftover: 0,
                    props: p,
                }
            }
        },
        AnimationState::Fade(t, b, c, d) => {
            let nt = t as int + dt;
            if nt >= d as int {
                StepOut {
                    next: None,
                    status: Status::Success,
                    leftover: nt - d as int,
                    props: (PropsView { opacity: clamp_prop(b as int + c as int), ..p }),
                }
            } else {
                StepOut {
                    next: Some(AnimationState::Fade(nt as i64, b, c, d)),
                    status: Status::Running,
                    leftover: 0,
                    props: (PropsView {
                        opacity: clamp_prop(b as int + mul_div_trunc(c as int, nt, d as int)),
                        ..p
                    }),
                }
            }
        },
        AnimationState::Ease(f, inner) => spec_step_eased(f, *inner, p, dt),
        AnimationState::Function(_) => StepOut {
            next: None,
            status: Status::Success,
            leftover: dt,
            props: p,
        },
    }
}

/// One step of an ease-wrapped state: the four interpolated kinds advance
/// with the eased progress factor and re-wrap their continuation; every
/// other kind falls back to its own step, unwrapped.
pub open spec fn spec_step_eased(f: EaseFunction, st: AnimationState, p: PropsView, dt: int) -> StepOut
    decreases st, 1int,
{
    match st {
        AnimationState::Move(t, bx, by, cx, cy, d) => {
            let nt = t as int + dt;
            if nt >= d as int {
                StepOut {
                    next: None,
                    status: Status::Success,
                    leftover: nt - d as int,
                    props: (PropsView {
                        pos_x: clamp_prop(bx as int + cx as int),
                        pos_y: clamp_prop(by as int + cy as int),
                        ..p
                    }),
                }
            } else {
                let factor = ease_value(f, (nt * unit()) / d as int);
                StepOut {
                    next: Some(
                        AnimationState::Ease(
                            f,
                            Box::new(AnimationState::Move(nt as i64, bx, by, cx, cy, d)),
                        ),
                    ),
                    status: Status::Running,
                    leftover: 0,
                    props: (PropsView {
                        pos_x: clamp_prop(bx as int + mul_div_trunc(cx as int, factor, unit())),
                        pos_y: clamp_prop(by as int + mul_div_trunc(cy as int, factor, unit())),
                        ..p
                    }),
                }
            }
        },
        AnimationState::Rotate(t, b, c, d) => {
            let nt = t as int + dt;
            if nt >= d as int {
                StepOut {
                    next: None,
                    status: Status::Success,
                    leftover: nt - d as int,
                    props: (PropsView { rotation: clamp_prop(b as int + c as int), ..p }),
                }
            } else {
                let factor = ease_value(f, (nt * unit()) / d as int);
                StepOut {
                    next: Some(
                        AnimationState::Ease(
                            f,
                            Box::new(AnimationState::Rotate(nt as i64, b, c, d)),
                        ),
                    ),
                    status: Status::Running,
                    leftover: 0,
                    props: (PropsView {
                        rotation: clamp_prop(b as int + mul_div_trunc(c as int, factor, unit())),
                        ..p
                    }),
                }
            }
        },
        AnimationState::Scale(t, bx, by, cx, cy, d) => {
            let nt = t as int + dt;
            if nt >= d as int {
                StepOut {
                    next: None,
                    status: Status::Success,
                    leftover: nt - d as int,
                    props: (PropsView {
                        scale_x: clamp_prop(bx as int + cx as int),
                        scale_y: clamp_prop(by as int + cy as int),
                        ..p
                    }),
                }
            } else {
                let factor = ease_value(f, (nt * unit()) / d as int);
                StepOut {
                    next: Some(
                        AnimationState::Ease(
                            f,
                            Box::new(AnimationState::Scale(nt as i64, bx, by, cx, cy, d)),
                        ),
                    ),
                    status: Status::Running,
                    leftover: 0,
                    props: (PropsView {
                        scale_x: clamp_prop(bx as int + mul_div_trunc(cx as int, factor, unit())),
                        scale_y: clamp_prop(by as int + mul_div_trunc(cy as int, factor, unit())),
                        ..p
                    }),
                }
            }
        },
        AnimationState::Fade(t, b, c, d) => {
            let nt = t as int + dt;
            if nt >= d as int {
                StepOut {
                    next: None,
                    status: Status::Success,
                    leftover: nt - d as int,
                    props: (PropsView { opacity: clamp_prop(b as int + c as int), ..p }),
                }
            } else {
                let factor = ease_value(f, (nt * unit()) / d as int);
                StepOut {
                    next: Some(
                        AnimationState::Ease(
                            f,
                            Box::new(AnimationState::Fade(nt as i64, b, c, d)),
                        ),
                    ),
                    status: Status::Running,
                    leftover: 0,
                    props: (PropsView {
                        opacity: clamp_prop(b as int + mul_div_trunc(c as int, factor, unit())),
                        ..p
                    }),
                }
            }
        },
        _ => spec_step(st, p, dt),
    }
}

impl Animation {
    /// Generate the running state this descriptor starts as against the
    /// given properties.
    pub fn to_state(&self, props: &SpriteProps) -> (st: AnimationState)
        ensures
            st == spec_to_state(*self, props@),
            state_wf(st),
        decreases *self,
    {
        proof {
            use_type_invariant(props);
        }
        match self {
            Animation::MoveTo(dur, x, y) => {
                let (bx, by) = props.position();
                AnimationState::Move(
                    0,
                    bx,
                    by,
                    crate::clamp_prop_value(*x) - bx,
                    crate::clamp_prop_value(*y) - by,
                    crate::clamp_time_value(*dur),
                )
            },
            Animation::MoveBy(dur, cx, cy) => {
                let (bx, by) = props.position();
                AnimationState::Move(
                    0,
                    bx,
                    by,
                    crate::clamp_prop_value(*cx),
                    crate::clamp_prop_value(*cy),
                    crate::clamp_time_value(*dur),
                )
            },
            Animation::RotateTo(dur, deg) => {
                let b = props.rotation();
                AnimationState::Rotate(
                    0,
                    b,
                    crate::clamp_prop_value(*deg) - b,
                    crate::clamp_time_value(*dur),
                )
            },
            Animation::RotateBy(dur, c) => {
                let b = props.rotation();
                AnimationState::Rotate(0, b, crate::clamp_prop_value(*c), crate::clamp_time_value(*dur))
            },
            Animation::ScaleTo(dur, sx, sy) => {
                let (bx, by) = props.scale();
                AnimationState::Scale(
                    0,
                    bx,
                    by,
                    crate::clamp_prop_value(*sx) - bx,
                    crate::clamp_prop_value(*sy) - by,
                    crate::clamp_time_value(*dur),
                )
            },
            Animation::ScaleBy(dur, cx, cy) => {
                let (bx, by) = props.scale();
                AnimationState::Scale(
                    0,
                    bx,
                    by,
                    crate::clamp_prop_value(*cx),
                    crate::clamp_prop_value(*cy),
                    crate::clamp_time_value(*dur),
                )
            },
            Animation::FlipX(fx) => AnimationState::Flip(*fx, props.flip_y()),
            Animation::FlipY(fy) => AnimationState::Flip(props.flip_x(), *fy),
            Animation::Show => AnimationState::Visibility(true),
            Animation::Hide => AnimationState::Visibility(false),
            Animation::ToggleVisibility => AnimationState::Visibility(!props.visible()),
            Animation::Blink(dur, times) => {
                let total: usize = if *times > BLINK_LIMIT {
                    2 * BLINK_LIMIT
                } else {
                    2 * *times
                };
                AnimationState::Blink(0, crate::clamp_time_value(*dur), 0, total)
            },
            Animation::FadeIn(dur) => {
                let b = props.opacity();
                AnimationState::Fade(0, b, UNIT - b, crate::clamp_time_value(*dur))
            },
            Animation::FadeOut(dur) => {
                let b = props.opacity();
                AnimationState::Fade(0, b, 0 - b, crate::clamp_time_value(*dur))
            },
            Animation::FadeTo(dur, o) => {
                let b = props.opacity();
                AnimationState::Fade(
                    0,
                    b,
                    crate::clamp_prop_value(*o) - b,
                    crate::clamp_time_value(*dur),
                )
            },
            Animation::Ease(f, inner) => AnimationState::Ease(
                *f,
                Box::new((&**inner).to_state(props)),
            ),
            Animation::Function(fr) => AnimationState::Function(fr.clone()),
        }
    }
}

/// Interpolate: begin plus delta scaled by the fraction `num / den`, the
/// result clamped into the stored property range.
fn apply_interp(b: i64, c: i64, num: i64, den: i64) -> (v: i64)
    requires
        prop_ok(b as int),
        delta_ok(c as int),
        -(UNIT as int) <= num as int <= 2 * TIME_LIMIT as int,
        1 <= den as int <= TIME_LIMIT as int,
    ensures
        v as int == clamp_prop(b as int + mul_div_trunc(c as int, num as int, den as int)),
{
    proof {
        assert(-4_000_000_000_000_000_000_000_000_000_000_000
            <= c as int * num as int <= 4_000_000_000_000_000_000_000_000_000_000_000)
            by (nonlinear_arith)
            requires
                -2_000_000_000_000_000_000 <= c as int <= 2_000_000_000_000_000_000,
                -2_000_000_000_000_000 <= num as int <= 2_000_000_000_000_000,
        ;
    }
    let prod: i128 = (c as i128) * (num as i128);
    let q: i128 = if prod >= 0 {
        crate::ease::divq(prod, den as i128)
    } else {
        -crate::ease::divq(-prod, den as i128)
    };
    let sum: i128 = (b as i128) + q;
    if sum > PROP_LIMIT as i128 {
        PROP_LIMIT
    } else if sum < -(PROP_LIMIT as i128) {
        -PROP_LIMIT
    } else {
        sum as i64
    }
}

impl AnimationState {
    /// Advance this state by `dt` against the given properties: the runtime
    /// step of the tween machine.  Returns the continuation state (none once
    /// the animation is done), the status, and the unused part of `dt`.
    #[verifier::rlimit(100)]
    pub fn update(&self, props: &mut SpriteProps, dt: i64) -> (r: (
        Option<AnimationState>,
        Status,
        i64,
    ))
        requires
            state_wf(*self),
            0 <= dt <= TIME_LIMIT,
        ensures
            ({
                let so = spec_step(*self, old(props)@, dt as int);
                &&& r.0 == so.next
                &&& r.1 == so.status
                &&& r.2 as int == so.leftover
                &&& final(props)@ == so.props
                &&& (r.0 is Some ==> state_wf(r.0->0))
            }),
        decreases *self,
    {
        match self {
            AnimationState::Move(t, bx, by, cx, cy, d) => {
                let nt = *t + dt;
                if nt >= *d {
                    props.set_position(*bx + *cx, *by + *cy);
                    (None, Status::Success, nt - *d)
                } else {
                    let x = apply_interp(*bx, *cx, nt, *d);
                    let y = apply_interp(*by, *cy, nt, *d);
                    props.set_position(x, y);
                    (
                        Some(AnimationState::Move(nt, *bx, *by, *cx, *cy, *d)),
                        Status::Running,
                        0,
                    )
                }
            },
            AnimationState::Rotate(t, b, c, d) => {
                let nt = *t + dt;
                if nt >= *d {
                    props.set_rotation(*b + *c);
                    (None, Status::Success, nt - *d)
                } else {
                    let v = apply_interp(*b, *c, nt, *d);
                    props.set_rotation(v);
                    (Some(AnimationState::Rotate(nt, *b, *c, *d)), Status::Running, 0)
                }
            },
            AnimationState::Scale(t, bx, by, cx, cy, d) => {
                let nt = *t + dt;
                if nt >= *d {
                    props.set_scale(*bx + *cx, *by + *cy);
                    (None, Status::Success, nt - *d)
                } else {
                    let x = apply_interp(*bx, *cx, nt, *d);
                    let y = apply_interp(*by, *cy, nt, *d);
                    props.set_scale(x, y);
                    (
                        Some(AnimationState::Scale(nt, *bx, *by, *cx, *cy, *d)),
                        Status::Running,
                        0,
                    )
                }
            },
            AnimationState::Flip(fx, fy) => {
                props.set_flip_x(*fx);
                props.set_flip_y(*fy);
                (None, Status::Success, dt)
            },
            AnimationState::Visibility(v) => {
                props.set_visible(*v);
                (None, Status::Success, dt)
            },
            AnimationState::Blink(past, dur, cur, total) => {
                let nt = *past + dt;
                proof {
                    crate::ease::lemma_mul_le(
                        nt as int,
                        *total as int,
                        2_000_000_000_000_000,
                        2_000_000,
                    );
                    crate::ease::lemma_mul_le(
                        *cur as int + 1,
                        *dur as int,
                        2_000_001,
                        1_000_000_000_000_000,
                    );
                }
                if (nt as i128) * (*total as i128) >= ((*cur as i128) + 1) * (*dur as i128) {
                    let v = props.visible();
                    props.set_visible(!v);
                    if nt >= *dur {
                        (None, Status::Success, nt - *dur)
                    } else {
                        proof {
                            assert(*cur < *total) by (nonlinear_arith)
                                requires
                                    0 <= (nt as int) < (*dur as int),
                                    0 <= *cur as int <= *total as int,
                                    nt as int * *total as int >= (*cur as int + 1)
                                        * *dur as int,
                            ;
                        }
                        (
                            Some(AnimationState::Blink(nt, *dur, *cur + 1, *total)),
                            Status::Running,
                            0,
                        )
                    }
                } else {
                    (
                        Some(
                            AnimationState::Blink(
                                crate::clamp_time_value(nt),
                                *dur,
                                *cur,
                                *total,
                            ),
                        ),
                        Status::Running,
                        0,
                    )
                }
            },
            AnimationState::Fade(t, b, c, d) => {
                let nt = *t + dt;
                if nt >= *d {
                    props.set_opacity(*b + *c);
                    (None, Status::Success, nt - *d)
                } else {
                    let v = apply_interp(*b, *c, nt, *d);
                    props.set_opacity(v);
                    (Some(AnimationState::Fade(nt, *b, *c, *d)), Status::Running, 0)
                }
            },
            AnimationState::Ease(f, inner) => {
                proof {
                    reveal_with_fuel(state_wf, 3);
                }
                match &**inner {
                    AnimationState::Move(t, bx, by, cx, cy, d) => {
                        let nt = *t + dt;
                        if nt >= *d {
                            props.set_position(*bx + *cx, *by + *cy);
                            (None, Status::Success, nt - *d)
                        } else {
                            let factor = (*f).calc(eased_progress(nt, *d));
                            let x = apply_interp(*bx, *cx, factor, UNIT);
                            let y = apply_interp(*by, *cy, factor, UNIT);
                            props.set_position(x, y);
                            (
                                Some(
                                    AnimationState::Ease(
                                        *f,
                                        Box::new(
                                            AnimationState::Move(nt, *bx, *by, *cx, *cy, *d),
                                        ),
                                    ),
                                ),
                                Status::Running,
                                0,
                            )
                        }
                    },
                    AnimationState::Rotate(t, b, c, d) => {
                        let nt = *t + dt;
                        if nt >= *d {
                            props.set_rotation(*b + *c);
                            (None, Status::Success, nt - *d)
                        } else {
                            let factor = (*f).calc(eased_progress(nt, *d));
                            let v = apply_interp(*b, *c, factor, UNIT);
                            props.set_rotation(v);
                            (
                                Some(
                                    AnimationState::Ease(
                                        *f,
                                        Box::new(AnimationState::Rotate(nt, *b, *c, *d)),
                                    ),
                                ),
                                Status::Running,
                                0,
                            )
                        }
                    },
                    AnimationState::Scale(t, bx, by, cx, cy, d) => {
                        let nt = *t + dt;
                        if nt >= *d {
                            props.set_scale(*bx + *cx, *by + *cy);
                            (None, Status::Success, nt - *d)
                        } else {
                            let factor = (*f).calc(eased_progress(nt, *d));
                            let x = apply_interp(*bx, *cx, factor, UNIT);
                            let y = apply_interp(*by, *cy, factor, UNIT);
                            props.set_scale(x, y);
                            (
                                Some(
                                    AnimationState::Ease(
                                        *f,
                                        Box::new(
                                            AnimationState::Scale(nt, *bx, *by, *cx, *cy, *d),
                                        ),
                                    ),
                                ),
                                Status::Running,
                                0,
                            )
                        }
                    },
                    AnimationState::Fade(t, b, c, d) => {
                        let nt = *t + dt;
                        if nt >= *d {
                            props.set_opacity(*b + *c);
                            (None, Status::Success, nt - *d)
                        } else {
                            let factor = (*f).calc(eased_progress(nt, *d));
                            let v = apply_interp(*b, *c, factor, UNIT);
                            props.set_opacity(v);
                            (
                                Some(
                                    AnimationState::Ease(
                                        *f,
                                        Box::new(AnimationState::Fade(nt, *b, *c, *d)),
                                    ),
                                ),
                                Status::Running,
                                0,
                            )
                        }
                    },
                    _ => (&**inner).update(props, dt),
                }
            },
            AnimationState::Function(fr) => {
                fr.invoke();
                (None, Status::Success, dt)
            },
        }
    }
}

/// What a whole run of the tween machine produces: whether it reached a
/// terminal step, the final status and unused time, and the properties
/// after the run.  Steps after the terminal one are not taken: the state is
/// destroyed on success, so nothing is left to invoke.
pub struct RunOut {
    pub done: bool,
    pub status: Status,
    pub leftover: int,
    pub props: PropsView,
}

/// Run the tween machine over a sequence of time steps, stopping at the
/// first terminal step.
pub open spec fn spec_run(st: AnimationState, p: PropsView, dts: Seq<int>) -> RunOut
    decreases dts.len(),
{
    if dts.len() == 0 {
        RunOut { done: false, status: Status::Running, leftover: 0, props: p }
    } else {
        let so = spec_step(st, p, dts[0]);
        match so.next {
            None => RunOut { done: true, status: so.status, leftover: so.leftover, props: so.props },
            Some(st2) => spec_run(st2, so.props, dts.skip(1)),
        }
    }
}

/// The sum of a sequence of time steps.
pub open spec fn sum(dts: Seq<int>) -> int
    decreases dts.len(),
{
    if dts.len() == 0 {
        0
    } else {
        dts[0] + sum(dts.skip(1))
    }
}

/// Sums add over concatenation.
pub proof fn lemma_sum_concat(a: Seq<int>, b: Seq<int>)
    ensures
        sum(a + b) == sum(a) + sum(b),
    decreases a.len(),
{
    if a.len() == 0 {
        assert(a + b =~= b);
    } else {
        assert((a + b)[0] == a[0]);
        assert((a + b).skip(1) =~= a.skip(1) + b);
        lemma_sum_concat(a.skip(1), b);
    }
}

/// A bare interpolated tween: move, rotate, scale or fade.
pub open spec fn is_plain_tween(st: AnimationState) -> bool {
    match st {
        AnimationState::Move(_, _, _, _, _, _) => true,
        AnimationState::Rotate(_, _, _, _) => true,
        AnimationState::Scale(_, _, _, _, _, _) => true,
        AnimationState::Fade(_, _, _, _) => true,
        _ => false,
    }
}

/// An interpolated tween, bare or under one ease wrap.
pub open spec fn is_tween(st: AnimationState) -> bool {
    match st {
        AnimationState::Ease(_, inner) => is_plain_tween(*inner),
        _ => is_plain_tween(st),
    }
}

/// The elapsed time an interpolated tween has accumulated.
pub open spec fn tween_elapsed(st: AnimationState) -> int
    decreases st,
{
    match st {
        AnimationState::Move(t, _, _, _, _, _) => t as int,
        AnimationState::Rotate(t, _, _, _) => t as int,
        AnimationState::Scale(t, _, _, _, _, _) => t as int,
        AnimationState::Fade(t, _, _, _) => t as int,
        AnimationState::Ease(_, inner) => tween_elapsed(*inner),
        _ => 0,
    }
}

/// The duration of an interpolated tween.
pub open spec fn tween_duration(st: AnimationState) -> int
    decreases st,
{
    match st {
        AnimationState::Move(_, _, _, _, _, d) => d as int,
        AnimationState::Rotate(_, _, _, d) => d as int,
        AnimationState::Scale(_, _, _, _, _, d) => d as int,
        AnimationState::Fade(_, _, _, d) => d as int,
        AnimationState::Ease(_, inner) => tween_duration(*inner),
        _ => 0,
    }
}

/// The algebraic target of an interpolated tween fits in the stored
/// property range, so the terminal snap stores it exactly.
pub open spec fn tween_target_ok(st: AnimationState) -> bool
    decreases st,
{
    match st {
        AnimationState::Move(_, bx, by, cx, cy, _) => prop_ok(bx as int + cx as int) && prop_ok(
            by as int + cy as int,
        ),
        AnimationState::Rotate(_, b, c, _) => prop_ok(b as int + c as int),
        AnimationState::Scale(_, bx, by, cx, cy, _) => prop_ok(bx as int + cx as int) && prop_ok(
            by as int + cy as int,
        ),
        AnimationState::Fade(_, b, c, _) => prop_ok(b as int + c as int),
        AnimationState::Ease(_, inner) => tween_target_ok(*inner),
        _ => true,
    }
}

/// The properties after an interpolated tween completes: the animated
/// property stands exactly at begin plus delta; everything else is as in
/// `p`.
pub open spec fn tween_done_props(st: AnimationState, p: PropsView) -> PropsView
    decreases st,
{
    match st {
        AnimationState::Move(_, bx, by, cx, cy, _) => PropsView {
            pos_x: bx as int + cx as int,
            pos_y: by as int + cy as int,
            ..p
        },
        AnimationState::Rotate(_, b, c, _) => PropsView { rotation: b as int + c as int, ..p },
        AnimationState::Scale(_, bx, by, cx, cy, _) => PropsView {
            scale_x: bx as int + cx as int,
            scale_y: by as int + cy as int,
            ..p
        },
        AnimationState::Fade(_, b, c, _) => PropsView { opacity: b as int + c as int, ..p },
        AnimationState::Ease(_, inner) => tween_done_props(*inner, p),
        _ => p,
    }
}

/// Driving an interpolated tween for its whole duration leaves the
/// animated property at exactly begin plus delta, with no overshoot and no
/// drift however many steps the run took; the run ends in success on the
/// step that crosses the duration, handing back exactly the time beyond
/// it.  Easing makes no difference to the terminal value: the snap does
/// not go through the eased factor.
pub proof fn lemma_tween_completion(st: AnimationState, p: PropsView, dts: Seq<int>)
    requires
        is_tween(st),
        state_wf(st),
        tween_target_ok(st),
        dts.len() > 0,
        forall|k: int| 0 <= k < dts.len() ==> 0 <= #[trigger] dts[k] <= TIME_LIMIT as int,
        forall|k: int|
            0 <= k < dts.len() - 1 ==> tween_elapsed(st) + sum(#[trigger] dts.take(k + 1))
                < tween_duration(st),
        tween_elapsed(st) + sum(dts) >= tween_duration(st),
    ensures
        ({
            let r = spec_run(st, p, dts);
            &&& r.done
            &&& r.status == Status::Success
            &&& r.leftover == tween_elapsed(st) + sum(dts) - tween_duration(st)
            &&& r.props == tween_done_props(st, p)
        }),
    decreases dts.len(),
{
    let so = spec_step(st, p, dts[0]);
    lemma_tween_step(st, p, dts[0]);
    if dts.len() == 1 {
        assert(sum(dts) == dts[0] + sum(dts.skip(1)));
        assert(dts.skip(1).len() == 0);
        assert(tween_elapsed(st) + dts[0] >= tween_duration(st));
        assert(so.next is None);
        assert(so.props =~= tween_done_props(st, p));
    } else {
        assert(dts.take(1) =~= seq![dts[0]]);
        assert(sum(seq![dts[0]]) == dts[0] + sum(seq![dts[0]].skip(1)));
        assert(seq![dts[0]].skip(1).len() == 0);
        assert(tween_elapsed(st) + dts[0] < tween_duration(st));
        let st2 = so.next->0;
        assert(is_tween(st2) && state_wf(st2) && tween_target_ok(st2));
        assert(tween_elapsed(st2) == tween_elapsed(st) + dts[0]);
        assert(tween_duration(st2) == tween_duration(st));
        let rest = dts.skip(1);
        assert forall|k: int|
            0 <= k < rest.len() - 1 implies tween_elapsed(st2) + sum(#[trigger] rest.take(k + 1))
            < tween_duration(st2) by {
            assert(dts.take(k + 2) =~= seq![dts[0]] + rest.take(k + 1));
            lemma_sum_concat(seq![dts[0]], rest.take(k + 1));
            assert(seq![dts[0]].skip(1) =~= Seq::<int>::empty());
            assert(sum(seq![dts[0]]) == dts[0]);
            assert(0 <= k + 1 < dts.len() - 1);
            assert(tween_elapsed(st) + sum(dts.take(k + 1 + 1)) < tween_duration(st));
            assert(tween_elapsed(st) + sum(dts.take(k + 2)) < tween_duration(st));
        }
        assert(sum(dts) == dts[0] + sum(rest));
        lemma_tween_completion(st2, so.props, rest);
        assert(tween_done_props(st2, so.props) =~= tween_done_props(st, p));
    }
}

/// One step of an interpolated tween, bare or ease-wrapped: a step that
/// reaches the duration snaps to the target exactly and ends; a shorter
/// step accumulates exactly its time and preserves the tween's begin,
/// delta and duration.
proof fn lemma_tween_step(st: AnimationState, p: PropsView, dt: int)
    requires
        is_tween(st),
        state_wf(st),
        tween_target_ok(st),
        0 <= dt <= TIME_LIMIT as int,
    ensures
        ({
            let so = spec_step(st, p, dt);
            if tween_elapsed(st) + dt >= tween_duration(st) {
                &&& so.next is None
                &&& so.status == Status::Success
                &&& so.leftover == tween_elapsed(st) + dt - tween_duration(st)
                &&& so.props == tween_done_props(st, p)
            } else {
                &&& so.next is Some
                &&& so.status == Status::Running
                &&& so.leftover == 0
                &&& is_tween(so.next->0)
                &&& state_wf(so.next->0)
                &&& tween_target_ok(so.next->0)
                &&& tween_elapsed(so.next->0) == tween_elapsed(st) + dt
                &&& tween_duration(so.next->0) == tween_duration(st)
                &&& tween_done_props(so.next->0, so.props) == tween_done_props(st, p)
            }
        }),
{
    reveal_with_fuel(tween_done_props, 3);
    reveal_with_fuel(tween_elapsed, 3);
    reveal_with_fuel(tween_duration, 3);
    reveal_with_fuel(tween_target_ok, 3);
    reveal_with_fuel(state_wf, 3);
    let so = spec_step(st, p, dt);
    match st {
        AnimationState::Move(t, bx, by, cx, cy, d) => {
            if t + dt < d {
                assert(tween_done_props(so.next->0, so.props) =~= tween_done_props(st, p));
            } else {
                assert(so.props =~= tween_done_props(st, p));
            }
        },
        AnimationState::Rotate(t, b, c, d) => {
            if t + dt < d {
                assert(tween_done_props(so.next->0, so.props) =~= tween_done_props(st, p));
            } else {
                assert(so.props =~= tween_done_props(st, p));
            }
        },
        AnimationState::Scale(t, bx, by, cx, cy, d) => {
            if t + dt < d {
                assert(tween_done_props(so.next->0, so.props) =~= tween_done_props(st, p));
            } else {
                assert(so.props =~= tween_done_props(st, p));
            }
        },
        AnimationState::Fade(t, b, c, d) => {
            if t + dt < d {
                assert(tween_done_props(so.next->0, so.props) =~= tween_done_props(st, p));
            } else {
                assert(so.props =~= tween_done_props(st, p));
            }
        },
        AnimationState::Ease(f, inner) => {
            assert(so == spec_step_eased(f, *inner, p, dt));
            match *inner {
                AnimationState::Move(t, bx, by, cx, cy, d) => {
                    if t + dt < d {
                        assert(tween_done_props(so.next->0, so.props) =~= tween_done_props(st, p));
                    } else {
                        assert(so.props =~= tween_done_props(st, p));
                    }
                },
                AnimationState::Rotate(t, b, c, d) => {
                    if t + dt < d {
                        assert(tween_done_props(so.next->0, so.props) =~= tween_done_props(st, p));
                    } else {
                        assert(so.props =~= tween_done_props(st, p));
                    }
                },
                AnimationState::Scale(t, bx, by, cx, cy, d) => {
                    if t + dt < d {
                        assert(tween_done_props(so.next->0, so.props) =~= tween_done_props(st, p));
                    } else {
                        assert(so.props =~= tween_done_props(st, p));
                    }
                },
                AnimationState::Fade(t, b, c, d) => {
                    if t + dt < d {
                        assert(tween_done_props(so.next->0, so.props) =~= tween_done_props(st, p));
                    } else {
                        assert(so.props =~= tween_done_props(st, p));
                    }
                },
                _ => {
                    assert(false);
                },
            }
        },
        _ => {
            assert(false);
        },
    }
}

/// A step hands back a continuation exactly when it reports `Running`, and
/// never reports `Failure`: once a step succeeds there is no state left,
/// so a scheduler that keeps only running entries never re-invokes a
/// terminal state.
pub proof fn lemma_step_terminal(st: AnimationState, p: PropsView, dt: int)
    ensures
        (spec_step(st, p, dt).next is None) <==> (spec_step(st, p, dt).status != Status::Running),
        spec_step(st, p, dt).status != Status::Failure,
    decreases st, 0int,
{
    match st {
        AnimationState::Ease(f, inner) => {
            lemma_step_eased_terminal(f, *inner, p, dt);
        },
        _ => {},
    }
}

/// Companion of `lemma_step_terminal` for ease-wrapped states.
proof fn lemma_step_eased_terminal(f: EaseFunction, st: AnimationState, p: PropsView, dt: int)
    ensures
        (spec_step_eased(f, st, p, dt).next is None) <==> (spec_step_eased(f, st, p, dt).status
            != Status::Running),
        spec_step_eased(f, st, p, dt).status != Status::Failure,
    decreases st, 1int,
{
    match st {
        AnimationState::Move(_, _, _, _, _, _) => {},
        AnimationState::Rotate(_, _, _, _) => {},
        AnimationState::Scale(_, _, _, _, _, _) => {},
        AnimationState::Fade(_, _, _, _) => {},
        _ => {
            lemma_step_terminal(st, p, dt);
        },
    }
}

/// A move-by and its exact inverse, each run to completion, return the
/// position to its starting value bit for bit: the terminal snap stores
/// begin plus delta exactly, so the second tween starts from the first
/// one's algebraic target and lands back on the starting position.
pub proof fn lemma_move_by_round_trip(
    p: PropsView,
    d: i64,
    cx: i64,
    cy: i64,
    dts1: Seq<int>,
    dts2: Seq<int>,
)
    requires
        p.bounded(),
        prop_ok(cx as int),
        prop_ok(cy as int),
        prop_ok(p.pos_x + cx as int),
        prop_ok(p.pos_y + cy as int),
        dts1.len() > 0,
        dts2.len() > 0,
        forall|k: int| 0 <= k < dts1.len() ==> 0 <= #[trigger] dts1[k] <= TIME_LIMIT as int,
        forall|k: int| 0 <= k < dts2.len() ==> 0 <= #[trigger] dts2[k] <= TIME_LIMIT as int,
        forall|k: int|
            0 <= k < dts1.len() - 1 ==> sum(#[trigger] dts1.take(k + 1)) < clamp_time(d as int),
        forall|k: int|
            0 <= k < dts2.len() - 1 ==> sum(#[trigger] dts2.take(k + 1)) < clamp_time(d as int),
        sum(dts1) >= clamp_time(d as int),
        sum(dts2) >= clamp_time(d as int),
    ensures
        ({
            let st1 = spec_to_state(Animation::MoveBy(d, cx, cy), p);
            let r1 = spec_run(st1, p, dts1);
            let st2 = spec_to_state(Animation::MoveBy(d, (-(cx as int)) as i64, (-(cy as int)) as i64), r1.props);
            let r2 = spec_run(st2, r1.props, dts2);
            &&& r1.done && r1.status == Status::Success
            &&& r1.props.pos_x == p.pos_x + cx as int
            &&& r1.props.pos_y == p.pos_y + cy as int
            &&& r2.done && r2.status == Status::Success
            &&& r2.props == p
        }),
{
    let st1 = spec_to_state(Animation::MoveBy(d, cx, cy), p);
    lemma_tween_completion(st1, p, dts1);
    let r1 = spec_run(st1, p, dts1);
    assert(r1.props =~= (PropsView {
        pos_x: p.pos_x + cx as int,
        pos_y: p.pos_y + cy as int,
        ..p
    }));
    let st2 = spec_to_state(Animation::MoveBy(d, (-(cx as int)) as i64, (-(cy as int)) as i64), r1.props);
    lemma_tween_completion(st2, r1.props, dts2);
    let r2 = spec_run(st2, r1.props, dts2);
    assert(r2.props =~= p);
}

/// The progress fraction `nt / d` in fixed point, for `0 <= nt < d`.
fn eased_progress(nt: i64, d: i64) -> (p: i64)
    requires
        0 <= nt < d,
        d <= TIME_LIMIT,
    ensures
        p as int == (nt as int * unit()) / d as int,
        0 <= p <= UNIT,
{
    proof {
        crate::ease::lemma_mul_le(nt as int, UNIT as int, 1_000_000_000_000_000, 1_000_000);
        crate::ease::lemma_mul_le(nt as int, UNIT as int, d as int, 1_000_000);
        crate::ease::lemma_div_le_c(nt as int * UNIT as int, d as int, 1_000_000);
    }
    crate::ease::divq((nt as i128) * (UNIT as i128), d as i128) as i64
}

} // verus!
