//! Sprites: visual nodes with animatable properties, an identity, a shared
//! texture, and an ordered list of owned children indexed by id.

use vstd::prelude::*;
use std::collections::HashMap;
use std::rc::Rc;
use crate::{clamp_prop, clamp_prop_value, PROP_LIMIT, UNIT};

verus! {

broadcast use vstd::std_specs::hash::group_hash_axioms;

/// Mathematical image of a sprite's animatable properties.
pub struct PropsView {
    pub visible: bool,
    pub anchor_x: int,
    pub anchor_y: int,
    pub pos_x: int,
    pub pos_y: int,
    pub rotation: int,
    pub scale_x: int,
    pub scale_y: int,
    pub red: int,
    pub green: int,
    pub blue: int,
    pub opacity: int,
    pub flip_x: bool,
    pub flip_y: bool,
}

impl PropsView {
    /// Every scalar lies within the clamped property range.
    pub open spec fn bounded(self) -> bool {
        &&& -(PROP_LIMIT as int) <= self.anchor_x <= PROP_LIMIT as int
        &&& -(PROP_LIMIT as int) <= self.anchor_y <= PROP_LIMIT as int
        &&& -(PROP_LIMIT as int) <= self.pos_x <= PROP_LIMIT as int
        &&& -(PROP_LIMIT as int) <= self.pos_y <= PROP_LIMIT as int
        &&& -(PROP_LIMIT as int) <= self.rotation <= PROP_LIMIT as int
        &&& -(PROP_LIMIT as int) <= self.scale_x <= PROP_LIMIT as int
        &&& -(PROP_LIMIT as int) <= self.scale_y <= PROP_LIMIT as int
        &&& -(PROP_LIMIT as int) <= self.red <= PROP_LIMIT as int
        &&& -(PROP_LIMIT as int) <= self.green <= PROP_LIMIT as int
        &&& -(PROP_LIMIT as int) <= self.blue <= PROP_LIMIT as int
        &&& -(PROP_LIMIT as int) <= self.opacity <= PROP_LIMIT as int
    }
}

/// The animatable properties of a sprite, as fixed-point integers in
/// millionths.  Setters clamp their argument to `PROP_LIMIT`, so every value
/// of this type is bounded; the tween machine relies on that to rule out
/// overflow.
#[derive(Clone, Copy)]
pub struct SpriteProps {
    visible: bool,
    anchor_x: i64,
    anchor_y: i64,
    pos_x: i64,
    pos_y: i64,
    rotation: i64,
    scale_x: i64,
    scale_y: i64,
    red: i64,
    green: i64,
    blue: i64,
    opacity: i64,
    flip_x: bool,
    flip_y: bool,
}

impl View for SpriteProps {
    type V = PropsView;

    closed spec fn view(&self) -> PropsView {
        PropsView {
            visible: self.visible,
            anchor_x: self.anchor_x as int,
            anchor_y: self.anchor_y as int,
            pos_x: self.pos_x as int,
            pos_y: self.pos_y as int,
            rotation: self.rotation as int,
            scale_x: self.scale_x as int,
            scale_y: self.scale_y as int,
            red: self.red as int,
            green: self.green as int,
            blue: self.blue as int,
            opacity: self.opacity as int,
            flip_x: self.flip_x,
            flip_y: self.flip_y,
        }
    }
}

impl SpriteProps {
    #[verifier::type_invariant]
    pub(crate) open spec fn type_inv(self) -> bool {
        self@.bounded()
    }

    /// The defaults of a freshly created sprite: visible, anchored at the
    /// texture's center, at the origin, unrotated, unit scale, green tint,
    /// fully opaque, unflipped.
    pub open spec fn default_view() -> PropsView {
        PropsView {
            visible: true,
            anchor_x: (UNIT / 2) as int,
            anchor_y: (UNIT / 2) as int,
            pos_x: 0,
            pos_y: 0,
            rotation: 0,
            scale_x: UNIT as int,
            scale_y: UNIT as int,
            red: 0,
            green: UNIT as int,
            blue: 0,
            opacity: UNIT as int,
            flip_x: false,
            flip_y: false,
        }
    }

    /// Fresh default properties.
    pub fn new() -> (r: SpriteProps)
        ensures
            r@ == SpriteProps::default_view(),
    {
        SpriteProps {
            visible: true,
            anchor_x: UNIT / 2,
            anchor_y: UNIT / 2,
            pos_x: 0,
            pos_y: 0,
            rotation: 0,
            scale_x: UNIT,
            scale_y: UNIT,
            red: 0,
            green: UNIT,
            blue: 0,
            opacity: UNIT,
            flip_x: false,
            flip_y: false,
        }
    }

    pub fn visible(&self) -> (r: bool)
        ensures
            r == self@.visible,
    {
        self.visible
    }

    pub fn set_visible(&mut self, visible: bool)
        ensures
            final(self)@ == (PropsView { visible, ..old(self)@ }),
    {
        proof {
            use_type_invariant(&*self);
        }
        *self = SpriteProps { visible, ..*self };
    }

    pub fn anchor(&self) -> (r: (i64, i64))
        ensures
            r.0 as int == self@.anchor_x,
            r.1 as int == self@.anchor_y,
    {
        (self.anchor_x, self.anchor_y)
    }

    pub fn set_anchor(&mut self, x: i64, y: i64)
        ensures
            final(self)@ == (PropsView {
                anchor_x: clamp_prop(x as int),
                anchor_y: clamp_prop(y as int),
                ..old(self)@
            }),
    {
        proof {
            use_type_invariant(&*self);
        }
        *self = SpriteProps { anchor_x: clamp_prop_value(x), anchor_y: clamp_prop_value(y), ..*self };
    }

    pub fn position(&self) -> (r: (i64, i64))
        ensures
            r.0 as int == self@.pos_x,
            r.1 as int == self@.pos_y,
    {
        (self.pos_x, self.pos_y)
    }

    pub fn set_position(&mut self, x: i64, y: i64)
        ensures
            final(self)@ == (PropsView {
                pos_x: clamp_prop(x as int),
                pos_y: clamp_prop(y as int),
                ..old(self)@
            }),
    {
        proof {
            use_type_invariant(&*self);
        }
        *self = SpriteProps { pos_x: clamp_prop_value(x), pos_y: clamp_prop_value(y), ..*self };
    }

    pub fn rotation(&self) -> (r: i64)
        ensures
            r as int == self@.rotation,
    {
        self.rotation
    }

    pub fn set_rotation(&mut self, deg: i64)
        ensures
            final(self)@ == (PropsView { rotation: clamp_prop(deg as int), ..old(self)@ }),
    {
        proof {
            use_type_invariant(&*self);
        }
        *self = SpriteProps { rotation: clamp_prop_value(deg), ..*self };
    }

    pub fn scale(&self) -> (r: (i64, i64))
        ensures
            r.0 as int == self@.scale_x,
            r.1 as int == self@.scale_y,
    {
        (self.scale_x, self.scale_y)
    }

    pub fn set_scale(&mut self, sx: i64, sy: i64)
        ensures
            final(self)@ == (PropsView {
                scale_x: clamp_prop(sx as int),
                scale_y: clamp_prop(sy as int),
                ..old(self)@
            }),
    {
        proof {
            use_type_invariant(&*self);
        }
        *self = SpriteProps { scale_x: clamp_prop_value(sx), scale_y: clamp_prop_value(sy), ..*self };
    }

    pub fn color(&self) -> (r: (i64, i64, i64))
        ensures
            r.0 as int == self@.red,
            r.1 as int == self@.green,
            r.2 as int == self@.blue,
    {
        (self.red, self.green, self.blue)
    }

    pub fn set_color(&mut self, r: i64, g: i64, b: i64)
        ensures
            final(self)@ == (PropsView {
                red: clamp_prop(r as int),
                green: clamp_prop(g as int),
                blue: clamp_prop(b as int),
                ..old(self)@
            }),
    {
        proof {
            use_type_invariant(&*self);
        }
        *self = SpriteProps {
            red: clamp_prop_value(r),
            green: clamp_prop_value(g),
            blue: clamp_prop_value(b),
            ..*self
        };
    }

    pub fn opacity(&self) -> (r: i64)
        ensures
            r as int == self@.opacity,
    {
        self.opacity
    }

    pub fn set_opacity(&mut self, opacity: i64)
        ensures
            final(self)@ == (PropsView { opacity: clamp_prop(opacity as int), ..old(self)@ }),
    {
        proof {
            use_type_invariant(&*self);
        }
        *self = SpriteProps { opacity: clamp_prop_value(opacity), ..*self };
    }

    pub fn flip_x(&self) -> (r: bool)
        ensures
            r == self@.flip_x,
    {
        self.flip_x
    }

    pub fn set_flip_x(&mut self, flip_x: bool)
        ensures
            final(self)@ == (PropsView { flip_x, ..old(self)@ }),
    {
        proof {
            use_type_invariant(&*self);
        }
        *self = SpriteProps { flip_x, ..*self };
    }

    pub fn flip_y(&self) -> (r: bool)
        ensures
            r == self@.flip_y,
    {
        self.flip_y
    }

    pub fn set_flip_y(&mut self, flip_y: bool)
        ensures
            final(self)@ == (PropsView { flip_y, ..old(self)@ }),
    {
        proof {
            use_type_invariant(&*self);
        }
        *self = SpriteProps { flip_y, ..*self };
    }
}

/// Mathematical image of a sprite: its identity, its properties, and the
/// images of its children in order.
#[verifier::ext_equal]
pub struct SpriteView {
    pub id: u64,
    pub props: PropsView,
    pub children: Seq<SpriteView>,
}

/// Index of the first direct child of `s` carrying `id`, if any.
pub open spec fn direct_index(s: Seq<SpriteView>, id: u64) -> Option<int>
    decreases s.len(),
{
    if s.len() == 0 {
        None
    } else if s[0].id == id {
        Some(0int)
    } else {
        match direct_index(s.skip(1), id) {
            Some(i) => Some(i + 1),
            None => None,
        }
    }
}

/// The sprite found for `id` among `s` and their descendants: direct children
/// are consulted first, then each child's own subtree in order.
pub open spec fn seek(s: Seq<SpriteView>, id: u64) -> Option<SpriteView>
    decreases s, 1int,
{
    match direct_index(s, id) {
        Some(i) => Some(s[i]),
        None => seek_scan(s, id),
    }
}

/// Helper of `seek`: first hit among the children's subtrees, in order.
pub open spec fn seek_scan(s: Seq<SpriteView>, id: u64) -> Option<SpriteView>
    decreases s, 0int,
{
    if s.len() == 0 {
        None
    } else {
        match seek(s[0].children, id) {
            Some(v) => Some(v),
            None => seek_scan(s.skip(1), id),
        }
    }
}

/// `s` with the subtree that `seek` finds for `id` replaced by `sub`; `s`
/// unchanged when `id` is absent.
pub open spec fn plant(s: Seq<SpriteView>, id: u64, sub: SpriteView) -> Seq<SpriteView>
    decreases s, 1int,
{
    match direct_index(s, id) {
        Some(i) => s.update(i, sub),
        None => plant_scan(s, id, sub),
    }
}

/// Helper of `plant`: replace within the first subtree that contains `id`.
pub open spec fn plant_scan(s: Seq<SpriteView>, id: u64, sub: SpriteView) -> Seq<SpriteView>
    decreases s, 0int,
{
    if s.len() == 0 {
        s
    } else if seek(s[0].children, id) is Some {
        s.update(0, SpriteView { children: plant(s[0].children, id, sub), ..s[0] })
    } else {
        seq![s[0]] + plant_scan(s.skip(1), id, sub)
    }
}

/// `s` with the subtree that `seek` finds for `id` removed; `s` unchanged
/// when `id` is absent.
pub open spec fn yank(s: Seq<SpriteView>, id: u64) -> Seq<SpriteView>
    decreases s, 1int,
{
    match direct_index(s, id) {
        Some(i) => s.remove(i),
        None => yank_scan(s, id),
    }
}

/// Helper of `yank`: remove within the first subtree that contains `id`.
pub open spec fn yank_scan(s: Seq<SpriteView>, id: u64) -> Seq<SpriteView>
    decreases s, 0int,
{
    if s.len() == 0 {
        s
    } else if seek(s[0].children, id) is Some {
        s.update(0, SpriteView { children: yank(s[0].children, id), ..s[0] })
    } else {
        seq![s[0]] + yank_scan(s.skip(1), id)
    }
}

/// All ids in the subtree rooted at `v`: its own id and its descendants'.
pub open spec fn node_ids(v: SpriteView) -> Set<u64> {
    subtree_ids(v.children).insert(v.id)
}

/// All ids occurring in the subtrees rooted at `s`.
pub open spec fn subtree_ids(s: Seq<SpriteView>) -> Set<u64>
    decreases s,
{
    if s.len() == 0 {
        Set::empty()
    } else {
        subtree_ids(s.drop_last()) + subtree_ids(s.last().children) + set![s.last().id]
    }
}

/// A sprite: a visual node with an identity, animatable properties, a shared
/// texture, and an ordered list of owned children, indexed by id.
pub struct Sprite<T> {
    id: u64,
    texture: Rc<T>,
    props: SpriteProps,
    children: Vec<Sprite<T>>,
    children_index: HashMap<u64, usize>,
}

/// Images of a sequence of sprites.
pub open spec fn views_of<T>(s: Seq<Sprite<T>>) -> Seq<SpriteView>
    decreases s,
{
    if s.len() == 0 {
        Seq::empty()
    } else {
        views_of(s.drop_last()).push(s.last().vw())
    }
}

/// `views_of` is the element-wise image.
pub broadcast proof fn lemma_views_of<T>(s: Seq<Sprite<T>>)
    ensures
        (#[trigger] views_of(s)).len() == s.len(),
        forall|i: int| 0 <= i < s.len() ==> (#[trigger] views_of(s)[i]) == s[i].vw(),
    decreases s.len(),
{
    if s.len() > 0 {
        lemma_views_of(s.drop_last());
        assert forall|i: int| 0 <= i < s.len() implies (#[trigger] views_of(s)[i]) == s[i].vw() by {
            if i < s.len() - 1 {
                assert(views_of(s)[i] == views_of(s.drop_last())[i]);
                assert(s.drop_last()[i] == s[i]);
            }
        }
    }
}

/// Every sprite in the sequence is well formed.
pub open spec fn children_wf<T>(s: Seq<Sprite<T>>) -> bool
    decreases s,
{
    if s.len() == 0 {
        true
    } else {
        children_wf(s.drop_last()) && s.last().wf()
    }
}

/// `children_wf` is the element-wise conjunction.
pub broadcast proof fn lemma_children_wf<T>(s: Seq<Sprite<T>>)
    ensures
        #[trigger] children_wf(s) <==> (forall|i: int| 0 <= i < s.len() ==> #[trigger] s[i].wf()),
    decreases s.len(),
{
    if s.len() > 0 {
        lemma_children_wf(s.drop_last());
        assert(forall|i: int| 0 <= i < s.len() - 1 ==> s.drop_last()[i] == s[i]);
        if children_wf(s) {
            assert forall|i: int| 0 <= i < s.len() implies #[trigger] s[i].wf() by {
                if i < s.len() - 1 {
                    assert(s.drop_last()[i].wf());
                } else {
                    assert(s.last().wf());
                }
            }
        }
        if forall|i: int| 0 <= i < s.len() ==> #[trigger] s[i].wf() {
            assert forall|i: int| 0 <= i < s.drop_last().len() implies #[trigger] s.drop_last()[i].wf() by {
                assert(s[i].wf());
            }
            assert(s.last().wf());
            assert(children_wf(s));
        }
    }
}

/// The id-to-position index is exactly the bijection between the children's
/// ids and their positions.
pub open spec fn index_ok<T>(s: Seq<Sprite<T>>, m: Map<u64, usize>) -> bool {
    &&& forall|i: int|
        0 <= i < s.len() ==> m.contains_key(#[trigger] s[i].sid()) && m[s[i].sid()] == i
    &&& forall|k: u64| #[trigger] m.contains_key(k) ==> m[k] < s.len() && s[m[k] as int].sid() == k
}

impl<T> Sprite<T> {
    /// The mathematical image of this sprite.
    pub closed spec fn vw(self) -> SpriteView
        decreases self,
    {
        SpriteView { id: self.id, props: self.props@, children: views_of(self.children@) }
    }

    /// This sprite's id, at the spec level.
    pub closed spec fn sid(self) -> u64 {
        self.id
    }

    /// Well-formedness: at every node the id index is the bijection between
    /// direct child ids and their positions.
    pub closed spec fn wf(self) -> bool
        decreases self,
    {
        &&& index_ok(self.children@, self.children_index@)
        &&& children_wf(self.children@)
    }

    /// The texture value this sprite shares, at the spec level.
    pub closed spec fn spec_texture(self) -> Rc<T> {
        self.texture
    }
}

impl<T> View for Sprite<T> {
    type V = SpriteView;

    closed spec fn view(&self) -> SpriteView {
        self.vw()
    }
}

/// Relies on `uuid::Uuid::new_v4` for a fresh random identifier; nothing is
/// promised of the value.
#[verifier::external_body]
pub(crate) fn fresh_id() -> u64 {
    uuid::Uuid::new_v4().as_u64_pair().0
}

impl<T> Sprite<T> {
    /// Create a sprite that shares `texture`, with default properties, no
    /// children, and a freshly drawn id.
    pub fn from_texture(texture: Rc<T>) -> (r: Sprite<T>)
        ensures
            r.wf(),
            r@.props == SpriteProps::default_view(),
            r@.children == Seq::<SpriteView>::empty(),
            r.spec_texture() == texture,
    {
        let s = Sprite {
            id: fresh_id(),
            texture,
            props: SpriteProps::new(),
            children: Vec::new(),
            children_index: HashMap::new(),
        };
        proof {
            assert(s@.children =~= Seq::<SpriteView>::empty());
        }
        s
    }

    /// The sprite's id.
    pub fn id(&self) -> (r: u64)
        ensures
            r == self@.id,
    {
        self.id
    }

    /// The sprite's texture.
    pub fn texture(&self) -> (r: &Rc<T>)
        ensures
            *r == self.spec_texture(),
    {
        &self.texture
    }

    /// Replace the sprite's texture.
    pub fn set_texture(&mut self, texture: Rc<T>)
        ensures
            final(self)@ == old(self)@,
            final(self).wf() == old(self).wf(),
            final(self).spec_texture() == texture,
    {
        self.texture = texture;
    }

    pub fn visible(&self) -> (r: bool)
        ensures
            r == self@.props.visible,
    {
        self.props.visible()
    }

    pub fn set_visible(&mut self, visible: bool)
        ensures
            final(self)@ == (SpriteView {
                props: (PropsView { visible, ..old(self)@.props }),
                ..old(self)@
            }),
            final(self).wf() == old(self).wf(),
    {
        self.props.set_visible(visible)
    }

    pub fn anchor(&self) -> (r: (i64, i64))
        ensures
            r.0 as int == self@.props.anchor_x,
            r.1 as int == self@.props.anchor_y,
    {
        self.props.anchor()
    }

    pub fn set_anchor(&mut self, x: i64, y: i64)
        ensures
            final(self)@ == (SpriteView {
                props: (PropsView {
                    anchor_x: clamp_prop(x as int),
                    anchor_y: clamp_prop(y as int),
                    ..old(self)@.props
                }),
                ..old(self)@
            }),
            final(self).wf() == old(self).wf(),
    {
        self.props.set_anchor(x, y)
    }

    pub fn position(&self) -> (r: (i64, i64))
        ensures
            r.0 as int == self@.props.pos_x,
            r.1 as int == self@.props.pos_y,
    {
        self.props.position()
    }

    pub fn set_position(&mut self, x: i64, y: i64)
        ensures
            final(self)@ == (SpriteView {
                props: (PropsView {
                    pos_x: clamp_prop(x as int),
                    pos_y: clamp_prop(y as int),
                    ..old(self)@.props
                }),
                ..old(self)@
            }),
            final(self).wf() == old(self).wf(),
    {
        self.props.set_position(x, y)
    }

    pub fn rotation(&self) -> (r: i64)
        ensures
            r as int == self@.props.rotation,
    {
        self.props.rotation()
    }

    pub fn set_rotation(&mut self, deg: i64)
        ensures
            final(self)@ == (SpriteView {
                props: (PropsView { rotation: clamp_prop(deg as int), ..old(self)@.props }),
                ..old(self)@
            }),
            final(self).wf() == old(self).wf(),
    {
        self.props.set_rotation(deg)
    }

    pub fn scale(&self) -> (r: (i64, i64))
        ensures
            r.0 as int == self@.props.scale_x,
            r.1 as int == self@.props.scale_y,
    {
        self.props.scale()
    }

    pub fn set_scale(&mut self, sx: i64, sy: i64)
        ensures
            final(self)@ == (SpriteView {
                props: (PropsView {
                    scale_x: clamp_prop(sx as int),
                    scale_y: clamp_prop(sy as int),
                    ..old(self)@.props
                }),
                ..old(self)@
            }),
            final(self).wf() == old(self).wf(),
    {
        self.props.set_scale(sx, sy)
    }

    pub fn color(&self) -> (r: (i64, i64, i64))
        ensures
            r.0 as int == self@.props.red,
            r.1 as int == self@.props.green,
            r.2 as int == self@.props.blue,
    {
        self.props.color()
    }

    pub fn set_color(&mut self, r: i64, g: i64, b: i64)
        ensures
            final(self)@ == (SpriteView {
                props: (PropsView {
                    red: clamp_prop(r as int),
                    green: clamp_prop(g as int),
                    blue: clamp_prop(b as int),
                    ..old(self)@.props
                }),
                ..old(self)@
            }),
            final(self).wf() == old(self).wf(),
    {
        self.props.set_color(r, g, b)
    }

    pub fn opacity(&self) -> (r: i64)
        ensures
            r as int == self@.props.opacity,
    {
        self.props.opacity()
    }

    pub fn set_opacity(&mut self, opacity: i64)
        ensures
            final(self)@ == (SpriteView {
                props: (PropsView { opacity: clamp_prop(opacity as int), ..old(self)@.props }),
                ..old(self)@
            }),
            final(self).wf() == old(self).wf(),
    {
        self.props.set_opacity(opacity)
    }

    pub fn flip_x(&self) -> (r: bool)
        ensures
            r == self@.props.flip_x,
    {
        self.props.flip_x()
    }

    pub fn set_flip_x(&mut self, flip_x: bool)
        ensures
            final(self)@ == (SpriteView {
                props: (PropsView { flip_x, ..old(self)@.props }),
                ..old(self)@
            }),
            final(self).wf() == old(self).wf(),
    {
        self.props.set_flip_x(flip_x)
    }

    pub fn flip_y(&self) -> (r: bool)
        ensures
            r == self@.props.flip_y,
    {
        self.props.flip_y()
    }

    pub fn set_flip_y(&mut self, flip_y: bool)
        ensures
            final(self)@ == (SpriteView {
                props: (PropsView { flip_y, ..old(self)@.props }),
                ..old(self)@
            }),
            final(self).wf() == old(self).wf(),
    {
        self.props.set_flip_y(flip_y)
    }

    /// A copy of the sprite's animatable properties.
    pub fn props(&self) -> (r: SpriteProps)
        ensures
            r@ == self@.props,
    {
        self.props
    }

    /// Replace the sprite's animatable properties wholesale.
    pub fn set_props(&mut self, p: SpriteProps)
        ensures
            final(self)@ == (SpriteView { props: p@, ..old(self)@ }),
            final(self).wf() == old(self).wf(),
    {
        self.props = p;
    }

    /// The sprite's children, in order.
    pub fn children(&self) -> (r: &Vec<Sprite<T>>)
        ensures
            views_of(r@) == self@.children,
    {
        &self.children
    }
}

/// `direct_index` finds exactly the first position carrying `id`.
pub broadcast proof fn lemma_direct_index(s: Seq<SpriteView>, id: u64)
    ensures
        match #[trigger] direct_index(s, id) {
            Some(i) => 0 <= i < s.len() && s[i].id == id && forall|k: int|
                0 <= k < i ==> (#[trigger] s[k]).id != id,
            None => forall|k: int| 0 <= k < s.len() ==> (#[trigger] s[k]).id != id,
        },
    decreases s.len(),
{
    if s.len() > 0 && s[0].id != id {
        lemma_direct_index(s.skip(1), id);
        match direct_index(s.skip(1), id) {
            Some(i) => {
                assert(s.skip(1)[i] == s[i + 1]);
                assert forall|k: int| 0 <= k < i + 1 implies (#[trigger] s[k]).id != id by {
                    if k > 0 {
                        assert(s.skip(1)[k - 1] == s[k]);
                        assert(s.skip(1)[k - 1].id != id);
                    }
                }
            },
            None => {
                assert forall|k: int| 0 <= k < s.len() implies (#[trigger] s[k]).id != id by {
                    if k > 0 {
                        assert(s.skip(1)[k - 1] == s[k]);
                        assert(s.skip(1)[k - 1].id != id);
                    }
                }
            },
        }
    }
}

/// Under `index_ok`, the id index answers exactly `direct_index` questions
/// over the views.
pub(crate) proof fn lemma_index_ok_direct<T>(s: Seq<Sprite<T>>, m: Map<u64, usize>, id: u64)
    requires
        index_ok(s, m),
    ensures
        m.contains_key(id) <==> direct_index(views_of(s), id) is Some,
        m.contains_key(id) ==> {
            &&& direct_index(views_of(s), id) == Some(m[id] as int)
            &&& m[id] < s.len()
            &&& views_of(s)[m[id] as int] == s[m[id] as int].vw()
        },
{
    broadcast use lemma_views_of;

    lemma_direct_index(views_of(s), id);
    if m.contains_key(id) {
        let i = m[id] as int;
        assert(views_of(s)[i].id == s[i].sid());
        match direct_index(views_of(s), id) {
            Some(j) => {
                assert(views_of(s)[j].id == id);
                assert(s[j].sid() == id);
                assert(m[s[j].sid()] == j);
            },
            None => {
                assert(views_of(s)[i].id == id);
            },
        }
    } else {
        match direct_index(views_of(s), id) {
            Some(j) => {
                assert(views_of(s)[j].id == s[j].sid());
                assert(m.contains_key(s[j].sid()));
            },
            None => {},
        }
    }
}

impl<T> Sprite<T> {
    /// Add `sprite` as a direct child and return its id.  A sprite whose id
    /// is already a direct child id here is not added: ids key the index, and
    /// the bijection between ids and positions is kept.
    pub fn add_child(&mut self, sprite: Sprite<T>) -> (r: u64)
        requires
            old(self).wf(),
            sprite.wf(),
        ensures
            final(self).wf(),
            r == sprite@.id,
            direct_index(old(self)@.children, r) is Some ==> *final(self) == *old(self),
            direct_index(old(self)@.children, r) is None ==> final(self)@ == (SpriteView {
                children: old(self)@.children.push(sprite@),
                ..old(self)@
            }),
    {
        proof {
            lemma_index_ok_direct(self.children@, self.children_index@, sprite.sid());
        }
        let id = sprite.id();
        if self.children_index.contains_key(&id) {
            return id;
        }
        let n = self.children.len();
        let ghost old_children = self.children@;
        let ghost old_map = self.children_index@;
        self.children.push(sprite);
        self.children_index.insert(id, n);
        proof {
            broadcast use lemma_views_of;
            broadcast use lemma_children_wf;

            assert forall|i: int|
                0 <= i < self.children@.len() implies self.children_index@.contains_key(
                #[trigger] self.children@[i].sid(),
            ) && self.children_index@[self.children@[i].sid()] == i by {
                if i < n {
                    assert(self.children@[i] == old_children[i]);
                    assert(old_map.contains_key(old_children[i].sid()));
                    assert(old_children[i].sid() != id);
                }
            }
            assert forall|k: u64| #[trigger]
                self.children_index@.contains_key(k) implies self.children_index@[k]
                < self.children@.len() && self.children@[self.children_index@[k] as int].sid()
                == k by {
                if k != id {
                    assert(old_map.contains_key(k));
                    assert(self.children@[old_map[k] as int] == old_children[old_map[k] as int]);
                }
            }
            lemma_children_wf(old_children);
            assert forall|i: int| 0 <= i < self.children@.len() implies (#[trigger] self.children@[i]).wf() by {
                if i < n {
                    assert(self.children@[i] == old_children[i]);
                    assert(old_children[i].wf());
                }
            }
            lemma_children_wf(self.children@);
            assert(children_wf(self.children@));
            assert forall|i: int|
                0 <= i < self.children@.len() implies (#[trigger] views_of(self.children@)[i])
                == old(self)@.children.push(sprite@)[i] by {
                assert(views_of(self.children@)[i] == self.children@[i].vw());
                if i < n {
                    assert(self.children@[i] == old_children[i]);
                    assert(views_of(old_children)[i] == old_children[i].vw());
                }
            }
            assert(views_of(self.children@).len() == n + 1);
            assert(views_of(old_children).len() == n);
            assert(old(self)@.children == views_of(old_children));
            assert(self@.children =~= old(self)@.children.push(sprite@));
            assert(self@ =~= (SpriteView {
                children: old(self)@.children.push(sprite@),
                ..old(self)@
            }));
        }
        id
    }
}

/// Skipping children whose subtrees miss `id` does not change the scan.
pub proof fn lemma_seek_scan_skip(s: Seq<SpriteView>, id: u64, j: int)
    requires
        0 <= j <= s.len(),
        forall|k: int| 0 <= k < j ==> seek((#[trigger] s[k]).children, id) is None,
    ensures
        seek_scan(s, id) == seek_scan(s.skip(j), id),
    decreases j,
{
    if j == 0 {
        assert(s.skip(0) =~= s);
    } else {
        lemma_seek_scan_skip(s, id, j - 1);
        let t = s.skip(j - 1);
        assert(t.len() == s.len() - j + 1);
        assert(t[0] == s[j - 1]);
        assert(seek(t[0].children, id) is None);
        assert(seek_scan(t, id) == seek_scan(t.skip(1), id));
        assert(t.skip(1) =~= s.skip(j));
    }
}

/// A found subtree carries the id it was sought by.
pub broadcast proof fn lemma_seek_id(s: Seq<SpriteView>, id: u64)
    ensures
        (#[trigger] seek(s, id)) is Some ==> (seek(s, id)->0).id == id,
    decreases s, 1int,
{
    lemma_direct_index(s, id);
    if direct_index(s, id) is None {
        lemma_seek_scan_id(s, id);
    }
}

/// Helper of `lemma_seek_id` for the scan over the children's subtrees.
proof fn lemma_seek_scan_id(s: Seq<SpriteView>, id: u64)
    ensures
        seek_scan(s, id) is Some ==> (seek_scan(s, id)->0).id == id,
    decreases s, 0int,
{
    if s.len() > 0 {
        lemma_seek_id(s[0].children, id);
        lemma_seek_scan_id(s.skip(1), id);
    }
}

/// Two lookups agree on presence, and the found nodes carry the same id
/// and the same properties (their subtrees may differ).
pub open spec fn props_agree(o1: Option<SpriteView>, o2: Option<SpriteView>) -> bool {
    match (o1, o2) {
        (Option::None, Option::None) => true,
        (Option::Some(a), Option::Some(b)) => a.props == b.props && a.id == b.id,
        _ => false,
    }
}

/// `direct_index` looks only at ids.
proof fn lemma_direct_index_same_ids(a: Seq<SpriteView>, b: Seq<SpriteView>, id: u64)
    requires
        a.len() == b.len(),
        forall|k: int| 0 <= k < a.len() ==> (#[trigger] a[k]).id == b[k].id,
    ensures
        direct_index(a, id) == direct_index(b, id),
    decreases a.len(),
{
    if a.len() > 0 && a[0].id != id {
        assert forall|k: int|
            0 <= k < a.skip(1).len() implies (#[trigger] a.skip(1)[k]).id == b.skip(1)[k].id by {
            assert(a.skip(1)[k] == a[k + 1]);
            assert(b.skip(1)[k] == b[k + 1]);
        }
        lemma_direct_index_same_ids(a.skip(1), b.skip(1), id);
    }
}

/// The scan looks only at the elements' child sequences, so sequences that
/// agree on them scan alike.
proof fn lemma_seek_scan_same_children(a: Seq<SpriteView>, b: Seq<SpriteView>, id: u64)
    requires
        a.len() == b.len(),
        forall|k: int| 0 <= k < a.len() ==> (#[trigger] a[k]).children == b[k].children,
    ensures
        seek_scan(a, id) == seek_scan(b, id),
    decreases a.len(),
{
    if a.len() > 0 {
        assert(a[0].children == b[0].children);
        assert forall|k: int|
            0 <= k < a.skip(1).len() implies (#[trigger] a.skip(1)[k]).children == b.skip(
                1,
            )[k].children by {
            assert(a.skip(1)[k] == a[k + 1]);
            assert(b.skip(1)[k] == b[k + 1]);
        }
        lemma_seek_scan_same_children(a.skip(1), b.skip(1), id);
    }
}

/// Replacing the subtree found for `x` by one with the same id and the
/// same child list leaves every structural position's id and properties in
/// place, so looking up any other id finds a node with unchanged id and
/// properties.
pub proof fn lemma_plant_props_only(s: Seq<SpriteView>, x: u64, sub: SpriteView, id: u64)
    requires
        seek(s, x) is Some,
        sub.id == x,
        sub.children == (seek(s, x)->0).children,
        id != x,
    ensures
        plant(s, x, sub).len() == s.len(),
        forall|k: int| 0 <= k < s.len() ==> (#[trigger] plant(s, x, sub)[k]).id == s[k].id,
        forall|k: int|
            0 <= k < s.len() && s[k].id != x ==> (#[trigger] plant(s, x, sub)[k]).props
                == s[k].props,
        props_agree(seek(plant(s, x, sub), id), seek(s, id)),
    decreases s, 1int,
{
    lemma_direct_index(s, x);
    let t = plant(s, x, sub);
    match direct_index(s, x) {
        Option::Some(i) => {
            assert(t == s.update(i, sub));
            assert(s[i].id == x);
            assert(seek(s, x) == Some(s[i]));
            assert(sub.children == s[i].children);
            assert forall|k: int| 0 <= k < s.len() implies (#[trigger] t[k]).id == s[k].id by {
                if k != i {
                    assert(t[k] == s[k]);
                }
            }
            assert forall|k: int|
                0 <= k < s.len() && s[k].id != x implies (#[trigger] t[k]).props
                == s[k].props by {
                assert(k != i);
                assert(t[k] == s[k]);
            }
            lemma_direct_index_same_ids(t, s, id);
            lemma_direct_index(s, id);
            match direct_index(s, id) {
                Option::Some(j) => {
                    assert(s[j].id == id);
                    assert(j != i);
                    assert(t[j] == s[j]);
                },
                Option::None => {
                    assert forall|k: int|
                        0 <= k < t.len() implies (#[trigger] t[k]).children == s[k].children by {
                        if k != i {
                            assert(t[k] == s[k]);
                        }
                    }
                    lemma_seek_scan_same_children(t, s, id);
                },
            }
        },
        Option::None => {
            lemma_plant_scan_props_only(s, x, sub, id);
            lemma_direct_index_same_ids(t, s, id);
            lemma_direct_index(s, id);
            match direct_index(s, id) {
                Option::Some(j) => {
                    assert(t[j].id == s[j].id && t[j].props == s[j].props);
                },
                Option::None => {},
            }
        },
    }
}

/// Companion of `lemma_plant_props_only` for the scan over the children's
/// subtrees.
proof fn lemma_plant_scan_props_only(s: Seq<SpriteView>, x: u64, sub: SpriteView, id: u64)
    requires
        seek_scan(s, x) is Some,
        sub.id == x,
        sub.children == (seek_scan(s, x)->0).children,
        id != x,
    ensures
        plant_scan(s, x, sub).len() == s.len(),
        forall|k: int| 0 <= k < s.len() ==> (#[trigger] plant_scan(s, x, sub)[k]).id == s[k].id,
        forall|k: int|
            0 <= k < s.len() ==> (#[trigger] plant_scan(s, x, sub)[k]).props == s[k].props,
        props_agree(seek_scan(plant_scan(s, x, sub), id), seek_scan(s, id)),
    decreases s, 0int,
{
    let t = plant_scan(s, x, sub);
    if seek(s[0].children, x) is Some {
        let m = SpriteView { children: plant(s[0].children, x, sub), ..s[0] };
        assert(t == s.update(0, m));
        lemma_plant_props_only(s[0].children, x, sub, id);
        assert(t[0].children == plant(s[0].children, x, sub));
        assert forall|k: int| 0 <= k < s.len() implies (#[trigger] t[k]).id == s[k].id && t[k].props
            == s[k].props by {
            if k != 0 {
                assert(t[k] == s[k]);
            }
        }
        match seek(s[0].children, id) {
            Option::Some(v) => {
                assert(seek(t[0].children, id) is Some);
            },
            Option::None => {
                assert(seek(t[0].children, id) is None);
                assert(t.skip(1) =~= s.skip(1));
            },
        }
    } else {
        assert(t == seq![s[0]] + plant_scan(s.skip(1), x, sub));
        lemma_plant_scan_props_only(s.skip(1), x, sub, id);
        let r = plant_scan(s.skip(1), x, sub);
        assert forall|k: int| 0 <= k < s.len() implies (#[trigger] t[k]).id == s[k].id && t[k].props
            == s[k].props by {
            if k == 0 {
                assert(t[0] == s[0]);
            } else {
                assert(t[k] == r[k - 1]);
                assert(s.skip(1)[k - 1] == s[k]);
            }
        }
        assert(t[0] == s[0]);
        assert(t.skip(1) =~= r);
        match seek(s[0].children, id) {
            Option::Some(v) => {},
            Option::None => {},
        }
    }
}

/// Bridge between an element of the image sequence and the element's image.
pub(crate) proof fn lemma_view_at<T>(s: Seq<Sprite<T>>, i: int)
    requires
        0 <= i < s.len(),
    ensures
        views_of(s).len() == s.len(),
        views_of(s)[i] == s[i].vw(),
{
    broadcast use lemma_views_of;

    assert(views_of(s)[i] == s[i].vw());
}

impl<T> Sprite<T> {
    /// Find the sprite with `id` among this sprite's children or their
    /// descendants: direct children first, then each child's subtree in
    /// order.
    pub fn child(&self, id: u64) -> (r: Option<&Sprite<T>>)
        requires
            self.wf(),
        ensures
            match r {
                Some(c) => c.wf() && seek(self@.children, id) == Some(c@),
                None => seek(self@.children, id) is None,
            },
        decreases *self,
    {
        proof {
            broadcast use lemma_views_of;

            lemma_index_ok_direct(self.children@, self.children_index@, id);
            lemma_children_wf(self.children@);
        }
        match self.children_index.get(&id) {
            Some(i) => {
                let idx = *i;
                Some(&self.children[idx])
            },
            None => {
                let ghost vs = self@.children;
                let n = self.children.len();
                let mut j: usize = 0;
                while j < n
                    invariant
                        self.wf(),
                        n == self.children@.len(),
                        j <= n,
                        vs == self@.children,
                        vs.len() == n,
                        forall|k: int|
                            0 <= k < j ==> seek((#[trigger] vs[k]).children, id) is None,
                        direct_index(vs, id) is None,
                    decreases n - j,
                {
                    proof {
                        broadcast use lemma_views_of;

                        lemma_children_wf(self.children@);
                        assert(self.children@[j as int].wf());
                    }
                    let c = &self.children[j];
                    proof {
                        lemma_view_at(self.children@, j as int);
                        assert(vs[j as int] == c@);
                    }
                    match c.child(id) {
                        Some(res) => {
                            proof {
                                lemma_seek_scan_skip(vs, id, j as int);
                                assert(vs.skip(j as int)[0] == vs[j as int]);
                            }
                            return Some(res);
                        },
                        None => {},
                    }
                    j += 1;
                }
                proof {
                    lemma_seek_scan_skip(vs, id, n as int);
                    assert(vs.skip(n as int) =~= Seq::<SpriteView>::empty());
                }
                None
            },
        }
    }
}

/// Skipping children whose subtrees miss `id` only carries a prefix over.
pub proof fn lemma_plant_scan_skip(s: Seq<SpriteView>, id: u64, sub: SpriteView, j: int)
    requires
        0 <= j <= s.len(),
        forall|k: int| 0 <= k < j ==> seek((#[trigger] s[k]).children, id) is None,
    ensures
        plant_scan(s, id, sub) == s.take(j) + plant_scan(s.skip(j), id, sub),
    decreases j,
{
    if j == 0 {
        assert(s.skip(0) =~= s);
        assert(s.take(0) + plant_scan(s, id, sub) =~= plant_scan(s, id, sub));
    } else {
        lemma_plant_scan_skip(s, id, sub, j - 1);
        let t = s.skip(j - 1);
        assert(t.len() == s.len() - j + 1);
        assert(t[0] == s[j - 1]);
        assert(seek(t[0].children, id) is None);
        assert(plant_scan(t, id, sub) == seq![t[0]] + plant_scan(t.skip(1), id, sub));
        assert(t.skip(1) =~= s.skip(j));
        assert(s.take(j - 1) + (seq![s[j - 1]] + plant_scan(s.skip(j), id, sub)) =~= s.take(j)
            + plant_scan(s.skip(j), id, sub));
    }
}

/// Skipping children whose subtrees miss `id` only carries a prefix over.
pub proof fn lemma_yank_scan_skip(s: Seq<SpriteView>, id: u64, j: int)
    requires
        0 <= j <= s.len(),
        forall|k: int| 0 <= k < j ==> seek((#[trigger] s[k]).children, id) is None,
    ensures
        yank_scan(s, id) == s.take(j) + yank_scan(s.skip(j), id),
    decreases j,
{
    if j == 0 {
        assert(s.skip(0) =~= s);
        assert(s.take(0) + yank_scan(s, id) =~= yank_scan(s, id));
    } else {
        lemma_yank_scan_skip(s, id, j - 1);
        let t = s.skip(j - 1);
        assert(t.len() == s.len() - j + 1);
        assert(t[0] == s[j - 1]);
        assert(seek(t[0].children, id) is None);
        assert(yank_scan(t, id) == seq![t[0]] + yank_scan(t.skip(1), id));
        assert(t.skip(1) =~= s.skip(j));
        assert(s.take(j - 1) + (seq![s[j - 1]] + yank_scan(s.skip(j), id)) =~= s.take(j)
            + yank_scan(s.skip(j), id));
    }
}

/// Replacing one element of a child sequence: effect on images and, when
/// the replacement is well formed and keeps the id, on well-formedness.
pub(crate) proof fn lemma_replace_effect<T>(s: Seq<Sprite<T>>, m: Map<u64, usize>, j: int, x: Sprite<T>)
    requires
        index_ok(s, m),
        children_wf(s),
        0 <= j < s.len(),
    ensures
        views_of(s.update(j, x)) == views_of(s).update(j, x.vw()),
        x.wf() && x.sid() == s[j].sid() ==> index_ok(s.update(j, x), m) && children_wf(
            s.update(j, x),
        ),
{
    broadcast use lemma_views_of;

    let s2 = s.update(j, x);
    assert forall|i: int| 0 <= i < s2.len() implies (#[trigger] views_of(s2)[i]) == views_of(
        s,
    ).update(j, x.vw())[i] by {
        lemma_view_at(s2, i);
        if i != j {
            lemma_view_at(s, i);
        }
    }
    assert(views_of(s2) =~= views_of(s).update(j, x.vw()));
    if x.wf() && x.sid() == s[j].sid() {
        lemma_children_wf(s);
        assert forall|i: int| 0 <= i < s2.len() implies (#[trigger] s2[i]).wf() by {
            if i != j {
                assert(s2[i] == s[i]);
            }
        }
        lemma_children_wf(s2);
        assert forall|i: int|
            0 <= i < s2.len() implies m.contains_key(#[trigger] s2[i].sid()) && m[s2[i].sid()]
            == i by {
            if i != j {
                assert(s2[i] == s[i]);
            }
        }
        assert forall|k: u64| #[trigger] m.contains_key(k) implies m[k] < s2.len()
            && s2[m[k] as int].sid() == k by {
            if m[k] != j {
                assert(s2[m[k] as int] == s[m[k] as int]);
            }
        }
    }
}

/// The id of a sprite's image is the sprite's id.
pub broadcast proof fn lemma_vw_id<T>(x: Sprite<T>)
    ensures
        (#[trigger] x.vw()).id == x.sid(),
{
}

/// A sprite's view is its image.
pub broadcast proof fn lemma_view_is_vw<T>(x: &Sprite<T>)
    ensures
        #[trigger] x.view() == x.vw(),
{
}

/// Where `id` sits under the direct child at `j`, `plant` rewrites exactly
/// that child, for every replacement subtree.
pub(crate) proof fn lemma_plant_deep_shape(vs: Seq<SpriteView>, id: u64, j: int)
    requires
        0 <= j < vs.len(),
        direct_index(vs, id) is None,
        forall|k: int| 0 <= k < j ==> seek((#[trigger] vs[k]).children, id) is None,
        seek(vs[j].children, id) is Some,
    ensures
        forall|sub: SpriteView| #[trigger] plant(vs, id, sub) == vs.update(
            j,
            (SpriteView { children: plant(vs[j].children, id, sub), ..vs[j] }),
        ),
{
    assert forall|sub: SpriteView| #[trigger] plant(vs, id, sub) == vs.update(
        j,
        (SpriteView { children: plant(vs[j].children, id, sub), ..vs[j] }),
    ) by {
        lemma_plant_scan_skip(vs, id, sub, j);
        let t = vs.skip(j);
        assert(t[0] == vs[j]);
        let modified = SpriteView { children: plant(vs[j].children, id, sub), ..vs[j] };
        assert(plant_scan(t, id, sub) == t.update(0, modified));
        assert(vs.take(j) + t.update(0, modified) =~= vs.update(j, modified));
    }
}

impl<T> Sprite<T> {
    /// Find the sprite with `id` among this sprite's children or their
    /// descendants and borrow it mutably.  The tree afterwards is the old
    /// tree with that subtree replaced by whatever the caller leaves behind
    /// the borrow; well-formedness is kept as long as the caller leaves a
    /// well-formed sprite with the same id there.
    pub fn child_mut(&mut self, id: u64) -> (r: Option<&mut Sprite<T>>)
        requires
            old(self).wf(),
        ensures
            r.is_some() <==> seek(old(self)@.children, id) is Some,
            r.is_some() ==> {
                &&& (*r.unwrap())@ == seek(old(self)@.children, id)->0
                &&& (*r.unwrap()).wf()
                &&& final(self)@ == (SpriteView {
                    children: plant(old(self)@.children, id, (*final(r.unwrap()))@),
                    ..old(self)@
                })
                &&& ((*final(r.unwrap())).wf() && (*final(r.unwrap()))@.id == id
                    ==> final(self).wf())
            },
            r.is_none() ==> *final(self) == *old(self),
        decreases *old(self),
    {
        proof {
            broadcast use lemma_views_of;
            broadcast use lemma_vw_id;

            lemma_index_ok_direct(self.children@, self.children_index@, id);
            lemma_children_wf(self.children@);
        }
        let ghost vs = self@.children;
        let ghost old_children = self.children@;
        let ghost old_map = self.children_index@;
        let direct: Option<usize> = match self.children_index.get(&id) {
            Some(i) => Some(*i),
            None => None,
        };
        match direct {
            Some(i) => {
                proof {
                    lemma_view_at(old_children, i as int);
                    assert(direct_index(vs, id) == Some(i as int));
                    assert(seek(vs, id) == Some(vs[i as int]));
                    assert(vs[i as int].id == id);
                    assert(old_children[i as int].sid() == id);
                    assert forall|sub: SpriteView| #[trigger] plant(vs, id, sub) == vs.update(
                        i as int,
                        sub,
                    ) by {}
                    assert forall|x: Sprite<T>| #![trigger x.vw()] views_of(
                        old_children.update(i as int, x),
                    ) == vs.update(i as int, x.vw()) && (x.wf() && x.vw().id == id
                        ==> index_ok(old_children.update(i as int, x), old_map) && children_wf(
                        old_children.update(i as int, x),
                    )) by {
                        lemma_replace_effect(old_children, old_map, i as int, x);
                    }
                }
                let m = &mut self.children[i];
                Some(m)
            },
            None => {
                let n = self.children.len();
                let mut j: usize = 0;
                while j < n
                    invariant
                        old(self).wf(),
                        *self == *old(self),
                        n == self.children@.len(),
                        j <= n,
                        vs == self@.children,
                        vs.len() == n,
                        old_children == self.children@,
                        old_map == self.children_index@,
                        forall|k: int|
                            0 <= k < j ==> seek((#[trigger] vs[k]).children, id) is None,
                        direct_index(vs, id) is None,
                    decreases n - j,
                {
                    proof {
                        lemma_children_wf(old_children);
                        lemma_view_at(old_children, j as int);
                        assert(old_children[j as int].wf());
                    }
                    let hit = self.children[j].child(id).is_some();
                    if hit {
                        proof {
                            lemma_seek_scan_skip(vs, id, j as int);
                            assert(vs.skip(j as int)[0] == vs[j as int]);
                            lemma_plant_deep_shape(vs, id, j as int);
                            assert forall|x: Sprite<T>| #![trigger x.vw()] views_of(
                                old_children.update(j as int, x),
                            ) == vs.update(j as int, x.vw()) && (x.wf() && x.vw().id
                                == old_children[j as int].sid()
                                ==> index_ok(old_children.update(j as int, x), old_map)
                                && children_wf(old_children.update(j as int, x))) by {
                                lemma_replace_effect(old_children, old_map, j as int, x);
                            }
                        }
                        let c = &mut self.children[j];
                        let r = c.child_mut(id);
                        return r;
                    }
                    j += 1;
                }
                proof {
                    lemma_seek_scan_skip(vs, id, n as int);
                    assert(vs.skip(n as int) =~= Seq::<SpriteView>::empty());
                }
                None
            },
        }
    }

    /// Remove the sprite with `id` from this sprite's children or their
    /// descendants and hand it back.  After a removal from a child list, the
    /// index entries of all later siblings are renumbered; earlier ones are
    /// untouched.
    pub fn remove_child(&mut self, id: u64) -> (r: Option<Sprite<T>>)
        requires
            old(self).wf(),
        ensures
            final(self).wf(),
            match r {
                Some(c) => {
                    &&& c.wf()
                    &&& Some(c@) == seek(old(self)@.children, id)
                    &&& final(self)@ == (SpriteView {
                        children: yank(old(self)@.children, id),
                        ..old(self)@
                    })
                },
                None => seek(old(self)@.children, id) is None && *final(self) == *old(self),
            },
        decreases *old(self),
    {
        proof {
            broadcast use lemma_views_of;
            broadcast use lemma_vw_id;

            lemma_index_ok_direct(self.children@, self.children_index@, id);
            lemma_children_wf(self.children@);
        }
        let ghost vs = self@.children;
        let ghost old_children = self.children@;
        let ghost old_map = self.children_index@;
        let direct: Option<usize> = match self.children_index.get(&id) {
            Some(i) => Some(*i),
            None => None,
        };
        match direct {
            Some(i) => {
                proof {
                    lemma_view_at(old_children, i as int);
                    assert(direct_index(vs, id) == Some(i as int));
                    assert(seek(vs, id) == Some(vs[i as int]));
                    assert(old_children[i as int].sid() == id);
                }
                self.children_index.remove(&id);
                let removed = self.children.remove(i);
                let ghost s = self.children@;
                let n = self.children.len();
                let mut k: usize = i;
                while k < n
                    invariant
                        i <= k <= n,
                        n == self.children@.len(),
                        self.children@ == old_children.remove(i as int),
                        self.id == old(self).id,
                        self.props == old(self).props,
                        n + 1 == old_children.len(),
                        index_ok(old_children, old_map),
                        children_wf(old_children),
                        old_map.contains_key(id),
                        old_map[id] == i,
                        i <= n,
                        forall|key: u64|
                            #[trigger] self.children_index@.contains_key(key) <==> (
                            old_map.contains_key(key) && key != id),
                        forall|key: u64| #[trigger]
                            self.children_index@.contains_key(key) ==> {
                                if (old_map[key] as int) < i as int {
                                    self.children_index@[key] == old_map[key]
                                } else if old_map[key] as int - 1 < k as int {
                                    self.children_index@[key] as int == old_map[key] as int - 1
                                } else {
                                    self.children_index@[key] == old_map[key]
                                }
                            },
                    decreases n - k,
                {
                    proof {
                        lemma_children_wf(old_children);
                        assert(self.children@[k as int] == old_children[k as int + 1]);
                        assert(old_map[self.children@[k as int].sid()] == k + 1);
                    }
                    let cid = self.children[k].id();
                    proof {
                        assert(cid == self.children@[k as int].sid());
                    }
                    self.children_index.insert(cid, k);
                    k += 1;
                }
                proof {
                    lemma_children_wf(old_children);
                    let m = self.children_index@;
                    assert forall|idx: int|
                        0 <= idx < s.len() implies m.contains_key(#[trigger] s[idx].sid())
                        && m[s[idx].sid()] == idx by {
                        if idx < i as int {
                            assert(s[idx] == old_children[idx]);
                            assert(old_map.contains_key(old_children[idx].sid()));
                            assert(old_map[s[idx].sid()] == idx);
                        } else {
                            assert(s[idx] == old_children[idx + 1]);
                            assert(old_map.contains_key(old_children[idx + 1].sid()));
                            assert(old_map[s[idx].sid()] == idx + 1);
                        }
                        assert(s[idx].sid() != id);
                        assert(m.contains_key(s[idx].sid()));
                    }
                    assert forall|key: u64| #[trigger] m.contains_key(key) implies m[key] < s.len()
                        && s[m[key] as int].sid() == key by {
                        let p = old_map[key] as int;
                        assert(old_children[p].sid() == key);
                        if p < i as int {
                            assert(s[p] == old_children[p]);
                        } else {
                            assert(p > i as int);
                            assert(s[p - 1] == old_children[p]);
                        }
                    }
                    assert forall|idx: int| 0 <= idx < s.len() implies (#[trigger] s[idx]).wf() by {
                        if idx < i as int {
                            assert(s[idx] == old_children[idx]);
                        } else {
                            assert(s[idx] == old_children[idx + 1]);
                        }
                    }
                    lemma_children_wf(s);
                    assert forall|idx: int|
                        0 <= idx < s.len() implies (#[trigger] views_of(s)[idx]) == vs.remove(
                        i as int,
                    )[idx] by {
                        lemma_view_at(s, idx);
                        if idx < i as int {
                            assert(s[idx] == old_children[idx]);
                            lemma_view_at(old_children, idx);
                        } else {
                            assert(s[idx] == old_children[idx + 1]);
                            lemma_view_at(old_children, idx + 1);
                        }
                    }
                    assert(views_of(s) =~= vs.remove(i as int));
                    assert(yank(vs, id) == vs.remove(i as int));
                    assert(removed == old_children[i as int]);
                    assert(removed.wf());
                    assert(removed.vw() == vs[i as int]);
                    assert(self.children@ == s);
                    assert(self@.children == views_of(s));
                    assert(self@.children == yank(vs, id));
                    assert(self@.id == old(self)@.id);
                    assert(self@.props == old(self)@.props);
                    assert(self@ =~= (SpriteView { children: yank(vs, id), ..old(self)@ }));
                }
                Some(removed)
            },
            None => {
                let n = self.children.len();
                let mut j: usize = 0;
                while j < n
                    invariant
                        old(self).wf(),
                        *self == *old(self),
                        n == self.children@.len(),
                        j <= n,
                        vs == self@.children,
                        vs.len() == n,
                        old_children == self.children@,
                        old_map == self.children_index@,
                        forall|k: int|
                            0 <= k < j ==> seek((#[trigger] vs[k]).children, id) is None,
                        direct_index(vs, id) is None,
                    decreases n - j,
                {
                    proof {
                        lemma_children_wf(old_children);
                        lemma_view_at(old_children, j as int);
                        assert(old_children[j as int].wf());
                    }
                    let hit = self.children[j].child(id).is_some();
                    if hit {
                        proof {
                            lemma_seek_scan_skip(vs, id, j as int);
                            assert(vs.skip(j as int)[0] == vs[j as int]);
                        }
                        let ghost c_old = self.children@[j as int];
                        let c = &mut self.children[j];
                        let r = c.remove_child(id);
                        proof {
                            let x = self.children@[j as int];
                            assert(vs[j as int] == c_old.vw());
                            assert(self.children@ =~= old_children.update(j as int, x));
                            lemma_replace_effect(old_children, old_map, j as int, x);
                            assert(x.vw() == (SpriteView {
                                children: yank(c_old.vw().children, id),
                                ..c_old.vw()
                            }));
                            assert(x.sid() == c_old.sid());
                            assert(x.wf());
                            lemma_yank_scan_skip(vs, id, j as int);
                            let t = vs.skip(j as int);
                            let modified = SpriteView {
                                children: yank(vs[j as int].children, id),
                                ..vs[j as int]
                            };
                            assert(yank_scan(t, id) == t.update(0, modified));
                            assert(vs.take(j as int) + t.update(0, modified) =~= vs.update(
                                j as int,
                                modified,
                            ));
                            assert(yank(vs, id) == vs.update(j as int, modified));
                            assert(x.vw() == modified);
                            assert(views_of(self.children@) == vs.update(j as int, x.vw()));
                            assert(self@.children == yank(vs, id));
                            assert(self@ =~= (SpriteView { children: yank(vs, id), ..old(self)@ }));
                        }
                        return r;
                    }
                    j += 1;
                }
                proof {
                    lemma_seek_scan_skip(vs, id, n as int);
                    assert(vs.skip(n as int) =~= Seq::<SpriteView>::empty());
                }
                None
            },
        }
    }
}

impl<T> Sprite<T> {
    /// Append the ids of this sprite and all of its descendants to `out`.
    pub fn collect_ids(&self, out: &mut Vec<u64>)
        requires
            self.wf(),
        ensures
            forall|x: u64|
                #[trigger] final(out)@.contains(x) <==> (old(out)@.contains(x) || node_ids(
                    self@,
                ).contains(x)),
        decreases *self,
    {
        broadcast use lemma_views_of;
        broadcast use vstd::seq_lib::group_seq_properties;

        out.push(self.id);
        proof {
            assert(self@.children.take(0) =~= Seq::<SpriteView>::empty());
            assert(subtree_ids(self@.children.take(0)) =~= Set::<u64>::empty());
            assert forall|x: u64| #[trigger]
                out@.contains(x) <==> (old(out)@.contains(x) || x == self@.id) by {
                assert(out@ == old(out)@.push(self.id));
            }
        }
        let n = self.children.len();
        let mut j: usize = 0;
        while j < n
            invariant
                self.wf(),
                n == self.children@.len(),
                j <= n,
                forall|x: u64|
                    #[trigger] out@.contains(x) <==> (old(out)@.contains(x) || x == self@.id
                        || subtree_ids(self@.children.take(j as int)).contains(x)),
            decreases n - j,
        {
            proof {
                lemma_children_wf(self.children@);
                lemma_view_at(self.children@, j as int);
                assert(self.children@[j as int].wf());
            }
            let ghost prev = out@;
            let c = &self.children[j];
            c.collect_ids(out);
            proof {
                let t1 = self@.children.take(j as int + 1);
                assert(t1.drop_last() =~= self@.children.take(j as int));
                assert(t1.last() == self@.children[j as int]);
                assert(self@.children[j as int] == c@);
                assert(subtree_ids(t1) == subtree_ids(t1.drop_last()) + subtree_ids(
                    t1.last().children,
                ) + set![t1.last().id]);
                assert forall|x: u64| #[trigger]
                    out@.contains(x) <==> (old(out)@.contains(x) || x == self@.id
                        || subtree_ids(t1).contains(x)) by {
                    assert(out@.contains(x) <==> (prev.contains(x) || node_ids(c@).contains(x)));
                }
            }
            j += 1;
        }
        proof {
            assert(views_of(self.children@).len() == self.children@.len());
            assert(self@.children.len() == n as int);
            assert(self@.children.take(n as int) =~= self@.children);
        }
    }
}

} // verus!
