//! The scene scheduler: owns the sprite tree's roots, a registry of running
//! animations keyed by sprite id and behavior value, and the set of sprites
//! marked for removal once their animations finish.  Each tick walks the
//! registry, drives every entry that is not paused through an
//! externally-supplied behavior evaluator, keeps exactly the entries that
//! report `Running`, and then prunes sprites whose deferred removal has
//! become due.

use vstd::prelude::*;
use std::collections::HashMap;
use crate::animation::Status;
use crate::sprite::{
    children_wf, direct_index, index_ok, lemma_children_wf, lemma_seek_scan_skip, lemma_view_at,
    lemma_view_is_vw, lemma_views_of, lemma_vw_id, node_ids, plant, seek, views_of, yank,
    yank_scan, Sprite, SpriteProps, SpriteView,
};
use crate::TIME_LIMIT;
use vstd::std_specs::cmp::PartialEqSpec;

verus! {

broadcast use
    vstd::std_specs::hash::group_hash_axioms,
    lemma_vw_id,
    lemma_view_is_vw,
    lemma_views_of;

/// One registered animation: the sprite it animates, the behavior value
/// that keys it, the evaluator's runtime state once the first tick has
/// created it, and whether it is paused.
pub struct SceneEntry<B, S> {
    pub id: u64,
    pub behavior: B,
    pub state: Option<S>,
    pub paused: bool,
}

/// What the external evaluator hands back for one driven entry: the
/// properties to store, the runtime state to keep, and the status.
pub struct TickOutcome<S> {
    pub props: SpriteProps,
    pub state: Option<S>,
    pub status: Status,
}

/// A scene: the root sprites with their id index, the registry of running
/// animations, and the ids marked for deferred removal.
pub struct Scene<T, B, S> {
    children: Vec<Sprite<T>>,
    children_index: HashMap<u64, usize>,
    running: Vec<SceneEntry<B, S>>,
    dead: Vec<u64>,
}

impl<T, B, S> Scene<T, B, S> {
    /// The images of the root sprites, in order.
    pub closed spec fn tree(self) -> Seq<SpriteView> {
        views_of(self.children@)
    }

    /// The registry of running animations, in order.
    pub closed spec fn reg(self) -> Seq<SceneEntry<B, S>> {
        self.running@
    }

    /// The ids marked for deferred removal, in marking order.
    pub closed spec fn deads(self) -> Seq<u64> {
        self.dead@
    }

    /// Well-formedness: the root index is the bijection between root ids
    /// and positions, every root sprite is well formed, and no id is marked
    /// for deferred removal twice.
    pub closed spec fn wf(self) -> bool {
        &&& index_ok(self.children@, self.children_index@)
        &&& children_wf(self.children@)
        &&& forall|i: int, j: int|
            0 <= i < j < self.dead@.len() ==> self.dead@[i] != self.dead@[j]
    }

    /// Create an empty scene.
    pub fn new() -> (r: Scene<T, B, S>)
        ensures
            r.wf(),
            r.tree() == Seq::<SpriteView>::empty(),
            r.reg() == Seq::<SceneEntry<B, S>>::empty(),
            r.deads() == Seq::<u64>::empty(),
    {
        let s = Scene {
            children: Vec::new(),
            children_index: HashMap::new(),
            running: Vec::new(),
            dead: Vec::new(),
        };
        proof {
            assert(s.tree() =~= Seq::<SpriteView>::empty());
        }
        s
    }

    /// Add a sprite to the scene's roots and return its id.  A sprite whose
    /// id is already a root id is not added, keeping the index a bijection.
    pub fn add_child(&mut self, sprite: Sprite<T>) -> (r: u64)
        requires
            old(self).wf(),
            sprite.wf(),
        ensures
            final(self).wf(),
            r == sprite@.id,
            final(self).reg() == old(self).reg(),
            final(self).deads() == old(self).deads(),
            direct_index(old(self).tree(), r) is Some ==> final(self).tree() == old(self).tree(),
            direct_index(old(self).tree(), r) is None ==> final(self).tree() == old(
                self,
            ).tree().push(sprite@),
    {
        proof {
            broadcast use lemma_vw_id;
            broadcast use lemma_view_is_vw;

            crate::sprite::lemma_index_ok_direct(self.children@, self.children_index@, sprite.sid());
            assert(sprite@ == sprite.vw());
        }
        let id = sprite.id();
        if self.children_index.contains_key(&id) {
            return id;
        }
        let n = self.children.len();
        let ghost old_children = self.children@;
        let ghost old_map = self.children_index@;
        self.children.push(sprite);
        self.children_index.insert(id, n);
        proof {
            broadcast use lemma_views_of;
            broadcast use lemma_vw_id;
            broadcast use lemma_view_is_vw;

            lemma_children_wf(old_children);
            assert forall|i: int|
                0 <= i < self.children@.len() implies self.children_index@.contains_key(
                #[trigger] self.children@[i].sid(),
            ) && self.children_index@[self.children@[i].sid()] == i by {
                if i < n {
                    assert(self.children@[i] == old_children[i]);
                    assert(old_map.contains_key(old_children[i].sid()));
                    assert(old_children[i].sid() != id);
                }
            }
            assert forall|k: u64| #[trigger]
                self.children_index@.contains_key(k) implies self.children_index@[k]
                < self.children@.len() && self.children@[self.children_index@[k] as int].sid()
                == k by {
                if k != id {
                    assert(old_map.contains_key(k));
                    assert(self.children@[old_map[k] as int] == old_children[old_map[k] as int]);
                }
            }
            assert forall|i: int|
                0 <= i < self.children@.len() implies (#[trigger] self.children@[i]).wf() by {
                if i < n {
                    assert(self.children@[i] == old_children[i]);
                    assert(old_children[i].wf());
                }
            }
            lemma_children_wf(self.children@);
            assert forall|i: int|
                0 <= i < self.children@.len() implies (#[trigger] views_of(self.children@)[i])
                == old(self).tree().push(sprite@)[i] by {
                assert(views_of(self.children@)[i] == self.children@[i].vw());
                if i < n {
                    assert(self.children@[i] == old_children[i]);
                    assert(views_of(old_children)[i] == old_children[i].vw());
                }
            }
            assert(views_of(self.children@).len() == n + 1);
            assert(views_of(old_children).len() == n);
            assert(self.tree() =~= old(self).tree().push(sprite@));
        }
        id
    }

    /// Find the sprite with `id` among the scene's roots or their
    /// descendants.
    pub fn child(&self, id: u64) -> (r: Option<&Sprite<T>>)
        requires
            self.wf(),
        ensures
            match r {
                Some(c) => c.wf() && seek(self.tree(), id) == Some(c@),
                None => seek(self.tree(), id) is None,
            },
    {
        proof {
            broadcast use lemma_views_of;
            broadcast use lemma_vw_id;
            broadcast use lemma_view_is_vw;

            crate::sprite::lemma_index_ok_direct(self.children@, self.children_index@, id);
            lemma_children_wf(self.children@);
        }
        match self.children_index.get(&id) {
            Some(i) => {
                let idx = *i;
                Some(&self.children[idx])
            },
            None => {
                let ghost vs = self.tree();
                let n = self.children.len();
                let mut j: usize = 0;
                while j < n
                    invariant
                        self.wf(),
                        n == self.children@.len(),
                        j <= n,
                        vs == self.tree(),
                        vs.len() == n,
                        forall|k: int|
                            0 <= k < j ==> seek((#[trigger] vs[k]).children, id) is None,
                        direct_index(vs, id) is None,
                    decreases n - j,
                {
                    proof {
                        lemma_children_wf(self.children@);
                        lemma_view_at(self.children@, j as int);
                        assert(self.children@[j as int].wf());
                        assert(vs[j as int] == self.children@[j as int].vw());
                    }
                    let c = &self.children[j];
                    match c.child(id) {
                        Some(res) => {
                            proof {
                                lemma_seek_scan_skip(vs, id, j as int);
                                assert(vs.skip(j as int)[0] == vs[j as int]);
                            }
                            return Some(res);
                        },
                        None => {},
                    }
                    j += 1;
                }
                proof {
                    lemma_seek_scan_skip(vs, id, n as int);
                    assert(vs.skip(n as int) =~= Seq::<SpriteView>::empty());
                }
                None
            },
        }
    }

    /// Find the sprite with `id` among the scene's roots or their
    /// descendants and borrow it mutably; the tree afterwards carries
    /// whatever the caller leaves behind the borrow.
    pub fn child_mut(&mut self, id: u64) -> (r: Option<&mut Sprite<T>>)
        requires
            old(self).wf(),
        ensures
            final(self).reg() == old(self).reg(),
            final(self).deads() == old(self).deads(),
            r.is_some() <==> seek(old(self).tree(), id) is Some,
            r.is_some() ==> {
                &&& (*r.unwrap())@ == seek(old(self).tree(), id)->0
                &&& (*r.unwrap()).wf()
                &&& final(self).tree() == plant(old(self).tree(), id, (*final(r.unwrap()))@)
                &&& ((*final(r.unwrap())).wf() && (*final(r.unwrap()))@.id == id ==> final(self).wf())
            },
            r.is_none() ==> *final(self) == *old(self),
    {
        proof {
            crate::sprite::lemma_index_ok_direct(self.children@, self.children_index@, id);
            lemma_children_wf(self.children@);
        }
        let ghost vs = self.tree();
        let ghost old_children = self.children@;
        let ghost old_map = self.children_index@;
        let direct: Option<usize> = match self.children_index.get(&id) {
            Some(i) => Some(*i),
            None => None,
        };
        match direct {
            Some(i) => {
                proof {
                    lemma_view_at(old_children, i as int);
                    assert(direct_index(vs, id) == Some(i as int));
                    assert(seek(vs, id) == Some(vs[i as int]));
                    assert(vs[i as int].id == id);
                    assert(old_children[i as int].sid() == id);
                    assert forall|sub: SpriteView| #[trigger] plant(vs, id, sub) == vs.update(
                        i as int,
                        sub,
                    ) by {}
                    assert forall|x: Sprite<T>| #![trigger x.vw()] views_of(
                        old_children.update(i as int, x),
                    ) == vs.update(i as int, x.vw()) && (x.wf() && x.vw().id == id
                        ==> index_ok(old_children.update(i as int, x), old_map) && children_wf(
                        old_children.update(i as int, x),
                    )) by {
                        crate::sprite::lemma_replace_effect(old_children, old_map, i as int, x);
                    }
                }
                let m = &mut self.children[i];
                Some(m)
            },
            None => {
                let n = self.children.len();
                let mut j: usize = 0;
                while j < n
                    invariant
                        old(self).wf(),
                        *self == *old(self),
                        n == self.children@.len(),
                        j <= n,
                        vs == self.tree(),
                        vs.len() == n,
                        old_children == self.children@,
                        old_map == self.children_index@,
                        forall|k: int|
                            0 <= k < j ==> seek((#[trigger] vs[k]).children, id) is None,
                        direct_index(vs, id) is None,
                    decreases n - j,
                {
                    proof {
                        lemma_children_wf(old_children);
                        lemma_view_at(old_children, j as int);
                        assert(old_children[j as int].wf());
                        assert(vs[j as int] == old_children[j as int].vw());
                    }
                    let hit = self.children[j].child(id).is_some();
                    if hit {
                        proof {
                            lemma_seek_scan_skip(vs, id, j as int);
                            assert(vs.skip(j as int)[0] == vs[j as int]);
                            crate::sprite::lemma_plant_deep_shape(vs, id, j as int);
                            assert forall|x: Sprite<T>| #![trigger x.vw()] views_of(
                                old_children.update(j as int, x),
                            ) == vs.update(j as int, x.vw()) && (x.wf() && x.vw().id
                                == old_children[j as int].sid()
                                ==> index_ok(old_children.update(j as int, x), old_map)
                                && children_wf(old_children.update(j as int, x))) by {
                                crate::sprite::lemma_replace_effect(
                                    old_children,
                                    old_map,
                                    j as int,
                                    x,
                                );
                            }
                        }
                        let c = &mut self.children[j];
                        let r = c.child_mut(id);
                        return r;
                    }
                    j += 1;
                }
                proof {
                    lemma_seek_scan_skip(vs, id, n as int);
                    assert(vs.skip(n as int) =~= Seq::<SpriteView>::empty());
                }
                None
            },
        }
    }
}

/// Whether `x` occurs in `ids`.
fn has_id(ids: &Vec<u64>, x: u64) -> (r: bool)
    ensures
        r == ids@.contains(x),
{
    let n = ids.len();
    let mut j: usize = 0;
    while j < n
        invariant
            n == ids@.len(),
            j <= n,
            forall|k: int| 0 <= k < j ==> ids@[k] != x,
        decreases n - j,
    {
        if ids[j] == x {
            return true;
        }
        j += 1;
    }
    false
}

impl<T, B, S> Scene<T, B, S> {
    /// Detach the sprite with `id` from the tree, leaving the registry and
    /// the deferred-removal marks alone.
    fn detach(&mut self, id: u64) -> (r: Option<Sprite<T>>)
        requires
            old(self).wf(),
        ensures
            final(self).wf(),
            final(self).reg() == old(self).reg(),
            final(self).deads() == old(self).deads(),
            match r {
                Some(c) => {
                    &&& c.wf()
                    &&& Some(c@) == seek(old(self).tree(), id)
                    &&& final(self).tree() == yank(old(self).tree(), id)
                },
                None => seek(old(self).tree(), id) is None && *final(self) == *old(self),
            },
    {
        proof {
            crate::sprite::lemma_index_ok_direct(self.children@, self.children_index@, id);
            lemma_children_wf(self.children@);
        }
        let ghost vs = self.tree();
        let ghost old_children = self.children@;
        let ghost old_map = self.children_index@;
        let direct: Option<usize> = match self.children_index.get(&id) {
            Some(i) => Some(*i),
            None => None,
        };
        match direct {
            Some(i) => {
                proof {
                    lemma_view_at(old_children, i as int);
                    assert(direct_index(vs, id) == Some(i as int));
                    assert(seek(vs, id) == Some(vs[i as int]));
                    assert(old_children[i as int].sid() == id);
                }
                self.children_index.remove(&id);
                let removed = self.children.remove(i);
                let ghost s = self.children@;
                let n = self.children.len();
                let mut k: usize = i;
                while k < n
                    invariant
                        i <= k <= n,
                        n == self.children@.len(),
                        self.children@ == old_children.remove(i as int),
                        self.running@ == old(self).running@,
                        self.dead@ == old(self).dead@,
                        n + 1 == old_children.len(),
                        index_ok(old_children, old_map),
                        children_wf(old_children),
                        old_map.contains_key(id),
                        old_map[id] == i,
                        i <= n,
                        forall|key: u64|
                            #[trigger] self.children_index@.contains_key(key) <==> (
                            old_map.contains_key(key) && key != id),
                        forall|key: u64| #[trigger]
                            self.children_index@.contains_key(key) ==> {
                                if (old_map[key] as int) < i as int {
                                    self.children_index@[key] == old_map[key]
                                } else if old_map[key] as int - 1 < k as int {
                                    self.children_index@[key] as int == old_map[key] as int - 1
                                } else {
                                    self.children_index@[key] == old_map[key]
                                }
                            },
                    decreases n - k,
                {
                    proof {
                        lemma_children_wf(old_children);
                        assert(self.children@[k as int] == old_children[k as int + 1]);
                        assert(old_map[self.children@[k as int].sid()] == k + 1);
                    }
                    let cid = self.children[k].id();
                    proof {
                        assert(cid == self.children@[k as int].sid());
                    }
                    self.children_index.insert(cid, k);
                    k += 1;
                }
                proof {
                    lemma_children_wf(old_children);
                    let m = self.children_index@;
                    assert forall|idx: int|
                        0 <= idx < s.len() implies m.contains_key(#[trigger] s[idx].sid())
                        && m[s[idx].sid()] == idx by {
                        if idx < i as int {
                            assert(s[idx] == old_children[idx]);
                            assert(old_map.contains_key(old_children[idx].sid()));
                            assert(old_map[s[idx].sid()] == idx);
                        } else {
                            assert(s[idx] == old_children[idx + 1]);
                            assert(old_map.contains_key(old_children[idx + 1].sid()));
                            assert(old_map[s[idx].sid()] == idx + 1);
                        }
                        assert(s[idx].sid() != id);
                        assert(m.contains_key(s[idx].sid()));
                    }
                    assert forall|key: u64| #[trigger] m.contains_key(key) implies m[key] < s.len()
                        && s[m[key] as int].sid() == key by {
                        let p = old_map[key] as int;
                        assert(old_children[p].sid() == key);
                        if p < i as int {
                            assert(s[p] == old_children[p]);
                        } else {
                            assert(p > i as int);
                            assert(s[p - 1] == old_children[p]);
                        }
                    }
                    assert forall|idx: int| 0 <= idx < s.len() implies (#[trigger] s[idx]).wf() by {
                        if idx < i as int {
                            assert(s[idx] == old_children[idx]);
                        } else {
                            assert(s[idx] == old_children[idx + 1]);
                        }
                    }
                    lemma_children_wf(s);
                    assert forall|idx: int|
                        0 <= idx < s.len() implies (#[trigger] views_of(s)[idx]) == vs.remove(
                        i as int,
                    )[idx] by {
                        lemma_view_at(s, idx);
                        if idx < i as int {
                            assert(s[idx] == old_children[idx]);
                            lemma_view_at(old_children, idx);
                        } else {
                            assert(s[idx] == old_children[idx + 1]);
                            lemma_view_at(old_children, idx + 1);
                        }
                    }
                    assert(views_of(s) =~= vs.remove(i as int));
                    assert(yank(vs, id) == vs.remove(i as int));
                    assert(removed == old_children[i as int]);
                    assert(removed.wf());
                    assert(removed.vw() == vs[i as int]);
                    assert(self.children@ == s);
                    assert(self.tree() == yank(vs, id));
                }
                Some(removed)
            },
            None => {
                let n = self.children.len();
                let mut j: usize = 0;
                while j < n
                    invariant
                        old(self).wf(),
                        *self == *old(self),
                        n == self.children@.len(),
                        j <= n,
                        vs == self.tree(),
                        vs.len() == n,
                        old_children == self.children@,
                        old_map == self.children_index@,
                        forall|k: int|
                            0 <= k < j ==> seek((#[trigger] vs[k]).children, id) is None,
                        direct_index(vs, id) is None,
                    decreases n - j,
                {
                    proof {
                        lemma_children_wf(old_children);
                        lemma_view_at(old_children, j as int);
                        assert(old_children[j as int].wf());
                        assert(vs[j as int] == old_children[j as int].vw());
                    }
                    let hit = self.children[j].child(id).is_some();
                    if hit {
                        proof {
                            lemma_seek_scan_skip(vs, id, j as int);
                            assert(vs.skip(j as int)[0] == vs[j as int]);
                        }
                        let ghost c_old = self.children@[j as int];
                        let c = &mut self.children[j];
                        let r = c.remove_child(id);
                        proof {
                            let x = self.children@[j as int];
                            assert(self.children@ =~= old_children.update(j as int, x));
                            crate::sprite::lemma_replace_effect(old_children, old_map, j as int, x);
                            assert(x.vw() == (SpriteView {
                                children: yank(c_old.vw().children, id),
                                ..c_old.vw()
                            }));
                            assert(x.sid() == c_old.sid());
                            assert(x.wf());
                            crate::sprite::lemma_yank_scan_skip(vs, id, j as int);
                            let t = vs.skip(j as int);
                            let modified = SpriteView {
                                children: yank(vs[j as int].children, id),
                                ..vs[j as int]
                            };
                            assert(yank_scan(t, id) == t.update(0, modified));
                            assert(vs.take(j as int) + t.update(0, modified) =~= vs.update(
                                j as int,
                                modified,
                            ));
                            assert(yank(vs, id) == vs.update(j as int, modified));
                            assert(x.vw() == modified);
                            assert(views_of(self.children@) == vs.update(j as int, x.vw()));
                            assert(self.tree() == yank(vs, id));
                        }
                        return r;
                    }
                    j += 1;
                }
                proof {
                    lemma_seek_scan_skip(vs, id, n as int);
                    assert(vs.skip(n as int) =~= Seq::<SpriteView>::empty());
                }
                None
            },
        }
    }

    /// Remove the sprite with `id` from the scene's roots or their
    /// descendants, stopping every registration of the removed subtree's
    /// members and unmarking the id for deferred removal.
    pub fn remove_child(&mut self, id: u64) -> (r: Option<Sprite<T>>)
        requires
            old(self).wf(),
        ensures
            final(self).wf(),
            match r {
                Some(c) => {
                    &&& c.wf()
                    &&& Some(c@) == seek(old(self).tree(), id)
                    &&& final(self).tree() == yank(old(self).tree(), id)
                    &&& final(self).reg() == old(self).reg().filter(
                        |e: SceneEntry<B, S>| !node_ids(c@).contains(e.id),
                    )
                    &&& final(self).deads() == old(self).deads().filter(|x: u64| x != id)
                },
                None => seek(old(self).tree(), id) is None && *final(self) == *old(self),
            },
    {
        let removed = self.detach(id);
        match removed {
            None => None,
            Some(c) => {
                let mut ids: Vec<u64> = Vec::new();
                c.collect_ids(&mut ids);
                proof {
                    assert(forall|x: u64| ids@.contains(x) <==> node_ids(c@).contains(x));
                }
                let ghost orig = self.running@;
                let mut src: Vec<SceneEntry<B, S>> = Vec::new();
                core::mem::swap(&mut src, &mut self.running);
                let mut kept: Vec<SceneEntry<B, S>> = Vec::new();
                let ghost mut i: int = 0;
                let ghost pred = |e: SceneEntry<B, S>| !node_ids(c@).contains(e.id);
                while src.len() > 0
                    invariant
                        0 <= i <= orig.len(),
                        src@ == orig.skip(i),
                        kept@ == orig.take(i).filter(pred),
                        pred == (|e: SceneEntry<B, S>| !node_ids(c@).contains(e.id)),
                        forall|x: u64| ids@.contains(x) <==> node_ids(c@).contains(x),
                    decreases src.len(),
                {
                    proof {
                        assert(orig.skip(i)[0] == orig[i]);
                    }
                    let e = src.remove(0);
                    proof {
                        assert(src@ =~= orig.skip(i + 1));
                        orig.lemma_take_succ_push(i);
                        orig.take(i).lemma_filter_push(orig[i], pred);
                    }
                    if !has_id(&ids, e.id) {
                        kept.push(e);
                    }
                    proof {
                        i = i + 1;
                    }
                }
                proof {
                    assert(orig.skip(i).len() == 0);
                    assert(i == orig.len());
                    orig.lemma_take_len();
                }
                self.running = kept;
                let ghost odead = self.dead@;
                let mut dsrc: Vec<u64> = Vec::new();
                core::mem::swap(&mut dsrc, &mut self.dead);
                let mut dkept: Vec<u64> = Vec::new();
                let ghost mut k: int = 0;
                let ghost dpred = |x: u64| x != id;
                while dsrc.len() > 0
                    invariant
                        0 <= k <= odead.len(),
                        dsrc@ == odead.skip(k),
                        dkept@ == odead.take(k).filter(dpred),
                        dpred == (|x: u64| x != id),
                    decreases dsrc.len(),
                {
                    proof {
                        assert(odead.skip(k)[0] == odead[k]);
                    }
                    let x = dsrc.remove(0);
                    proof {
                        assert(dsrc@ =~= odead.skip(k + 1));
                        odead.lemma_take_succ_push(k);
                        odead.take(k).lemma_filter_push(odead[k], dpred);
                    }
                    if x != id {
                        dkept.push(x);
                    }
                    proof {
                        k = k + 1;
                    }
                }
                proof {
                    assert(odead.skip(k).len() == 0);
                    assert(k == odead.len());
                    odead.lemma_take_len();
                    lemma_filter_distinct(odead, dpred);
                }
                self.dead = dkept;
                Some(c)
            },
        }
    }
}

/// Filtering keeps a duplicate-free sequence duplicate-free.
proof fn lemma_filter_distinct(s: Seq<u64>, p: spec_fn(u64) -> bool)
    requires
        forall|i: int, j: int| 0 <= i < j < s.len() ==> s[i] != s[j],
    ensures
        forall|i: int, j: int|
            0 <= i < j < s.filter(p).len() ==> s.filter(p)[i] != s.filter(p)[j],
    decreases s.len(),
{
    broadcast use vstd::seq_lib::group_filter_ensures;

    reveal(Seq::filter);
    if s.len() > 0 {
        let sub = s.drop_last();
        assert(forall|i: int, j: int| 0 <= i < j < sub.len() ==> sub[i] != sub[j]);
        lemma_filter_distinct(sub, p);
        if p(s.last()) {
            assert forall|i: int, j: int|
                0 <= i < j < s.filter(p).len() implies s.filter(p)[i] != s.filter(p)[j] by {
                if j == s.filter(p).len() - 1 {
                    assert(s.filter(p)[j] == s.last());
                    assert(s.filter(p)[i] == sub.filter(p)[i]);
                    let fi = sub.filter(p)[i];
                    sub.lemma_filter_pred(p, i);
                    lemma_filter_element_of(sub, p, i);
                } else {
                    assert(s.filter(p)[i] == sub.filter(p)[i]);
                    assert(s.filter(p)[j] == sub.filter(p)[j]);
                }
            }
        }
    }
}

/// How many registry entries animate the sprite with `id`.
pub open spec fn count_for<B, S>(reg: Seq<SceneEntry<B, S>>, id: u64) -> int {
    reg.filter(|e: SceneEntry<B, S>| e.id == id).len() as int
}

/// The position of the first entry for `id` whose behavior compares equal
/// to `b` under the behavior type's comparison specification.
pub open spec fn find_entry<B: PartialEq, S>(
    reg: Seq<SceneEntry<B, S>>,
    id: u64,
    b: B,
) -> Option<int>
    decreases reg.len(),
{
    if reg.len() == 0 {
        None
    } else if reg[0].id == id && reg[0].behavior.eq_spec(&b) {
        Some(0int)
    } else {
        match find_entry(reg.skip(1), id, b) {
            Some(i) => Some(i + 1),
            None => None,
        }
    }
}

/// A found entry is in range, carries the id, and its behavior matches.
proof fn lemma_find_entry_props<B: PartialEq, S>(reg: Seq<SceneEntry<B, S>>, id: u64, b: B)
    ensures
        match find_entry(reg, id, b) {
            Some(i) => 0 <= i < reg.len() && reg[i].id == id && reg[i].behavior.eq_spec(&b),
            None => true,
        },
    decreases reg.len(),
{
    if reg.len() > 0 && !(reg[0].id == id && reg[0].behavior.eq_spec(&b)) {
        lemma_find_entry_props(reg.skip(1), id, b);
        match find_entry(reg.skip(1), id, b) {
            Some(i) => {
                assert(reg.skip(1)[i] == reg[i + 1]);
            },
            None => {},
        }
    }
}

/// Skipping entries that do not match leaves the first match in place.
proof fn lemma_find_entry_skip<B: PartialEq, S>(
    reg: Seq<SceneEntry<B, S>>,
    id: u64,
    b: B,
    j: int,
)
    requires
        0 <= j <= reg.len(),
        forall|k: int|
            0 <= k < j ==> !((#[trigger] reg[k]).id == id && reg[k].behavior.eq_spec(&b)),
    ensures
        match find_entry(reg.skip(j), id, b) {
            Some(i) => find_entry(reg, id, b) == Some(i + j),
            None => find_entry(reg, id, b) is None,
        },
    decreases j,
{
    if j == 0 {
        assert(reg.skip(0) =~= reg);
    } else {
        lemma_find_entry_skip(reg, id, b, j - 1);
        let t = reg.skip(j - 1);
        assert(t.len() == reg.len() - j + 1);
        assert(t[0] == reg[j - 1]);
        assert(t.skip(1) =~= reg.skip(j));
    }
}

impl<T, B, S> Scene<T, B, S> {
    /// Register a new animation for the sprite with `sprite_id`: the entry
    /// is appended unpaused, with no runtime state yet.  An id that is not
    /// in the tree gets no entry.
    pub fn run(&mut self, sprite_id: u64, behavior: B)
        requires
            old(self).wf(),
        ensures
            final(self).wf(),
            final(self).tree() == old(self).tree(),
            final(self).deads() == old(self).deads(),
            seek(old(self).tree(), sprite_id) is Some ==> final(self).reg() == old(
                self,
            ).reg().push(
                (SceneEntry { id: sprite_id, behavior, state: None::<S>, paused: false }),
            ),
            seek(old(self).tree(), sprite_id) is None ==> final(self).reg() == old(self).reg(),
    {
        let present = self.child(sprite_id).is_some();
        if present {
            self.running.push(SceneEntry { id: sprite_id, behavior, state: None, paused: false });
        }
    }

    /// How many animations are registered over the whole scene.
    pub fn running(&self) -> (r: usize)
        ensures
            r == self.reg().len(),
    {
        self.running.len()
    }

    /// How many registry entries animate the sprite with `id`.
    fn count_entries(&self, id: u64) -> (r: usize)
        ensures
            r as int == count_for(self.reg(), id),
    {
        let ghost pred = |e: SceneEntry<B, S>| e.id == id;
        let n = self.running.len();
        let mut c: usize = 0;
        let mut j: usize = 0;
        while j < n
            invariant
                n == self.reg().len(),
                j <= n,
                c as int == self.reg().take(j as int).filter(pred).len(),
                c <= j,
                pred == (|e: SceneEntry<B, S>| e.id == id),
            decreases n - j,
        {
            proof {
                self.reg().lemma_take_succ_push(j as int);
                self.reg().take(j as int).lemma_filter_push(self.reg()[j as int], pred);
            }
            if self.running[j].id == id {
                c += 1;
            }
            j += 1;
        }
        proof {
            self.reg().lemma_take_len();
        }
        c
    }

    /// The number of running animations for the sprite with `sprite_id`,
    /// or nothing when the scene knows no such sprite: an id with entries
    /// reports their count; one without entries reports zero if the sprite
    /// exists and is otherwise not found.
    pub fn running_for_child(&self, sprite_id: u64) -> (r: Option<usize>)
        requires
            self.wf(),
        ensures
            count_for(self.reg(), sprite_id) > 0 ==> r == Some(
                count_for(self.reg(), sprite_id) as usize,
            ),
            count_for(self.reg(), sprite_id) == 0 ==> r == (if seek(
                self.tree(),
                sprite_id,
            ) is Some {
                Some(0usize)
            } else {
                None::<usize>
            }),
    {
        let n = self.count_entries(sprite_id);
        if n > 0 {
            Some(n)
        } else {
            if self.child(sprite_id).is_some() {
                Some(0)
            } else {
                None
            }
        }
    }

    /// Stop every animation of the sprite with `sprite_id`.
    pub fn stop_all(&mut self, sprite_id: u64)
        requires
            old(self).wf(),
        ensures
            final(self).wf(),
            final(self).tree() == old(self).tree(),
            final(self).deads() == old(self).deads(),
            final(self).reg() == old(self).reg().filter(
                |e: SceneEntry<B, S>| e.id != sprite_id,
            ),
    {
        let ghost orig = self.running@;
        let ghost pred = |e: SceneEntry<B, S>| e.id != sprite_id;
        let mut src: Vec<SceneEntry<B, S>> = Vec::new();
        core::mem::swap(&mut src, &mut self.running);
        let mut kept: Vec<SceneEntry<B, S>> = Vec::new();
        let ghost mut i: int = 0;
        while src.len() > 0
            invariant
                0 <= i <= orig.len(),
                src@ == orig.skip(i),
                kept@ == orig.take(i).filter(pred),
                pred == (|e: SceneEntry<B, S>| e.id != sprite_id),
            decreases src.len(),
        {
            proof {
                assert(orig.skip(i)[0] == orig[i]);
            }
            let e = src.remove(0);
            proof {
                assert(src@ =~= orig.skip(i + 1));
                orig.lemma_take_succ_push(i);
                orig.take(i).lemma_filter_push(orig[i], pred);
            }
            if e.id != sprite_id {
                kept.push(e);
            }
            proof {
                i = i + 1;
            }
        }
        proof {
            assert(i == orig.len());
            orig.lemma_take_len();
        }
        self.running = kept;
    }

    /// Remove the sprite with `id` once its running animations have all
    /// finished.  With none running it is removed at once; otherwise it is
    /// marked, and a later tick evicts it the first time its count reaches
    /// zero.  Paused animations keep it alive indefinitely, and registering
    /// new animations does not unmark it.
    pub fn remove_child_when_done(&mut self, id: u64)
        requires
            old(self).wf(),
        ensures
            final(self).wf(),
            count_for(old(self).reg(), id) > 0 ==> {
                &&& final(self).tree() == old(self).tree()
                &&& final(self).reg() == old(self).reg()
                &&& final(self).deads() == (if old(self).deads().contains(id) {
                    old(self).deads()
                } else {
                    old(self).deads().push(id)
                })
            },
            count_for(old(self).reg(), id) == 0 && seek(old(self).tree(), id) is Some ==> {
                &&& final(self).tree() == yank(old(self).tree(), id)
                &&& final(self).reg() == old(self).reg().filter(
                    |e: SceneEntry<B, S>| !node_ids(seek(old(self).tree(), id)->0).contains(e.id),
                )
                &&& final(self).deads() == old(self).deads().filter(|x: u64| x != id)
            },
            count_for(old(self).reg(), id) == 0 && seek(old(self).tree(), id) is None ==> *final(self) == *old(self),
    {
        let n = self.count_entries(id);
        if n > 0 {
            if !has_id(&self.dead, id) {
                let ghost odead = self.dead@;
                self.dead.push(id);
                proof {
                    broadcast use vstd::seq_lib::group_seq_properties;

                    assert forall|a: int, b: int|
                        0 <= a < b < self.dead@.len() implies self.dead@[a] != self.dead@[b] by {
                        if b == self.dead@.len() - 1 {
                            assert(self.dead@[a] == odead[a]);
                            assert(odead.contains(odead[a]));
                        }
                    }
                }
            }
        } else {
            let present = self.child(id).is_some();
            if present {
                self.remove_child(id);
            }
        }
    }
}

impl<T, B: PartialEq, S> Scene<T, B, S> {
    /// The position of the first entry for `sprite_id` whose behavior
    /// compares equal to `animation`.
    fn find(&self, sprite_id: u64, animation: &B) -> (r: Option<usize>)
        ensures
            r is Some ==> r->0 < self.reg().len() && self.reg()[r->0 as int].id == sprite_id,
            B::obeys_eq_spec() && r is Some ==> find_entry(self.reg(), sprite_id, *animation)
                == Some(r->0 as int),
            B::obeys_eq_spec() && r is None ==> find_entry(self.reg(), sprite_id, *animation)
                is None,
    {
        let n = self.running.len();
        let mut j: usize = 0;
        while j < n
            invariant
                n == self.reg().len(),
                j <= n,
                B::obeys_eq_spec() ==> forall|k: int|
                    0 <= k < j ==> !((#[trigger] self.reg()[k]).id == sprite_id
                        && self.reg()[k].behavior.eq_spec(animation)),
            decreases n - j,
        {
            if self.running[j].id == sprite_id && self.running[j].behavior == *animation {
                proof {
                    if B::obeys_eq_spec() {
                        lemma_find_entry_skip(self.reg(), sprite_id, *animation, j as int);
                        assert(self.reg().skip(j as int)[0] == self.reg()[j as int]);
                    }
                }
                return Some(j);
            }
            j += 1;
        }
        proof {
            if B::obeys_eq_spec() {
                lemma_find_entry_skip(self.reg(), sprite_id, *animation, n as int);
                assert(self.reg().skip(n as int).len() == 0);
            }
        }
        None
    }

    /// Set the paused flag of the first entry for `sprite_id` whose
    /// behavior compares equal to `animation`, re-appending it at the end
    /// of the registry.
    fn set_paused(&mut self, sprite_id: u64, animation: &B, to: Option<bool>)
        requires
            old(self).wf(),
        ensures
            final(self).wf(),
            final(self).tree() == old(self).tree(),
            final(self).deads() == old(self).deads(),
            B::obeys_eq_spec() ==> match find_entry(old(self).reg(), sprite_id, *animation) {
                None => final(self).reg() == old(self).reg(),
                Some(i) => final(self).reg() == old(self).reg().remove(i).push(
                    (SceneEntry {
                        paused: match to {
                            Some(v) => v,
                            None => !old(self).reg()[i].paused,
                        },
                        ..old(self).reg()[i]
                    }),
                ),
            },
    {
        proof {
            if B::obeys_eq_spec() {
                lemma_find_entry_props(self.reg(), sprite_id, *animation);
            }
        }
        match self.find(sprite_id, animation) {
            None => {},
            Some(i) => {
                let e = self.running.remove(i);
                let flag = match to {
                    Some(v) => v,
                    None => !e.paused,
                };
                self.running.push(
                    SceneEntry { id: e.id, behavior: e.behavior, state: e.state, paused: flag },
                );
            },
        }
    }

    /// Pause the first matching animation of the sprite.
    pub fn pause(&mut self, sprite_id: u64, animation: &B)
        requires
            old(self).wf(),
        ensures
            final(self).wf(),
            final(self).tree() == old(self).tree(),
            final(self).deads() == old(self).deads(),
            B::obeys_eq_spec() ==> match find_entry(old(self).reg(), sprite_id, *animation) {
                None => final(self).reg() == old(self).reg(),
                Some(i) => final(self).reg() == old(self).reg().remove(i).push(
                    (SceneEntry { paused: true, ..old(self).reg()[i] }),
                ),
            },
    {
        self.set_paused(sprite_id, animation, Some(true))
    }

    /// Resume the first matching animation of the sprite.
    pub fn resume(&mut self, sprite_id: u64, animation: &B)
        requires
            old(self).wf(),
        ensures
            final(self).wf(),
            final(self).tree() == old(self).tree(),
            final(self).deads() == old(self).deads(),
            B::obeys_eq_spec() ==> match find_entry(old(self).reg(), sprite_id, *animation) {
                None => final(self).reg() == old(self).reg(),
                Some(i) => final(self).reg() == old(self).reg().remove(i).push(
                    (SceneEntry { paused: false, ..old(self).reg()[i] }),
                ),
            },
    {
        self.set_paused(sprite_id, animation, Some(false))
    }

    /// Toggle the paused flag of the first matching animation of the
    /// sprite.
    pub fn toggle(&mut self, sprite_id: u64, animation: &B)
        requires
            old(self).wf(),
        ensures
            final(self).wf(),
            final(self).tree() == old(self).tree(),
            final(self).deads() == old(self).deads(),
            B::obeys_eq_spec() ==> match find_entry(old(self).reg(), sprite_id, *animation) {
                None => final(self).reg() == old(self).reg(),
                Some(i) => final(self).reg() == old(self).reg().remove(i).push(
                    (SceneEntry { paused: !old(self).reg()[i].paused, ..old(self).reg()[i] }),
                ),
            },
    {
        self.set_paused(sprite_id, animation, None)
    }

    /// Stop the first matching animation of the sprite outright.
    pub fn stop(&mut self, sprite_id: u64, animation: &B)
        requires
            old(self).wf(),
        ensures
            final(self).wf(),
            final(self).tree() == old(self).tree(),
            final(self).deads() == old(self).deads(),
            B::obeys_eq_spec() ==> match find_entry(old(self).reg(), sprite_id, *animation) {
                None => final(self).reg() == old(self).reg(),
                Some(i) => final(self).reg() == old(self).reg().remove(i),
            },
    {
        proof {
            if B::obeys_eq_spec() {
                lemma_find_entry_props(self.reg(), sprite_id, *animation);
            }
        }
        match self.find(sprite_id, animation) {
            None => {},
            Some(i) => {
                self.running.remove(i);
            },
        }
    }
}

/// What one tick leaves behind, before pruning: the tree after every driven
/// entry wrote its properties back, and the entries that stay registered.
pub struct FoldOut<B, S> {
    pub tree: Seq<SpriteView>,
    pub kept: Seq<SceneEntry<B, S>>,
}

/// Replay of the registry walk of one tick: entries are taken in order;
/// paused ones are kept untouched; entries whose sprite has vanished are
/// dropped; every other entry writes the evaluator's properties back into
/// its sprite and stays exactly when the evaluator reported `Running`.
pub open spec fn event_fold<B, S>(
    tree0: Seq<SpriteView>,
    entries: Seq<SceneEntry<B, S>>,
    outs: Seq<TickOutcome<S>>,
) -> FoldOut<B, S>
    decreases entries.len(),
{
    if entries.len() == 0 {
        FoldOut { tree: tree0, kept: Seq::empty() }
    } else {
        let prev = event_fold(tree0, entries.drop_last(), outs.drop_last());
        let e = entries.last();
        if e.paused {
            FoldOut { tree: prev.tree, kept: prev.kept.push(e) }
        } else {
            match seek(prev.tree, e.id) {
                None => prev,
                Some(sub) => {
                    let o = outs.last();
                    FoldOut {
                        tree: plant(prev.tree, e.id, (SpriteView { props: o.props@, ..sub })),
                        kept: if o.status is Running {
                            prev.kept.push((SceneEntry { state: o.state, ..e }))
                        } else {
                            prev.kept
                        },
                    }
                },
            }
        }
    }
}

/// The outcomes conform to the evaluator: each driven entry's outcome is a
/// possible result of calling the evaluator on the sprite's properties at
/// that point of the walk, the entry's behavior and state, and the step.
pub open spec fn drive_ok<B, S, F: Fn(SpriteProps, &B, Option<S>, i64) -> (
    SpriteProps,
    Option<S>,
    Status,
)>(
    drive: F,
    tree0: Seq<SpriteView>,
    entries: Seq<SceneEntry<B, S>>,
    outs: Seq<TickOutcome<S>>,
    dt: i64,
) -> bool
    decreases entries.len(),
{
    &&& outs.len() == entries.len()
    &&& (entries.len() > 0 ==> {
        let prev = event_fold(tree0, entries.drop_last(), outs.drop_last());
        let e = entries.last();
        &&& drive_ok(drive, tree0, entries.drop_last(), outs.drop_last(), dt)
        &&& (!e.paused ==> match seek(prev.tree, e.id) {
            None => true,
            Some(sub) => exists|pv: SpriteProps|
                pv@ == sub.props && call_ensures(
                    drive,
                    (pv, &e.behavior, e.state, dt),
                    (outs.last().props, outs.last().state, outs.last().status),
                ),
        })
    })
}

/// What pruning leaves behind.
pub struct PruneOut<B, S> {
    pub tree: Seq<SpriteView>,
    pub reg: Seq<SceneEntry<B, S>>,
    pub deads: Seq<u64>,
}

/// Remove each due sprite in order, stopping the registrations of its
/// whole subtree; ids whose sprite has meanwhile vanished change nothing.
pub open spec fn prune_removals<B, S>(
    tree: Seq<SpriteView>,
    reg: Seq<SceneEntry<B, S>>,
    due: Seq<u64>,
) -> FoldOut<B, S>
    decreases due.len(),
{
    if due.len() == 0 {
        FoldOut { tree, kept: reg }
    } else {
        let x = due[0];
        match seek(tree, x) {
            Some(v) => prune_removals(
                yank(tree, x),
                reg.filter(|e: SceneEntry<B, S>| !node_ids(v).contains(e.id)),
                due.skip(1),
            ),
            None => prune_removals(tree, reg, due.skip(1)),
        }
    }
}

/// Pruning after a tick: ids marked for deferred removal whose animation
/// count is now zero are removed from the tree (taking their subtrees'
/// registrations along) if their sprite still exists, and are dropped from
/// the marks either way; ids that still animate stay marked.
pub open spec fn spec_prune<B, S>(
    tree: Seq<SpriteView>,
    reg: Seq<SceneEntry<B, S>>,
    deads: Seq<u64>,
) -> PruneOut<B, S> {
    let due = deads.filter(|x: u64| count_for(reg, x) == 0 && seek(tree, x) is Some);
    let remaining = deads.filter(|x: u64| count_for(reg, x) > 0);
    let tr = prune_removals(tree, reg, due);
    PruneOut { tree: tr.tree, reg: tr.kept, deads: remaining }
}

impl<T, B, S> Scene<T, B, S> {
    /// Evict every sprite marked for deferred removal whose animation count
    /// has reached zero; marks for sprites that still animate stay, marks
    /// whose sprite has vanished are dropped.
    fn prune_dead_sprites(&mut self)
        requires
            old(self).wf(),
        ensures
            final(self).wf(),
            ({
                let p = spec_prune(old(self).tree(), old(self).reg(), old(self).deads());
                &&& final(self).tree() == p.tree
                &&& final(self).reg() == p.reg
                &&& final(self).deads() == p.deads
            }),
    {
        let ghost otree = self.tree();
        let ghost oreg = self.reg();
        let ghost odead = self.dead@;
        let ghost duep = |x: u64| count_for(oreg, x) == 0 && seek(otree, x) is Some;
        let ghost remp = |x: u64| count_for(oreg, x) > 0;
        let mut src: Vec<u64> = Vec::new();
        core::mem::swap(&mut src, &mut self.dead);
        let mut due: Vec<u64> = Vec::new();
        let mut remaining: Vec<u64> = Vec::new();
        let ghost mut k: int = 0;
        while src.len() > 0
            invariant
                old(self).wf(),
                self.wf(),
                self.tree() == otree,
                self.reg() == oreg,
                self.children@ == old(self).children@,
                self.children_index@ == old(self).children_index@,
                self.running@ == old(self).running@,
                0 <= k <= odead.len(),
                src@ == odead.skip(k),
                due@ == odead.take(k).filter(duep),
                remaining@ == odead.take(k).filter(remp),
                duep == (|x: u64| count_for(oreg, x) == 0 && seek(otree, x) is Some),
                remp == (|x: u64| count_for(oreg, x) > 0),
            decreases src.len(),
        {
            proof {
                assert(odead.skip(k)[0] == odead[k]);
            }
            let x = src.remove(0);
            proof {
                assert(src@ =~= odead.skip(k + 1));
                odead.lemma_take_succ_push(k);
                odead.take(k).lemma_filter_push(odead[k], duep);
                odead.take(k).lemma_filter_push(odead[k], remp);
            }
            let n = self.count_entries(x);
            if n > 0 {
                remaining.push(x);
            } else {
                let present = self.child(x).is_some();
                if present {
                    due.push(x);
                }
            }
            proof {
                k = k + 1;
            }
        }
        proof {
            assert(k == odead.len());
            odead.lemma_take_len();
            lemma_filter_distinct(odead, remp);
        }
        self.dead = remaining;
        let ghost duefull = odead.filter(duep);
        let ghost remfull = odead.filter(remp);
        let mut dsrc = due;
        let ghost mut m: int = 0;
        while dsrc.len() > 0
            invariant
                self.wf(),
                self.deads() == remfull,
                0 <= m <= duefull.len(),
                dsrc@ == duefull.skip(m),
                prune_removals(self.tree(), self.reg(), duefull.skip(m)) == prune_removals(
                    otree,
                    oreg,
                    duefull,
                ),
                duep == (|x: u64| count_for(oreg, x) == 0 && seek(otree, x) is Some),
                remp == (|x: u64| count_for(oreg, x) > 0),
                duefull == odead.filter(duep),
                remfull == odead.filter(remp),
            decreases dsrc.len(),
        {
            proof {
                assert(duefull.skip(m)[0] == duefull[m]);
            }
            let x = dsrc.remove(0);
            proof {
                assert(dsrc@ =~= duefull.skip(m + 1));
                odead.lemma_filter_pred(duep, m);
                assert(!remfull.contains(x)) by {
                    if remfull.contains(x) {
                        let w = choose|w: int| 0 <= w < remfull.len() && remfull[w] == x;
                        odead.lemma_filter_pred(remp, w);
                    }
                }
            }
            let present = self.child(x).is_some();
            if present {
                let ghost pre_tree = self.tree();
                let ghost pre_reg = self.reg();
                let removed = self.remove_child(x);
                proof {
                    let c = removed->0;
                    let v = seek(pre_tree, x)->0;
                    assert(c@ == v);
                    assert((|e: SceneEntry<B, S>| !node_ids(c@).contains(e.id)) =~= (
                    |e: SceneEntry<B, S>| !node_ids(v).contains(e.id)));
                    lemma_filter_absent(remfull, x);
                }
            }
            proof {
                m = m + 1;
            }
        }
        proof {
            assert(m == duefull.len());
            assert(duefull.skip(m).len() == 0);
        }
    }

    /// Advance every animation by `dt` ticks.  Each entry that is not
    /// paused is handed, together with its sprite's current properties, to
    /// the external behavior evaluator `drive`; the properties it returns
    /// are written back, and the entry stays registered exactly when the
    /// evaluator reports `Running`.  Paused entries are withheld from the
    /// evaluator and kept untouched, so a paused animation freezes its
    /// sprite's properties and its own progress.  Entries whose sprite has
    /// left the tree are dropped.  Deferred removals are then pruned.
    pub fn event<F: Fn(SpriteProps, &B, Option<S>, i64) -> (SpriteProps, Option<S>, Status)>(
        &mut self,
        dt: i64,
        drive: &F,
    )
        requires
            old(self).wf(),
            0 <= dt <= TIME_LIMIT,
            forall|args: (SpriteProps, &B, Option<S>, i64)| #[trigger] call_requires(*drive, args),
        ensures
            final(self).wf(),
            exists|outs: Seq<TickOutcome<S>>|
                {
                    &&& #[trigger] drive_ok(*drive, old(self).tree(), old(self).reg(), outs, dt)
                    &&& ({
                        let f = event_fold(old(self).tree(), old(self).reg(), outs);
                        let p = spec_prune(f.tree, f.kept, old(self).deads());
                        &&& final(self).tree() == p.tree
                        &&& final(self).reg() == p.reg
                        &&& final(self).deads() == p.deads
                    })
                },
    {
        let ghost otree = self.tree();
        let ghost oreg = self.reg();
        let mut src: Vec<SceneEntry<B, S>> = Vec::new();
        core::mem::swap(&mut src, &mut self.running);
        let mut kept: Vec<SceneEntry<B, S>> = Vec::new();
        let ghost mut log: Seq<TickOutcome<S>> = Seq::empty();
        let ghost mut i: int = 0;
        while src.len() > 0
            invariant
                self.wf(),
                0 <= dt <= TIME_LIMIT,
                forall|args: (SpriteProps, &B, Option<S>, i64)| #[trigger] call_requires(
                    *drive,
                    args,
                ),
                0 <= i <= oreg.len(),
                src@ == oreg.skip(i),
                log.len() == i,
                drive_ok(*drive, otree, oreg.take(i), log, dt),
                ({
                    let f = event_fold(otree, oreg.take(i), log);
                    f.tree == self.tree() && f.kept == kept@
                }),
                self.deads() == old(self).deads(),
            decreases src.len(),
        {
            proof {
                assert(oreg.skip(i)[0] == oreg[i]);
            }
            let ghost pre_tree = self.tree();
            let ghost pre_kept = kept@;
            let ghost prev_log = log;
            let e = src.remove(0);
            let ghost ge = e;
            proof {
                assert(src@ =~= oreg.skip(i + 1));
                oreg.lemma_take_succ_push(i);
                assert(oreg.take(i + 1).drop_last() =~= oreg.take(i));
                assert(oreg.take(i + 1).last() == oreg[i]);
            }
            if e.paused {
                kept.push(e);
                proof {
                    log = log.push(
                        TickOutcome {
                            props: vstd::pervasive::arbitrary(),
                            state: None,
                            status: Status::Running,
                        },
                    );
                    assert(log.drop_last() =~= prev_log);
                    let f = event_fold(otree, oreg.take(i + 1), log);
                    assert(f.tree == pre_tree);
                    assert(f.kept == pre_kept.push(ge));
                    assert(kept@ == pre_kept.push(ge));
                }
            } else {
                let SceneEntry { id: eid, behavior: beh, state: est, paused: _ } = e;
                let found = self.child_mut(eid);
                match found {
                    None => {
                        proof {
                            log = log.push(
                                TickOutcome {
                                    props: vstd::pervasive::arbitrary(),
                                    state: None,
                                    status: Status::Running,
                                },
                            );
                            assert(log.drop_last() =~= prev_log);
                            let f = event_fold(otree, oreg.take(i + 1), log);
                            assert(seek(pre_tree, ge.id) is None);
                            assert(f.tree == pre_tree);
                            assert(f.kept == pre_kept);
                        }
                    },
                    Some(m) => {
                        let p = m.props();
                        let (p2, s2, st) = drive(p, &beh, est, dt);
                        let ghost o = TickOutcome { props: p2, state: s2, status: st };
                        m.set_props(p2);
                        if st == Status::Running {
                            kept.push(
                                SceneEntry { id: eid, behavior: beh, state: s2, paused: false },
                            );
                        }
                        proof {
                            log = log.push(o);
                            assert(log.drop_last() =~= prev_log);
                            crate::sprite::lemma_seek_id(pre_tree, ge.id);
                            let sub = seek(pre_tree, ge.id)->0;
                            assert(sub.id == ge.id);
                            assert(p@ == sub.props);
                            assert(call_ensures(*drive, (p, &ge.behavior, ge.state, dt), (p2, s2, st)));
                            let f = event_fold(otree, oreg.take(i + 1), log);
                            assert(self.tree() == plant(pre_tree, ge.id, (SpriteView {
                                props: o.props@,
                                ..sub
                            })));
                            assert(f.tree == self.tree());
                            if o.status is Running {
                                assert((SceneEntry { state: o.state, ..ge }) == (SceneEntry {
                                    id: eid,
                                    behavior: beh,
                                    state: s2,
                                    paused: false,
                                }));
                                assert(f.kept == pre_kept.push((SceneEntry { state: o.state, ..ge })));
                                assert(kept@ == pre_kept.push((SceneEntry {
                                    id: eid,
                                    behavior: beh,
                                    state: s2,
                                    paused: false,
                                })));
                            } else {
                                assert(f.kept == pre_kept);
                            }
                        }
                    },
                }
            }
            proof {
                assert(drive_ok(*drive, otree, oreg.take(i + 1), log, dt));
                i = i + 1;
            }
        }
        proof {
            assert(i == oreg.len());
            oreg.lemma_take_len();
        }
        self.running = kept;
        self.prune_dead_sprites();
        proof {
            assert(drive_ok(*drive, otree, oreg, log, dt));
        }
    }
}

/// Pausing freezes a sprite: when every registry entry animating `id` is
/// paused, a whole tick's walk leaves that sprite's properties exactly as
/// they were, whatever the evaluator returns for the other entries — and
/// the paused entries themselves are carried over untouched, so the next
/// tick resumes from the same point.
pub proof fn lemma_paused_sprite_frozen<B, S>(
    tree0: Seq<SpriteView>,
    entries: Seq<SceneEntry<B, S>>,
    outs: Seq<TickOutcome<S>>,
    id: u64,
)
    requires
        forall|k: int|
            0 <= k < entries.len() && (#[trigger] entries[k]).id == id ==> entries[k].paused,
    ensures
        crate::sprite::props_agree(
            seek(event_fold(tree0, entries, outs).tree, id),
            seek(tree0, id),
        ),
    decreases entries.len(),
{
    if entries.len() > 0 {
        assert forall|k: int|
            0 <= k < entries.drop_last().len() && (#[trigger] entries.drop_last()[k]).id
            == id implies entries.drop_last()[k].paused by {
            assert(entries.drop_last()[k] == entries[k]);
        }
        lemma_paused_sprite_frozen(tree0, entries.drop_last(), outs.drop_last(), id);
        let prev = event_fold(tree0, entries.drop_last(), outs.drop_last());
        let e = entries.last();
        if !e.paused {
            assert(entries[entries.len() - 1] == e);
            assert(e.id != id);
            match seek(prev.tree, e.id) {
                Option::None => {},
                Option::Some(sub) => {
                    let o = outs.last();
                    crate::sprite::lemma_seek_id(prev.tree, e.id);
                    crate::sprite::lemma_plant_props_only(
                        prev.tree,
                        e.id,
                        (SpriteView { props: o.props@, ..sub }),
                        id,
                    );
                },
            }
        }
    }
}

/// Filtering by a predicate that holds everywhere changes nothing.
proof fn lemma_filter_absent(s: Seq<u64>, x: u64)
    requires
        !s.contains(x),
    ensures
        s.filter(|y: u64| y != x) == s,
    decreases s.len(),
{
    reveal(Seq::filter);
    broadcast use vstd::seq_lib::group_seq_properties;

    if s.len() > 0 {
        assert(!s.drop_last().contains(x)) by {
            if s.drop_last().contains(x) {
                let w = choose|w: int| 0 <= w < s.drop_last().len() && s.drop_last()[w] == x;
                assert(s[w] == x);
            }
        }
        lemma_filter_absent(s.drop_last(), x);
        assert(s.last() != x) by {
            assert(s[s.len() - 1] == s.last());
        }
        assert(s.filter(|y: u64| y != x) =~= s);
    }
}

/// Every element of a filtered sequence occurs in the unfiltered one.
proof fn lemma_filter_element_of(s: Seq<u64>, p: spec_fn(u64) -> bool, i: int)
    requires
        0 <= i < s.filter(p).len(),
    ensures
        s.contains(s.filter(p)[i]),
    decreases s.len(),
{
    reveal(Seq::filter);
    broadcast use vstd::seq_lib::group_seq_properties;

    if s.len() > 0 {
        let sub = s.drop_last();
        if p(s.last()) && i == s.filter(p).len() - 1 {
            assert(s.filter(p)[i] == s.last());
            assert(s[s.len() - 1] == s.last());
        } else {
            lemma_filter_element_of(sub, p, i);
            let x = sub.filter(p)[i];
            let w = choose|w: int| 0 <= w < sub.len() && sub[w] == x;
            assert(s[w] == x);
        }
    }
}

} // verus!
