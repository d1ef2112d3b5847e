//! The scene: a store of objects, linked into trees.
//!
//! Objects live in an arena and are named by their position in it. A link
//! between parent and child is a pair of positions and owns nothing.
use vstd::prelude::*;
use crate::matrix::Matrix4;
use crate::tables::{MaterialHandle, MeshHandle};

verus! {

/// Names an object of a scene: its position in the order of creation.
#[derive(Clone, Copy, Debug, PartialEq, Eq, Hash, Structural)]
pub struct ObjectId(pub usize);

/// What makes an object drawable: one mesh, wearing one material.
#[derive(Clone, Copy, Debug, PartialEq, Eq, Structural)]
pub struct Renderable {
    pub mesh: MeshHandle,
    pub material: MaterialHandle,
}

/// An object of a scene.
#[derive(Debug)]
pub struct Object {
    pub name: Option<String>,
    /// The local matrix, column by column. An object without one stands
    /// where its parent stands.
    pub local: Option<Matrix4>,
    pub renderable: Option<Renderable>,
    pub parent: Option<ObjectId>,
    /// The children, in the order in which they were attached.
    pub children: Vec<ObjectId>,
}

/// The mathematical value of an [`Object`].
pub struct ObjectModel {
    pub name: Option<Seq<char>>,
    pub local: Option<Seq<u32>>,
    pub renderable: Option<Renderable>,
    pub parent: Option<ObjectId>,
    pub children: Seq<ObjectId>,
}

impl View for Object {
    type V = ObjectModel;

    open spec fn view(&self) -> ObjectModel {
        ObjectModel {
            name: match self.name {
                Some(s) => Some(s@),
                None => None,
            },
            local: match self.local {
                Some(m) => Some(m@),
                None => None,
            },
            renderable: self.renderable,
            parent: self.parent,
            children: self.children@,
        }
    }
}

/// A new object as a scene first holds it: without renderable and links.
pub open spec fn fresh(name: Option<Seq<char>>, local: Option<Seq<u32>>) -> ObjectModel {
    ObjectModel { name, local, renderable: None, parent: None, children: Seq::empty() }
}

/// Whether `id` names an object among `objs`.
pub open spec fn holds(objs: Seq<ObjectModel>, id: ObjectId) -> bool {
    (id.0 as int) < objs.len()
}

/// Parent and child links agree: a child is listed once, by the object that
/// it names as its parent, and by no other. (The objects are few enough to be
/// named.)
pub open spec fn links_agree(objs: Seq<ObjectModel>) -> bool {
    &&& objs.len() <= usize::MAX
    &&& forall|i: int|
        0 <= i < objs.len() ==> match (#[trigger] objs[i]).parent {
            Some(p) => holds(objs, p) && objs[p.0 as int].children.contains(ObjectId(i as usize)),
            None => true,
        }
    &&& forall|p: int, k: int|
        0 <= p < objs.len() && 0 <= k < objs[p].children.len() ==> {
            let c = #[trigger] objs[p].children[k];
            holds(objs, c) && objs[c.0 as int].parent == Some(ObjectId(p as usize))
        }
    &&& forall|p: int| 0 <= p < objs.len() ==> (#[trigger] objs[p]).children.no_duplicates()
}

/// Whether going from `from` to parent and parent's parent reaches `target`
/// within `steps` steps.
pub open spec fn climbs_to(objs: Seq<ObjectModel>, from: ObjectId, target: ObjectId, steps: nat) -> bool
    decreases steps,
{
    from == target || (steps > 0 && holds(objs, from) && match objs[from.0 as int].parent {
        Some(p) => climbs_to(objs, p, target, (steps - 1) as nat),
        None => false,
    })
}

/// Whether `id` is `root` or stands below it.
pub open spec fn in_subtree(objs: Seq<ObjectModel>, id: ObjectId, root: ObjectId) -> bool {
    exists|steps: nat| climbs_to(objs, id, root, steps)
}

/// Where `v` stands in `s`, which holds it.
pub open spec fn position_of(s: Seq<ObjectId>, v: ObjectId) -> int {
    choose|k: int| 0 <= k < s.len() && s[k] == v
}

/// The objects with `child` taken from under its parent, if it has one.
pub open spec fn detached(objs: Seq<ObjectModel>, child: ObjectId) -> Seq<ObjectModel> {
    match objs[child.0 as int].parent {
        Some(q) => {
            let siblings = objs[q.0 as int].children;
            objs.update(
                q.0 as int,
                (ObjectModel {
                    children: siblings.remove(position_of(siblings, child)),
                    ..objs[q.0 as int]
                }),
            ).update(child.0 as int, (ObjectModel { parent: None, ..objs[child.0 as int] }))
        },
        None => objs,
    }
}

/// The objects with `child`, which has no parent, put under `parent` as its
/// last child.
pub open spec fn attached(objs: Seq<ObjectModel>, child: ObjectId, parent: ObjectId) -> Seq<
    ObjectModel,
> {
    objs.update(
        parent.0 as int,
        (ObjectModel {
            children: objs[parent.0 as int].children.push(child),
            ..objs[parent.0 as int]
        }),
    ).update(child.0 as int, (ObjectModel { parent: Some(parent), ..objs[child.0 as int] }))
}

/// The objects with `child` moved under `parent`: taken from under its old
/// parent first, then made the last child of the new one.
pub open spec fn reparented(objs: Seq<ObjectModel>, child: ObjectId, parent: ObjectId) -> Seq<
    ObjectModel,
> {
    attached(detached(objs, child), child, parent)
}

/// Whether `child` can be moved under `parent`: both are objects, and
/// `parent` is neither `child` nor below it.
pub open spec fn can_reparent(objs: Seq<ObjectModel>, child: ObjectId, parent: ObjectId) -> bool {
    holds(objs, child) && holds(objs, parent) && !in_subtree(objs, parent, child)
}

/// What an object adds to the matrices of its ancestors: its local matrix,
/// or nothing where it has none.
pub open spec fn local_step(object: ObjectModel) -> Seq<Seq<u32>> {
    match object.local {
        Some(m) => seq![m],
        None => Seq::empty(),
    }
}

/// A scene: its objects in the order of creation.
pub struct Scene {
    objects: Vec<Object>,
    /// A number for each object that is larger than its parent's: no object
    /// is its own ancestor.
    rank: Ghost<Seq<nat>>,
}

impl View for Scene {
    type V = Seq<ObjectModel>;

    closed spec fn view(&self) -> Seq<ObjectModel> {
        self.objects@.map_values(|o: Object| o@)
    }
}

impl Scene {
    /// Whether the ranks witness that the links form no cycle.
    pub closed spec fn ranked(&self) -> bool {
        &&& self.rank@.len() == self.objects@.len()
        &&& forall|i: int|
            0 <= i < self.objects@.len() ==> match (#[trigger] self.objects@[i]).parent {
                Some(p) => (p.0 as int) < self.objects@.len() && self.rank@[p.0 as int]
                    < self.rank@[i],
                None => true,
            }
    }

    /// The scene's invariant: its objects form trees.
    pub open spec fn wf(&self) -> bool {
        links_agree(self@) && self.ranked()
    }

    /// The scene without objects.
    pub fn new() -> (scene: Scene)
        ensures
            scene.wf(),
            scene@.len() == 0,
    {
        Scene { objects: Vec::new(), rank: Ghost(Seq::empty()) }
    }

    /// The number of objects.
    pub fn len(&self) -> (n: usize)
        ensures
            n == self@.len(),
    {
        self.objects.len()
    }

    /// The object that `id` names, if the scene holds it.
    pub fn object(&self, id: ObjectId) -> (found: Option<&Object>)
        ensures
            holds(self@, id) <==> found is Some,
            found matches Some(o) ==> o@ == self@[id.0 as int],
    {
        if id.0 < self.objects.len() {
            Some(&self.objects[id.0])
        } else {
            None
        }
    }

    /// Creates an object without renderable, parent and children, and
    /// returns its name in the scene.
    pub fn create_object(&mut self, name: Option<String>, local: Option<Matrix4>) -> (id: ObjectId)
        requires
            old(self).wf(),
        ensures
            final(self).wf(),
            id.0 == old(self)@.len(),
            final(self)@ == old(self)@.push(
                fresh(
                    match name {
                        Some(s) => Some(s@),
                        None => None,
                    },
                    match local {
                        Some(m) => Some(m@),
                        None => None,
                    },
                ),
            ),
    {
        let id = ObjectId(self.objects.len());
        let object = Object { name, local, renderable: None, parent: None, children: Vec::new() };
        self.objects.push(object);
        let _ = self.objects.len();
        proof {
            self.rank@ = self.rank@.push(0nat);
            assert(self@ =~= old(self)@.push(object@));
            assert(forall|i: int| 0 <= i < old(self)@.len() ==> self@[i] == old(self)@[i]);
        }
        id
    }

    /// Gives the object `id` the renderable `renderable`, in place of the one
    /// it had, if any. Without effect where the scene holds no such object.
    pub fn attach(&mut self, id: ObjectId, renderable: Renderable) -> (done: bool)
        requires
            old(self).wf(),
        ensures
            final(self).wf(),
            done == holds(old(self)@, id),
            done ==> final(self)@ == old(self)@.update(
                id.0 as int,
                (ObjectModel { renderable: Some(renderable), ..old(self)@[id.0 as int] }),
            ),
            !done ==> final(self)@ == old(self)@,
    {
        if id.0 >= self.objects.len() {
            return false;
        }
        self.objects[id.0].renderable = Some(renderable);
        proof {
            assert(self@ =~= old(self)@.update(
                id.0 as int,
                (ObjectModel { renderable: Some(renderable), ..old(self)@[id.0 as int] }),
            ));
            Self::lemma_same_links(old(self)@, self@);
        }
        true
    }

    /// Whether `id` is `root` or stands below it.
    pub fn is_within(&self, id: ObjectId, root: ObjectId) -> (within: bool)
        requires
            self.wf(),
        ensures
            within == in_subtree(self@, id, root),
    {
        let mut cur = id;
        loop
            invariant
                self.wf(),
                in_subtree(self@, id, root) == in_subtree(self@, cur, root),
            decreases
                (if holds(self@, cur) { self.rank@[cur.0 as int] + 1 } else { 0 }),
        {
            if cur == root {
                assert(climbs_to(self@, cur, root, 0));
                return true;
            }
            if cur.0 >= self.objects.len() {
                assert forall|steps: nat| !climbs_to(self@, cur, root, steps) by {}
                return false;
            }
            match self.objects[cur.0].parent {
                None => {
                    assert forall|steps: nat| !climbs_to(self@, cur, root, steps) by {}
                    return false;
                },
                Some(p) => {
                    proof {
                        let objs = self@;
                        assert(objs[cur.0 as int].parent == Some(p));
                        assert(self.objects@[cur.0 as int].parent == Some(p));
                        if in_subtree(objs, cur, root) {
                            let steps = choose|steps: nat| climbs_to(objs, cur, root, steps);
                            assert(climbs_to(objs, p, root, (steps - 1) as nat));
                        }
                        if in_subtree(objs, p, root) {
                            let steps = choose|steps: nat| climbs_to(objs, p, root, steps);
                            assert(climbs_to(objs, cur, root, steps + 1));
                        }
                    }
                    cur = p;
                },
            }
        }
    }

    /// A number that falls from each object to its parent.
    pub closed spec fn measure(&self, id: ObjectId) -> nat {
        if self.ranked() && (id.0 as int) < self.objects@.len() {
            self.rank@[id.0 as int] + 1
        } else {
            0
        }
    }

    /// The local matrices that place the object `id` in the world: those of
    /// its ancestors from the root down, then its own. The world matrix is
    /// their product in this order, so it follows every later change of an
    /// ancestor. Empty where the scene holds no such object.
    pub closed spec fn world_chain(&self, id: ObjectId) -> Seq<Seq<u32>>
        decreases self.measure(id),
    {
        if self.ranked() && (id.0 as int) < self.objects@.len() {
            let object = self.objects@[id.0 as int];
            match object.parent {
                Some(p) => self.world_chain(p) + local_step(object@),
                None => local_step(object@),
            }
        } else {
            Seq::empty()
        }
    }

    /// The world chain of an object is that of its parent, if it has one,
    /// followed by its own local matrix, if it has one.
    pub proof fn lemma_world_chain(&self, id: ObjectId)
        requires
            self.wf(),
            holds(self@, id),
        ensures
            self.world_chain(id) == match self@[id.0 as int].parent {
                Some(p) => self.world_chain(p) + local_step(self@[id.0 as int]),
                None => local_step(self@[id.0 as int]),
            },
    {
    }

    /// The world chain is a matter of the objects alone: scenes that hold
    /// the same objects place each of them alike.
    pub proof fn lemma_world_chain_by_view(&self, other: Scene, id: ObjectId)
        requires
            self.wf(),
            other.wf(),
            self@ == other@,
        ensures
            self.world_chain(id) == other.world_chain(id),
        decreases self.measure(id),
    {
        if holds(self@, id) {
            self.lemma_world_chain(id);
            other.lemma_world_chain(id);
            match self@[id.0 as int].parent {
                Some(p) => {
                    assert(self.objects@[id.0 as int].parent == Some(p));
                    self.lemma_world_chain_by_view(other, p);
                },
                None => {},
            }
        }
    }

    /// Of an object that the scene does not hold, the world chain is empty.
    pub proof fn lemma_world_chain_of_none(&self, id: ObjectId)
        requires
            !holds(self@, id),
        ensures
            self.world_chain(id) == Seq::<Seq<u32>>::empty(),
    {
    }

    /// An object without a local matrix stands where its parent stands,
    /// wherever the parent is and whenever it moves.
    pub proof fn lemma_inherits_parent_world(&self, id: ObjectId, parent: ObjectId)
        requires
            self.wf(),
            holds(self@, id),
            self@[id.0 as int].parent == Some(parent),
            self@[id.0 as int].local is None,
        ensures
            self.world_chain(id) == self.world_chain(parent),
    {
        self.lemma_world_chain(id);
        assert(self.world_chain(parent) + Seq::<Seq<u32>>::empty() =~= self.world_chain(parent));
    }

    /// Reads the local matrices that place the object `id` in the world,
    /// from the root down, as they are now.
    pub fn read_world_chain(&self, id: ObjectId) -> (chain: Vec<Matrix4>)
        requires
            self.wf(),
        ensures
            chain@.map_values(|m: Matrix4| m@) == self.world_chain(id),
    {
        let mut upward: Vec<Matrix4> = Vec::new();
        let mut chain: Vec<Matrix4> = Vec::new();
        if id.0 >= self.objects.len() {
            assert(chain@.map_values(|m: Matrix4| m@) =~= self.world_chain(id));
            return chain;
        }
        let ghost mut below: Seq<Seq<u32>> = Seq::empty();
        let mut cur = id;
        let mut at_root = false;
        assert(self.world_chain(id) + below =~= self.world_chain(id));
        while !at_root
            invariant
                self.wf(),
                holds(self@, cur),
                below.len() == upward@.len(),
                forall|i: int|
                    0 <= i < upward@.len() ==> (#[trigger] upward@[i])@ == below[below.len() - 1
                        - i],
                !at_root ==> self.world_chain(id) == self.world_chain(cur) + below,
                at_root ==> self.world_chain(id) == below,
            decreases self.measure(cur) + (if at_root { 0nat } else { 1nat }),
        {
            proof {
                self.lemma_world_chain(cur);
                let _ = self.objects@[cur.0 as int];
            }
            let ghost above = below;
            let object = &self.objects[cur.0];
            match object.local {
                Some(m) => {
                    upward.push(m);
                    proof {
                        below = seq![m@] + below;
                    }
                },
                None => {
                    proof {
                        below = Seq::<Seq<u32>>::empty() + below;
                    }
                },
            }
            assert(below =~= local_step(self@[cur.0 as int]) + above);
            match object.parent {
                Some(p) => {
                    assert(self.world_chain(id) =~= self.world_chain(p) + below);
                    cur = p;
                },
                None => {
                    assert(self.world_chain(id) =~= below);
                    at_root = true;
                },
            }
        }
        let n = upward.len();
        let mut i: usize = 0;
        while i < n
            invariant
                n == upward@.len(),
                n == below.len(),
                forall|i: int|
                    0 <= i < upward@.len() ==> (#[trigger] upward@[i])@ == below[below.len() - 1
                        - i],
                i <= n,
                chain@.len() == i,
                forall|j: int| 0 <= j < i ==> chain@[j] == upward@[n - 1 - j],
            decreases n - i,
        {
            chain.push(upward[n - 1 - i]);
            i = i + 1;
        }
        assert(chain@.map_values(|m: Matrix4| m@) =~= below);
        chain
    }

    /// Gives the object `id` the local matrix `local` in place of the one it
    /// has. Without effect where the scene holds no such object or the
    /// object has no local matrix: whether an object has one is settled when
    /// it is created.
    pub fn set_local(&mut self, id: ObjectId, local: Matrix4) -> (done: bool)
        requires
            old(self).wf(),
        ensures
            final(self).wf(),
            done == (holds(old(self)@, id) && old(self)@[id.0 as int].local is Some),
            done ==> final(self)@ == old(self)@.update(
                id.0 as int,
                (ObjectModel { local: Some(local@), ..old(self)@[id.0 as int] }),
            ),
            !done ==> final(self)@ == old(self)@,
    {
        if id.0 >= self.objects.len() {
            return false;
        }
        if self.objects[id.0].local.is_none() {
            return false;
        }
        self.objects[id.0].local = Some(local);
        proof {
            assert(self@ =~= old(self)@.update(
                id.0 as int,
                (ObjectModel { local: Some(local@), ..old(self)@[id.0 as int] }),
            ));
            Self::lemma_same_links(old(self)@, self@);
        }
        true
    }

    /// The first object, in the order of creation, whose name is `name`.
    pub fn find(&self, name: &String) -> (found: Option<ObjectId>)
        ensures
            match found {
                Some(id) => holds(self@, id) && self@[id.0 as int].name == Some(name@)
                    && forall|i: int| 0 <= i < id.0 ==> (#[trigger] self@[i]).name != Some(name@),
                None => forall|i: int|
                    0 <= i < self@.len() ==> (#[trigger] self@[i]).name != Some(name@),
            },
    {
        let mut i: usize = 0;
        while i < self.objects.len()
            invariant
                i <= self.objects.len(),
                forall|j: int| 0 <= j < i ==> (#[trigger] self@[j]).name != Some(name@),
            decreases self.objects.len() - i,
        {
            let matches = match &self.objects[i].name {
                Some(n) => *n == *name,
                None => false,
            };
            if matches {
                return Some(ObjectId(i));
            }
            i = i + 1;
        }
        None
    }

    /// Moving an object under the parent that it was just moved under is
    /// possible again and changes nothing: parent, order of the children and
    /// all else stay as the first move left them.
    pub proof fn lemma_set_parent_twice(&self, child: ObjectId, parent: ObjectId)
        requires
            self.wf(),
            can_reparent(self@, child, parent),
        ensures
            can_reparent(reparented(self@, child, parent), child, parent),
            reparented(reparented(self@, child, parent), child, parent) == reparented(
                self@,
                child,
                parent,
            ),
    {
        let objs = self@;
        let loose = detached(objs, child);
        let once = reparented(objs, child, parent);
        assert(child != parent) by {
            if child == parent {
                assert(climbs_to(objs, parent, child, 0));
            }
        }
        assert(objs[child.0 as int].parent != Some(child)) by {
            let _ = self.objects@[child.0 as int];
        }
        lemma_detached_links(objs, child);
        let siblings = loose[parent.0 as int].children;
        assert(!siblings.contains(child)) by {
            if siblings.contains(child) {
                let j = choose|j: int| 0 <= j < siblings.len() && siblings[j] == child;
                let _ = loose[parent.0 as int].children[j];
            }
        }
        let listed = once[parent.0 as int].children;
        assert(listed == siblings.push(child));
        assert(listed[siblings.len() as int] == child);
        let pos = position_of(listed, child);
        assert(pos == siblings.len()) by {
            if pos < siblings.len() {
                assert(siblings[pos] == child);
            }
        }
        assert(listed.remove(pos) =~= siblings);
        assert(detached(once, child) =~= loose);
        assert forall|steps: nat| !climbs_to(once, parent, child, steps) by {
            if climbs_to(once, parent, child, steps) {
                lemma_climb_before_move(objs, child, parent, parent, steps);
                assert(in_subtree(objs, parent, child));
            }
        }
    }

    /// Links are a matter of `parent` and `children` alone.
    proof fn lemma_same_links(a: Seq<ObjectModel>, b: Seq<ObjectModel>)
        requires
            links_agree(a),
            a.len() == b.len(),
            forall|i: int|
                0 <= i < a.len() ==> (#[trigger] a[i]).parent == b[i].parent && a[i].children
                    == b[i].children,
        ensures
            links_agree(b),
    {
        assert forall|i: int| 0 <= i < b.len() implies match (#[trigger] b[i]).parent {
            Some(p) => holds(b, p) && b[p.0 as int].children.contains(ObjectId(i as usize)),
            None => true,
        } by {
            let _ = a[i];
            match a[i].parent {
                Some(p) => {
                    let _ = a[p.0 as int];
                },
                None => {},
            }
        }
        assert forall|p: int, k: int| 0 <= p < b.len() && 0 <= k < b[p].children.len() implies {
            let c = #[trigger] b[p].children[k];
            holds(b, c) && b[c.0 as int].parent == Some(ObjectId(p as usize))
        } by {
            let c = a[p].children[k];
            let _ = a[c.0 as int];
        }
        assert forall|p: int| 0 <= p < b.len() implies (#[trigger] b[p]).children.no_duplicates() by {
            let _ = a[p];
        }
    }

    /// Moves `child` under `parent`. The child leaves the children of its old
    /// parent, if it had one, and becomes the last child of the new one; no
    /// local matrix changes. Refused, without effect, where the scene lacks
    /// one of the two or `parent` is `child` or below it.
    pub fn set_parent(&mut self, child: ObjectId, parent: ObjectId) -> (moved: bool)
        requires
            old(self).wf(),
        ensures
            final(self).wf(),
            moved == can_reparent(old(self)@, child, parent),
            moved ==> final(self)@ == reparented(old(self)@, child, parent),
            !moved ==> final(self)@ == old(self)@,
    {
        let n = self.objects.len();
        if child.0 >= n || parent.0 >= n {
            return false;
        }
        if self.is_within(parent, child) {
            return false;
        }
        let ghost before = self@;
        let ghost rank = self.rank@;
        assert(child != parent) by {
            if child == parent {
                assert(climbs_to(before, parent, child, 0));
            }
        }
        match self.objects[child.0].parent {
            Some(q) => {
                assert(before[child.0 as int].parent == Some(q));
                assert(q != child) by {
                    assert(self.objects@[child.0 as int].parent == Some(q));
                }
                assert(before[q.0 as int].children.contains(child));
                let ghost siblings = before[q.0 as int].children;
                let ghost w = choose|w: int| 0 <= w < siblings.len() && siblings[w] == child;
                let count = self.objects[q.0].children.len();
                assert(self.objects@[q.0 as int]@.children == siblings);
                let mut k: usize = 0;
                while self.objects[q.0].children[k] != child
                    invariant
                        self@ == before,
                        siblings.len() == count,
                        holds(before, q),
                        siblings == before[q.0 as int].children,
                        0 <= k <= w < siblings.len(),
                        siblings[w] == child,
                    decreases siblings.len() - k,
                {
                    assert(self.objects@[q.0 as int]@.children == siblings);
                    assert(siblings[k as int] != child);
                    k = k + 1;
                }
                assert(self@[q.0 as int].children == siblings);
                assert(k as int == position_of(siblings, child)) by {
                    let pos = position_of(siblings, child);
                    assert(siblings.no_duplicates());
                }
                self.objects[q.0].children.remove(k);
                self.objects[child.0].parent = None;
            },
            None => {},
        }
        assert(self@ =~= detached(before, child));
        self.objects[parent.0].children.push(child);
        self.objects[child.0].parent = Some(parent);
        assert(self@ =~= reparented(before, child, parent));
        proof {
            lemma_detached_links(before, child);
            lemma_attached_links(detached(before, child), child, parent);
            let step = rank[parent.0 as int] + 1;
            self.rank@ = Seq::new(
                rank.len(),
                |i: int|
                    if in_subtree(before, ObjectId(i as usize), child) {
                        rank[i] + step
                    } else {
                        rank[i]
                    },
            );
            assert forall|i: int| 0 <= i < self.objects@.len() implies match (
            #[trigger] self.objects@[i]).parent {
                Some(p) => (p.0 as int) < self.objects@.len() && self.rank@[p.0 as int]
                    < self.rank@[i],
                None => true,
            } by {
                let me = ObjectId(i as usize);
                match self.objects@[i].parent {
                    Some(p) => {
                        assert(self@[i].parent == Some(p));
                        if i == child.0 as int {
                            assert(p == parent);
                            assert(climbs_to(before, child, child, 0));
                        } else {
                            assert(before[i].parent == Some(p));
                            assert(old(self).objects@[i].parent == Some(p));
                            assert(ObjectId(p.0 as int as usize) == p);
                            if in_subtree(before, me, child) {
                                let steps = choose|steps: nat| climbs_to(before, me, child, steps);
                                assert(climbs_to(before, p, child, (steps - 1) as nat));
                            }
                            if in_subtree(before, p, child) {
                                let steps = choose|steps: nat| climbs_to(before, p, child, steps);
                                assert(climbs_to(before, me, child, steps + 1));
                            }
                        }
                    },
                    None => {},
                }
            }
        }
        true
    }
}

/// Taking a child from under its parent keeps the links in agreement.
pub proof fn lemma_detached_links(objs: Seq<ObjectModel>, child: ObjectId)
    requires
        links_agree(objs),
        holds(objs, child),
        objs[child.0 as int].parent != Some(child),
    ensures
        links_agree(detached(objs, child)),
        detached(objs, child).len() == objs.len(),
        detached(objs, child)[child.0 as int].parent is None,
{
    let out = detached(objs, child);
    match objs[child.0 as int].parent {
        Some(q) => {
            let siblings = objs[q.0 as int].children;
            assert(siblings.contains(child));
            let pos = position_of(siblings, child);
            let rest = siblings.remove(pos);
            assert(0 <= pos < siblings.len() && siblings[pos] == child);
            assert(out[q.0 as int].children == rest);
            assert(rest.no_duplicates()) by {
                assert(siblings.no_duplicates());
            }
            assert(!rest.contains(child)) by {
                if rest.contains(child) {
                    let j = choose|j: int| 0 <= j < rest.len() && rest[j] == child;
                    if j < pos {
                        assert(siblings[j] == child);
                    } else {
                        assert(siblings[j + 1] == child);
                    }
                }
            }
            assert forall|i: int| 0 <= i < out.len() implies match (#[trigger] out[i]).parent {
                Some(p) => holds(out, p) && out[p.0 as int].children.contains(ObjectId(i as usize)),
                None => true,
            } by {
                let me = ObjectId(i as usize);
                let _ = objs[i];
                if i != child.0 as int {
                    match objs[i].parent {
                        Some(p) => {
                            assert(objs[p.0 as int].children.contains(me));
                            if p == q {
                                let j = choose|j: int|
                                    0 <= j < siblings.len() && siblings[j] == me;
                                if j < pos {
                                    assert(rest[j] == me);
                                } else {
                                    assert(rest[j - 1] == me);
                                }
                            }
                        },
                        None => {},
                    }
                }
            }
            assert forall|p: int, k: int| 0 <= p < out.len() && 0 <= k < out[p].children.len() implies {
                let c = #[trigger] out[p].children[k];
                holds(out, c) && out[c.0 as int].parent == Some(ObjectId(p as usize))
            } by {
                if p == q.0 as int {
                    let c = rest[k];
                    if k < pos {
                        assert(c == siblings[k]);
                        let _ = objs[p].children[k];
                    } else {
                        assert(c == siblings[k + 1]);
                        let _ = objs[p].children[k + 1];
                    }
                    assert(rest.contains(c));
                } else {
                    let c = objs[p].children[k];
                    if c == child {
                        assert(objs[c.0 as int].parent == Some(ObjectId(p as usize)));
                    }
                }
            }
            assert forall|p: int| 0 <= p < out.len() implies (#[trigger] out[p]).children.no_duplicates() by {
                let _ = objs[p];
            }
        },
        None => {},
    }
}

/// Putting a parentless object under another that does not list it keeps the
/// links in agreement.
pub proof fn lemma_attached_links(objs: Seq<ObjectModel>, child: ObjectId, parent: ObjectId)
    requires
        links_agree(objs),
        holds(objs, child),
        holds(objs, parent),
        child != parent,
        objs[child.0 as int].parent is None,
    ensures
        links_agree(attached(objs, child, parent)),
{
    let out = attached(objs, child, parent);
    let siblings = objs[parent.0 as int].children;
    assert(!siblings.contains(child)) by {
        if siblings.contains(child) {
            let j = choose|j: int| 0 <= j < siblings.len() && siblings[j] == child;
            let _ = objs[parent.0 as int].children[j];
        }
    }
    assert(out[parent.0 as int].children == siblings.push(child));
    assert forall|i: int| 0 <= i < out.len() implies match (#[trigger] out[i]).parent {
        Some(p) => holds(out, p) && out[p.0 as int].children.contains(ObjectId(i as usize)),
        None => true,
    } by {
        let me = ObjectId(i as usize);
        let _ = objs[i];
        if i == child.0 as int {
            assert(siblings.push(child)[siblings.len() as int] == child);
        } else {
            match objs[i].parent {
                Some(p) => {
                    assert(objs[p.0 as int].children.contains(me));
                    if p == parent {
                        let j = choose|j: int| 0 <= j < siblings.len() && siblings[j] == me;
                        assert(siblings.push(child)[j] == me);
                    }
                },
                None => {},
            }
        }
    }
    assert forall|p: int, k: int| 0 <= p < out.len() && 0 <= k < out[p].children.len() implies {
        let c = #[trigger] out[p].children[k];
        holds(out, c) && out[c.0 as int].parent == Some(ObjectId(p as usize))
    } by {
        if p == parent.0 as int && k == siblings.len() {
        } else {
            let c = objs[p].children[k];
            if c == child {
                assert(objs[c.0 as int].parent == Some(ObjectId(p as usize)));
            }
        }
    }
    assert forall|p: int| 0 <= p < out.len() implies (#[trigger] out[p]).children.no_duplicates() by {
        let _ = objs[p];
    }
}


/// Moving an object that has no parent changes two objects: the new parent
/// lists it last, and it names the new parent.
pub proof fn lemma_reparent_orphan(objs: Seq<ObjectModel>, child: ObjectId, parent: ObjectId)
    requires
        holds(objs, child),
        holds(objs, parent),
        child != parent,
        objs[child.0 as int].parent is None,
    ensures
        reparented(objs, child, parent).len() == objs.len(),
        reparented(objs, child, parent)[parent.0 as int] == (ObjectModel {
            children: objs[parent.0 as int].children.push(child),
            ..objs[parent.0 as int]
        }),
        reparented(objs, child, parent)[child.0 as int] == (ObjectModel {
            parent: Some(parent),
            ..objs[child.0 as int]
        }),
        forall|i: int|
            0 <= i < objs.len() && i != child.0 && i != parent.0 ==> reparented(
                objs,
                child,
                parent,
            )[i] == objs[i],
{
    assert(detached(objs, child) == objs);
}

/// A climb to `child` after `child` was moved is a climb to it before the
/// move: no other object has changed its parent.
pub proof fn lemma_climb_before_move(
    objs: Seq<ObjectModel>,
    child: ObjectId,
    parent: ObjectId,
    from: ObjectId,
    steps: nat,
)
    requires
        links_agree(objs),
        holds(objs, child),
        holds(objs, parent),
        climbs_to(reparented(objs, child, parent), from, child, steps),
    ensures
        climbs_to(objs, from, child, steps),
    decreases steps,
{
    let once = reparented(objs, child, parent);
    let loose = detached(objs, child);
    assert(loose.len() == objs.len() && once.len() == objs.len()) by {
        let _ = objs[child.0 as int];
    }
    if from != child {
        assert(holds(once, from));
        assert(loose[from.0 as int].parent == objs[from.0 as int].parent);
        assert(once[from.0 as int].parent == objs[from.0 as int].parent);
        match once[from.0 as int].parent {
            Some(p) => {
                lemma_climb_before_move(objs, child, parent, p, (steps - 1) as nat);
            },
            None => {},
        }
    }
}

/// Moving an object changes links only: every object keeps its name, its
/// local matrix and its renderable.
pub proof fn lemma_reparent_keeps_matrices(objs: Seq<ObjectModel>, child: ObjectId, parent: ObjectId)
    requires
        links_agree(objs),
        holds(objs, child),
        holds(objs, parent),
    ensures
        reparented(objs, child, parent).len() == objs.len(),
        forall|i: int|
            0 <= i < objs.len() ==> {
                let after = #[trigger] reparented(objs, child, parent)[i];
                &&& after.local == objs[i].local
                &&& after.name == objs[i].name
                &&& after.renderable == objs[i].renderable
            },
{
    let _ = objs[child.0 as int];
}

} // verus!
