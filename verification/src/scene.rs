//! Materials and the models that volumes are built from.

use glam::{Mat4, UVec3, Vec3};
use vstd::prelude::*;

use crate::format::vox::{VoxMaterialId, VoxModel, VoxModelView};
use crate::placement::{compose, composed, identity, translated, translation, unplaced};

verus! {

/// Index of an entry in a palette that is owned elsewhere.
#[derive(Debug, Clone, Copy, PartialEq, Eq, Structural)]
pub struct MaterialId(pub usize);

/// A voxel model as an asset loader hands it over: an extent, a placement and
/// the occupied cells in the order in which they are to be inserted.
#[derive(Debug)]
pub struct Model {
    pub transform: Mat4,
    pub positions: Vec<(UVec3, MaterialId)>,
    pub size: UVec3,
}

/// What a model holds.
pub struct ModelView {
    pub transform: Mat4,
    pub positions: Seq<(UVec3, MaterialId)>,
    pub size: UVec3,
}

impl View for Model {
    type V = ModelView;

    open spec fn view(&self) -> ModelView {
        ModelView { transform: self.transform, positions: self.positions@, size: self.size }
    }
}

impl Clone for Model {
    fn clone(&self) -> (copy: Self)
        ensures
            copy@ == self@,
    {
        let mut positions: Vec<(UVec3, MaterialId)> = Vec::new();
        let mut k: usize = 0;
        while k < self.positions.len()
            invariant
                k <= self.positions.len(),
                positions@ == self.positions@.take(k as int),
            decreases self.positions.len() - k,
        {
            positions.push(self.positions[k]);
            proof {
                assert(positions@ =~= self.positions@.take(k as int + 1));
            }
            k = k + 1;
        }
        proof {
            assert(self.positions@.take(self.positions.len() as int) =~= self.positions@);
        }
        Model { transform: self.transform, positions, size: self.size }
    }
}

impl Default for Model {
    /// A model without cells and without voxels, with the identity
    /// placement.
    fn default() -> (model: Self)
        ensures
            model.transform == unplaced(),
            model.positions@ == Seq::<(UVec3, MaterialId)>::empty(),
            model.size == (UVec3 { x: 0, y: 0, z: 0 }),
    {
        Model { transform: identity(), positions: Vec::new(), size: UVec3 { x: 0, y: 0, z: 0 } }
    }
}

/// Whether a model of a file can be taken over: its extent fits a grid's,
/// and every voxel names a palette entry.
pub open spec fn usable(value: VoxModelView) -> bool {
    &&& value.size.0 <= u32::MAX
    &&& value.size.1 <= u32::MAX
    &&& value.size.2 <= u32::MAX
    &&& forall|k: int| 0 <= k < value.positions.len() ==> (#[trigger] value.positions[k]).1.0 >= 1
}

/// A voxel of a file with the material that its palette index names:
/// palette indices count from one, materials from zero.
pub open spec fn renumbered(v: (UVec3, VoxMaterialId)) -> (UVec3, MaterialId) {
    (v.0, MaterialId((v.1.0 - 1) as usize))
}

impl Model {
    /// The model that a model of a file stands for, with the placement
    /// `transform`: the same extent and the same voxels in the same order,
    /// their materials counted from zero.
    ///
    /// Gives nothing exactly when the model is not `usable`.
    pub fn from_vox(value: VoxModel, transform: Mat4) -> (r: Option<Model>)
        ensures
            r is Some <==> usable(value@),
            r matches Some(model) ==> {
                &&& model.transform == transform
                &&& model.size == UVec3 {
                    x: value.size.0 as u32,
                    y: value.size.1 as u32,
                    z: value.size.2 as u32,
                }
                &&& model.positions@ == value.positions@.map_values(
                    |v: (UVec3, VoxMaterialId)| renumbered(v),
                )
            },
    {
        let limit: usize = 0xffff_ffff;
        if value.size.0 > limit || value.size.1 > limit || value.size.2 > limit {
            return None;
        }
        let size = UVec3 {
            x: value.size.0 as u32,
            y: value.size.1 as u32,
            z: value.size.2 as u32,
        };
        let mut positions: Vec<(UVec3, MaterialId)> = Vec::new();
        let mut k: usize = 0;
        while k < value.positions.len()
            invariant
                k <= value.positions.len(),
                forall|j: int| 0 <= j < k ==> (#[trigger] value.positions[j]).1.0 >= 1,
                positions@ == value.positions@.take(k as int).map_values(
                    |v: (UVec3, VoxMaterialId)| renumbered(v),
                ),
            decreases value.positions.len() - k,
        {
            let (at, index) = value.positions[k];
            let material = match index.material() {
                Some(material) => material,
                None => {
                    assert(value@.positions[k as int].1.0 < 1);
                    return None;
                },
            };
            positions.push((at, material));
            proof {
                assert(positions@ =~= value.positions@.take(k as int + 1).map_values(
                    |v: (UVec3, VoxMaterialId)| renumbered(v),
                ));
            }
            k = k + 1;
        }
        proof {
            assert(value.positions@.take(value.positions.len() as int) =~= value.positions@);
        }
        Some(Model { transform, positions, size })
    }
}

/// A light: where it is and what colour it has.
#[derive(Debug, Clone, Copy)]
pub struct Light {
    pub transform: Mat4,
    pub position: Vec3,
    pub color: Vec3,
}

impl Light {
    /// A light at `position`, placed by the translation to there.
    pub fn new(position: Vec3, color: Vec3) -> (light: Self)
        ensures
            light.transform == translated(position),
            light.position == position,
            light.color == color,
    {
        Self { transform: translation(&position), position, color }
    }
}

/// A model placed in the scene, with a tag to find it by.
#[derive(Debug)]
pub struct Object {
    pub transform: Mat4,
    pub model: Model,
    pub tag: Option<String>,
}

/// What an object holds.
pub struct ObjectView {
    pub transform: Mat4,
    pub model: ModelView,
    pub tag: Option<String>,
}

impl View for Object {
    type V = ObjectView;

    open spec fn view(&self) -> ObjectView {
        ObjectView { transform: self.transform, model: self.model@, tag: self.tag }
    }
}

impl Clone for Object {
    fn clone(&self) -> (copy: Self)
        ensures
            copy@ == self@,
    {
        let tag = match &self.tag {
            Some(tag) => Some(tag.clone()),
            None => None,
        };
        Object { transform: self.transform, model: self.model.clone(), tag }
    }
}

impl Object {
    /// An object without a tag.
    pub fn new(transform: Mat4, model: Model) -> (object: Self)
        ensures
            object.transform == transform,
            object.model == model,
            object.tag is None,
    {
        Self { transform, model, tag: None }
    }

    /// An object with the tag `tag`.
    pub fn with_tag(transform: Mat4, model: Model, tag: String) -> (object: Self)
        ensures
            object.transform == transform,
            object.model == model,
            object.tag == Some(tag),
    {
        Self { transform, model, tag: Some(tag) }
    }
}

/// A camera: where it stands and looks, and the matrices that follow from
/// that.
#[derive(Debug, Clone, Copy)]
pub struct Camera {
    pub position: Vec3,
    pub direction: Vec3,
    pub up: Vec3,
    pub transform: Mat4,
    pub view: Mat4,
    pub projection: Mat4,
}

impl Camera {
    /// The matrix that carries the world into the camera's frame.
    pub fn view(&self) -> (m: &Mat4)
        ensures
            *m == self.view,
    {
        &self.view
    }

    /// The matrix that carries the camera's frame onto the screen.
    pub fn projection(&self) -> (m: &Mat4)
        ensures
            *m == self.projection,
    {
        &self.projection
    }

    /// The matrix that carries the world onto the screen: the projection
    /// applied behind the view.
    pub fn view_projection(&self) -> (m: Mat4)
        ensures
            m == composed(self.projection, self.view),
    {
        compose(&self.projection, &self.view)
    }

    /// Where the camera stands.
    pub fn translation(&self) -> (v: Vec3)
        ensures
            v == self.position,
    {
        self.position
    }

    /// Where the camera looks.
    pub fn direction(&self) -> (v: Vec3)
        ensures
            v == self.direction,
    {
        self.direction
    }

    /// What the camera takes for upwards.
    pub fn up(&self) -> (v: Vec3)
        ensures
            v == self.up,
    {
        self.up
    }
}

/// What a node of the scene holds.
#[derive(Debug)]
pub enum Entity {
    Light(Light),
    Object(Object),
    Camera(Camera),
}

/// What an entity holds: its kind, and what the light, the object or the
/// camera holds.
pub enum EntityView {
    Light(Light),
    Object(ObjectView),
    Camera(Camera),
}

impl View for Entity {
    type V = EntityView;

    open spec fn view(&self) -> EntityView {
        match *self {
            Entity::Light(l) => EntityView::Light(l),
            Entity::Object(o) => EntityView::Object(o@),
            Entity::Camera(c) => EntityView::Camera(c),
        }
    }
}

impl Clone for Entity {
    fn clone(&self) -> (copy: Self)
        ensures
            copy@ == self@,
    {
        match self {
            Entity::Light(l) => Entity::Light(*l),
            Entity::Object(o) => Entity::Object(o.clone()),
            Entity::Camera(c) => Entity::Camera(*c),
        }
    }
}

impl Entity {
    /// The placement of the entity.
    pub open spec fn placement(&self) -> Mat4 {
        match *self {
            Entity::Light(l) => l.transform,
            Entity::Object(o) => o.transform,
            Entity::Camera(c) => c.transform,
        }
    }

    /// The entity with the placement `m` in place of its own.
    pub open spec fn placed(self, m: Mat4) -> Entity {
        match self {
            Entity::Light(l) => Entity::Light(Light { transform: m, ..l }),
            Entity::Object(o) => Entity::Object(Object { transform: m, ..o }),
            Entity::Camera(c) => Entity::Camera(Camera { transform: m, ..c }),
        }
    }

    /// The placement of the entity. Every kind of entity has one.
    pub fn transform(&self) -> (m: Option<&Mat4>)
        ensures
            m == Some(&self.placement()),
    {
        match self {
            Entity::Light(l) => Some(&l.transform),
            Entity::Object(o) => Some(&o.transform),
            Entity::Camera(c) => Some(&c.transform),
        }
    }

    /// The placement of the entity, for writing.
    pub fn transform_mut(&mut self) -> (m: Option<&mut Mat4>)
        ensures
            m matches Some(t) && *t == old(self).placement() && *final(self) == old(self).placed(
                *final(t),
            ),
    {
        match self {
            Entity::Light(l) => Some(&mut l.transform),
            Entity::Object(o) => Some(&mut o.transform),
            Entity::Camera(c) => Some(&mut c.transform),
        }
    }
}

impl From<Light> for Entity {
    fn from(value: Light) -> (entity: Entity) {
        Entity::Light(value)
    }
}

impl vstd::std_specs::convert::FromSpecImpl<Light> for Entity {
    open spec fn obeys_from_spec() -> bool {
        true
    }

    open spec fn from_spec(value: Light) -> Entity {
        Entity::Light(value)
    }
}

impl From<Object> for Entity {
    fn from(value: Object) -> (entity: Entity) {
        Entity::Object(value)
    }
}

impl vstd::std_specs::convert::FromSpecImpl<Object> for Entity {
    open spec fn obeys_from_spec() -> bool {
        true
    }

    open spec fn from_spec(value: Object) -> Entity {
        Entity::Object(value)
    }
}

impl From<Camera> for Entity {
    fn from(value: Camera) -> (entity: Entity) {
        Entity::Camera(value)
    }
}

impl vstd::std_specs::convert::FromSpecImpl<Camera> for Entity {
    open spec fn obeys_from_spec() -> bool {
        true
    }

    open spec fn from_spec(value: Camera) -> Entity {
        Entity::Camera(value)
    }
}

/// The name of a node of a scene graph.
#[derive(Debug, Clone, Copy, PartialEq, Eq, Structural)]
pub struct SceneNodeId(usize);

impl SceneNodeId {
    /// The place of the node in its graph.
    pub closed spec fn index(&self) -> int {
        self.0 as int
    }
}

/// A node of a scene graph: the entity as it was put in, and the entity as
/// it stands in the world once the placements of the nodes above it were
/// applied.
#[derive(Debug, Clone)]
pub struct SceneNode {
    parent: SceneNodeId,
    base_entity: Entity,
    mutated_entity: Entity,
}

impl SceneNode {
    /// The node above this one.
    pub closed spec fn parent(&self) -> SceneNodeId {
        self.parent
    }

    /// The entity as it was put in.
    pub closed spec fn base(&self) -> Entity {
        self.base_entity
    }

    /// The entity as it stands in the world.
    pub closed spec fn mutated(&self) -> Entity {
        self.mutated_entity
    }

    /// A node below `parent` that holds `entity`, both as it was put in and
    /// as it stands in the world. Where it stands in the world is settled
    /// anew when the graph is evaluated.
    fn new(entity: Entity, parent: &SceneNodeId) -> (node: Self)
        ensures
            node.parent() == *parent,
            node.base() == entity,
            node.mutated()@ == entity@,
    {
        let copy = entity.clone();
        Self { parent: *parent, base_entity: entity, mutated_entity: copy }
    }

    /// Places the entity in the world: by the placement of the node above,
    /// where there is one, applied behind its own.
    fn evaluate(&mut self, above: Option<Mat4>)
        ensures
            final(self).parent() == old(self).parent(),
            final(self).base() == old(self).base(),
            final(self).mutated() == old(self).mutated().placed(
                match above {
                    Some(m) => composed(m, old(self).base().placement()),
                    None => old(self).base().placement(),
                },
            ),
    {
        let own = match self.base_entity.transform() {
            Some(m) => *m,
            None => { return ; },
        };
        let world = match above {
            Some(m) => compose(&m, &own),
            None => own,
        };
        match self.mutated_entity.transform_mut() {
            Some(m) => {
                *m = world;
            },
            None => {},
        }
    }
}

/// Where node `n` stands in the world: its own placement, with that of the
/// node above it applied behind it where that node is there.
pub open spec fn world(nodes: Seq<Option<SceneNode>>, n: int) -> Mat4
    decreases n,
{
    match nodes[n] {
        Some(node) => {
            let above = node.parent().index();
            if 0 <= above < n && nodes[above] is Some {
                composed(world(nodes, above), node.base().placement())
            } else {
                node.base().placement()
            }
        },
        None => arbitrary(),
    }
}

/// The nodes that are there, each with its place and with its entity as it
/// stands in the world, in the order of their places.
pub open spec fn present(nodes: Seq<Option<SceneNode>>) -> Seq<(int, Entity)>
    decreases nodes.len(),
{
    if nodes.len() == 0 {
        Seq::empty()
    } else {
        let rest = present(nodes.drop_last());
        match nodes.last() {
            Some(node) => rest.push((nodes.len() - 1, node.mutated())),
            None => rest,
        }
    }
}

/// A tree of entities, each placed relative to the node above it. The
/// nodes lie in a row, and a node is named by its place in the row; the
/// first place is the root, which holds nothing.
#[derive(Debug)]
pub struct SceneGraph {
    nodes: Vec<Option<SceneNode>>,
}

impl SceneGraph {
    /// The row of nodes; a place is empty where its node was removed.
    pub closed spec fn nodes(&self) -> Seq<Option<SceneNode>> {
        self.nodes@
    }

    /// Whether `id` names a place of this graph.
    pub open spec fn has(&self, id: SceneNodeId) -> bool {
        0 <= id.index() < self.nodes().len()
    }

    /// The invariant of a graph: the root is there and holds nothing, and
    /// every node lies behind the node above it.
    pub open spec fn wf(&self) -> bool {
        &&& self.nodes().len() >= 1
        &&& self.nodes()[0] is None
        &&& forall|n: int|
            0 <= n < self.nodes().len() ==> (#[trigger] self.nodes()[n] matches Some(node)
                ==> 0 <= node.parent().index() < n)
    }

    /// Whether `id` names a place of this graph.
    pub fn holds(&self, id: &SceneNodeId) -> (b: bool)
        ensures
            b == self.has(*id),
    {
        id.0 < self.nodes.len()
    }

    /// Whether the graph is well formed, found out by walking its nodes.
    pub fn is_well_formed(&self) -> (ok: bool)
        ensures
            ok == self.wf(),
    {
        if self.nodes.len() < 1 || self.nodes[0].is_some() {
            return false;
        }
        let mut n: usize = 1;
        while n < self.nodes.len()
            invariant
                1 <= n <= self.nodes@.len(),
                self.nodes@[0] is None,
                forall|k: int|
                    0 <= k < n ==> (#[trigger] self.nodes@[k] matches Some(node) ==> 0
                        <= node.parent().index() < k),
            decreases self.nodes@.len() - n,
        {
            if let Some(node) = &self.nodes[n] {
                if node.parent.0 >= n {
                    return false;
                }
            }
            n = n + 1;
        }
        true
    }

    /// A graph with nothing but its root.
    pub fn new() -> (graph: Self)
        ensures
            graph.wf(),
            graph.nodes() == seq![None::<SceneNode>],
    {
        let mut nodes: Vec<Option<SceneNode>> = Vec::new();
        nodes.push(None);
        Self { nodes }
    }

    /// Puts `entity` into the graph below the node `parent` and gives the
    /// name of its node.
    pub fn insert_entity(&mut self, entity: Entity, parent: &SceneNodeId) -> (id: SceneNodeId)
        requires
            old(self).wf(),
            old(self).has(*parent),
        ensures
            final(self).wf(),
            id.index() == old(self).nodes().len(),
            final(self).nodes().len() == old(self).nodes().len() + 1,
            forall|n: int|
                0 <= n < old(self).nodes().len() ==> final(self).nodes()[n] == old(self).nodes()[n],
            final(self).nodes().last() matches Some(node) && node.parent() == *parent
                && node.base() == entity && node.mutated()@ == entity@,
    {
        self.nodes.push(Some(SceneNode::new(entity, parent)));
        SceneNodeId(self.nodes.len() - 1)
    }

    /// Removes the node `id` and the nodes directly below it. What lies
    /// below those stays, without a node above.
    pub fn remove_entity(&mut self, id: &SceneNodeId)
        requires
            old(self).wf(),
            old(self).has(*id),
        ensures
            final(self).wf(),
            final(self).nodes().len() == old(self).nodes().len(),
            forall|n: int|
                0 <= n < old(self).nodes().len() ==> #[trigger] final(self).nodes()[n] == if n
                    == id.index() || (old(self).nodes()[n] matches Some(node) && node.parent()
                    == *id) {
                    None
                } else {
                    old(self).nodes()[n]
                },
    {
        let ghost before = self.nodes@;
        self.nodes.set(id.0, None);
        let mut n: usize = 0;
        while n < self.nodes.len()
            invariant
                before.len() == self.nodes@.len(),
                0 <= id.index() < before.len(),
                n <= before.len(),
                forall|k: int|
                    0 <= k < n ==> #[trigger] self.nodes@[k] == if k == id.index() || (
                    before[k] matches Some(node) && node.parent() == *id) {
                        None
                    } else {
                        before[k]
                    },
                forall|k: int|
                    n <= k < before.len() ==> #[trigger] self.nodes@[k] == if k == id.index() {
                        None
                    } else {
                        before[k]
                    },
            decreases before.len() - n,
        {
            let below = match &self.nodes[n] {
                Some(node) => node.parent.0 == id.0,
                None => false,
            };
            if below {
                self.nodes.set(n, None);
            }
            n = n + 1;
        }
    }

    /// The entity of the node `id` as it was put in, where the node is
    /// there.
    pub fn entity(&self, id: &SceneNodeId) -> (r: Option<&Entity>)
        requires
            self.has(*id),
        ensures
            match r {
                Some(e) => self.nodes()[id.index()] matches Some(node) && *e == node.base(),
                None => self.nodes()[id.index()] is None,
            },
    {
        match &self.nodes[id.0] {
            Some(node) => Some(&node.base_entity),
            None => None,
        }
    }

    /// The object of the node `id`, where the node is there. The node must
    /// not hold anything but an object.
    pub fn object(&self, id: &SceneNodeId) -> (r: Option<&Object>)
        requires
            self.has(*id),
            self.nodes()[id.index()] matches Some(node) ==> node.base() is Object,
        ensures
            match r {
                Some(o) => self.nodes()[id.index()] matches Some(node) && node.base()
                    == Entity::Object(*o),
                None => self.nodes()[id.index()] is None,
            },
    {
        match self.entity(id) {
            Some(Entity::Object(o)) => Some(o),
            Some(_) => vstd::pervasive::unreached(),
            None => None,
        }
    }

    /// The entity of the node `id` as it was put in, for writing, where the
    /// node is there.
    pub fn entity_mut(&mut self, id: &SceneNodeId) -> (r: Option<&mut Entity>)
        requires
            old(self).wf(),
            old(self).has(*id),
        ensures
            final(self).wf(),
            final(self).nodes().len() == old(self).nodes().len(),
            forall|n: int|
                0 <= n < old(self).nodes().len() && n != id.index() ==> final(self).nodes()[n]
                    == old(self).nodes()[n],
            match r {
                Some(e) => old(self).nodes()[id.index()] matches Some(node) && *e == node.base()
                    && (final(self).nodes()[id.index()] matches Some(after) && after.parent()
                    == node.parent() && after.mutated() == node.mutated() && after.base()
                    == *final(e)),
                None => old(self).nodes()[id.index()] is None && final(self).nodes()[id.index()]
                    is None,
            },
    {
        if self.nodes[id.0].is_none() {
            return None;
        }
        match &mut self.nodes[id.0] {
            Some(node) => Some(&mut node.base_entity),
            None => None,
        }
    }

    /// The object of the node `id`, for writing, where the node is there.
    /// The node must not hold anything but an object.
    pub fn object_mut(&mut self, id: &SceneNodeId) -> (r: Option<&mut Object>)
        requires
            old(self).wf(),
            old(self).has(*id),
            old(self).nodes()[id.index()] matches Some(node) ==> node.base() is Object,
        ensures
            final(self).wf(),
            final(self).nodes().len() == old(self).nodes().len(),
            forall|n: int|
                0 <= n < old(self).nodes().len() && n != id.index() ==> final(self).nodes()[n]
                    == old(self).nodes()[n],
            match r {
                Some(o) => old(self).nodes()[id.index()] matches Some(node) && node.base()
                    == Entity::Object(*o) && (final(self).nodes()[id.index()] matches Some(
                    after,
                ) && after.parent() == node.parent() && after.mutated() == node.mutated()
                    && after.base() == Entity::Object(*final(o))),
                None => old(self).nodes()[id.index()] is None && final(self).nodes()[id.index()]
                    is None,
            },
    {
        match self.entity_mut(id) {
            Some(Entity::Object(object)) => Some(object),
            Some(_) => vstd::pervasive::unreached(),
            None => None,
        }
    }

    /// Places every node in the world, the nodes above before the nodes
    /// below them: see `world`.
    pub fn evaluate_all(&mut self)
        requires
            old(self).wf(),
        ensures
            final(self).wf(),
            final(self).nodes().len() == old(self).nodes().len(),
            forall|n: int|
                0 <= n < old(self).nodes().len() ==> match #[trigger] final(self).nodes()[n] {
                    Some(after) => old(self).nodes()[n] matches Some(node) && after.parent()
                        == node.parent() && after.base() == node.base() && after.mutated()
                        == node.mutated().placed(world(old(self).nodes(), n)),
                    None => old(self).nodes()[n] is None,
                },
    {
        let ghost before = self.nodes@;
        let mut n: usize = 0;
        while n < self.nodes.len()
            invariant
                old(self).wf(),
                before == old(self).nodes(),
                before.len() == self.nodes@.len(),
                n <= before.len(),
                forall|k: int|
                    0 <= k < n ==> match #[trigger] self.nodes@[k] {
                        Some(after) => before[k] matches Some(node) && after.parent()
                            == node.parent() && after.base() == node.base() && after.mutated()
                            == node.mutated().placed(world(before, k)),
                        None => before[k] is None,
                    },
                forall|k: int| n <= k < before.len() ==> #[trigger] self.nodes@[k] == before[k],
            decreases before.len() - n,
        {
            let above: Option<usize> = match &self.nodes[n] {
                Some(node) => Some(node.parent.0),
                None => None,
            };
            if let Some(p) = above {
                assert(before[n as int] is Some && p < n);
                let at: Option<Mat4> = match &self.nodes[p] {
                    Some(upper) => match upper.mutated_entity.transform() {
                        Some(m) => Some(*m),
                        None => None,
                    },
                    None => None,
                };
                proof {
                    let node = before[n as int]->0;
                    assert(node.parent().index() == p);
                    if let Some(upper) = self.nodes@[p as int] {
                        assert(before[p as int] is Some);
                        assert(upper.mutated().placement() == world(before, p as int));
                    } else {
                        assert(before[p as int] is None);
                    }
                }
                let ghost current = self.nodes@;
                match &mut self.nodes[n] {
                    Some(node) => {
                        node.evaluate(at);
                    },
                    None => {},
                }
                proof {
                    assert forall|k: int| 0 <= k < n implies self.nodes@[k] == current[k] by {}
                }
            }
            n = n + 1;
        }
    }

    /// The name of the root.
    pub fn root(&self) -> (id: SceneNodeId)
        ensures
            id.index() == 0,
    {
        SceneNodeId(0)
    }

    /// The entity of the node `id` as it stands in the world, where the
    /// node is there.
    pub fn mutated_entity(&self, id: &SceneNodeId) -> (r: Option<&Entity>)
        requires
            self.has(*id),
        ensures
            match r {
                Some(e) => self.nodes()[id.index()] matches Some(node) && *e == node.mutated(),
                None => self.nodes()[id.index()] is None,
            },
    {
        match &self.nodes[id.0] {
            Some(node) => Some(&node.mutated_entity),
            None => None,
        }
    }

    /// The nodes that are there, each with its name and with its entity as
    /// it stands in the world, in the order of their places.
    pub fn mutated_entities(&self) -> (r: Vec<(SceneNodeId, &Entity)>)
        ensures
            r@.len() == present(self.nodes()).len(),
            forall|k: int|
                0 <= k < r@.len() ==> (#[trigger] r@[k]).0.index() == present(self.nodes())[k].0
                    && *r@[k].1 == present(self.nodes())[k].1,
    {
        let mut out: Vec<(SceneNodeId, &Entity)> = Vec::new();
        let mut n: usize = 0;
        proof {
            assert(self.nodes@.take(0) =~= Seq::<Option<SceneNode>>::empty());
        }
        while n < self.nodes.len()
            invariant
                n <= self.nodes@.len(),
                out@.len() == present(self.nodes@.take(n as int)).len(),
                forall|k: int|
                    0 <= k < out@.len() ==> (#[trigger] out@[k]).0.index() == present(
                        self.nodes@.take(n as int),
                    )[k].0 && *out@[k].1 == present(self.nodes@.take(n as int))[k].1,
            decreases self.nodes@.len() - n,
        {
            proof {
                assert(self.nodes@.take(n as int + 1).drop_last() =~= self.nodes@.take(n as int));
                assert(self.nodes@.take(n as int + 1).last() == self.nodes@[n as int]);
            }
            if let Some(node) = &self.nodes[n] {
                out.push((SceneNodeId(n), &node.mutated_entity));
            }
            n = n + 1;
        }
        proof {
            assert(self.nodes@.take(self.nodes@.len() as int) =~= self.nodes@);
        }
        out
    }
}

} // verus!
