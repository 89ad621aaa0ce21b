//! The index tables of a scene laid out for the GPU: which primitive uses which
//! data record, material and transform, which materials are shared, and which
//! primitives emit light.

use std::collections::HashMap;
use vstd::prelude::*;

use crate::gpu::buffers::{GpuPrimitive, PRIM_QUAD, PRIM_SPHERE, PRIM_TRIANGLE};
use crate::gpu::bvh::TriBvhNode;

verus! {

broadcast use vstd::std_specs::hash::group_hash_axioms;

/// How one object of the world list turns into primitives.
pub enum ObjectKind<B> {
    /// A sphere: one sphere primitive.
    Sphere,
    /// A quad: one quad primitive.
    Quad,
    /// An axis-aligned box, laid out as six quads.
    Cuboid,
    /// A triangle mesh: one primitive per triangle, with its own hierarchy
    /// over its triangles.
    Mesh { triangles: usize, bvh: TriBvhNode<B> },
    /// Any other object (a standalone triangle, a nested hierarchy): the GPU
    /// scene holds no primitive for it.
    Other,
}

/// An object of the world list: the identity it is known by (the address of
/// the shared object) and its kind.
pub struct WorldObject<B> {
    pub key: usize,
    pub kind: ObjectKind<B>,
}

/// How many primitives an object becomes: one for a sphere or a quad, six
/// quads for a box, one per triangle for a mesh, none for anything else.
pub open spec fn prim_count<B>(kind: ObjectKind<B>) -> nat {
    match kind {
        ObjectKind::Sphere => 1,
        ObjectKind::Quad => 1,
        ObjectKind::Cuboid => 6,
        ObjectKind::Mesh { triangles, .. } => triangles as nat,
        ObjectKind::Other => 0,
    }
}

/// The first primitive of the object at position `j`: the primitive counts of
/// the objects before it, summed.
pub open spec fn prim_start<B>(world: Seq<WorldObject<B>>, j: int) -> nat
    decreases j,
{
    if j <= 0 {
        0
    } else {
        prim_start(world, j - 1) + prim_count(world[j - 1].kind)
    }
}

/// The position of the first object at or after `j` whose key is `key`, or
/// the length of the list when there is none.
pub open spec fn find_key<B>(world: Seq<WorldObject<B>>, key: usize, j: int) -> int
    decreases world.len() - j,
{
    if j < 0 || j >= world.len() {
        world.len() as int
    } else if world[j].key == key {
        j
    } else {
        find_key(world, key, j + 1)
    }
}

/// The primitive indices of the light with key `key`: the run of indices of
/// the first world object with that key, or nothing when no object has it.
pub open spec fn light_prims<B>(world: Seq<WorldObject<B>>, key: usize) -> Seq<u32> {
    let j = find_key(world, key, 0);
    if j < world.len() {
        Seq::new(prim_count(world[j].kind), |i: int| (prim_start(world, j) + i) as u32)
    } else {
        Seq::empty()
    }
}

/// The primitive indices of all lights, light by light.
pub open spec fn lights_prims<B>(world: Seq<WorldObject<B>>, lights: Seq<usize>) -> Seq<u32>
    decreases lights.len(),
{
    if lights.len() == 0 {
        Seq::empty()
    } else {
        lights_prims(world, lights.drop_last()) + light_prims(world, lights.last())
    }
}

pub(crate) proof fn lemma_prim_start_monotone<B>(world: Seq<WorldObject<B>>, j: int, k: int)
    requires
        j <= k,
    ensures
        prim_start(world, j) <= prim_start(world, k),
    decreases k - j,
{
    if j < k {
        lemma_prim_start_monotone(world, j, k - 1);
    }
}

proof fn lemma_find_key_skip<B>(world: Seq<WorldObject<B>>, key: usize, i: int, j: int)
    requires
        0 <= i <= j <= world.len(),
        forall|m: int| i <= m < j ==> world[m].key != key,
    ensures
        find_key(world, key, i) == find_key(world, key, j),
    decreases j - i,
{
    if i < j {
        lemma_find_key_skip(world, key, i + 1, j);
    }
}

proof fn lemma_find_key_range<B>(world: Seq<WorldObject<B>>, key: usize, i: int)
    requires
        0 <= i <= world.len(),
    ensures
        i <= find_key(world, key, i) <= world.len(),
        find_key(world, key, i) < world.len() ==> world[find_key(world, key, i)].key == key,
    decreases world.len() - i,
{
    if i < world.len() && world[i].key != key {
        lemma_find_key_range(world, key, i + 1);
    }
}

/// The light search for `key` keeps to 32-bit primitive indices: the object
/// it finds starts at or below `u32::MAX` and its primitives end by
/// `u32::MAX`, or, when it finds none, the counts of the whole list sum to at
/// most `u32::MAX`.
pub open spec fn light_fits<B>(world: Seq<WorldObject<B>>, key: usize) -> bool {
    let j = find_key(world, key, 0);
    if j < world.len() {
        &&& prim_start(world, j) <= u32::MAX
        &&& prim_start(world, j) + prim_count(world[j].kind) <= u32::MAX + 1
    } else {
        prim_start(world, world.len() as int) <= u32::MAX
    }
}

/// The number of primitives an object becomes.
pub(crate) fn prim_count_of<B>(kind: &ObjectKind<B>) -> (n: u64)
    ensures
        n == prim_count(*kind),
{
    match kind {
        ObjectKind::Sphere => 1,
        ObjectKind::Quad => 1,
        ObjectKind::Cuboid => 6,
        ObjectKind::Mesh { triangles, .. } => *triangles as u64,
        ObjectKind::Other => 0,
    }
}

/// Every light's search keeps to 32-bit primitive indices.
pub open spec fn lights_fit<B>(world: Seq<WorldObject<B>>, lights: Seq<usize>) -> bool {
    forall|l: int| 0 <= l < lights.len() ==> light_fits(world, #[trigger] lights[l])
}

/// Whether the light search for `key` keeps to 32-bit primitive indices.
fn light_fits_check<B>(world: &Vec<WorldObject<B>>, key: usize) -> (ok: bool)
    ensures
        ok == light_fits(world@, key),
{
    let mut start: u64 = 0;
    let mut j: usize = 0;
    while j < world.len()
        invariant
            j <= world@.len(),
            start == prim_start(world@, j as int),
            start <= u32::MAX,
            forall|m: int| 0 <= m < j ==> world@[m].key != key,
        decreases world@.len() - j,
    {
        let count = prim_count_of(&world[j].kind);
        if world[j].key == key {
            proof {
                lemma_find_key_skip(world@, key, 0, j as int);
            }
            return count <= 0x1_0000_0000u64 - start;
        }
        if count > 0xffff_ffffu64 - start {
            proof {
                lemma_find_key_skip(world@, key, 0, j + 1);
                lemma_find_key_range(world@, key, j + 1);
                let jj = find_key(world@, key, 0);
                lemma_prim_start_monotone(world@, j + 1, jj);
                lemma_prim_start_monotone(world@, j + 1, world@.len() as int);
            }
            return false;
        }
        start = start + count;
        j = j + 1;
    }
    proof {
        lemma_find_key_skip(world@, key, 0, j as int);
    }
    true
}

/// Whether the light search of every light keeps to 32-bit primitive indices.
pub fn lights_fit_check<B>(world: &Vec<WorldObject<B>>, lights: &Vec<usize>) -> (ok: bool)
    ensures
        ok == lights_fit(world@, lights@),
{
    let mut l: usize = 0;
    while l < lights.len()
        invariant
            l <= lights@.len(),
            forall|m: int| 0 <= m < l ==> light_fits(world@, #[trigger] lights@[m]),
        decreases lights@.len() - l,
    {
        if !light_fits_check(world, lights[l]) {
            assert(!light_fits(world@, lights@[l as int]));
            return false;
        }
        l = l + 1;
    }
    true
}

/// What the index tables hold: the primitive records, the light list, the
/// table index given to each shared material, and the sizes of the material,
/// transform, sphere, quad and triangle tables.
pub struct LayoutView {
    pub primitives: Seq<GpuPrimitive>,
    pub lights: Seq<u32>,
    pub material_keys: Map<usize, u32>,
    pub materials: nat,
    pub transforms: nat,
    pub spheres: nat,
    pub quads: nat,
    pub triangles: nat,
}

impl LayoutView {
    /// The primitive names a record of its own kind, a material and a
    /// transform that all exist.
    pub open spec fn primitive_valid(self, p: GpuPrimitive) -> bool {
        &&& p.material_index < self.materials
        &&& p.transform_index < self.transforms
        &&& {
            ||| p.prim_type == PRIM_SPHERE && p.data_index < self.spheres
            ||| p.prim_type == PRIM_QUAD && p.data_index < self.quads
            ||| p.prim_type == PRIM_TRIANGLE && p.data_index < self.triangles
        }
    }

    /// Every primitive is valid, every shared material has a table entry, and
    /// every table size fits the GPU's 32-bit indices.
    pub open spec fn wf(self) -> bool {
        &&& forall|i: int| 0 <= i < self.primitives.len() ==> self.primitive_valid(#[trigger] self.primitives[i])
        &&& forall|k: usize| self.material_keys.contains_key(k) ==> #[trigger] self.material_keys[k] < self.materials
        &&& self.materials <= u32::MAX
        &&& self.transforms <= u32::MAX
        &&& self.spheres <= u32::MAX
        &&& self.quads <= u32::MAX
        &&& self.triangles <= u32::MAX
    }

    /// The same tables with one more primitive.
    pub open spec fn with_primitive(self, p: GpuPrimitive) -> LayoutView {
        LayoutView { primitives: self.primitives.push(p), ..self }
    }
}

/// The index tables of a scene being laid out for the GPU. The data records
/// themselves (geometry, material parameters, matrices) live beside it; this
/// keeps the tables that tie them together.
pub struct SceneLayout {
    primitives: Vec<GpuPrimitive>,
    light_prim_indices: Vec<u32>,
    material_map: HashMap<usize, u32>,
    material_count: usize,
    transform_count: usize,
    sphere_count: usize,
    quad_count: usize,
    triangle_count: usize,
}

impl View for SceneLayout {
    type V = LayoutView;

    closed spec fn view(&self) -> LayoutView {
        LayoutView {
            primitives: self.primitives@,
            lights: self.light_prim_indices@,
            material_keys: self.material_map@,
            materials: self.material_count as nat,
            transforms: self.transform_count as nat,
            spheres: self.sphere_count as nat,
            quads: self.quad_count as nat,
            triangles: self.triangle_count as nat,
        }
    }
}

/// The tables after giving a material its index, and the index with whether
/// a new entry was made: a known shared material keeps its entry; a new shared
/// material (`Some(key)`) is recorded under its key at the next free index; a
/// material that is not shared (`None`) just takes the next free index.
pub open spec fn material_step(v: LayoutView, key: Option<usize>) -> (LayoutView, (u32, bool)) {
    match key {
        Some(k) => if v.material_keys.contains_key(k) {
            (v, (v.material_keys[k], false))
        } else {
            (
                LayoutView { material_keys: v.material_keys.insert(k, v.materials as u32), materials: v.materials + 1, ..v },
                (v.materials as u32, true),
            )
        },
        None => (LayoutView { materials: v.materials + 1, ..v }, (v.materials as u32, true)),
    }
}

/// A shared material gets one table entry: asking again for the same key
/// gives the same index, reports no new entry and changes nothing.
pub proof fn lemma_shared_material_once(v: LayoutView, k: usize)
    ensures
        ({
            let (v1, r1) = material_step(v, Some(k));
            let (v2, r2) = material_step(v1, Some(k));
            &&& r2 == (r1.0, false)
            &&& v2 == v1
        }),
{
}

/// Two shared materials with different keys that both get new entries get
/// different indices, and a material that is not shared never takes the
/// index of a shared one.
pub proof fn lemma_new_materials_distinct(v: LayoutView, k1: usize, k2: Option<usize>)
    requires
        v.wf(),
        v.materials + 1 < u32::MAX,
        !v.material_keys.contains_key(k1),
        k2 != Some(k1),
    ensures
        ({
            let (v1, r1) = material_step(v, Some(k1));
            let (v2, r2) = material_step(v1, k2);
            r2.1 ==> r2.0 != r1.0
        }),
{
}

/// Growing the material table keeps every primitive valid.
proof fn lemma_more_materials(before: LayoutView, after: LayoutView)
    requires
        before.wf(),
        after.primitives == before.primitives,
        after.transforms == before.transforms,
        after.spheres == before.spheres,
        after.quads == before.quads,
        after.triangles == before.triangles,
        before.materials <= after.materials,
    ensures
        forall|i: int| 0 <= i < after.primitives.len() ==> after.primitive_valid(#[trigger] after.primitives[i]),
{
    assert forall|i: int| 0 <= i < after.primitives.len() implies after.primitive_valid(#[trigger] after.primitives[i]) by {
        assert(before.primitive_valid(before.primitives[i]));
    }
}

/// Tables that keep the shared-material map and do not shrink the material
/// table keep every shared material's entry.
proof fn lemma_keys_kept(before: LayoutView, after: LayoutView)
    requires
        before.wf(),
        after.material_keys == before.material_keys,
        before.materials <= after.materials,
    ensures
        forall|k: usize| after.material_keys.contains_key(k) ==> #[trigger] after.material_keys[k] < after.materials,
{
    assert forall|k: usize| after.material_keys.contains_key(k) implies #[trigger] after.material_keys[k] < after.materials by {
        assert(before.material_keys.contains_key(k));
    }
}

/// Sphere records an object adds: one for a sphere.
pub open spec fn kind_spheres<B>(kind: ObjectKind<B>) -> nat {
    match kind {
        ObjectKind::Sphere => 1,
        _ => 0,
    }
}

/// Quad records an object adds: one for a quad, six for a box.
pub open spec fn kind_quads<B>(kind: ObjectKind<B>) -> nat {
    match kind {
        ObjectKind::Quad => 1,
        ObjectKind::Cuboid => 6,
        _ => 0,
    }
}

/// Triangle records an object adds: one per triangle of a mesh.
pub open spec fn kind_triangles<B>(kind: ObjectKind<B>) -> nat {
    match kind {
        ObjectKind::Mesh { triangles, .. } => triangles as nat,
        _ => 0,
    }
}

/// The sphere records of the first `n` objects.
pub open spec fn spheres_before<B>(world: Seq<WorldObject<B>>, n: int) -> nat
    decreases n,
{
    if n <= 0 {
        0
    } else {
        spheres_before(world, n - 1) + kind_spheres(world[n - 1].kind)
    }
}

/// The quad records of the first `n` objects.
pub open spec fn quads_before<B>(world: Seq<WorldObject<B>>, n: int) -> nat
    decreases n,
{
    if n <= 0 {
        0
    } else {
        quads_before(world, n - 1) + kind_quads(world[n - 1].kind)
    }
}

/// The triangle records of the first `n` objects.
pub open spec fn triangles_before<B>(world: Seq<WorldObject<B>>, n: int) -> nat
    decreases n,
{
    if n <= 0 {
        0
    } else {
        triangles_before(world, n - 1) + kind_triangles(world[n - 1].kind)
    }
}

/// How many (material, transform) pairs an object's primitives are given:
/// one per face of a box, one shared by all triangles of a mesh, one for a
/// sphere or a quad, none for an object without primitives.
pub open spec fn slot_count<B>(kind: ObjectKind<B>) -> nat {
    match kind {
        ObjectKind::Sphere => 1,
        ObjectKind::Quad => 1,
        ObjectKind::Cuboid => 6,
        ObjectKind::Mesh { .. } => 1,
        ObjectKind::Other => 0,
    }
}

/// The (material, transform) pairs of each object, as sequences.
pub open spec fn slots_view(slots: Seq<Vec<(u32, u32)>>) -> Seq<Seq<(u32, u32)>> {
    slots.map_values(|s: Vec<(u32, u32)>| s@)
}

/// Primitive `i` of object `j` when the world's primitives are laid out after
/// the tables `before`: its kind, its record in the sphere, quad or triangle
/// table (records numbered on from `before` in world-list order), and its
/// material and transform from the object's pairs.
pub open spec fn world_prim<B>(
    before: LayoutView,
    world: Seq<WorldObject<B>>,
    slots: Seq<Seq<(u32, u32)>>,
    j: int,
    i: int,
) -> GpuPrimitive {
    let s = slots[j];
    match world[j].kind {
        ObjectKind::Sphere => GpuPrimitive {
            prim_type: PRIM_SPHERE,
            data_index: (before.spheres + spheres_before(world, j)) as u32,
            material_index: s[0].0,
            transform_index: s[0].1,
        },
        ObjectKind::Quad => GpuPrimitive {
            prim_type: PRIM_QUAD,
            data_index: (before.quads + quads_before(world, j)) as u32,
            material_index: s[0].0,
            transform_index: s[0].1,
        },
        ObjectKind::Cuboid => GpuPrimitive {
            prim_type: PRIM_QUAD,
            data_index: (before.quads + quads_before(world, j) + i) as u32,
            material_index: s[i].0,
            transform_index: s[i].1,
        },
        ObjectKind::Mesh { .. } => GpuPrimitive {
            prim_type: PRIM_TRIANGLE,
            data_index: (before.triangles + triangles_before(world, j) + i) as u32,
            material_index: s[0].0,
            transform_index: s[0].1,
        },
        ObjectKind::Other => GpuPrimitive { prim_type: 0, data_index: 0, material_index: 0, transform_index: 0 },
    }
}

/// The world's primitives can be laid out after the tables `v`: each object
/// has its pairs, every pair names a material and a transform that exist,
/// and the sphere, quad and triangle tables stay within 32-bit indices.
pub open spec fn world_layout_ok<B>(v: LayoutView, world: Seq<WorldObject<B>>, slots: Seq<Seq<(u32, u32)>>) -> bool {
    &&& slots.len() == world.len()
    &&& forall|j: int| 0 <= j < world.len() ==> #[trigger] slots[j].len() == slot_count(world[j].kind)
    &&& forall|j: int, k: int| 0 <= j < slots.len() && 0 <= k < slots[j].len() ==> {
            &&& (#[trigger] slots[j][k]).0 < v.materials
            &&& slots[j][k].1 < v.transforms
        }
    &&& v.spheres + spheres_before(world, world.len() as int) <= u32::MAX
    &&& v.quads + quads_before(world, world.len() as int) <= u32::MAX
    &&& v.triangles + triangles_before(world, world.len() as int) <= u32::MAX
}

/// The tables `after` are `before` with the primitives of the first `n`
/// objects appended: object `j`'s primitives sit at positions
/// `prim_start(world, j) .. prim_start(world, j + 1)` past the primitives
/// that were there, and the sphere, quad and triangle tables grew by the
/// objects' records; nothing else changed.
pub open spec fn world_laid_out<B>(
    before: LayoutView,
    after: LayoutView,
    world: Seq<WorldObject<B>>,
    slots: Seq<Seq<(u32, u32)>>,
    n: int,
) -> bool {
    &&& after == LayoutView {
            primitives: after.primitives,
            spheres: before.spheres + spheres_before(world, n),
            quads: before.quads + quads_before(world, n),
            triangles: before.triangles + triangles_before(world, n),
            ..before
        }
    &&& after.primitives.len() == before.primitives.len() + prim_start(world, n)
    &&& after.primitives.subrange(0, before.primitives.len() as int) == before.primitives
    &&& forall|j: int, i: int|
            #![trigger world_prim(before, world, slots, j, i)]
            0 <= j < n && 0 <= i < prim_count(world[j].kind) ==>
            after.primitives[before.primitives.len() + prim_start(world, j) + i] == world_prim(before, world, slots, j, i)
}

proof fn lemma_records_monotone<B>(world: Seq<WorldObject<B>>, j: int, k: int)
    requires
        j <= k,
    ensures
        spheres_before(world, j) <= spheres_before(world, k),
        quads_before(world, j) <= quads_before(world, k),
        triangles_before(world, j) <= triangles_before(world, k),
    decreases k - j,
{
    if j < k {
        lemma_records_monotone(world, j, k - 1);
    }
}

/// Appending object `j`'s primitives to tables that hold the first `j`
/// objects' gives tables that hold the first `j + 1` objects'.
proof fn lemma_laid_out_step<B>(
    before: LayoutView,
    prev: LayoutView,
    next: LayoutView,
    world: Seq<WorldObject<B>>,
    slots: Seq<Seq<(u32, u32)>>,
    j: int,
    added: Seq<GpuPrimitive>,
)
    requires
        0 <= j < world.len(),
        world_laid_out(before, prev, world, slots, j),
        added.len() == prim_count(world[j].kind),
        forall|i: int| 0 <= i < added.len() ==> added[i] == world_prim(before, world, slots, j, i),
        next == (LayoutView {
            primitives: prev.primitives + added,
            spheres: prev.spheres + kind_spheres(world[j].kind),
            quads: prev.quads + kind_quads(world[j].kind),
            triangles: prev.triangles + kind_triangles(world[j].kind),
            ..prev
        }),
    ensures
        world_laid_out(before, next, world, slots, j + 1),
{
    let b = before.primitives.len() as int;
    assert(next.primitives.subrange(0, b) =~= prev.primitives.subrange(0, b));
    assert forall|m: int, i: int|
        #![trigger world_prim(before, world, slots, m, i)]
        0 <= m < j + 1 && 0 <= i < prim_count(world[m].kind) implies
        next.primitives[b + prim_start(world, m) + i] == world_prim(before, world, slots, m, i) by {
        if m < j {
            lemma_prim_start_monotone(world, m + 1, j);
            assert(prev.primitives[b + prim_start(world, m) + i] == world_prim(before, world, slots, m, i));
        } else {
            assert(next.primitives[b + prim_start(world, m) + i] == added[i]);
        }
    }
}

/// The primitive that object `j`'s `i`-th primitive became in `after`, when
/// the world was laid out after the tables `before`.
pub open spec fn placed_prim<B>(before: LayoutView, after: LayoutView, world: Seq<WorldObject<B>>, j: int, i: int) -> GpuPrimitive {
    after.primitives[before.primitives.len() + prim_start(world, j) + i]
}

/// The record a primitive names is one the layout added: a sphere, quad or
/// triangle record numbered from the table's size before up to its size
/// after.
pub open spec fn names_new_record(before: LayoutView, after: LayoutView, p: GpuPrimitive) -> bool {
    ||| p.prim_type == PRIM_SPHERE && before.spheres <= p.data_index < after.spheres
    ||| p.prim_type == PRIM_QUAD && before.quads <= p.data_index < after.quads
    ||| p.prim_type == PRIM_TRIANGLE && before.triangles <= p.data_index < after.triangles
}

/// Where object `j`'s `i`-th primitive landed, what it is, and that its
/// record index lies in the added part of its table.
proof fn lemma_placed_prim<B>(
    before: LayoutView,
    after: LayoutView,
    world: Seq<WorldObject<B>>,
    slots: Seq<Seq<(u32, u32)>>,
    j: int,
    i: int,
)
    requires
        world_laid_out(before, after, world, slots, world.len() as int),
        after.wf(),
        0 <= j < world.len(),
        0 <= i < prim_count(world[j].kind),
    ensures
        placed_prim(before, after, world, j, i) == world_prim(before, world, slots, j, i),
        world[j].kind is Sphere ==> before.spheres + spheres_before(world, j) + 1 <= after.spheres,
        (world[j].kind is Quad || world[j].kind is Cuboid)
            ==> before.quads + quads_before(world, j) + kind_quads(world[j].kind) <= after.quads,
        world[j].kind is Mesh ==> before.triangles + triangles_before(world, j) + kind_triangles(world[j].kind) <= after.triangles,
        after.spheres <= u32::MAX,
        after.quads <= u32::MAX,
        after.triangles <= u32::MAX,
{
    assert(world_prim(before, world, slots, j, i) == placed_prim(before, after, world, j, i));
    lemma_records_monotone(world, j + 1, world.len() as int);
}

proof fn lemma_placed_pair_ordered<B>(
    before: LayoutView,
    after: LayoutView,
    world: Seq<WorldObject<B>>,
    slots: Seq<Seq<(u32, u32)>>,
    j1: int,
    i1: int,
    j2: int,
    i2: int,
)
    requires
        world_laid_out(before, after, world, slots, world.len() as int),
        after.wf(),
        0 <= j1 <= j2 < world.len(),
        0 <= i1 < prim_count(world[j1].kind),
        0 <= i2 < prim_count(world[j2].kind),
        j1 < j2 || i1 < i2,
        placed_prim(before, after, world, j1, i1).prim_type == placed_prim(before, after, world, j2, i2).prim_type,
    ensures
        placed_prim(before, after, world, j1, i1).data_index < placed_prim(before, after, world, j2, i2).data_index,
{
    lemma_placed_prim(before, after, world, slots, j1, i1);
    lemma_placed_prim(before, after, world, slots, j2, i2);
    if j1 < j2 {
        lemma_records_monotone(world, j1 + 1, j2);
    }
}

/// The world's primitives name the records the layout added, each record
/// named once: every primitive of object `j` has the kind of its object
/// (sphere, quad for a quad or a box, triangle for a mesh), takes its
/// material and transform from the object's pairs (a box's `i`-th face from
/// its `i`-th pair), and names a record added to its table; of two
/// primitives of one kind, the earlier (in world order, then face or triangle
/// order) names the lower record, so no record is named twice.
pub proof fn lemma_laid_out_records<B>(
    before: LayoutView,
    after: LayoutView,
    world: Seq<WorldObject<B>>,
    slots: Seq<Seq<(u32, u32)>>,
)
    requires
        world_laid_out(before, after, world, slots, world.len() as int),
        after.wf(),
    ensures
        forall|j: int, i: int| 0 <= j < world.len() && 0 <= i < prim_count(world[j].kind) ==> {
            let p = #[trigger] placed_prim(before, after, world, j, i);
            let s = if world[j].kind is Cuboid { slots[j][i] } else { slots[j][0] };
            &&& names_new_record(before, after, p)
            &&& world[j].kind is Sphere ==> p.prim_type == PRIM_SPHERE
            &&& (world[j].kind is Quad || world[j].kind is Cuboid) ==> p.prim_type == PRIM_QUAD
            &&& world[j].kind is Mesh ==> p.prim_type == PRIM_TRIANGLE
            &&& p.material_index == s.0
            &&& p.transform_index == s.1
        },
        forall|j1: int, i1: int, j2: int, i2: int|
            0 <= j1 < world.len() && 0 <= i1 < prim_count(world[j1].kind)
            && 0 <= j2 < world.len() && 0 <= i2 < prim_count(world[j2].kind)
            && (j1 < j2 || (j1 == j2 && i1 < i2))
            && (#[trigger] placed_prim(before, after, world, j1, i1)).prim_type
                == (#[trigger] placed_prim(before, after, world, j2, i2)).prim_type
            ==> placed_prim(before, after, world, j1, i1).data_index < placed_prim(before, after, world, j2, i2).data_index,
{
    assert forall|j: int, i: int| 0 <= j < world.len() && 0 <= i < prim_count(world[j].kind) implies {
        let p = #[trigger] placed_prim(before, after, world, j, i);
        let s = if world[j].kind is Cuboid { slots[j][i] } else { slots[j][0] };
        &&& names_new_record(before, after, p)
        &&& world[j].kind is Sphere ==> p.prim_type == PRIM_SPHERE
        &&& (world[j].kind is Quad || world[j].kind is Cuboid) ==> p.prim_type == PRIM_QUAD
        &&& world[j].kind is Mesh ==> p.prim_type == PRIM_TRIANGLE
        &&& p.material_index == s.0
        &&& p.transform_index == s.1
    } by {
        lemma_placed_prim(before, after, world, slots, j, i);
    }
    assert forall|j1: int, i1: int, j2: int, i2: int|
        0 <= j1 < world.len() && 0 <= i1 < prim_count(world[j1].kind)
        && 0 <= j2 < world.len() && 0 <= i2 < prim_count(world[j2].kind)
        && (j1 < j2 || (j1 == j2 && i1 < i2))
        && (#[trigger] placed_prim(before, after, world, j1, i1)).prim_type
            == (#[trigger] placed_prim(before, after, world, j2, i2)).prim_type
        implies placed_prim(before, after, world, j1, i1).data_index < placed_prim(before, after, world, j2, i2).data_index by {
        lemma_placed_pair_ordered(before, after, world, slots, j1, i1, j2, i2);
    }
}

/// Light entries name the light's primitives: when the world's primitives
/// are laid out on an empty primitive table, each entry of a light found in
/// the world list is the position of a primitive of the object it was found
/// at, the entries running over all of that object's primitives in order.
pub proof fn lemma_light_entries_name_object_prims<B>(
    before: LayoutView,
    after: LayoutView,
    world: Seq<WorldObject<B>>,
    slots: Seq<Seq<(u32, u32)>>,
    key: usize,
)
    requires
        before.primitives.len() == 0,
        world_laid_out(before, after, world, slots, world.len() as int),
        light_fits(world, key),
    ensures
        ({
            let j = find_key(world, key, 0);
            let entries = light_prims(world, key);
            &&& j < world.len() ==> entries.len() == prim_count(world[j].kind)
            &&& j >= world.len() ==> entries.len() == 0
            &&& forall|i: int| 0 <= i < entries.len() ==> {
                &&& entries[i] == prim_start(world, j) + i
                &&& after.primitives[entries[i] as int] == world_prim(before, world, slots, j, i)
            }
        }),
{
    let j = find_key(world, key, 0);
    let entries = light_prims(world, key);
    lemma_find_key_range(world, key, 0);
    if j < world.len() {
        assert forall|i: int| 0 <= i < entries.len() implies {
            &&& entries[i] == prim_start(world, j) + i
            &&& after.primitives[entries[i] as int] == world_prim(before, world, slots, j, i)
        } by {
            assert(after.primitives[before.primitives.len() + prim_start(world, j) + i] == world_prim(before, world, slots, j, i));
        }
    }
}

impl SceneLayout {
    /// Empty tables.
    pub fn new() -> (layout: Self)
        ensures
            layout@.wf(),
            layout@.primitives == Seq::<GpuPrimitive>::empty(),
            layout@.lights == Seq::<u32>::empty(),
            layout@.material_keys == Map::<usize, u32>::empty(),
            layout@.materials == 0,
            layout@.transforms == 0,
            layout@.spheres == 0,
            layout@.quads == 0,
            layout@.triangles == 0,
    {
        SceneLayout {
            primitives: Vec::new(),
            light_prim_indices: Vec::new(),
            material_map: HashMap::new(),
            material_count: 0,
            transform_count: 0,
            sphere_count: 0,
            quad_count: 0,
            triangle_count: 0,
        }
    }

    /// Gives a material its table index. A shared material (`Some(key)`, the
    /// key being its address) that was given an index before gets the same
    /// index again; anything else gets the next free index. The flag says
    /// whether a new table entry was made, which the caller then fills.
    pub fn add_material(&mut self, key: Option<usize>) -> (res: (u32, bool))
        requires
            old(self)@.wf(),
            old(self)@.materials < u32::MAX,
        ensures
            final(self)@.wf(),
            (final(self)@, res) == material_step(old(self)@, key),
    {
        match key {
            Some(k) => {
                match self.material_map.get(&k) {
                    Some(idx) => {
                        return (*idx, false);
                    },
                    None => {},
                }
                let idx = self.material_count as u32;
                self.material_map.insert(k, idx);
                self.material_count = self.material_count + 1;
                proof { lemma_more_materials(old(self)@, self@); }
                assert forall|k2: usize| self@.material_keys.contains_key(k2) implies #[trigger] self@.material_keys[k2] < self@.materials by {
                    if k2 != k {
                        assert(old(self)@.material_keys.contains_key(k2));
                    }
                }
                (idx, true)
            },
            None => {
                let idx = self.material_count as u32;
                self.material_count = self.material_count + 1;
                proof { lemma_more_materials(old(self)@, self@); }
                assert forall|k2: usize| self@.material_keys.contains_key(k2) implies #[trigger] self@.material_keys[k2] < self@.materials by {
                    assert(old(self)@.material_keys.contains_key(k2));
                }
                (idx, true)
            },
        }
    }

    /// Gives a transform the next free table index.
    pub fn add_transform(&mut self) -> (idx: u32)
        requires
            old(self)@.wf(),
            old(self)@.transforms < u32::MAX,
        ensures
            final(self)@.wf(),
            idx == old(self)@.transforms,
            final(self)@ == (LayoutView { transforms: old(self)@.transforms + 1, ..old(self)@ }),
    {
        let idx = self.transform_count as u32;
        self.transform_count = self.transform_count + 1;
        proof {
            lemma_keys_kept(old(self)@, self@);
            assert forall|i: int| 0 <= i < self@.primitives.len() implies self@.primitive_valid(#[trigger] self@.primitives[i]) by {
                assert(old(self)@.primitive_valid(old(self)@.primitives[i]));
            }
        }
        idx
    }

    /// Records a sphere primitive with the given material and transform; its
    /// record gets the next index of the sphere table, which is returned.
    pub fn add_sphere(&mut self, material_index: u32, transform_index: u32) -> (idx: u32)
        requires
            old(self)@.wf(),
            material_index < old(self)@.materials,
            transform_index < old(self)@.transforms,
            old(self)@.spheres < u32::MAX,
        ensures
            final(self)@.wf(),
            idx == old(self)@.spheres,
            final(self)@ == (LayoutView {
                spheres: old(self)@.spheres + 1,
                ..old(self)@.with_primitive(GpuPrimitive {
                    prim_type: PRIM_SPHERE,
                    data_index: idx,
                    material_index,
                    transform_index,
                })
            }),
    {
        let idx = self.sphere_count as u32;
        self.primitives.push(GpuPrimitive { prim_type: PRIM_SPHERE, data_index: idx, material_index, transform_index });
        self.sphere_count = self.sphere_count + 1;
        proof {
            lemma_keys_kept(old(self)@, self@);
            assert forall|i: int| 0 <= i < self@.primitives.len() implies self@.primitive_valid(#[trigger] self@.primitives[i]) by {
                if i < old(self)@.primitives.len() {
                    assert(old(self)@.primitive_valid(old(self)@.primitives[i]));
                }
            }
        }
        idx
    }

    /// Records a quad primitive with the given material and transform; its
    /// record gets the next index of the quad table, which is returned.
    pub fn add_quad(&mut self, material_index: u32, transform_index: u32) -> (idx: u32)
        requires
            old(self)@.wf(),
            material_index < old(self)@.materials,
            transform_index < old(self)@.transforms,
            old(self)@.quads < u32::MAX,
        ensures
            final(self)@.wf(),
            idx == old(self)@.quads,
            final(self)@ == (LayoutView {
                quads: old(self)@.quads + 1,
                ..old(self)@.with_primitive(GpuPrimitive {
                    prim_type: PRIM_QUAD,
                    data_index: idx,
                    material_index,
                    transform_index,
                })
            }),
    {
        let idx = self.quad_count as u32;
        self.primitives.push(GpuPrimitive { prim_type: PRIM_QUAD, data_index: idx, material_index, transform_index });
        self.quad_count = self.quad_count + 1;
        proof {
            lemma_keys_kept(old(self)@, self@);
            assert forall|i: int| 0 <= i < self@.primitives.len() implies self@.primitive_valid(#[trigger] self@.primitives[i]) by {
                if i < old(self)@.primitives.len() {
                    assert(old(self)@.primitive_valid(old(self)@.primitives[i]));
                }
            }
        }
        idx
    }

    /// Records `count` triangle primitives sharing a material and a transform,
    /// one per triangle of a mesh; their records get the next `count` indices
    /// of the triangle table, of which the first is returned.
    pub fn add_triangles(&mut self, material_index: u32, transform_index: u32, count: usize) -> (start: u32)
        requires
            old(self)@.wf(),
            material_index < old(self)@.materials,
            transform_index < old(self)@.transforms,
            old(self)@.triangles + count <= u32::MAX,
        ensures
            final(self)@.wf(),
            start == old(self)@.triangles,
            final(self)@ == (LayoutView {
                primitives: old(self)@.primitives + Seq::new(count as nat, |i: int| GpuPrimitive {
                    prim_type: PRIM_TRIANGLE,
                    data_index: (start + i) as u32,
                    material_index,
                    transform_index,
                }),
                triangles: old(self)@.triangles + count as nat,
                ..old(self)@
            }),
    {
        let start = self.triangle_count as u32;
        let ghost added = Seq::new(count as nat, |i: int| GpuPrimitive {
            prim_type: PRIM_TRIANGLE,
            data_index: (start + i) as u32,
            material_index,
            transform_index,
        });
        let mut i: usize = 0;
        while i < count
            invariant
                old(self)@.wf(),
                i <= count,
                start == old(self)@.triangles,
                start + count <= u32::MAX,
                material_index < old(self)@.materials,
                transform_index < old(self)@.transforms,
                self@ == (LayoutView { primitives: old(self)@.primitives + added.take(i as int), ..old(self)@ }),
                added == Seq::new(count as nat, |i: int| GpuPrimitive {
                    prim_type: PRIM_TRIANGLE,
                    data_index: (start + i) as u32,
                    material_index,
                    transform_index,
                }),
            decreases count - i,
        {
            self.primitives.push(GpuPrimitive {
                prim_type: PRIM_TRIANGLE,
                data_index: start + i as u32,
                material_index,
                transform_index,
            });
            i = i + 1;
            assert(added.take(i as int) =~= added.take(i - 1).push(added[i - 1]));
            assert(self.primitives@ =~= old(self)@.primitives + added.take(i as int));
        }
        self.triangle_count = self.triangle_count + count;
        assert(added.take(count as int) =~= added);
        proof {
            lemma_keys_kept(old(self)@, self@);
            assert forall|i: int| 0 <= i < self@.primitives.len() implies self@.primitive_valid(#[trigger] self@.primitives[i]) by {
                if i < old(self)@.primitives.len() {
                    assert(old(self)@.primitive_valid(old(self)@.primitives[i]));
                } else {
                    assert(self@.primitives[i] == added[i - old(self)@.primitives.len()]);
                }
            }
        }
        start
    }

    /// Records the primitives of every world object, in world-list order and
    /// by its kind: a sphere or a quad gets one record, a box six quads (one
    /// per face, each with its own pair), a mesh one triangle per triangle
    /// (all with its one pair), any other object none. `slots[j]` holds the
    /// (material, transform) pairs of object `j`.
    pub fn add_world<B>(&mut self, world: &Vec<WorldObject<B>>, slots: &Vec<Vec<(u32, u32)>>)
        requires
            old(self)@.wf(),
            world_layout_ok(old(self)@, world@, slots_view(slots@)),
        ensures
            final(self)@.wf(),
            world_laid_out(old(self)@, final(self)@, world@, slots_view(slots@), world@.len() as int),
    {
        let ghost sv = slots_view(slots@);
        let ghost start = self@;
        proof {
            assert(self@.primitives.subrange(0, self@.primitives.len() as int) =~= self@.primitives);
            assert(self@ == (LayoutView {
                primitives: self@.primitives,
                spheres: start.spheres + spheres_before(world@, 0),
                quads: start.quads + quads_before(world@, 0),
                triangles: start.triangles + triangles_before(world@, 0),
                ..start
            }));
        }
        let mut j: usize = 0;
        while j < world.len()
            invariant
                j <= world@.len(),
                start == old(self)@,
                sv == slots_view(slots@),
                world_layout_ok(start, world@, sv),
                self@.wf(),
                world_laid_out(start, self@, world@, sv, j as int),
            decreases world@.len() - j,
        {
            let ghost prev = self@;
            let ghost added = Seq::new(prim_count(world@[j as int].kind), |i: int| world_prim(start, world@, sv, j as int, i));
            proof {
                lemma_records_monotone(world@, j + 1, world@.len() as int);
                assert(sv[j as int] == slots@[j as int]@);
                assert(sv[j as int].len() == slot_count(world@[j as int].kind));
            }
            let s = &slots[j];
            match &world[j].kind {
                ObjectKind::Sphere => {
                    assert(sv[j as int][0] == s@[0]);
                    self.add_sphere(s[0].0, s[0].1);
                    assert(self@.primitives =~= prev.primitives + added);
                },
                ObjectKind::Quad => {
                    assert(sv[j as int][0] == s@[0]);
                    self.add_quad(s[0].0, s[0].1);
                    assert(self@.primitives =~= prev.primitives + added);
                },
                ObjectKind::Cuboid => {
                    let mut k: usize = 0;
                    while k < 6
                        invariant
                            k <= 6,
                            j < world@.len(),
                            world@[j as int].kind is Cuboid,
                            s@ == sv[j as int],
                            s@.len() == 6,
                            world_layout_ok(start, world@, sv),
                            prev.quads + 6 <= u32::MAX,
                            prev.quads == start.quads + quads_before(world@, j as int),
                            prev.materials == start.materials,
                            prev.transforms == start.transforms,
                            self@.wf(),
                            self@ == (LayoutView {
                                primitives: prev.primitives + added.take(k as int),
                                quads: prev.quads + k as nat,
                                ..prev
                            }),
                            added == Seq::new(prim_count(world@[j as int].kind), |i: int| world_prim(start, world@, sv, j as int, i)),
                        decreases 6 - k,
                    {
                        assert(sv[j as int][k as int] == s@[k as int]);
                        self.add_quad(s[k].0, s[k].1);
                        k = k + 1;
                        assert(added.take(k as int) =~= added.take(k - 1).push(added[k - 1]));
                        assert(self@.primitives =~= prev.primitives + added.take(k as int));
                    }
                    assert(added.take(6) =~= added);
                },
                ObjectKind::Mesh { triangles, .. } => {
                    assert(sv[j as int][0] == s@[0]);
                    self.add_triangles(s[0].0, s[0].1, *triangles);
                    assert(self@.primitives =~= prev.primitives + added);
                },
                ObjectKind::Other => {
                    assert(self@.primitives =~= prev.primitives + added);
                },
            }
            proof {
                lemma_laid_out_step(start, prev, self@, world@, sv, j as int, added);
            }
            j = j + 1;
        }
    }

    /// Whether the world's primitives can be recorded with the given pairs
    /// (the condition of `add_world`).
    pub fn can_add_world<B>(&self, world: &Vec<WorldObject<B>>, slots: &Vec<Vec<(u32, u32)>>) -> (ok: bool)
        requires
            self@.wf(),
        ensures
            ok == world_layout_ok(self@, world@, slots_view(slots@)),
    {
        let ghost sv = slots_view(slots@);
        if slots.len() != world.len() {
            return false;
        }
        let mut spheres: u64 = self.sphere_count as u64;
        let mut quads: u64 = self.quad_count as u64;
        let mut triangles: u64 = self.triangle_count as u64;
        let mut j: usize = 0;
        while j < world.len()
            invariant
                j <= world@.len(),
                slots@.len() == world@.len(),
                sv == slots_view(slots@),
                self@.wf(),
                spheres == self@.spheres + spheres_before(world@, j as int),
                quads == self@.quads + quads_before(world@, j as int),
                triangles == self@.triangles + triangles_before(world@, j as int),
                spheres <= u32::MAX,
                quads <= u32::MAX,
                triangles <= u32::MAX,
                forall|m: int| 0 <= m < j ==> #[trigger] sv[m].len() == slot_count(world@[m].kind),
                forall|m: int, k: int| 0 <= m < j && 0 <= k < sv[m].len() ==> {
                    &&& (#[trigger] sv[m][k]).0 < self@.materials
                    &&& sv[m][k].1 < self@.transforms
                },
            decreases world@.len() - j,
        {
            let s = &slots[j];
            assert(sv[j as int] == s@);
            let want: usize = match &world[j].kind {
                ObjectKind::Sphere => 1,
                ObjectKind::Quad => 1,
                ObjectKind::Cuboid => 6,
                ObjectKind::Mesh { .. } => 1,
                ObjectKind::Other => 0,
            };
            if s.len() != want {
                assert(!world_layout_ok(self@, world@, sv)) by {
                    assert(sv[j as int].len() != slot_count(world@[j as int].kind));
                }
                return false;
            }
            let mut k: usize = 0;
            while k < s.len()
                invariant
                    k <= s@.len(),
                    j < world@.len(),
                    slots@.len() == world@.len(),
                    sv == slots_view(slots@),
                    sv[j as int] == s@,
                    forall|kk: int| 0 <= kk < k ==> {
                        &&& (#[trigger] s@[kk]).0 < self@.materials
                        &&& s@[kk].1 < self@.transforms
                    },
                decreases s@.len() - k,
            {
                if s[k].0 as usize >= self.material_count || s[k].1 as usize >= self.transform_count {
                    assert(!world_layout_ok(self@, world@, sv)) by {
                        assert(sv[j as int][k as int] == s@[k as int]);
                    }
                    return false;
                }
                k = k + 1;
            }
            let (ds, dq, dt): (u64, u64, u64) = match &world[j].kind {
                ObjectKind::Sphere => (1, 0, 0),
                ObjectKind::Quad => (0, 1, 0),
                ObjectKind::Cuboid => (0, 6, 0),
                ObjectKind::Mesh { triangles, .. } => (0, 0, *triangles as u64),
                ObjectKind::Other => (0, 0, 0),
            };
            if ds > 0xffff_ffffu64 - spheres || dq > 0xffff_ffffu64 - quads || dt > 0xffff_ffffu64 - triangles {
                proof {
                    lemma_records_monotone(world@, j + 1, world@.len() as int);
                }
                return false;
            }
            spheres = spheres + ds;
            quads = quads + dq;
            triangles = triangles + dt;
            j = j + 1;
        }
        true
    }

    /// Finds the primitives of each light. A light is looked up in the world
    /// list by its key; its entries are the positions its primitives have in
    /// the primitive table, numbered in world-list order as `prim_count`
    /// counts them. A light that is not in the world list adds nothing.
    pub fn find_lights<B>(&mut self, world: &Vec<WorldObject<B>>, lights: &Vec<usize>)
        requires
            old(self)@.wf(),
            lights_fit(world@, lights@),
        ensures
            final(self)@.wf(),
            final(self)@ == (LayoutView { lights: old(self)@.lights + lights_prims(world@, lights@), ..old(self)@ }),
    {
        let mut l: usize = 0;
        while l < lights.len()
            invariant
                old(self)@.wf(),
                l <= lights@.len(),
                lights_fit(world@, lights@),
                self@ == (LayoutView { lights: old(self)@.lights + lights_prims(world@, lights@.take(l as int)), ..old(self)@ }),
            decreases lights@.len() - l,
        {
            let key = lights[l];
            assert(light_fits(world@, key));
            let ghost before = self@;
            let mut prim_idx: u64 = 0;
            let mut j: usize = 0;
            let mut found = false;
            while !found && j < world.len()
                invariant
                    j <= world@.len(),
                    light_fits(world@, key),
                    prim_idx == prim_start(world@, j as int),
                    prim_idx <= u32::MAX,
                    forall|m: int| 0 <= m < j ==> world@[m].key != key,
                    found ==> j < world@.len() && world@[j as int].key == key,
                decreases world@.len() - j, (if found { 0int } else { 1int }),
            {
                if world[j].key == key {
                    found = true;
                } else {
                    proof {
                        lemma_find_key_skip(world@, key, 0, j + 1);
                        lemma_find_key_range(world@, key, j + 1);
                        let jj = find_key(world@, key, 0);
                        lemma_prim_start_monotone(world@, j + 1, jj);
                        lemma_prim_start_monotone(world@, j + 1, world@.len() as int);
                    }
                    let num_prims = prim_count_of(&world[j].kind);
                    prim_idx = prim_idx + num_prims;
                    j = j + 1;
                }
            }
            proof {
                lemma_find_key_skip(world@, key, 0, j as int);
            }
            if found {
                let num_prims = prim_count_of(&world[j].kind);
                let mut i: u64 = 0;
                while i < num_prims
                    invariant
                        i <= num_prims,
                        j < world@.len(),
                        num_prims == prim_count(world@[j as int].kind),
                        prim_idx + num_prims <= u32::MAX + 1,
                        self@ == (LayoutView {
                            lights: before.lights + Seq::new(i as nat, |m: int| (prim_idx + m) as u32),
                            ..before
                        }),
                    decreases num_prims - i,
                {
                    self.light_prim_indices.push((prim_idx + i) as u32);
                    i = i + 1;
                    assert(Seq::new(i as nat, |m: int| (prim_idx + m) as u32)
                        =~= Seq::new((i - 1) as nat, |m: int| (prim_idx + m) as u32).push((prim_idx + i - 1) as u32));
                    assert(self@.lights =~= before.lights + Seq::new(i as nat, |m: int| (prim_idx + m) as u32));
                }
                assert(self@.lights =~= before.lights + light_prims(world@, key));
            } else {
                assert(self@.lights =~= before.lights + light_prims(world@, key));
            }
            proof {
                assert(lights@.take(l + 1).drop_last() =~= lights@.take(l as int));
                assert(lights@.take(l + 1).last() == key);
                assert(lights_prims(world@, lights@.take(l + 1))
                    == lights_prims(world@, lights@.take(l as int)) + light_prims(world@, key));
                assert(old(self)@.lights + lights_prims(world@, lights@.take(l + 1))
                    =~= old(self)@.lights + lights_prims(world@, lights@.take(l as int)) + light_prims(world@, key));
            }
            l = l + 1;
        }
        assert(lights@.take(l as int) =~= lights@);
        proof {
            lemma_keys_kept(old(self)@, self@);
            assert forall|i: int| 0 <= i < self@.primitives.len() implies self@.primitive_valid(#[trigger] self@.primitives[i]) by {
                assert(old(self)@.primitive_valid(old(self)@.primitives[i]));
            }
        }
    }

    /// Hands over the primitive and light tables. An empty primitive table
    /// becomes a single all-zero record, and the flags say whether the
    /// material and transform tables are empty (the caller then puts one
    /// placeholder entry in each), as the GPU cannot bind an empty buffer.
    pub fn finish(self) -> (tables: LayoutTables)
        ensures
            tables.primitives@ == (if self@.primitives.len() == 0 {
                seq![GpuPrimitive { prim_type: 0, data_index: 0, material_index: 0, transform_index: 0 }]
            } else {
                self@.primitives
            }),
            tables.light_prim_indices@ == self@.lights,
            tables.pad_material == (self@.materials == 0),
            tables.pad_transform == (self@.transforms == 0),
    {
        let mut primitives = self.primitives;
        if primitives.len() == 0 {
            primitives.push(GpuPrimitive { prim_type: 0, data_index: 0, material_index: 0, transform_index: 0 });
        }
        LayoutTables {
            primitives,
            light_prim_indices: self.light_prim_indices,
            pad_material: self.material_count == 0,
            pad_transform: self.transform_count == 0,
        }
    }
}

/// The finished primitive and light tables, and whether the material and
/// transform tables need a placeholder entry.
pub struct LayoutTables {
    pub primitives: Vec<GpuPrimitive>,
    pub light_prim_indices: Vec<u32>,
    pub pad_material: bool,
    pub pad_transform: bool,
}

} // verus!