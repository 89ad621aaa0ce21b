//! Bounding volume hierarchies and their flattening into the array that the
//! GPU walks. Bounds are carried along as they are, of whatever type `B`.

use std::collections::HashMap;
use vstd::prelude::*;

use crate::gpu::layout::{lemma_prim_start_monotone, prim_count, prim_count_of, prim_start, ObjectKind, WorldObject};

verus! {

/// A node of a mesh's hierarchy over its triangles. A node with a positive
/// `tri_count` is a leaf holding triangles `start_tri .. start_tri + tri_count`;
/// any other node has up to two children.
pub struct TriBvhNode<B> {
    pub bbox: B,
    pub left: Option<Box<TriBvhNode<B>>>,
    pub right: Option<Box<TriBvhNode<B>>>,
    pub start_tri: usize,
    pub tri_count: usize,
}

/// A node of the flattened hierarchy. A leaf (`is_leaf == 1`) names its
/// first primitive and its primitive count; an inner node names the array
/// positions of its two children, 0 standing for a missing child.
pub struct FlatBvhNode<B> {
    pub bbox: B,
    pub left_or_prim: u32,
    pub right_or_count: u32,
    pub is_leaf: u32,
}

/// Every leaf's first primitive, offset by `start_prim`, fits in 32 bits.
pub open spec fn mesh_leaves_fit<B>(node: TriBvhNode<B>, start_prim: u32) -> bool
    decreases node,
{
    if node.tri_count > 0 {
        start_prim + (node.start_tri as u32) <= u32::MAX
    } else {
        &&& (match node.left {
            Some(l) => mesh_leaves_fit(*l, start_prim),
            None => true,
        })
        &&& (match node.right {
            Some(r) => mesh_leaves_fit(*r, start_prim),
            None => true,
        })
    }
}

/// The flattened form of a mesh hierarchy whose root lands at array position
/// `base`, in pre-order: the node, then its left subtree, then its right
/// subtree. A leaf names triangle primitives from `start_prim + start_tri`;
/// an inner node names where its children landed. Positions are stored as
/// 32-bit values.
pub open spec fn mesh_flat<B>(node: TriBvhNode<B>, start_prim: u32, base: int) -> Seq<FlatBvhNode<B>>
    decreases node,
{
    if node.tri_count > 0 {
        seq![FlatBvhNode {
            bbox: node.bbox,
            left_or_prim: (start_prim + (node.start_tri as u32)) as u32,
            right_or_count: node.tri_count as u32,
            is_leaf: 1,
        }]
    } else {
        let left_flat = child_flat(node.left, start_prim, base + 1);
        let right_base = base + 1 + left_flat.len();
        let right_flat = child_flat(node.right, start_prim, right_base);
        let left_idx: u32 = if node.left is Some { (base + 1) as u32 } else { 0 };
        let right_idx: u32 = if node.right is Some { right_base as u32 } else { 0 };
        seq![FlatBvhNode { bbox: node.bbox, left_or_prim: left_idx, right_or_count: right_idx, is_leaf: 0 }]
            + left_flat + right_flat
    }
}

/// The flattened form of an optional child, nothing when it is missing.
pub open spec fn child_flat<B>(child: Option<Box<TriBvhNode<B>>>, start_prim: u32, base: int) -> Seq<FlatBvhNode<B>>
    decreases child,
{
    match child {
        Some(c) => mesh_flat(*c, start_prim, base),
        None => Seq::empty(),
    }
}

/// The number of nodes of a mesh hierarchy.
pub open spec fn tree_size<B>(node: TriBvhNode<B>) -> nat
    decreases node,
{
    if node.tri_count > 0 {
        1
    } else {
        1 + child_size(node.left) + child_size(node.right)
    }
}

/// The number of nodes of an optional subtree.
pub open spec fn child_size<B>(child: Option<Box<TriBvhNode<B>>>) -> nat
    decreases child,
{
    match child {
        Some(c) => tree_size(*c),
        None => 0,
    }
}

/// Every inner node of a flattened hierarchy placed at `base` names, for each
/// child it has (a nonzero position), a position after its own and inside the
/// array: a walk down the array only ever moves forward and stays inside it.
pub open spec fn links_forward<B>(flat: Seq<FlatBvhNode<B>>, base: int) -> bool {
    forall|i: int| 0 <= i < flat.len() && (#[trigger] flat[i]).is_leaf == 0 ==> {
        &&& (flat[i].left_or_prim == 0 || base + i < flat[i].left_or_prim < base + flat.len())
        &&& (flat[i].right_or_count == 0 || base + i < flat[i].right_or_count < base + flat.len())
    }
}

/// An inner node followed by the flattened forms of its two children links
/// forward when the children do and the node's own links point at their roots.
proof fn lemma_links_concat<B>(root: FlatBvhNode<B>, lf: Seq<FlatBvhNode<B>>, rf: Seq<FlatBvhNode<B>>, base: int)
    requires
        links_forward(lf, base + 1),
        links_forward(rf, base + 1 + lf.len()),
        root.is_leaf == 0 ==> {
            &&& (root.left_or_prim == 0 || base < root.left_or_prim < base + 1 + lf.len() + rf.len())
            &&& (root.right_or_count == 0 || base < root.right_or_count < base + 1 + lf.len() + rf.len())
        },
    ensures
        links_forward(seq![root] + lf + rf, base),
{
    let flat = seq![root] + lf + rf;
    assert forall|i: int| 0 <= i < flat.len() && (#[trigger] flat[i]).is_leaf == 0 implies {
        &&& (flat[i].left_or_prim == 0 || base + i < flat[i].left_or_prim < base + flat.len())
        &&& (flat[i].right_or_count == 0 || base + i < flat[i].right_or_count < base + flat.len())
    } by {
        if i == 0 {
            assert(flat[i] == root);
        } else if i < 1 + lf.len() {
            assert(flat[i] == lf[i - 1]);
        } else {
            assert(flat[i] == rf[i - 1 - lf.len()]);
        }
    }
}

/// The flattened mesh hierarchy has one array entry per node.
pub proof fn lemma_mesh_flat_len<B>(node: TriBvhNode<B>, start_prim: u32, base: int)
    ensures
        mesh_flat(node, start_prim, base).len() == tree_size(node),
    decreases node,
{
    if node.tri_count == 0 {
        match node.left {
            Some(l) => lemma_mesh_flat_len(*l, start_prim, base + 1),
            None => {},
        }
        match node.right {
            Some(r) => lemma_mesh_flat_len(*r, start_prim, base + 1 + child_size(node.left)),
            None => {},
        }
    }
}

/// The flattened mesh hierarchy has one array entry per node and links
/// forward (its positions fitting in 32 bits).
pub proof fn lemma_mesh_flat_shape<B>(node: TriBvhNode<B>, start_prim: u32, base: int)
    requires
        0 <= base,
        base + tree_size(node) <= u32::MAX,
    ensures
        mesh_flat(node, start_prim, base).len() == tree_size(node),
        links_forward(mesh_flat(node, start_prim, base), base),
    decreases node,
{
    if node.tri_count == 0 {
        let lbase = base + 1;
        let rbase = base + 1 + child_size(node.left);
        match node.left {
            Some(l) => lemma_mesh_flat_shape(*l, start_prim, lbase),
            None => {},
        }
        match node.right {
            Some(r) => lemma_mesh_flat_shape(*r, start_prim, rbase),
            None => {},
        }
        let lf = child_flat(node.left, start_prim, lbase);
        let rf = child_flat(node.right, start_prim, rbase);
        assert(links_forward(lf, lbase));
        assert(links_forward(rf, rbase));
        lemma_links_concat(mesh_flat(node, start_prim, base)[0], lf, rf, base);
        assert(mesh_flat(node, start_prim, base) =~= seq![mesh_flat(node, start_prim, base)[0]] + lf + rf);
    }
}

/// The leaves of a flattened mesh hierarchy that stays inside its `triangles`
/// name primitive runs inside `start_prim .. start_prim + triangles`.
pub proof fn lemma_mesh_flat_leaves<B>(node: TriBvhNode<B>, triangles: nat, start_prim: u32, base: int)
    requires
        mesh_bvh_within(node, triangles),
        start_prim + triangles <= u32::MAX,
    ensures
        forall|i: int| 0 <= i < mesh_flat(node, start_prim, base).len()
            && (#[trigger] mesh_flat(node, start_prim, base)[i]).is_leaf == 1 ==> {
            let n = mesh_flat(node, start_prim, base)[i];
            start_prim <= n.left_or_prim && n.left_or_prim + n.right_or_count <= start_prim + triangles
        },
    decreases node,
{
    let flat = mesh_flat(node, start_prim, base);
    if node.tri_count == 0 {
        let lbase = base + 1;
        let lf = child_flat(node.left, start_prim, lbase);
        let rbase = base + 1 + lf.len();
        let rf = child_flat(node.right, start_prim, rbase);
        match node.left {
            Some(l) => {
                lemma_mesh_flat_leaves(*l, triangles, start_prim, lbase);
                assert(lf == mesh_flat(*l, start_prim, lbase));
            },
            None => {},
        }
        match node.right {
            Some(r) => {
                lemma_mesh_flat_leaves(*r, triangles, start_prim, rbase);
                assert(rf == mesh_flat(*r, start_prim, rbase));
            },
            None => {},
        }
        assert(flat =~= seq![flat[0]] + lf + rf);
        assert forall|i: int| 0 <= i < flat.len() && (#[trigger] flat[i]).is_leaf == 1 implies
            start_prim <= flat[i].left_or_prim && flat[i].left_or_prim + flat[i].right_or_count <= start_prim + triangles by {
            if i < 1 + lf.len() {
                assert(flat[i] == lf[i - 1]);
            } else {
                assert(flat[i] == rf[i - 1 - lf.len()]);
            }
        }
    }
}

/// The (first primitive, count) of each leaf of a flattened array, in array
/// order.
pub open spec fn leaf_ranges<B>(flat: Seq<FlatBvhNode<B>>) -> Seq<(u32, u32)>
    decreases flat.len(),
{
    if flat.len() == 0 {
        Seq::empty()
    } else {
        let rest = leaf_ranges(flat.drop_last());
        let last = flat.last();
        if last.is_leaf == 1 {
            rest.push((last.left_or_prim, last.right_or_count))
        } else {
            rest
        }
    }
}

/// The (first triangle, count) of each leaf of a mesh hierarchy, left to
/// right.
pub open spec fn tree_leaves<B>(node: TriBvhNode<B>) -> Seq<(nat, nat)>
    decreases node,
{
    if node.tri_count > 0 {
        seq![(node.start_tri as nat, node.tri_count as nat)]
    } else {
        child_leaves(node.left) + child_leaves(node.right)
    }
}

/// The leaves of an optional subtree, none when it is missing.
pub open spec fn child_leaves<B>(child: Option<Box<TriBvhNode<B>>>) -> Seq<(nat, nat)>
    decreases child,
{
    match child {
        Some(c) => tree_leaves(*c),
        None => Seq::empty(),
    }
}

proof fn lemma_leaf_ranges_concat<B>(a: Seq<FlatBvhNode<B>>, b: Seq<FlatBvhNode<B>>)
    ensures
        leaf_ranges(a + b) == leaf_ranges(a) + leaf_ranges(b),
    decreases b.len(),
{
    if b.len() == 0 {
        assert(a + b =~= a);
        assert(leaf_ranges(a) + leaf_ranges(b) =~= leaf_ranges(a));
    } else {
        lemma_leaf_ranges_concat(a, b.drop_last());
        assert((a + b).drop_last() =~= a + b.drop_last());
        assert((a + b).last() == b.last());
        if b.last().is_leaf == 1 {
            assert(leaf_ranges(a) + leaf_ranges(b) =~= (leaf_ranges(a) + leaf_ranges(b.drop_last())).push((b.last().left_or_prim, b.last().right_or_count)));
        } else {
            assert(leaf_ranges(a) + leaf_ranges(b) =~= leaf_ranges(a) + leaf_ranges(b.drop_last()));
        }
    }
}

/// Each leaf of a flattened mesh hierarchy covers exactly the triangles of a
/// leaf of the hierarchy, in the same left-to-right order: its first
/// primitive is `start_prim` plus the leaf's first triangle and its count is
/// the leaf's triangle count. So the flattened leaves cover exactly the
/// triangles the hierarchy holds.
pub proof fn lemma_mesh_flat_covers_leaves<B>(node: TriBvhNode<B>, triangles: nat, start_prim: u32, base: int)
    requires
        mesh_bvh_within(node, triangles),
        start_prim + triangles <= u32::MAX,
    ensures
        leaf_ranges(mesh_flat(node, start_prim, base)).len() == tree_leaves(node).len(),
        forall|k: int| 0 <= k < tree_leaves(node).len() ==> {
            &&& (#[trigger] leaf_ranges(mesh_flat(node, start_prim, base))[k]).0 == start_prim + tree_leaves(node)[k].0
            &&& leaf_ranges(mesh_flat(node, start_prim, base))[k].1 == tree_leaves(node)[k].1
        },
    decreases node,
{
    let flat = mesh_flat(node, start_prim, base);
    assert(leaf_ranges(Seq::<FlatBvhNode<B>>::empty()) =~= Seq::<(u32, u32)>::empty());
    if node.tri_count > 0 {
        assert(flat.drop_last() =~= Seq::<FlatBvhNode<B>>::empty());
    } else {
        let lbase = base + 1;
        let lf = child_flat(node.left, start_prim, lbase);
        let rbase = base + 1 + lf.len();
        let rf = child_flat(node.right, start_prim, rbase);
        let root = flat[0];
        assert(flat =~= seq![root] + lf + rf);
        assert(root.is_leaf == 0);
        lemma_leaf_ranges_concat(seq![root] + lf, rf);
        lemma_leaf_ranges_concat(seq![root], lf);
        assert(seq![root].drop_last() =~= Seq::<FlatBvhNode<B>>::empty());
        assert(leaf_ranges(seq![root]) =~= Seq::<(u32, u32)>::empty());
        let ll = child_leaves(node.left);
        let rl = child_leaves(node.right);
        match node.left {
            Some(l) => {
                lemma_mesh_flat_covers_leaves(*l, triangles, start_prim, lbase);
            },
            None => {
                assert(leaf_ranges(lf) =~= Seq::<(u32, u32)>::empty());
            },
        }
        match node.right {
            Some(r) => {
                lemma_mesh_flat_covers_leaves(*r, triangles, start_prim, rbase);
            },
            None => {
                assert(leaf_ranges(rf) =~= Seq::<(u32, u32)>::empty());
            },
        }
        assert(leaf_ranges(flat) =~= leaf_ranges(lf) + leaf_ranges(rf));
        assert(tree_leaves(node) =~= ll + rl);
        assert forall|k: int| 0 <= k < tree_leaves(node).len() implies {
            &&& (#[trigger] leaf_ranges(flat)[k]).0 == start_prim + tree_leaves(node)[k].0
            &&& leaf_ranges(flat)[k].1 == tree_leaves(node)[k].1
        } by {
            if k < ll.len() {
                assert(leaf_ranges(flat)[k] == leaf_ranges(lf)[k]);
            } else {
                assert(leaf_ranges(flat)[k] == leaf_ranges(rf)[k - ll.len()]);
            }
        }
    }
}

/// Appends the flattened form of a mesh hierarchy to `nodes` and returns the
/// position of its root (as a 32-bit value).
pub fn flatten_mesh_bvh<B: Copy>(node: &TriBvhNode<B>, start_prim: u32, nodes: &mut Vec<FlatBvhNode<B>>) -> (idx: u32)
    requires
        mesh_leaves_fit(*node, start_prim),
    ensures
        idx == old(nodes)@.len() as u32,
        final(nodes)@ == old(nodes)@ + mesh_flat(*node, start_prim, old(nodes)@.len() as int),
    decreases node,
{
    let at = nodes.len();
    let current_idx = at as u32;
    if node.tri_count > 0 {
        nodes.push(FlatBvhNode {
            bbox: node.bbox,
            left_or_prim: start_prim + node.start_tri as u32,
            right_or_count: node.tri_count as u32,
            is_leaf: 1,
        });
        assert(nodes@ =~= old(nodes)@ + mesh_flat(*node, start_prim, at as int));
        current_idx
    } else {
        nodes.push(FlatBvhNode { bbox: node.bbox, left_or_prim: 0, right_or_count: 0, is_leaf: 0 });
        let ghost after_root = nodes@;
        let left_idx = match &node.left {
            Some(left) => flatten_mesh_bvh(left, start_prim, nodes),
            None => 0,
        };
        let ghost after_left = nodes@;
        let right_idx = match &node.right {
            Some(right) => flatten_mesh_bvh(right, start_prim, nodes),
            None => 0,
        };
        nodes.set(at, FlatBvhNode { bbox: node.bbox, left_or_prim: left_idx, right_or_count: right_idx, is_leaf: 0 });
        proof {
            assert(after_left =~= after_root + child_flat(node.left, start_prim, at + 1));
            assert(nodes@ =~= old(nodes)@ + mesh_flat(*node, start_prim, at as int));
        }
        current_idx
    }
}

/// Every leaf of a mesh hierarchy holds triangles below `triangles`.
pub open spec fn mesh_bvh_within<B>(node: TriBvhNode<B>, triangles: nat) -> bool
    decreases node,
{
    if node.tri_count > 0 {
        node.start_tri + node.tri_count <= triangles
    } else {
        &&& (match node.left {
            Some(l) => mesh_bvh_within(*l, triangles),
            None => true,
        })
        &&& (match node.right {
            Some(r) => mesh_bvh_within(*r, triangles),
            None => true,
        })
    }
}

proof fn lemma_within_fits<B>(node: TriBvhNode<B>, triangles: nat, start_prim: u32)
    requires
        mesh_bvh_within(node, triangles),
        start_prim + triangles <= u32::MAX,
    ensures
        mesh_leaves_fit(node, start_prim),
    decreases node,
{
    if node.tri_count == 0 {
        match node.left {
            Some(l) => lemma_within_fits(*l, triangles, start_prim),
            None => {},
        }
        match node.right {
            Some(r) => lemma_within_fits(*r, triangles, start_prim),
            None => {},
        }
    }
}

/// Whether every leaf of a mesh hierarchy holds triangles below `triangles`.
pub fn mesh_bvh_fits<B>(node: &TriBvhNode<B>, triangles: usize) -> (ok: bool)
    ensures
        ok == mesh_bvh_within(*node, triangles as nat),
    decreases node,
{
    if node.tri_count > 0 {
        node.start_tri <= triangles && node.tri_count <= triangles - node.start_tri
    } else {
        let left_ok = match &node.left {
            Some(l) => mesh_bvh_fits(&**l, triangles),
            None => true,
        };
        let right_ok = match &node.right {
            Some(r) => mesh_bvh_fits(&**r, triangles),
            None => true,
        };
        left_ok && right_ok
    }
}

/// Whether the world list can be flattened: its primitives, counted as
/// `prim_count` does, fit 32-bit
/// indices, and every mesh hierarchy stays inside its mesh's triangles.
pub fn world_fits_check<B>(world: &Vec<WorldObject<B>>) -> (ok: bool)
    ensures
        ok == world_fits(world@),
{
    let mut total: u64 = 0;
    let mut j: usize = 0;
    while j < world.len()
        invariant
            j <= world@.len(),
            total == prim_start(world@, j as int),
            total <= u32::MAX,
            forall|m: int| 0 <= m < j && (#[trigger] world@[m]).kind is Mesh
                ==> mesh_bvh_within(world@[m].kind->bvh, world@[m].kind->triangles as nat),
        decreases world@.len() - j,
    {
        match &world[j].kind {
            ObjectKind::Mesh { triangles, bvh } => {
                if !mesh_bvh_fits(bvh, *triangles) {
                    assert(!world_fits(world@)) by {
                        assert(world@[j as int].kind is Mesh);
                    }
                    return false;
                }
            },
            _ => {},
        }
        let count = prim_count_of(&world[j].kind);
        if count > 0xffff_ffffu64 - total {
            proof {
                lemma_prim_start_monotone(world@, j + 1, world@.len() as int);
            }
            return false;
        }
        total = total + count;
        j = j + 1;
    }
    true
}

/// A child of a scene hierarchy node: another node, or an object of the
/// world list, known by its key, with its bounds.
pub enum BvhChild<B> {
    Node(Box<SceneBvh<B>>),
    Object { key: usize, bbox: B },
}

/// A node of the scene-level hierarchy over the world's objects.
pub struct SceneBvh<B> {
    pub bbox: B,
    pub left: BvhChild<B>,
    pub right: BvhChild<B>,
}

/// For each key among the first `n` objects, its run of primitives as
/// (first, count); a later object with the same key replaces an earlier one.
pub open spec fn prim_ranges<B>(world: Seq<WorldObject<B>>, n: int) -> Map<usize, (u32, u32)>
    decreases n,
{
    if n <= 0 {
        Map::empty()
    } else {
        prim_ranges(world, n - 1).insert(
            world[n - 1].key,
            (prim_start(world, n - 1) as u32, prim_count(world[n - 1].kind) as u32),
        )
    }
}

/// For each key of a mesh among the first `n` objects, the position of the
/// mesh in the list and its first primitive; later meshes replace earlier ones.
pub open spec fn mesh_starts<B>(world: Seq<WorldObject<B>>, n: int) -> Map<usize, (int, u32)>
    decreases n,
{
    if n <= 0 {
        Map::empty()
    } else if world[n - 1].kind is Mesh {
        mesh_starts(world, n - 1).insert(world[n - 1].key, (n - 1, prim_start(world, n - 1) as u32))
    } else {
        mesh_starts(world, n - 1)
    }
}

/// The world list is laid out with 32-bit primitive indices, and every mesh
/// hierarchy stays inside its mesh's triangles.
pub open spec fn world_fits<B>(world: Seq<WorldObject<B>>) -> bool {
    &&& prim_start(world, world.len() as int) <= u32::MAX
    &&& forall|j: int| 0 <= j < world.len() && (#[trigger] world[j]).kind is Mesh
        ==> mesh_bvh_within(world[j].kind->bvh, world[j].kind->triangles as nat)
}

/// The flattened form of an object child whose node lands at `base`: a mesh
/// contributes its own hierarchy, another known object a single leaf over its
/// primitives, an unknown object nothing.
pub open spec fn object_flat<B>(world: Seq<WorldObject<B>>, key: usize, bbox: B, base: int) -> Seq<FlatBvhNode<B>> {
    let meshes = mesh_starts(world, world.len() as int);
    let prims = prim_ranges(world, world.len() as int);
    if meshes.contains_key(key) {
        mesh_flat(world[meshes[key].0].kind->bvh, meshes[key].1, base)
    } else if prims.contains_key(key) {
        seq![FlatBvhNode { bbox, left_or_prim: prims[key].0, right_or_count: prims[key].1, is_leaf: 1 }]
    } else {
        Seq::empty()
    }
}

/// The object is in the world list.
pub open spec fn object_known<B>(world: Seq<WorldObject<B>>, key: usize) -> bool {
    prim_ranges(world, world.len() as int).contains_key(key)
}

/// The position an inner node records for a child that lands at `base`:
/// `base`, or 0 for an unknown object, which lands nowhere.
pub open spec fn child_index<B>(world: Seq<WorldObject<B>>, child: BvhChild<B>, base: int) -> u32 {
    match child {
        BvhChild::Node(_) => base as u32,
        BvhChild::Object { key, .. } => if object_known(world, key) { base as u32 } else { 0 },
    }
}

/// The flattened form of a child of a scene node that lands at `base`.
pub open spec fn scene_child_flat<B>(world: Seq<WorldObject<B>>, child: BvhChild<B>, base: int) -> Seq<FlatBvhNode<B>>
    decreases child,
{
    match child {
        BvhChild::Node(n) => scene_flat(world, *n, base),
        BvhChild::Object { key, bbox } => object_flat(world, key, bbox, base),
    }
}

/// The flattened form of a scene hierarchy whose root lands at `base`, in
/// pre-order. A node whose two children are the same known object becomes
/// that object's hierarchy (a mesh) or one leaf with the node's bounds;
/// any other node becomes an inner node followed by its flattened children.
pub open spec fn scene_flat<B>(world: Seq<WorldObject<B>>, node: SceneBvh<B>, base: int) -> Seq<FlatBvhNode<B>>
    decreases node,
{
    let meshes = mesh_starts(world, world.len() as int);
    let prims = prim_ranges(world, world.len() as int);
    if node.left is Object && node.right is Object && node.left->Object_key == node.right->Object_key
        && object_known(world, node.left->Object_key) {
        let key = node.left->Object_key;
        if meshes.contains_key(key) {
            mesh_flat(world[meshes[key].0].kind->bvh, meshes[key].1, base)
        } else {
            seq![FlatBvhNode { bbox: node.bbox, left_or_prim: prims[key].0, right_or_count: prims[key].1, is_leaf: 1 }]
        }
    } else {
        let left_flat = scene_child_flat(world, node.left, base + 1);
        let right_base = base + 1 + left_flat.len();
        let right_flat = scene_child_flat(world, node.right, right_base);
        seq![FlatBvhNode {
            bbox: node.bbox,
            left_or_prim: child_index(world, node.left, base + 1),
            right_or_count: child_index(world, node.right, right_base),
            is_leaf: 0,
        }] + left_flat + right_flat
    }
}

/// A recorded mesh is a mesh of the list, starting where its predecessors end,
/// and every recorded mesh key is a known object.
proof fn lemma_mesh_starts<B>(world: Seq<WorldObject<B>>, n: int, key: usize)
    requires
        0 <= n <= world.len(),
    ensures
        mesh_starts(world, n).contains_key(key) ==> {
            let (j, start) = mesh_starts(world, n)[key];
            &&& 0 <= j < n
            &&& world[j].kind is Mesh
            &&& world[j].key == key
            &&& start == prim_start(world, j) as u32
        },
        mesh_starts(world, n).contains_key(key) ==> prim_ranges(world, n).contains_key(key),
    decreases n,
{
    if n > 0 {
        lemma_mesh_starts(world, n - 1, key);
    }
}

/// A child that its parent records (a nonzero position) lands at that
/// position and is not empty; an unrecorded child adds nothing. All of it
/// links forward.
proof fn lemma_scene_child_links<B>(world: Seq<WorldObject<B>>, child: BvhChild<B>, base: int)
    requires
        world_fits(world),
        1 <= base,
        base + scene_child_flat(world, child, base).len() <= u32::MAX,
    ensures
        links_forward(scene_child_flat(world, child, base), base),
        child_index(world, child, base) != 0 ==> {
            &&& child_index(world, child, base) == base
            &&& scene_child_flat(world, child, base).len() >= 1
        },
        child_index(world, child, base) == 0 ==> scene_child_flat(world, child, base).len() == 0,
    decreases child,
{
    match child {
        BvhChild::Node(n) => {
            lemma_scene_flat_links(world, *n, base);
        },
        BvhChild::Object { key, bbox } => {
            lemma_object_links(world, key, bbox, base);
        },
    }
}

proof fn lemma_object_links<B>(world: Seq<WorldObject<B>>, key: usize, bbox: B, base: int)
    requires
        world_fits(world),
        0 <= base,
        base + object_flat(world, key, bbox, base).len() <= u32::MAX,
    ensures
        links_forward(object_flat(world, key, bbox, base), base),
        object_known(world, key) ==> object_flat(world, key, bbox, base).len() >= 1,
        !object_known(world, key) ==> object_flat(world, key, bbox, base).len() == 0,
{
    let n = world.len() as int;
    let meshes = mesh_starts(world, n);
    lemma_mesh_starts(world, n, key);
    if meshes.contains_key(key) {
        let (j, start) = meshes[key];
        lemma_mesh_flat_len(world[j].kind->bvh, start, base);
        lemma_mesh_flat_shape(world[j].kind->bvh, start, base);
    }
}

/// The flattened scene hierarchy is never empty and links forward (its
/// positions fitting in 32 bits).
pub proof fn lemma_scene_flat_links<B>(world: Seq<WorldObject<B>>, node: SceneBvh<B>, base: int)
    requires
        world_fits(world),
        0 <= base,
        base + scene_flat(world, node, base).len() <= u32::MAX,
    ensures
        scene_flat(world, node, base).len() >= 1,
        links_forward(scene_flat(world, node, base), base),
    decreases node,
{
    let n = world.len() as int;
    let meshes = mesh_starts(world, n);
    let flat = scene_flat(world, node, base);
    if node.left is Object && node.right is Object && node.left->Object_key == node.right->Object_key
        && object_known(world, node.left->Object_key) {
        let key = node.left->Object_key;
        lemma_mesh_starts(world, n, key);
        if meshes.contains_key(key) {
            let (j, start) = meshes[key];
            lemma_mesh_flat_len(world[j].kind->bvh, start, base);
            lemma_mesh_flat_shape(world[j].kind->bvh, start, base);
        }
    } else {
        let lbase = base + 1;
        let lf = scene_child_flat(world, node.left, lbase);
        let rbase = base + 1 + lf.len();
        let rf = scene_child_flat(world, node.right, rbase);
        assert(flat =~= seq![flat[0]] + lf + rf);
        lemma_scene_child_links(world, node.left, lbase);
        lemma_scene_child_links(world, node.right, rbase);
        lemma_links_concat(flat[0], lf, rf, base);
    }
}

proof fn lemma_unique_key_range<B>(world: Seq<WorldObject<B>>, j: int, n: int)
    requires
        0 <= j < n <= world.len(),
        forall|m: int| 0 <= m < world.len() && m != j ==> #[trigger] world[m].key != world[j].key,
    ensures
        prim_ranges(world, n).contains_key(world[j].key),
        prim_ranges(world, n)[world[j].key] == (prim_start(world, j) as u32, prim_count(world[j].kind) as u32),
    decreases n,
{
    if n > j + 1 {
        lemma_unique_key_range(world, j, n - 1);
        assert(world[n - 1].key != world[j].key);
    }
}

proof fn lemma_unique_non_mesh_not_mesh_start<B>(world: Seq<WorldObject<B>>, j: int, n: int)
    requires
        0 <= j < world.len(),
        0 <= n <= world.len(),
        !(world[j].kind is Mesh),
        forall|m: int| 0 <= m < world.len() && m != j ==> #[trigger] world[m].key != world[j].key,
    ensures
        !mesh_starts(world, n).contains_key(world[j].key),
    decreases n,
{
    if n > 0 {
        lemma_unique_non_mesh_not_mesh_start(world, j, n - 1);
        if n - 1 != j {
            assert(world[n - 1].key != world[j].key);
        }
    }
}

/// An object that is not a mesh, and whose key no other object shares,
/// flattens to one leaf naming exactly its own primitives: from its first,
/// `prim_start`, the same numbering that places its primitives in the
/// primitive table, as many as it has.
pub proof fn lemma_object_leaf_names_its_prims<B>(world: Seq<WorldObject<B>>, j: int, bbox: B, base: int)
    requires
        0 <= j < world.len(),
        !(world[j].kind is Mesh),
        forall|m: int| 0 <= m < world.len() && m != j ==> #[trigger] world[m].key != world[j].key,
        prim_start(world, world.len() as int) <= u32::MAX,
    ensures
        object_known(world, world[j].key),
        object_flat(world, world[j].key, bbox, base).len() == 1,
        object_flat(world, world[j].key, bbox, base)[0].bbox == bbox,
        object_flat(world, world[j].key, bbox, base)[0].is_leaf == 1,
        object_flat(world, world[j].key, bbox, base)[0].left_or_prim == prim_start(world, j),
        object_flat(world, world[j].key, bbox, base)[0].right_or_count == prim_count(world[j].kind),
{
    let n = world.len() as int;
    lemma_unique_key_range(world, j, n);
    lemma_unique_non_mesh_not_mesh_start(world, j, n);
    lemma_prim_start_monotone(world, j + 1, n);
}

proof fn lemma_unique_mesh_start<B>(world: Seq<WorldObject<B>>, j: int, n: int)
    requires
        0 <= j < n <= world.len(),
        world[j].kind is Mesh,
        forall|m: int| 0 <= m < world.len() && m != j ==> #[trigger] world[m].key != world[j].key,
    ensures
        mesh_starts(world, n).contains_key(world[j].key),
        mesh_starts(world, n)[world[j].key] == (j, prim_start(world, j) as u32),
    decreases n,
{
    if n > j + 1 {
        lemma_unique_mesh_start(world, j, n - 1);
        assert(world[n - 1].key != world[j].key);
    }
}

/// A mesh whose key no other object shares flattens to its own hierarchy,
/// with the mesh's first primitive, `prim_start`, as the hierarchy's first
/// triangle; by `lemma_mesh_flat_covers_leaves` its leaves then cover exactly
/// the mesh's triangles, from that primitive on.
pub proof fn lemma_mesh_object_flat<B>(world: Seq<WorldObject<B>>, j: int, bbox: B, base: int)
    requires
        0 <= j < world.len(),
        world[j].kind is Mesh,
        forall|m: int| 0 <= m < world.len() && m != j ==> #[trigger] world[m].key != world[j].key,
        prim_start(world, world.len() as int) <= u32::MAX,
    ensures
        object_known(world, world[j].key),
        prim_start(world, j) + world[j].kind->triangles <= u32::MAX,
        object_flat(world, world[j].key, bbox, base) == mesh_flat(world[j].kind->bvh, prim_start(world, j) as u32, base),
{
    let n = world.len() as int;
    lemma_unique_mesh_start(world, j, n);
    lemma_unique_key_range(world, j, n);
    lemma_prim_start_monotone(world, j + 1, n);
}

/// A scene node over two different objects that are not meshes (each with
/// a key of its own) flattens to the node and then one leaf per object, each
/// leaf naming exactly that object's primitives: its first is the object's
/// `prim_start` and its count the object's primitive count.
pub proof fn lemma_scene_node_over_two_objects<B>(
    world: Seq<WorldObject<B>>,
    node: SceneBvh<B>,
    j1: int,
    j2: int,
    base: int,
)
    requires
        0 <= j1 < world.len(),
        0 <= j2 < world.len(),
        j1 != j2,
        !(world[j1].kind is Mesh),
        !(world[j2].kind is Mesh),
        forall|m: int| 0 <= m < world.len() && m != j1 ==> #[trigger] world[m].key != world[j1].key,
        forall|m: int| 0 <= m < world.len() && m != j2 ==> #[trigger] world[m].key != world[j2].key,
        node.left is Object && node.left->Object_key == world[j1].key,
        node.right is Object && node.right->Object_key == world[j2].key,
        prim_start(world, world.len() as int) <= u32::MAX,
        0 <= base,
        base + 2 <= u32::MAX,
    ensures
        scene_flat(world, node, base).len() == 3,
        scene_flat(world, node, base)[0].is_leaf == 0,
        scene_flat(world, node, base)[0].left_or_prim == base + 1,
        scene_flat(world, node, base)[0].right_or_count == base + 2,
        scene_flat(world, node, base)[1].is_leaf == 1,
        scene_flat(world, node, base)[1].bbox == node.left->Object_bbox,
        scene_flat(world, node, base)[1].left_or_prim == prim_start(world, j1),
        scene_flat(world, node, base)[1].right_or_count == prim_count(world[j1].kind),
        scene_flat(world, node, base)[2].is_leaf == 1,
        scene_flat(world, node, base)[2].bbox == node.right->Object_bbox,
        scene_flat(world, node, base)[2].left_or_prim == prim_start(world, j2),
        scene_flat(world, node, base)[2].right_or_count == prim_count(world[j2].kind),
{
    lemma_object_leaf_names_its_prims(world, j1, node.left->Object_bbox, base + 1);
    lemma_object_leaf_names_its_prims(world, j2, node.right->Object_bbox, base + 2);
    let lf = scene_child_flat(world, node.left, base + 1);
    let rf = scene_child_flat(world, node.right, base + 2);
    let flat = scene_flat(world, node, base);
    assert(lf == object_flat(world, world[j1].key, node.left->Object_bbox, base + 1));
    assert(rf == object_flat(world, world[j2].key, node.right->Object_bbox, base + 2));
    assert(flat == seq![flat[0]] + lf + rf);
    assert(flat[1] == lf[0]);
    assert(flat[2] == rf[0]);
}

/// A scene node whose two children are the same object, not a mesh and with
/// a key of its own, flattens to one leaf with the node's bounds naming
/// exactly that object's primitives.
pub proof fn lemma_scene_node_over_one_object<B>(world: Seq<WorldObject<B>>, node: SceneBvh<B>, j: int, base: int)
    requires
        0 <= j < world.len(),
        !(world[j].kind is Mesh),
        forall|m: int| 0 <= m < world.len() && m != j ==> #[trigger] world[m].key != world[j].key,
        node.left is Object && node.left->Object_key == world[j].key,
        node.right is Object && node.right->Object_key == world[j].key,
        prim_start(world, world.len() as int) <= u32::MAX,
    ensures
        scene_flat(world, node, base).len() == 1,
        scene_flat(world, node, base)[0].is_leaf == 1,
        scene_flat(world, node, base)[0].bbox == node.bbox,
        scene_flat(world, node, base)[0].left_or_prim == prim_start(world, j),
        scene_flat(world, node, base)[0].right_or_count == prim_count(world[j].kind),
{
    lemma_object_leaf_names_its_prims(world, j, node.bbox, base);
}

/// Appends the flattened form of a scene child and returns the position its
/// parent records for it.
fn flatten_scene_child<B: Copy>(
    world: &Vec<WorldObject<B>>,
    prims: &HashMap<usize, (u32, u32)>,
    meshes: &HashMap<usize, (usize, u32)>,
    child: &BvhChild<B>,
    nodes: &mut Vec<FlatBvhNode<B>>,
) -> (idx: u32)
    requires
        world_fits(world@),
        prims@ == prim_ranges(world@, world@.len() as int),
        forall|k: usize| #[trigger] meshes@.contains_key(k) <==> mesh_starts(world@, world@.len() as int).contains_key(k),
        forall|k: usize| #[trigger] meshes@.contains_key(k) ==>
            meshes@[k].0 as int == mesh_starts(world@, world@.len() as int)[k].0
            && meshes@[k].1 == mesh_starts(world@, world@.len() as int)[k].1,
    ensures
        idx == child_index(world@, *child, old(nodes)@.len() as int),
        final(nodes)@ == old(nodes)@ + scene_child_flat(world@, *child, old(nodes)@.len() as int),
    decreases child,
{
    match child {
        BvhChild::Node(n) => flatten_scene_node(world, prims, meshes, n, nodes),
        BvhChild::Object { key, bbox } => flatten_object(world, prims, meshes, *key, *bbox, nodes),
    }
}

/// Appends the flattened form of an object child; returns the position it
/// landed at, or 0 when the object is unknown.
fn flatten_object<B: Copy>(
    world: &Vec<WorldObject<B>>,
    prims: &HashMap<usize, (u32, u32)>,
    meshes: &HashMap<usize, (usize, u32)>,
    key: usize,
    bbox: B,
    nodes: &mut Vec<FlatBvhNode<B>>,
) -> (idx: u32)
    requires
        world_fits(world@),
        prims@ == prim_ranges(world@, world@.len() as int),
        forall|k: usize| #[trigger] meshes@.contains_key(k) <==> mesh_starts(world@, world@.len() as int).contains_key(k),
        forall|k: usize| #[trigger] meshes@.contains_key(k) ==>
            meshes@[k].0 as int == mesh_starts(world@, world@.len() as int)[k].0
            && meshes@[k].1 == mesh_starts(world@, world@.len() as int)[k].1,
    ensures
        idx == (if object_known(world@, key) { old(nodes)@.len() as u32 } else { 0 }),
        final(nodes)@ == old(nodes)@ + object_flat(world@, key, bbox, old(nodes)@.len() as int),
{
    let ghost n = world@.len() as int;
    proof {
        lemma_mesh_starts(world@, n, key);
    }
    match meshes.get(&key) {
        Some(entry) => {
            let (j, start) = *entry;
            assert(meshes@.contains_key(key));
            match &world[j].kind {
                ObjectKind::Mesh { triangles, bvh } => {
                    proof {
                        assert(world@[j as int].kind is Mesh);
                        lemma_prim_start_monotone(world@, j + 1, n);
                        lemma_within_fits(*bvh, *triangles as nat, start);
                    }
                    return flatten_mesh_bvh(bvh, start, nodes);
                },
                _ => {
                    proof {
                        assert(false);
                    }
                    return 0;
                },
            }
        },
        None => {},
    }
    match prims.get(&key) {
        Some(range) => {
            let idx = nodes.len() as u32;
            nodes.push(FlatBvhNode { bbox, left_or_prim: range.0, right_or_count: range.1, is_leaf: 1 });
            assert(nodes@ =~= old(nodes)@ + object_flat(world@, key, bbox, old(nodes)@.len() as int));
            idx
        },
        None => {
            assert(object_flat(world@, key, bbox, old(nodes)@.len() as int) =~= Seq::empty());
            assert(nodes@ =~= old(nodes)@ + object_flat(world@, key, bbox, old(nodes)@.len() as int));
            0
        },
    }
}

/// Appends the flattened form of a scene node and returns the position of
/// its root (as a 32-bit value).
fn flatten_scene_node<B: Copy>(
    world: &Vec<WorldObject<B>>,
    prims: &HashMap<usize, (u32, u32)>,
    meshes: &HashMap<usize, (usize, u32)>,
    node: &SceneBvh<B>,
    nodes: &mut Vec<FlatBvhNode<B>>,
) -> (idx: u32)
    requires
        world_fits(world@),
        prims@ == prim_ranges(world@, world@.len() as int),
        forall|k: usize| #[trigger] meshes@.contains_key(k) <==> mesh_starts(world@, world@.len() as int).contains_key(k),
        forall|k: usize| #[trigger] meshes@.contains_key(k) ==>
            meshes@[k].0 as int == mesh_starts(world@, world@.len() as int)[k].0
            && meshes@[k].1 == mesh_starts(world@, world@.len() as int)[k].1,
    ensures
        idx == old(nodes)@.len() as u32,
        final(nodes)@ == old(nodes)@ + scene_flat(world@, *node, old(nodes)@.len() as int),
    decreases node,
{
    let at = nodes.len();
    let current_idx = at as u32;
    match (&node.left, &node.right) {
        (BvhChild::Object { key: left_key, .. }, BvhChild::Object { key: right_key, .. }) => {
            if *left_key == *right_key {
                let key = *left_key;
                proof {
                    lemma_mesh_starts(world@, world@.len() as int, key);
                }
                if meshes.contains_key(&key) || prims.contains_key(&key) {
                    let idx = flatten_object(world, prims, meshes, key, node.bbox, nodes);
                    assert(nodes@ =~= old(nodes)@ + scene_flat(world@, *node, at as int));
                    return idx;
                }
            }
        },
        _ => {},
    }
    nodes.push(FlatBvhNode { bbox: node.bbox, left_or_prim: 0, right_or_count: 0, is_leaf: 0 });
    let ghost after_root = nodes@;
    let left_idx = flatten_scene_child(world, prims, meshes, &node.left, nodes);
    let ghost after_left = nodes@;
    let right_idx = flatten_scene_child(world, prims, meshes, &node.right, nodes);
    nodes.set(at, FlatBvhNode { bbox: node.bbox, left_or_prim: left_idx, right_or_count: right_idx, is_leaf: 0 });
    proof {
        assert(after_left =~= after_root + scene_child_flat(world@, node.left, at + 1));
        assert(nodes@ =~= old(nodes)@ + scene_flat(world@, *node, at as int));
    }
    current_idx
}

/// Flattens the scene hierarchy into the array the GPU walks, numbering each
/// object's primitives in world-list order, as many for each as `prim_count`
/// gives.
pub fn flatten_scene_bvh<B: Copy>(bvh: &SceneBvh<B>, world: &Vec<WorldObject<B>>) -> (nodes: Vec<FlatBvhNode<B>>)
    requires
        world_fits(world@),
    ensures
        nodes@ == scene_flat(world@, *bvh, 0),
{
    let mut prims: HashMap<usize, (u32, u32)> = HashMap::new();
    let mut meshes: HashMap<usize, (usize, u32)> = HashMap::new();
    let mut prim_idx: u32 = 0;
    let mut j: usize = 0;
    while j < world.len()
        invariant
            j <= world@.len(),
            world_fits(world@),
            prim_idx == prim_start(world@, j as int),
            prims@ == prim_ranges(world@, j as int),
            forall|k: usize| #[trigger] meshes@.contains_key(k) <==> mesh_starts(world@, j as int).contains_key(k),
            forall|k: usize| #[trigger] meshes@.contains_key(k) ==>
                meshes@[k].0 as int == mesh_starts(world@, j as int)[k].0
                && meshes@[k].1 == mesh_starts(world@, j as int)[k].1,
        decreases world@.len() - j,
    {
        proof {
            lemma_prim_start_monotone(world@, j + 1, world@.len() as int);
        }
        let start = prim_idx;
        let obj = &world[j];
        prim_idx = prim_idx + prim_count_of(&obj.kind) as u32;
        match &obj.kind {
            ObjectKind::Mesh { .. } => {
                meshes.insert(obj.key, (j, start));
            },
            _ => {},
        }
        prims.insert(obj.key, (start, prim_idx - start));
        j = j + 1;
        proof {
            assert forall|k: usize| #[trigger] meshes@.contains_key(k) implies
                meshes@[k].0 as int == mesh_starts(world@, j as int)[k].0
                && meshes@[k].1 == mesh_starts(world@, j as int)[k].1 by {}
        }
    }
    let mut nodes: Vec<FlatBvhNode<B>> = Vec::new();
    flatten_scene_node(world, &prims, &meshes, bvh, &mut nodes);
    assert(nodes@ =~= scene_flat(world@, *bvh, 0));
    nodes
}

} // verus!
