use raytracer::gpu::bvh::{
    flatten_mesh_bvh, flatten_scene_bvh, mesh_bvh_fits, world_fits_check, BvhChild, FlatBvhNode, SceneBvh, TriBvhNode,
};
use raytracer::gpu::layout::{ObjectKind, WorldObject};

fn leaf(bbox: u32, start_tri: usize, tri_count: usize) -> TriBvhNode<u32> {
    TriBvhNode { bbox, left: None, right: None, start_tri, tri_count }
}

fn inner(bbox: u32, left: Option<TriBvhNode<u32>>, right: Option<TriBvhNode<u32>>) -> TriBvhNode<u32> {
    TriBvhNode { bbox, left: left.map(Box::new), right: right.map(Box::new), start_tri: 0, tri_count: 0 }
}

fn summary(nodes: &[FlatBvhNode<u32>]) -> Vec<(u32, u32, u32, u32)> {
    nodes.iter().map(|n| (n.bbox, n.left_or_prim, n.right_or_count, n.is_leaf)).collect()
}

#[test]
fn mesh_hierarchy_flattens_in_preorder() {
    let tree = inner(1, Some(inner(2, Some(leaf(3, 0, 2)), Some(leaf(4, 2, 2)))), Some(leaf(5, 4, 1)));
    let mut nodes = Vec::new();
    let root = flatten_mesh_bvh(&tree, 100, &mut nodes);
    assert_eq!(root, 0);
    assert_eq!(
        summary(&nodes),
        vec![(1, 1, 4, 0), (2, 2, 3, 0), (3, 100, 2, 1), (4, 102, 2, 1), (5, 104, 1, 1)]
    );
}

#[test]
fn mesh_hierarchy_after_existing_nodes_and_missing_child() {
    let tree = inner(7, None, Some(leaf(8, 3, 1)));
    let mut nodes = vec![FlatBvhNode { bbox: 0, left_or_prim: 0, right_or_count: 0, is_leaf: 1 }];
    let root = flatten_mesh_bvh(&tree, 0, &mut nodes);
    assert_eq!(root, 1);
    assert_eq!(summary(&nodes), vec![(0, 0, 0, 1), (7, 0, 2, 0), (8, 3, 1, 1)]);
}

fn obj(key: usize, bbox: u32) -> BvhChild<u32> {
    BvhChild::Object { key, bbox }
}

#[test]
fn scene_hierarchy_numbers_primitives_in_world_order() {
    let world = vec![
        WorldObject { key: 1, kind: ObjectKind::Sphere },
        WorldObject { key: 2, kind: ObjectKind::Cuboid },
        WorldObject {
            key: 3,
            kind: ObjectKind::Mesh { triangles: 3, bvh: inner(30, Some(leaf(31, 0, 2)), Some(leaf(32, 2, 1))) },
        },
    ];
    let bvh = SceneBvh {
        bbox: 90,
        left: BvhChild::Node(Box::new(SceneBvh { bbox: 91, left: obj(1, 11), right: obj(2, 12) })),
        right: obj(3, 13),
    };
    let nodes = flatten_scene_bvh(&bvh, &world);
    assert_eq!(
        summary(&nodes),
        vec![
            (90, 1, 4, 0),
            (91, 2, 3, 0),
            (11, 0, 1, 1),
            (12, 1, 6, 1),
            (30, 5, 6, 0),
            (31, 7, 2, 1),
            (32, 9, 1, 1),
        ]
    );
}

#[test]
fn scene_node_over_one_object_is_a_leaf() {
    let world = vec![WorldObject { key: 4, kind: ObjectKind::Cuboid }];
    let bvh = SceneBvh { bbox: 50, left: obj(4, 51), right: obj(4, 51) };
    let nodes = flatten_scene_bvh(&bvh, &world);
    assert_eq!(summary(&nodes), vec![(50, 0, 6, 1)]);
}

#[test]
fn scene_node_over_one_mesh_is_the_mesh() {
    let world = vec![
        WorldObject { key: 1, kind: ObjectKind::Quad },
        WorldObject { key: 9, kind: ObjectKind::Mesh { triangles: 1, bvh: leaf(60, 0, 1) } },
    ];
    let bvh = SceneBvh { bbox: 70, left: obj(9, 71), right: obj(9, 71) };
    let nodes = flatten_scene_bvh(&bvh, &world);
    assert_eq!(summary(&nodes), vec![(60, 1, 1, 1)]);
}

#[test]
fn unknown_objects_get_position_zero() {
    let world = vec![WorldObject { key: 1, kind: ObjectKind::Sphere }];
    let bvh = SceneBvh { bbox: 5, left: obj(77, 6), right: obj(1, 7) };
    let nodes = flatten_scene_bvh(&bvh, &world);
    assert_eq!(summary(&nodes), vec![(5, 0, 1, 0), (7, 0, 1, 1)]);
}

#[test]
fn mesh_hierarchy_inside_its_triangles() {
    let tree = inner(1, Some(leaf(2, 0, 2)), Some(leaf(3, 2, 3)));
    assert!(mesh_bvh_fits(&tree, 5));
    assert!(!mesh_bvh_fits(&tree, 4));
    assert!(mesh_bvh_fits(&inner(1, None, None), 0));
}

#[test]
fn world_fits_counts_primitives() {
    let small = vec![
        WorldObject { key: 1, kind: ObjectKind::<u32>::Cuboid },
        WorldObject { key: 2, kind: ObjectKind::Mesh { triangles: 3, bvh: leaf(0, 0, 3) } },
        WorldObject { key: 3, kind: ObjectKind::Sphere },
    ];
    assert!(world_fits_check(&small));

    let bad_mesh = vec![WorldObject { key: 1, kind: ObjectKind::Mesh { triangles: 2, bvh: leaf(0, 1, 2) } }];
    assert!(!world_fits_check(&bad_mesh));

    let huge = vec![
        WorldObject { key: 1, kind: ObjectKind::Mesh { triangles: u32::MAX as usize, bvh: leaf(0, 0, 1) } },
        WorldObject { key: 2, kind: ObjectKind::Sphere },
    ];
    assert!(!world_fits_check(&huge));

    let exact = vec![WorldObject { key: 1, kind: ObjectKind::<u32>::Mesh { triangles: u32::MAX as usize, bvh: leaf(0, 0, 1) } }];
    assert!(world_fits_check(&exact));
}

#[test]
fn standalone_triangle_takes_no_primitive() {
    let world = vec![
        WorldObject { key: 1, kind: ObjectKind::<u32>::Other },
        WorldObject { key: 2, kind: ObjectKind::Sphere },
    ];
    let bvh = SceneBvh { bbox: 40, left: obj(1, 41), right: obj(2, 42) };
    let nodes = flatten_scene_bvh(&bvh, &world);
    assert_eq!(summary(&nodes), vec![(40, 1, 2, 0), (41, 0, 0, 1), (42, 0, 1, 1)]);
}
