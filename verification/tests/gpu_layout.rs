use raytracer::gpu::buffers::{GpuPrimitive, PRIM_QUAD, PRIM_SPHERE, PRIM_TRIANGLE};
use raytracer::gpu::bvh::TriBvhNode;
use raytracer::gpu::dispatch::{dispatch_size, light_buffer};
use raytracer::gpu::layout::{lights_fit_check, ObjectKind, SceneLayout, WorldObject};

fn sphere(key: usize) -> WorldObject<u8> {
    WorldObject { key, kind: ObjectKind::Sphere }
}

fn other(key: usize) -> WorldObject<u8> {
    WorldObject { key, kind: ObjectKind::Other }
}

fn cuboid(key: usize) -> WorldObject<u8> {
    WorldObject { key, kind: ObjectKind::Cuboid }
}

fn mesh(key: usize, triangles: usize) -> WorldObject<u8> {
    WorldObject {
        key,
        kind: ObjectKind::Mesh {
            triangles,
            bvh: TriBvhNode { bbox: 0, left: None, right: None, start_tri: 0, tri_count: triangles },
        },
    }
}

#[test]
fn shared_material_gets_one_entry() {
    let mut layout = SceneLayout::new();
    assert_eq!(layout.add_material(Some(0x1000)), (0, true));
    assert_eq!(layout.add_material(Some(0x2000)), (1, true));
    assert_eq!(layout.add_material(Some(0x1000)), (0, false));
    assert_eq!(layout.add_material(None), (2, true));
    assert_eq!(layout.add_material(None), (3, true));
    assert_eq!(layout.add_material(Some(0x2000)), (1, false));
    assert_eq!(layout.add_material(Some(0x3000)), (4, true));
}

#[test]
fn primitives_name_their_records() {
    let mut layout = SceneLayout::new();
    let (m0, _) = layout.add_material(None);
    let t0 = layout.add_transform();
    let t1 = layout.add_transform();
    assert_eq!((t0, t1), (0, 1));
    assert_eq!(layout.add_sphere(m0, t0), 0);
    assert_eq!(layout.add_quad(m0, t1), 0);
    assert_eq!(layout.add_sphere(m0, t1), 1);
    assert_eq!(layout.add_triangles(m0, t0, 3), 0);
    assert_eq!(layout.add_triangles(m0, t1, 2), 3);
    let tables = layout.finish();
    let p = |prim_type, data_index, transform_index| GpuPrimitive {
        prim_type,
        data_index,
        material_index: 0,
        transform_index,
    };
    assert_eq!(
        tables.primitives,
        vec![
            p(PRIM_SPHERE, 0, 0),
            p(PRIM_QUAD, 0, 1),
            p(PRIM_SPHERE, 1, 1),
            p(PRIM_TRIANGLE, 0, 0),
            p(PRIM_TRIANGLE, 1, 0),
            p(PRIM_TRIANGLE, 2, 0),
            p(PRIM_TRIANGLE, 3, 1),
            p(PRIM_TRIANGLE, 4, 1),
        ]
    );
    assert!(!tables.pad_material);
    assert!(!tables.pad_transform);
}

#[test]
fn empty_layout_gets_placeholders() {
    let tables = SceneLayout::new().finish();
    assert_eq!(
        tables.primitives,
        vec![GpuPrimitive { prim_type: 0, data_index: 0, material_index: 0, transform_index: 0 }]
    );
    assert!(tables.light_prim_indices.is_empty());
    assert!(tables.pad_material);
    assert!(tables.pad_transform);
}

#[test]
fn lights_count_six_per_box() {
    let world = vec![sphere(10), cuboid(20), sphere(30), cuboid(40), sphere(50)];
    let mut layout = SceneLayout::new();
    layout.find_lights(&world, &vec![30, 40, 99, 10]);
    let tables = layout.finish();
    // key 30 comes after one sphere and one box: 1 + 6 = 7.
    // key 40 comes after 7 + 1 = 8 and is a box: 8..14.
    // key 99 is not in the world; key 10 is first.
    assert_eq!(tables.light_prim_indices, vec![7, 8, 9, 10, 11, 12, 13, 0]);
}

#[test]
fn lights_count_a_mesh_by_its_triangles() {
    let world = vec![mesh(1, 2), sphere(2)];
    let mut layout = SceneLayout::new();
    layout.find_lights(&world, &vec![2, 1]);
    assert_eq!(layout.finish().light_prim_indices, vec![2, 0, 1]);
}

#[test]
fn objects_without_primitives_take_no_light_index() {
    let world = vec![other(1), sphere(2), other(3)];
    let mut layout = SceneLayout::new();
    layout.find_lights(&world, &vec![2, 3, 1]);
    assert_eq!(layout.finish().light_prim_indices, vec![0]);
}

#[test]
fn lights_take_the_first_object_with_the_key() {
    let world = vec![sphere(5), sphere(5)];
    let mut layout = SceneLayout::new();
    layout.find_lights(&world, &vec![5]);
    assert_eq!(layout.finish().light_prim_indices, vec![0]);
}

#[test]
fn light_table_layout() {
    assert_eq!(light_buffer(&vec![]), vec![0, 0]);
    assert_eq!(light_buffer(&vec![7]), vec![1, 7]);
    assert_eq!(light_buffer(&vec![3, 4, 5]), vec![3, 3, 4, 5]);
}

#[test]
fn dispatch_of_a_frame() {
    let d = dispatch_size(800, 450);
    assert_eq!((d.workgroups_x, d.workgroups_y), (100, 57));
    assert_eq!(d.pixel_count, 360_000);
    assert_eq!(d.buffer_bytes, 5_760_000);
    let e = dispatch_size(1, 9);
    assert_eq!((e.workgroups_x, e.workgroups_y), (1, 2));
    let z = dispatch_size(0, 0);
    assert_eq!((z.workgroups_x, z.workgroups_y, z.pixel_count, z.buffer_bytes), (0, 0, 0, 0));
}

#[test]
fn small_scenes_keep_light_indices_in_range() {
    let world = vec![cuboid(1), mesh(2, 3), sphere(3), other(4)];
    assert!(lights_fit_check(&world, &vec![3, 1, 42]));
    assert!(lights_fit_check(&world, &vec![]));
    assert!(lights_fit_check(&Vec::<WorldObject<u8>>::new(), &vec![7]));
}

#[test]
fn world_primitives_sit_where_the_numbering_puts_them() {
    let mut layout = SceneLayout::new();
    let mut slots = Vec::new();
    for _ in 0..9 {
        let (m, _) = layout.add_material(None);
        let t = layout.add_transform();
        slots.push((m, t));
    }
    // A sphere, a standalone triangle (no primitive), a box, a 2-triangle mesh, a quad.
    let world = vec![sphere(1), other(2), cuboid(3), mesh(4, 2), WorldObject { key: 5, kind: ObjectKind::Quad }];
    let per_object = vec![vec![slots[0]], vec![], slots[1..7].to_vec(), vec![slots[7]], vec![slots[8]]];
    assert!(layout.can_add_world(&world, &per_object));
    assert!(!layout.can_add_world(&world, &vec![vec![slots[0]], vec![], vec![], vec![slots[7]], vec![slots[8]]]));
    assert!(!layout.can_add_world(&world, &vec![vec![(99, 0)], vec![], slots[1..7].to_vec(), vec![slots[7]], vec![slots[8]]]));
    layout.add_world(&world, &per_object);
    layout.find_lights(&world, &vec![4, 5, 2]);
    let tables = layout.finish();
    let p = |prim_type, data_index, (material_index, transform_index): (u32, u32)| GpuPrimitive {
        prim_type,
        data_index,
        material_index,
        transform_index,
    };
    assert_eq!(
        tables.primitives,
        vec![
            p(PRIM_SPHERE, 0, slots[0]),
            p(PRIM_QUAD, 0, slots[1]),
            p(PRIM_QUAD, 1, slots[2]),
            p(PRIM_QUAD, 2, slots[3]),
            p(PRIM_QUAD, 3, slots[4]),
            p(PRIM_QUAD, 4, slots[5]),
            p(PRIM_QUAD, 5, slots[6]),
            p(PRIM_TRIANGLE, 0, slots[7]),
            p(PRIM_TRIANGLE, 1, slots[7]),
            p(PRIM_QUAD, 6, slots[8]),
        ]
    );
    // The mesh light names primitives 7 and 8, the quad light primitive 9.
    assert_eq!(tables.light_prim_indices, vec![7, 8, 9]);
}
