use soft_raster::engine::mesh::{Mesh, MeshRegistry};
use soft_raster::render::pipeline::Pipeline;

#[test]
fn registry_hands_out_ids_in_order() {
    let mut reg: MeshRegistry<&str> = MeshRegistry::new();
    assert!(reg.get_mesh(0).is_none());
    assert_eq!(reg.register_mesh("teapot"), 0);
    assert_eq!(reg.register_mesh("monkey"), 1);
    assert_eq!(reg.get_mesh(0), Some(&"teapot"));
    assert_eq!(reg.get_mesh(1), Some(&"monkey"));
    assert!(reg.get_mesh(2).is_none());
}

#[test]
fn registry_ids_after_many_registrations() {
    let mut reg: MeshRegistry<u32> = MeshRegistry::new();
    for i in 0..50u32 {
        assert_eq!(reg.register_mesh(i * 7), i as usize);
    }
    for i in 0..50u32 {
        assert_eq!(reg.get_mesh(i as usize), Some(&(i * 7)));
    }
    assert!(reg.get_mesh(50).is_none());
    assert!(reg.get_mesh(usize::MAX).is_none());
}

#[test]
fn face_indices_groups_by_three() {
    let m = Mesh { vertices: vec!['a', 'b', 'c', 'd'], indices: vec![0, 1, 2, 2, 3, 0] };
    assert_eq!(m.face_indices(), Some(vec![(0, 1, 2), (2, 3, 0)]));
}

#[test]
fn face_indices_empty_mesh() {
    let m: Mesh<u8> = Mesh { vertices: vec![], indices: vec![] };
    assert_eq!(m.face_indices(), Some(vec![]));
}

#[test]
fn face_indices_rejects_partial_face() {
    let m = Mesh { vertices: vec![0u8; 4], indices: vec![0, 1, 2, 3] };
    assert_eq!(m.face_indices(), None);
}

#[test]
fn face_indices_rejects_missing_vertex() {
    let m = Mesh { vertices: vec![0u8; 3], indices: vec![0, 1, 3] };
    assert_eq!(m.face_indices(), None);
}

#[test]
fn clip_keeps_polygon_inside() {
    let p = Pipeline::new();
    let out = p.clip_polygon_edge(&vec![1, 2, 3], &vec![true, true, true], &vec![10, 20, 30]);
    assert_eq!(out, vec![1, 2, 3]);
}

#[test]
fn clip_drops_polygon_outside() {
    let p = Pipeline::new();
    let out = p.clip_polygon_edge(&vec![1, 2, 3], &vec![false, false, false], &vec![10, 20, 30]);
    assert!(out.is_empty());
}

#[test]
fn clip_one_vertex_outside_gives_quad() {
    let p = Pipeline::new();
    // vertex 1 lies outside: entering it adds the crossing 20, leaving it adds 30
    let out = p.clip_polygon_edge(&vec![1, 2, 3], &vec![true, false, true], &vec![10, 20, 30]);
    assert_eq!(out, vec![1, 20, 30, 3]);
}

#[test]
fn clip_two_vertices_outside_gives_triangle() {
    let p = Pipeline::new();
    let out = p.clip_polygon_edge(&vec![1, 2, 3], &vec![false, true, false], &vec![10, 20, 30]);
    assert_eq!(out, vec![20, 2, 30]);
}

#[test]
fn clip_empty_polygon() {
    let p = Pipeline::new();
    let out: Vec<u8> = p.clip_polygon_edge(&vec![], &vec![], &vec![]);
    assert!(out.is_empty());
}

#[test]
fn fan_splits_polygon() {
    let p = Pipeline::new();
    assert_eq!(p.fan_triangles(&vec![0, 1, 2, 3, 4]), vec![(0, 1, 2), (0, 2, 3), (0, 3, 4)]);
    assert_eq!(p.fan_triangles(&vec![7, 8, 9]), vec![(7, 8, 9)]);
}

#[test]
fn fan_of_degenerate_polygons_is_empty() {
    let p = Pipeline::new();
    assert!(p.fan_triangles(&Vec::<u8>::new()).is_empty());
    assert!(p.fan_triangles(&vec![1]).is_empty());
    assert!(p.fan_triangles(&vec![1, 2]).is_empty());
}
