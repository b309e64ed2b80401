use strolle::mesh_assembly::assemble_triangles;

#[test]
fn triangles_gather_corners_by_index() {
    let positions = [10, 11, 12, 13];
    let normals = [20, 21, 22, 23];
    let uvs = [30, 31];
    let tangents: [i32; 0] = [];
    let indices = [0usize, 1, 2, 2, 3, 0];
    let tris = assemble_triangles(&indices, &positions, &normals, &uvs, &tangents, -1, -2);
    assert_eq!(tris.len(), 2);
    assert_eq!(tris[0].positions, [10, 11, 12]);
    assert_eq!(tris[0].normals, [20, 21, 22]);
    assert_eq!(tris[0].uvs, [30, 31, -1]);
    assert_eq!(tris[0].tangents, [-2, -2, -2]);
    assert_eq!(tris[1].positions, [12, 13, 10]);
    assert_eq!(tris[1].uvs, [-1, -1, 30]);
}

#[test]
fn no_indices_no_triangles() {
    let tris = assemble_triangles::<u8, u8, u8, u8>(&[], &[], &[], &[], &[], 0, 0);
    assert!(tris.is_empty());
}
