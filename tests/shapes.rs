use plants::mesh::Mesh;
use plants::shapes::{parse_shapes, read_header};

#[test]
fn shapes_table() {
    let m = parse_shapes("leaf:F[+F]\nbad line\nstem:FF:extra\n");
    assert_eq!(
        m,
        vec![("leaf".to_string(), "F[+F]".to_string()), ("stem".to_string(), "FF".to_string())]
    );
}

#[test]
fn header_pairs() {
    let (i, pairs) = read_header("#rootleaf dir/leaf.obj rootflower dir/f.obj \nF", 0);
    assert_eq!(i, 44);
    assert_eq!(
        pairs,
        vec![
            ("rootleaf".to_string(), "dir/leaf.obj".to_string()),
            ("rootflower".to_string(), "dir/f.obj".to_string())
        ]
    );
    let (k, odd) = read_header("#ab\n", 0);
    assert_eq!(k, 0);
    assert!(odd.is_empty());
    let (j, none) = read_header("F", 0);
    assert_eq!(j, 0);
    assert!(none.is_empty());
}

#[test]
fn mesh_merge_moves_face_indices() {
    let mut a: Mesh<(i32, i32)> = Mesh::new();
    assert_eq!(a.add_vert(&(0, 0)), 0);
    assert_eq!(a.add_vert(&(1, 0)), 1);
    a.add_face(0, 1, 0);
    let mut b: Mesh<(i32, i32)> = Mesh::new();
    b.add_vert(&(5, 5));
    b.add_vert(&(6, 6));
    b.add_poly(vec![0, 1]);
    a.merge(&b);
    assert_eq!(a.get_verts().len(), 4);
    assert_eq!(a.get_leaf_faces(), &vec![vec![2, 3]]);
    assert_eq!(a.get_triangles(), &vec![0, 1, 0]);
    a.set_triangles(Vec::new());
    a.set_leaf_faces(Vec::new());
    a.set_verts(Vec::new());
    assert!(a.get_verts().is_empty());
}
