use modelador::cube::{cube_faces, faces_containing};

#[test]
fn face_table() {
    let f = cube_faces();
    assert_eq!(f[0], [3, 2, 1, 0]);
    assert_eq!(f[5], [1, 2, 6, 5]);
}

#[test]
fn faces_of_corner_zero() {
    assert_eq!(faces_containing(0), vec![0, 2, 4]);
}

#[test]
fn faces_of_corner_six() {
    assert_eq!(faces_containing(6), vec![1, 3, 5]);
}

#[test]
fn every_corner_in_three_faces() {
    for v in 0..8 {
        assert_eq!(faces_containing(v).len(), 3);
    }
}

#[test]
fn no_face_for_unknown_corner() {
    assert!(faces_containing(8).is_empty());
}

#[test]
fn sides_are_shared_in_opposite_directions() {
    let f = cube_faces();
    for a in 0..6 {
        for k in 0..4 {
            let (p, q) = (f[a][k], f[a][(k + 1) % 4]);
            let partners = (0..6)
                .filter(|&b| b != a && (0..4).any(|j| f[b][j] == q && f[b][(j + 1) % 4] == p))
                .count();
            assert_eq!(partners, 1);
        }
    }
}
