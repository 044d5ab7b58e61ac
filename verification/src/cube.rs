//! Topology of the unit cube: its eight corners (the columns of the object
//! matrix) and six faces, each listed counter-clockwise seen from outside.
use vstd::prelude::*;

verus! {

/// The six faces of the cube as lists of corner indices.
pub open spec fn cube_faces_spec() -> Seq<Seq<usize>> {
    seq![
        seq![3usize, 2, 1, 0],
        seq![4usize, 5, 6, 7],
        seq![0usize, 1, 5, 4],
        seq![2usize, 3, 7, 6],
        seq![4usize, 7, 3, 0],
        seq![1usize, 2, 6, 5],
    ]
}

/// Corner `k` of face `f`.
pub open spec fn corner(f: int, k: int) -> usize {
    cube_faces_spec()[f][k]
}

/// The faces of the cube, each as four corner indices.
pub fn cube_faces() -> (faces: [[usize; 4]; 6])
    ensures
        forall|f: int, k: int| 0 <= f < 6 && 0 <= k < 4 ==> #[trigger] faces@[f]@[k] == corner(f, k),
{
    let faces: [[usize; 4]; 6] = [
        [3, 2, 1, 0],
        [4, 5, 6, 7],
        [0, 1, 5, 4],
        [2, 3, 7, 6],
        [4, 7, 3, 0],
        [1, 2, 6, 5],
    ];
    faces
}

/// Face `f` has `v` among its corners.
pub open spec fn face_has(f: int, v: int) -> bool {
    corner(f, 0) == v || corner(f, 1) == v || corner(f, 2) == v || corner(f, 3) == v
}

/// The faces among `0 .. f` that have corner `v`, in increasing order.
pub open spec fn faces_with_upto(v: int, f: int) -> Seq<usize>
    decreases f,
{
    if f <= 0 {
        seq![]
    } else {
        faces_with_upto(v, f - 1) + (if face_has(f - 1, v) {
            seq![(f - 1) as usize]
        } else {
            seq![]
        })
    }
}

/// Indices of the faces that have corner `vertex`, in increasing order (the
/// faces whose normals are averaged into the normal at that corner).
pub fn faces_containing(vertex: usize) -> (res: Vec<usize>)
    ensures
        res@ == faces_with_upto(vertex as int, 6),
{
    let faces = cube_faces();
    let mut res: Vec<usize> = Vec::new();
    let mut i: usize = 0;
    while i < 6
        invariant
            i <= 6,
            res@ == faces_with_upto(vertex as int, i as int),
            forall|f: int, k: int| 0 <= f < 6 && 0 <= k < 4 ==> #[trigger] faces@[f]@[k] == corner(f, k),
        decreases 6 - i,
    {
        let face = faces[i];
        let mut found = false;
        let mut k: usize = 0;
        while k < 4
            invariant
                k <= 4,
                i < 6,
                face@ == faces@[i as int]@,
                forall|f: int, j: int| 0 <= f < 6 && 0 <= j < 4 ==> #[trigger] faces@[f]@[j] == corner(f, j),
                found == (exists|j: int| 0 <= j < k && corner(i as int, j) == vertex),
            decreases 4 - k,
        {
            if face[k] == vertex {
                found = true;
            }
            k = k + 1;
        }
        assert(found == face_has(i as int, vertex as int)) by {
            if face_has(i as int, vertex as int) {
                if corner(i as int, 0) == vertex {
                    assert(corner(i as int, 0) == vertex);
                } else if corner(i as int, 1) == vertex {
                    assert(corner(i as int, 1) == vertex);
                } else if corner(i as int, 2) == vertex {
                    assert(corner(i as int, 2) == vertex);
                } else {
                    assert(corner(i as int, 3) == vertex);
                }
            }
        }
        if found {
            res.push(i);
        }
        i = i + 1;
    }
    res
}

/// Every face has four distinct corners, all among the eight corners of the cube.
pub proof fn lemma_faces_are_quads()
    ensures
        forall|f: int, k: int| 0 <= f < 6 && 0 <= k < 4 ==> #[trigger] corner(f, k) < 8,
        forall|f: int, j: int, k: int|
            0 <= f < 6 && 0 <= j < k < 4 ==> #[trigger] corner(f, j) != #[trigger] corner(f, k),
{
}

/// Every corner of the cube belongs to exactly three faces.
pub proof fn lemma_three_faces_per_corner(v: int)
    requires
        0 <= v < 8,
    ensures
        faces_with_upto(v, 6).len() == 3,
{
    reveal_with_fuel(faces_with_upto, 7);
}

/// Face `f` has the side from corner `a` to corner `b` (corners `k` and
/// `k + 1` of the face, cyclically).
pub open spec fn face_has_side(f: int, a: int, b: int) -> bool {
    exists|k: int| 0 <= k < 4 && corner(f, k) == a && #[trigger] corner(f, (k + 1) % 4) == b
}

/// The faces are consistently oriented: every side of a face is also a side
/// of another face, traversed in the opposite direction, so that all faces
/// wind the same way seen from outside.
pub proof fn lemma_faces_consistently_oriented(f: int, k: int)
    requires
        0 <= f < 6,
        0 <= k < 4,
    ensures
        exists|g: int| 0 <= g < 6 && g != f && #[trigger] face_has_side(g, corner(f, (k + 1) % 4) as int, corner(f, k) as int),
{
    let a = corner(f, k) as int;
    let b = corner(f, (k + 1) % 4) as int;
    assert forall|g: int, j: int| 0 <= g < 6 && 0 <= j < 4 && #[trigger] corner(g, j) == b && corner(g, (j + 1) % 4) == a
        implies face_has_side(g, b, a) by {
    }
    if f == 0 {
        if k == 0 {
            assert(corner(3, 0) == b && corner(3, 1) == a);
        } else if k == 1 {
            assert(corner(5, 0) == b && corner(5, 1) == a);
        } else if k == 2 {
            assert(corner(2, 0) == b && corner(2, 1) == a);
        } else {
            assert(corner(4, 2) == b && corner(4, 3) == a);
        }
    } else if f == 1 {
        if k == 0 {
            assert(corner(2, 2) == b && corner(2, 3) == a);
        } else if k == 1 {
            assert(corner(5, 2) == b && corner(5, 3) == a);
        } else if k == 2 {
            assert(corner(3, 2) == b && corner(3, 3) == a);
        } else {
            assert(corner(4, 0) == b && corner(4, 1) == a);
        }
    } else if f == 2 {
        if k == 0 {
            assert(corner(0, 2) == b && corner(0, 3) == a);
        } else if k == 1 {
            assert(corner(5, 3) == b && corner(5, 0) == a);
        } else if k == 2 {
            assert(corner(1, 0) == b && corner(1, 1) == a);
        } else {
            assert(corner(4, 3) == b && corner(4, 0) == a);
        }
    } else if f == 3 {
        if k == 0 {
            assert(corner(0, 0) == b && corner(0, 1) == a);
        } else if k == 1 {
            assert(corner(4, 1) == b && corner(4, 2) == a);
        } else if k == 2 {
            assert(corner(1, 2) == b && corner(1, 3) == a);
        } else {
            assert(corner(5, 1) == b && corner(5, 2) == a);
        }
    } else if f == 4 {
        if k == 0 {
            assert(corner(1, 3) == b && corner(1, 0) == a);
        } else if k == 1 {
            assert(corner(3, 1) == b && corner(3, 2) == a);
        } else if k == 2 {
            assert(corner(0, 3) == b && corner(0, 0) == a);
        } else {
            assert(corner(2, 3) == b && corner(2, 0) == a);
        }
    } else {
        if k == 0 {
            assert(corner(0, 1) == b && corner(0, 2) == a);
        } else if k == 1 {
            assert(corner(3, 3) == b && corner(3, 0) == a);
        } else if k == 2 {
            assert(corner(1, 1) == b && corner(1, 2) == a);
        } else {
            assert(corner(2, 1) == b && corner(2, 2) == a);
        }
    }
}

} // verus!
