//! The mesh: vertices and the faces that join them.
//!
//! A face is a closed walk over vertex indices; its outline joins each index
//! to the next and the last back to the first.

use vstd::prelude::*;

verus! {

/// The faces of a mesh as sequences of vertex indices.
pub open spec fn face_lists(faces: Seq<Vec<i32>>) -> Seq<Seq<int>> {
    Seq::new(faces.len(), |f: int| Seq::new(faces[f]@.len(), |j: int| faces[f]@[j] as int))
}

/// Whether every index of every face names one of `vertex_count` vertices.
pub open spec fn faces_in_range(faces: Seq<Seq<int>>, vertex_count: nat) -> bool {
    forall|f: int, j: int|
        0 <= f < faces.len() && 0 <= j < faces[f].len() ==> 0 <= #[trigger] faces[f][j]
            < vertex_count
}

/// The two vertex indices joined by edge `j` of a face.
pub open spec fn face_edge(face: Seq<int>, j: int) -> (int, int) {
    (face[j], face[(j + 1) % (face.len() as int)])
}

/// A point in homogeneous coordinates, on the whole-number grid that the
/// rest pose of the mesh is laid out on.
#[derive(Clone, Copy, Debug, PartialEq, Eq, Structural)]
pub struct Vertex {
    pub x: i32,
    pub y: i32,
    pub z: i32,
    pub w: i32,
}

/// The rest pose of the prism: a square base at height -1 and an apex at
/// height 2 above its centre.
pub open spec fn rest_pose() -> Seq<Vertex> {
    seq![
        Vertex { x: (-1) as i32, y: (-1) as i32, z: (-1) as i32, w: 1 },
        Vertex { x: 1, y: (-1) as i32, z: (-1) as i32, w: 1 },
        Vertex { x: 1, y: (-1) as i32, z: 1, w: 1 },
        Vertex { x: (-1) as i32, y: (-1) as i32, z: 1, w: 1 },
        Vertex { x: 0, y: 2, z: 0, w: 1 },
    ]
}

/// The faces of the prism: the base and the four sides that meet at the apex.
pub open spec fn prism_faces() -> Seq<Seq<int>> {
    seq![
        seq![0int, 1int, 2int, 3int],
        seq![0int, 1int, 4int],
        seq![1int, 2int, 4int],
        seq![2int, 3int, 4int],
        seq![3int, 0int, 4int],
    ]
}

/// The prism is well formed: five vertices with `w = 1`, faces of three or
/// four indices, and every index naming a vertex.
pub proof fn lemma_prism_well_formed()
    ensures
        rest_pose().len() == 5,
        forall|v: int| 0 <= v < rest_pose().len() ==> (#[trigger] rest_pose()[v]).w == 1,
        prism_faces().len() == 5,
        forall|f: int|
            0 <= f < prism_faces().len() ==> 3 <= (#[trigger] prism_faces()[f]).len() <= 4,
        faces_in_range(prism_faces(), rest_pose().len()),
{
    let faces = prism_faces();
    assert forall|f: int, j: int| 0 <= f < faces.len() && 0 <= j < faces[f].len() implies 0
        <= #[trigger] faces[f][j] < 5 by {
        if f == 0 {
            assert(faces[0] =~= seq![0int, 1int, 2int, 3int]);
        } else if f == 1 {
            assert(faces[1] =~= seq![0int, 1int, 4int]);
        } else if f == 2 {
            assert(faces[2] =~= seq![1int, 2int, 4int]);
        } else if f == 3 {
            assert(faces[3] =~= seq![2int, 3int, 4int]);
        } else {
            assert(faces[4] =~= seq![3int, 0int, 4int]);
        }
    }
}

/// The vertices of the prism at rest. Every frame starts from these.
pub fn original_vertices() -> (vertices: Vec<Vertex>)
    ensures
        vertices@ == rest_pose(),
{
    let mut vertices: Vec<Vertex> = Vec::new();
    vertices.push(Vertex { x: -1, y: -1, z: -1, w: 1 });
    vertices.push(Vertex { x: 1, y: -1, z: -1, w: 1 });
    vertices.push(Vertex { x: 1, y: -1, z: 1, w: 1 });
    vertices.push(Vertex { x: -1, y: -1, z: 1, w: 1 });
    vertices.push(Vertex { x: 0, y: 2, z: 0, w: 1 });
    assert(vertices@ =~= rest_pose());
    vertices
}

/// A face over the given vertex indices.
fn face_of(a: i32, b: i32, c: i32, d: Option<i32>) -> (face: Vec<i32>)
    ensures
        face@ == (match d {
            Some(last) => seq![a, b, c, last],
            None => seq![a, b, c],
        }),
{
    let mut face: Vec<i32> = Vec::new();
    face.push(a);
    face.push(b);
    face.push(c);
    if let Some(last) = d {
        face.push(last);
        assert(face@ =~= seq![a, b, c, last]);
    } else {
        assert(face@ =~= seq![a, b, c]);
    }
    face
}

/// The faces of the prism, each a closed walk over indices into
/// `original_vertices`.
pub fn faces() -> (faces: Vec<Vec<i32>>)
    ensures
        face_lists(faces@) == prism_faces(),
        faces_in_range(face_lists(faces@), rest_pose().len()),
{
    let mut faces: Vec<Vec<i32>> = Vec::new();
    faces.push(face_of(0, 1, 2, Some(3)));
    faces.push(face_of(0, 1, 4, None));
    faces.push(face_of(1, 2, 4, None));
    faces.push(face_of(2, 3, 4, None));
    faces.push(face_of(3, 0, 4, None));
    proof {
        let lists = face_lists(faces@);
        assert(lists[0] =~= seq![0int, 1int, 2int, 3int]);
        assert(lists[1] =~= seq![0int, 1int, 4int]);
        assert(lists[2] =~= seq![1int, 2int, 4int]);
        assert(lists[3] =~= seq![2int, 3int, 4int]);
        assert(lists[4] =~= seq![3int, 0int, 4int]);
        assert(lists =~= prism_faces());
        lemma_prism_well_formed();
    }
    faces
}

/// Tells whether every index of every face names one of `vertex_count`
/// vertices, which is what drawing the faces asks of them.
pub fn faces_valid(faces: &Vec<Vec<i32>>, vertex_count: usize) -> (ok: bool)
    ensures
        ok == faces_in_range(face_lists(faces@), vertex_count as nat),
{
    let ghost lists = face_lists(faces@);
    let mut f: usize = 0;
    while f < faces.len()
        invariant
            lists == face_lists(faces@),
            f <= faces.len(),
            forall|g: int, j: int|
                0 <= g < f && 0 <= j < lists[g].len() ==> 0 <= #[trigger] lists[g][j]
                    < vertex_count,
        decreases faces.len() - f,
    {
        let face = &faces[f];
        let mut j: usize = 0;
        while j < face.len()
            invariant
                lists == face_lists(faces@),
                f < faces.len(),
                face == faces@[f as int],
                j <= face.len(),
                forall|h: int| 0 <= h < j ==> 0 <= #[trigger] lists[f as int][h] < vertex_count,
            decreases face.len() - j,
        {
            let index = face[j];
            if index < 0 || index as usize >= vertex_count {
                assert(lists[f as int][j as int] == index);
                return false;
            }
            assert(lists[f as int][j as int] == index);
            j += 1;
        }
        f += 1;
    }
    true
}

} // verus!
