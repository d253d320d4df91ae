//! The in-memory mesh model: vertices, normals and triangular faces, each
//! kept in insertion order, with redundant count fields that the model keeps
//! equal to the sequence lengths at all times.

use vstd::prelude::*;

verus! {

/// A vertex position. Each coordinate holds the IEEE 754 bit pattern of a
/// single-precision float; the codec never interprets it numerically.
#[derive(Clone, Copy, PartialEq, Eq, Structural, Debug)]
pub struct Vertex {
    pub x: u32,
    pub y: u32,
    pub z: u32,
}

/// A normal vector, with the same representation as a vertex but a distinct
/// semantic role.
#[derive(Clone, Copy, PartialEq, Eq, Structural, Debug)]
pub struct Normal {
    pub x: u32,
    pub y: u32,
    pub z: u32,
}

/// A triangular face: three signed 32-bit indices, carried verbatim (the
/// codec neither renumbers nor validates them).
#[derive(Clone, Copy, PartialEq, Eq, Structural, Debug)]
pub struct Face {
    pub v1: i32,
    pub v2: i32,
    pub v3: i32,
}

/// The mathematical model of a mesh: three sequences, in order.
#[verifier::ext_equal]
pub ghost struct MeshView {
    pub vertices: Seq<Vertex>,
    pub normals: Seq<Normal>,
    pub faces: Seq<Face>,
}

impl MeshView {
    /// The empty mesh.
    pub open spec fn empty() -> MeshView {
        MeshView { vertices: Seq::empty(), normals: Seq::empty(), faces: Seq::empty() }
    }

    /// Each sequence is short enough for its length to be written as a
    /// non-negative signed 32-bit count, as the binary format requires.
    pub open spec fn counts_representable(self) -> bool {
        &&& self.vertices.len() <= 0x7fff_ffff
        &&& self.normals.len() <= 0x7fff_ffff
        &&& self.faces.len() <= 0x7fff_ffff
    }
}

/// A mesh: ordered vertices, normals and faces, plus explicit counts that
/// are kept equal to the sequence lengths (the model's invariant).
pub struct OBJ {
    vertex_count: i32,
    vertices: Vec<Vertex>,
    normal_count: i32,
    normals: Vec<Normal>,
    face_count: i32,
    faces: Vec<Face>,
}

impl View for OBJ {
    type V = MeshView;

    closed spec fn view(&self) -> MeshView {
        MeshView { vertices: self.vertices@, normals: self.normals@, faces: self.faces@ }
    }
}

impl OBJ {
    /// The count invariant: each count field equals the length of its
    /// sequence (so every length also fits in an `i32`).
    pub closed spec fn wf(&self) -> bool {
        &&& self.vertex_count as int == self.vertices@.len()
        &&& self.normal_count as int == self.normals@.len()
        &&& self.face_count as int == self.faces@.len()
    }

    /// Creates an empty mesh.
    pub fn new() -> (m: OBJ)
        ensures
            m.wf(),
            m@ == MeshView::empty(),
    {
        let m = OBJ {
            vertex_count: 0,
            vertices: Vec::new(),
            normal_count: 0,
            normals: Vec::new(),
            face_count: 0,
            faces: Vec::new(),
        };
        proof {
            assert(m@ =~= MeshView::empty());
        }
        m
    }

    /// Clears all three sequences and zeroes all three counts.
    pub fn reset(&mut self)
        ensures
            final(self).wf(),
            final(self)@ == MeshView::empty(),
    {
        self.vertex_count = 0;
        self.vertices.clear();
        self.normal_count = 0;
        self.normals.clear();
        self.face_count = 0;
        self.faces.clear();
        proof {
            assert(self@ =~= MeshView::empty());
        }
    }

    /// Appends a vertex and increments the vertex count.
    pub fn append_vertex(&mut self, v: Vertex)
        requires
            old(self).wf(),
            old(self)@.vertices.len() < 0x7fff_ffff,
        ensures
            final(self).wf(),
            final(self)@.vertices == old(self)@.vertices.push(v),
            final(self)@.normals == old(self)@.normals,
            final(self)@.faces == old(self)@.faces,
    {
        self.vertices.push(v);
        self.vertex_count = self.vertex_count + 1;
    }

    /// Appends a normal and increments the normal count.
    pub fn append_normal(&mut self, n: Normal)
        requires
            old(self).wf(),
            old(self)@.normals.len() < 0x7fff_ffff,
        ensures
            final(self).wf(),
            final(self)@.vertices == old(self)@.vertices,
            final(self)@.normals == old(self)@.normals.push(n),
            final(self)@.faces == old(self)@.faces,
    {
        self.normals.push(n);
        self.normal_count = self.normal_count + 1;
    }

    /// Appends a face and increments the face count.
    pub fn append_face(&mut self, f: Face)
        requires
            old(self).wf(),
            old(self)@.faces.len() < 0x7fff_ffff,
        ensures
            final(self).wf(),
            final(self)@.vertices == old(self)@.vertices,
            final(self)@.normals == old(self)@.normals,
            final(self)@.faces == old(self)@.faces.push(f),
    {
        self.faces.push(f);
        self.face_count = self.face_count + 1;
    }

    /// Builds a mesh from complete sequences, deriving the counts from the
    /// lengths so the invariant holds by construction.
    pub fn from_parts(vertices: Vec<Vertex>, normals: Vec<Normal>, faces: Vec<Face>) -> (m: OBJ)
        requires
            vertices@.len() <= 0x7fff_ffff,
            normals@.len() <= 0x7fff_ffff,
            faces@.len() <= 0x7fff_ffff,
        ensures
            m.wf(),
            m@.vertices == vertices@,
            m@.normals == normals@,
            m@.faces == faces@,
    {
        let vertex_count = vertices.len() as i32;
        let normal_count = normals.len() as i32;
        let face_count = faces.len() as i32;
        OBJ { vertex_count, vertices, normal_count, normals, face_count, faces }
    }

    /// The stored vertex count, equal to the number of vertices.
    pub fn vertex_count(&self) -> (n: i32)
        requires
            self.wf(),
        ensures
            n as int == self@.vertices.len(),
    {
        self.vertex_count
    }

    /// The stored normal count, equal to the number of normals.
    pub fn normal_count(&self) -> (n: i32)
        requires
            self.wf(),
        ensures
            n as int == self@.normals.len(),
    {
        self.normal_count
    }

    /// The stored face count, equal to the number of faces.
    pub fn face_count(&self) -> (n: i32)
        requires
            self.wf(),
        ensures
            n as int == self@.faces.len(),
    {
        self.face_count
    }

    /// The vertex at position `i` (0-based).
    pub fn vertex(&self, i: usize) -> (v: Vertex)
        requires
            i < self@.vertices.len(),
        ensures
            v == self@.vertices[i as int],
    {
        *vstd::std_specs::vec::vec_index(&self.vertices, i)
    }

    /// The normal at position `i` (0-based).
    pub fn normal(&self, i: usize) -> (n: Normal)
        requires
            i < self@.normals.len(),
        ensures
            n == self@.normals[i as int],
    {
        *vstd::std_specs::vec::vec_index(&self.normals, i)
    }

    /// The face at position `i` (0-based).
    pub fn face(&self, i: usize) -> (f: Face)
        requires
            i < self@.faces.len(),
        ensures
            f == self@.faces[i as int],
    {
        *vstd::std_specs::vec::vec_index(&self.faces, i)
    }
}

} // verus!
