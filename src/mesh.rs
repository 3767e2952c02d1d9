//! A triangle mesh uploaded to the GPU, known by its buffer names.
use vstd::prelude::*;

verus! {

/// A mesh held in two GPU buffers: vertices and triangle indices.
pub struct Mesh {
    vertex_buffer: u32,
    index_buffer: u32,
    count: u32,
}

/// The buffer names and index count of a mesh.
pub ghost struct MeshView {
    pub vertex_buffer: u32,
    pub index_buffer: u32,
    pub count: u32,
}

impl View for Mesh {
    type V = MeshView;

    closed spec fn view(&self) -> MeshView {
        MeshView {
            vertex_buffer: self.vertex_buffer,
            index_buffer: self.index_buffer,
            count: self.count,
        }
    }
}

impl Mesh {
    /// A mesh of `triangles` triangles stored in the given buffers.
    pub fn new(vertex_buffer: u32, index_buffer: u32, triangles: usize) -> (m: Mesh)
        requires
            triangles * 3 <= u32::MAX,
        ensures
            m@.vertex_buffer == vertex_buffer,
            m@.index_buffer == index_buffer,
            m@.count == triangles * 3,
    {
        Mesh { vertex_buffer, index_buffer, count: (triangles * 3) as u32 }
    }

    /// Records that the buffers now hold `triangles` triangles.
    pub fn set_triangles(&mut self, triangles: usize)
        requires
            triangles * 3 <= u32::MAX,
        ensures
            final(self)@.count == triangles * 3,
            final(self)@.vertex_buffer == old(self)@.vertex_buffer,
            final(self)@.index_buffer == old(self)@.index_buffer,
    {
        self.count = (triangles * 3) as u32;
    }

    pub fn vertex_buffer(&self) -> (r: u32)
        ensures
            r == self@.vertex_buffer,
    {
        self.vertex_buffer
    }

    pub fn index_buffer(&self) -> (r: u32)
        ensures
            r == self@.index_buffer,
    {
        self.index_buffer
    }

    /// Number of indices to draw.
    pub fn count(&self) -> (r: u32)
        ensures
            r == self@.count,
    {
        self.count
    }
}

} // verus!
