//! Joining several soups into one.

use crate::polysoup::{all_moved_up, room_above, PolySoup};
use crate::world::Point3;
use vstd::prelude::*;

verus! {

/// Collects soups into one.
#[derive(Clone, Debug)]
pub struct MeshBuilder {
    soup: PolySoup,
}

impl View for MeshBuilder {
    type V = PolySoup;

    closed spec fn view(&self) -> PolySoup {
        self.soup
    }
}

impl Default for MeshBuilder {
    fn default() -> (b: MeshBuilder)
        ensures
            b@.vertices@.len() == 0,
            b@.triangles@.len() == 0,
    {
        MeshBuilder { soup: PolySoup::new() }
    }
}

impl MeshBuilder {
    /// A builder with nothing in it.
    pub fn new() -> (b: MeshBuilder)
        ensures
            b@.vertices@.len() == 0,
            b@.triangles@.len() == 0,
    {
        MeshBuilder { soup: PolySoup::new() }
    }

    /// A builder with nothing in it that has room for some.
    pub fn with_capacity(vertices: usize, triangles: usize) -> (b: MeshBuilder)
        ensures
            b@.vertices@.len() == 0,
            b@.triangles@.len() == 0,
    {
        MeshBuilder { soup: PolySoup::with_capacity(vertices, triangles) }
    }

    /// Add a soup whose vertices have been moved to `positions`.
    pub fn add(&mut self, mesh: &PolySoup, positions: &Vec<Point3>)
        requires
            positions@.len() == mesh.vertices@.len(),
            old(self)@.vertices@.len() <= u32::MAX,
            room_above(mesh.triangles@, old(self)@.vertices@.len() as int),
        ensures
            final(self)@.vertices@ == old(self)@.vertices@ + positions@,
            final(self)@.triangles@ == old(self)@.triangles@ + all_moved_up(
                mesh.triangles@,
                old(self)@.vertices@.len() as int,
            ),
    {
        self.soup.extend(positions, &mesh.triangles);
    }

    /// Add a soup as it is.
    pub fn add_identity(&mut self, mesh: &PolySoup)
        requires
            old(self)@.vertices@.len() <= u32::MAX,
            room_above(mesh.triangles@, old(self)@.vertices@.len() as int),
        ensures
            final(self)@.vertices@ == old(self)@.vertices@ + mesh.vertices@,
            final(self)@.triangles@ == old(self)@.triangles@ + all_moved_up(
                mesh.triangles@,
                old(self)@.vertices@.len() as int,
            ),
    {
        self.soup.append(mesh);
    }

    /// The joined soup.
    pub fn build(self) -> (s: PolySoup)
        ensures
            s == self@,
    {
        self.soup
    }

    /// The number of vertices so far.
    pub fn vertex_count(&self) -> (n: usize)
        ensures
            n == self@.vertices@.len(),
    {
        self.soup.vertices.len()
    }

    /// The number of triangles so far.
    pub fn triangle_count(&self) -> (n: usize)
        ensures
            n == self@.triangles@.len(),
    {
        self.soup.triangles.len()
    }
}

} // verus!
