//! Planar straight-line graphs: the input of a constrained triangulation.

use crate::predicates::Vertex;
use vstd::prelude::*;

verus! {

/// One input vertex with its attributes (bit patterns) and boundary marker.
#[derive(Clone, Debug, PartialEq)]
pub struct PslgVertex {
    pub position: Vertex,
    pub attributes: Vec<u64>,
    pub marker: i32,
}

impl PslgVertex {
    pub fn new(position: Vertex) -> (r: PslgVertex)
        ensures
            r.position == position,
            r.attributes@.len() == 0,
            r.marker == 0,
    {
        PslgVertex { position, attributes: Vec::new(), marker: 0 }
    }

    pub fn with_marker(self, marker: i32) -> (r: PslgVertex)
        ensures
            r == (PslgVertex { marker, ..self }),
    {
        PslgVertex { position: self.position, attributes: self.attributes, marker }
    }

    pub fn with_attribute(self, attr: u64) -> (r: PslgVertex)
        ensures
            r.position == self.position,
            r.attributes@ == self.attributes@.push(attr),
            r.marker == self.marker,
    {
        let mut attributes = self.attributes;
        attributes.push(attr);
        PslgVertex { position: self.position, attributes, marker: self.marker }
    }
}

/// A straight constraint between two vertices, given by index.
#[derive(Copy, Clone, Debug, PartialEq, Eq, Structural)]
pub struct PslgSegment {
    pub a: u32,
    pub b: u32,
    pub marker: i32,
}

impl PslgSegment {
    pub fn new(a: u32, b: u32) -> (r: PslgSegment)
        ensures
            r == (PslgSegment { a, b, marker: 0 }),
    {
        PslgSegment { a, b, marker: 0 }
    }
}

/// A point inside a region to be carved out.
#[derive(Copy, Clone, Debug, PartialEq, Eq, Structural)]
pub struct PslgHole {
    pub point: Vertex,
}

/// Vertices, segments and holes.
#[derive(Clone, Debug, PartialEq)]
pub struct Pslg {
    pub vertices: Vec<PslgVertex>,
    pub segments: Vec<PslgSegment>,
    pub holes: Vec<PslgHole>,
}

impl Pslg {
    pub fn new() -> (r: Pslg)
        ensures
            r.vertices@.len() == 0,
            r.segments@.len() == 0,
            r.holes@.len() == 0,
    {
        Pslg { vertices: Vec::new(), segments: Vec::new(), holes: Vec::new() }
    }

    /// Attributes per vertex, as the first vertex has them.
    pub fn vertex_attribute_count(&self) -> (r: usize)
        ensures
            self.vertices@.len() == 0 ==> r == 0,
            self.vertices@.len() > 0 ==> r == self.vertices@[0].attributes@.len(),
    {
        if self.vertices.len() == 0 {
            0
        } else {
            self.vertices[0].attributes.len()
        }
    }

    /// Whether any vertex has a non-zero marker.
    pub fn has_vertex_markers(&self) -> (r: bool)
        ensures
            r <==> exists|i: int| 0 <= i < self.vertices@.len() && self.vertices@[i].marker != 0,
    {
        let mut i: usize = 0;
        while i < self.vertices.len()
            invariant
                i <= self.vertices@.len(),
                forall|k: int| 0 <= k < i ==> self.vertices@[k].marker == 0,
            decreases self.vertices@.len() - i,
        {
            if self.vertices[i].marker != 0 {
                return true;
            }
            i += 1;
        }
        false
    }

    /// Whether any segment has a non-zero marker.
    pub fn has_segment_markers(&self) -> (r: bool)
        ensures
            r <==> exists|i: int| 0 <= i < self.segments@.len() && self.segments@[i].marker != 0,
    {
        let mut i: usize = 0;
        while i < self.segments.len()
            invariant
                i <= self.segments@.len(),
                forall|k: int| 0 <= k < i ==> self.segments@[k].marker == 0,
            decreases self.segments@.len() - i,
        {
            if self.segments[i].marker != 0 {
                return true;
            }
            i += 1;
        }
        false
    }
}

} // verus!
