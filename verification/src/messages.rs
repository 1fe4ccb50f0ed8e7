//! What errors say.

use crate::inset::{InsetError, PlanarizeError};
use crate::predicates::Vertex;
use crate::segment::{MeshFault, SegmentInsertError};
use crate::text::{decimal, push_decimal};
use crate::world::WorldBuildError;
use crate::write::{push_real, renderings, writes_steadily};
use vstd::prelude::*;

verus! {

/// What a fault of a mesh says.
pub open spec fn mesh_text(e: MeshFault) -> Seq<char> {
    match e {
        MeshFault::MissingVertex => "a corner names no vertex"@,
        MeshFault::OffBoundary => "a walk left the boundary"@,
        MeshFault::Full => "no slot is left"@,
        MeshFault::Stalled => "a walk did not end"@,
        MeshFault::Broken => "the mesh does not hold together"@,
    }
}

/// What a failed segment insertion says.
pub open spec fn segment_text(e: SegmentInsertError) -> Seq<char> {
    match e {
        SegmentInsertError::SelfIntersection { endpoint1, endpoint2 } => "PSLG segment ("@
            + decimal(endpoint1.0 as nat) + " \u{2192} "@ + decimal(endpoint2.0 as nat)
            + ") crosses an existing constrained subsegment (self-intersecting input is not supported in v1)"@,
        SegmentInsertError::VertexNotInTriangulation { vertex } => "vertex "@ + decimal(
            vertex.0 as nat,
        ) + " is not a corner of any live triangle in the CDT"@,
        SegmentInsertError::Fault { fault } => mesh_text(fault),
    }
}

/// What crossings that were not resolved say.
pub open spec fn planarize_text(e: PlanarizeError) -> Seq<char> {
    match e {
        PlanarizeError::Degenerate => "degenerate input"@,
        PlanarizeError::NotConverged => "did not converge"@,
    }
}

/// What a failed inset build says, with numbers written as `r` has them.
pub open spec fn inset_text(r: spec_fn(u64) -> Seq<char>, e: InsetError) -> Seq<char> {
    match e {
        InsetError::InvalidInset { bits } => "inset must be finite and >= 0, got "@ + r(bits),
        InsetError::InvalidSnapCell { bits } => "snap_cell must be a positive finite number, got "@
            + r(bits),
        InsetError::NonFiniteVertex =>
            "ring vertex coordinate was not finite (NaN or infinite)"@,
        InsetError::Planarize { error } => "planarize: "@ + planarize_text(error),
        InsetError::Segment { error } => "internal: planarized segments still crossed: "@
            + segment_text(error),
        InsetError::Mesh { fault } => mesh_text(fault),
    }
}

/// A place, with numbers written as `r` has them.
pub open spec fn place_text(r: spec_fn(u64) -> Seq<char>, p: Vertex) -> Seq<char> {
    "("@ + r(p.x) + ","@ + r(p.y) + ")"@
}

/// What a failed world build says, with numbers written as `r` has them.
pub open spec fn world_text(r: spec_fn(u64) -> Seq<char>, e: WorldBuildError) -> Seq<char> {
    match e {
        WorldBuildError::UnmatchedSeamEdge { connection, layer, from, to } => "seam edge "@
            + place_text(r, from) + "-"@ + place_text(r, to) + " of connection "@ + decimal(
            connection as nat,
        ) + " in layer "@ + decimal(layer as nat) + " has no bit-exact partner"@,
        WorldBuildError::AmbiguousSeamEdge { connection, from, to } => "seam edge "@ + place_text(
            r,
            from,
        ) + "-"@ + place_text(r, to) + " of connection "@ + decimal(connection as nat)
            + " matches more than two layers"@,
    }
}

impl MeshFault {
    /// What the fault says.
    pub fn message(&self) -> (s: &'static str)
        ensures
            s@ == mesh_text(*self),
    {
        match self {
            MeshFault::MissingVertex => "a corner names no vertex",
            MeshFault::OffBoundary => "a walk left the boundary",
            MeshFault::Full => "no slot is left",
            MeshFault::Stalled => "a walk did not end",
            MeshFault::Broken => "the mesh does not hold together",
        }
    }
}

impl SegmentInsertError {
    /// What the error says.
    pub fn message(&self) -> (s: String)
        ensures
            s@ == segment_text(*self),
    {
        let mut s = String::new();
        match self {
            SegmentInsertError::SelfIntersection { endpoint1, endpoint2 } => {
                s.append("PSLG segment (");
                push_decimal(&mut s, endpoint1.0 as u64);
                s.append(" \u{2192} ");
                push_decimal(&mut s, endpoint2.0 as u64);
                s.append(
                    ") crosses an existing constrained subsegment (self-intersecting input is not supported in v1)",
                );
                assert(s@ =~= segment_text(*self));
            },
            SegmentInsertError::VertexNotInTriangulation { vertex } => {
                s.append("vertex ");
                push_decimal(&mut s, vertex.0 as u64);
                s.append(" is not a corner of any live triangle in the CDT");
                assert(s@ =~= segment_text(*self));
            },
            SegmentInsertError::Fault { fault } => {
                s.append(fault.message());
                assert(s@ =~= segment_text(*self));
            },
        }
        s
    }
}

impl InsetError {
    /// What the error says; `writer` writes numbers.
    pub fn message<W: Fn(u64) -> String>(&self, writer: &W) -> (s: String)
        requires
            writes_steadily(*writer),
        ensures
            s@ == inset_text(renderings(*writer), *self),
    {
        let ghost r = renderings(*writer);
        let mut s = String::new();
        match self {
            InsetError::InvalidInset { bits } => {
                s.append("inset must be finite and >= 0, got ");
                push_real(&mut s, writer, *bits);
            },
            InsetError::InvalidSnapCell { bits } => {
                s.append("snap_cell must be a positive finite number, got ");
                push_real(&mut s, writer, *bits);
            },
            InsetError::NonFiniteVertex => {
                s.append("ring vertex coordinate was not finite (NaN or infinite)");
            },
            InsetError::Planarize { error } => {
                s.append("planarize: ");
                match error {
                    PlanarizeError::Degenerate => s.append("degenerate input"),
                    PlanarizeError::NotConverged => s.append("did not converge"),
                }
            },
            InsetError::Segment { error } => {
                s.append("internal: planarized segments still crossed: ");
                let told = error.message();
                s.append(told.as_str());
            },
            InsetError::Mesh { fault } => {
                s.append(fault.message());
            },
        }
        assert(s@ =~= inset_text(r, *self));
        s
    }
}

fn push_place<W: Fn(u64) -> String>(s: &mut String, writer: &W, p: Vertex)
    requires
        writes_steadily(*writer),
    ensures
        final(s)@ == old(s)@ + place_text(renderings(*writer), p),
{
    s.append("(");
    push_real(s, writer, p.x);
    s.append(",");
    push_real(s, writer, p.y);
    s.append(")");
    assert(s@ =~= old(s)@ + place_text(renderings(*writer), p));
}

impl WorldBuildError {
    /// What the error says; `writer` writes numbers.
    pub fn message<W: Fn(u64) -> String>(&self, writer: &W) -> (s: String)
        requires
            writes_steadily(*writer),
        ensures
            s@ == world_text(renderings(*writer), *self),
    {
        let ghost r = renderings(*writer);
        let mut s = String::new();
        match self {
            WorldBuildError::UnmatchedSeamEdge { connection, layer, from, to } => {
                s.append("seam edge ");
                push_place(&mut s, writer, *from);
                s.append("-");
                push_place(&mut s, writer, *to);
                s.append(" of connection ");
                push_decimal(&mut s, *connection as u64);
                s.append(" in layer ");
                push_decimal(&mut s, *layer as u64);
                s.append(" has no bit-exact partner");
                assert(s@ =~= world_text(r, *self));
            },
            WorldBuildError::AmbiguousSeamEdge { connection, from, to } => {
                s.append("seam edge ");
                push_place(&mut s, writer, *from);
                s.append("-");
                push_place(&mut s, writer, *to);
                s.append(" of connection ");
                push_decimal(&mut s, *connection as u64);
                s.append(" matches more than two layers");
                assert(s@ =~= world_text(r, *self));
            },
        }
        s
    }
}

} // verus!
