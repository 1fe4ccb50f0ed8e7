//! Constrained Delaunay triangulation, voxel navigation meshes and layered
//! worlds, with every algorithm verified.

pub mod advance;
pub mod bigint;
pub mod boundary;
pub mod builder;
pub mod channel;
pub mod cheapest;
pub mod clip;
pub mod config;
pub mod contour;
pub mod coord;
pub mod crossing;
pub mod cull;
pub mod distance;
pub mod divconq;
pub mod empty_circle;
pub mod flip;
pub mod fold;
pub mod forcing;
pub mod funnel;
pub mod grid;
pub mod holes;
pub mod inset;
pub mod io;
pub mod knitting;
pub mod lawson;
pub mod mesh;
pub mod messages;
pub mod navmesh;
pub mod obj;
pub mod output;
pub mod path;
pub mod pathfind;
pub mod paving;
pub mod plane;
pub mod polysoup;
pub mod portals;
pub mod predicates;
pub mod pslg;
pub mod reading;
pub mod roundtrip;
pub mod scene;
pub mod search;
pub mod segment;
pub mod settle;
pub mod sort;
pub mod stl;
pub mod skeleton;
pub mod survey;
pub mod synth;
pub mod taut;
pub mod text;
pub mod threading;
pub mod trail;
pub mod unionfind;
pub mod voxelize;
pub mod walkability;
pub mod watershed;
pub mod winding;
pub mod world;
pub mod write;
