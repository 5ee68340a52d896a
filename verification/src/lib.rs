//! Scene data model: 3D scene elements (position, rotation, color, mesh
//! reference, metadata) and mesh geometry, with structural equality and a
//! verified JSON codec for the fixed wire format.

pub mod arrays;
pub mod chars;
pub mod color;
pub mod element;
pub mod err;
pub mod escape;
pub mod info;
pub mod intdec;
pub mod mesh;
pub mod number;
pub mod parse;
pub mod rotation;
pub mod rt;
pub mod skip;
pub mod numtok;
pub mod strutil;
pub mod vector;
