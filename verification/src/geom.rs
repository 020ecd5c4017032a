//! Native geometry objects decoded from the columnar layout.
//!
//! Coordinates are carried as the 64-bit patterns of `f64` values. The
//! layout machinery never interprets a coordinate numerically, so the
//! pattern representation is exact and lossless; a consumer that wants the
//! numeric value reinterprets the bits at the boundary.

use vstd::prelude::*;

verus! {

/// One vertex: the bit patterns of its two coordinates.
#[derive(Clone, Copy, Debug, PartialEq, Eq, Structural)]
pub struct Coord {
    pub x: u64,
    pub y: u64,
}

/// A single-vertex geometry.
#[derive(Clone, Copy, Debug, PartialEq, Eq, Structural)]
pub struct Point {
    pub coord: Coord,
}

/// An ordered path of vertices.
#[derive(Clone, Debug, PartialEq)]
pub struct LineString {
    pub coords: Vec<Coord>,
}

/// An exterior ring and zero or more interior rings (holes).
#[derive(Clone, Debug, PartialEq)]
pub struct Polygon {
    pub exterior: Vec<Coord>,
    pub interiors: Vec<Vec<Coord>>,
}

/// An unordered collection of single-vertex geometries. Physically the
/// same coordinate range as a line string; only the semantic wrapping
/// differs.
#[derive(Clone, Debug, PartialEq)]
pub struct MultiPoint {
    pub points: Vec<Coord>,
}

#[derive(Clone, Debug, PartialEq)]
pub struct MultiLineString {
    pub lines: Vec<LineString>,
}

#[derive(Clone, Debug, PartialEq)]
pub struct MultiPolygon {
    pub polygons: Vec<Polygon>,
}

/// Closed sum of every native geometry shape the layout can decode.
/// Row-wise algorithms match on this exhaustively; there is no runtime
/// type-identity check anywhere in the library.
#[derive(Clone, Debug, PartialEq)]
pub enum Geometry {
    Point(Point),
    LineString(LineString),
    Polygon(Polygon),
    MultiPoint(MultiPoint),
    MultiLineString(MultiLineString),
    MultiPolygon(MultiPolygon),
}

impl Point {
    pub fn new(x: u64, y: u64) -> (r: Point)
        ensures
            r.coord.x == x,
            r.coord.y == y,
    {
        Point { coord: Coord { x, y } }
    }
}


/// The rings of a native polygon, exterior first.
pub open spec fn polygon_rings(p: Polygon) -> Seq<Seq<Coord>> {
    seq![p.exterior@] + p.interiors@.map_values(|v: Vec<Coord>| v@)
}

/// Abstract content of a native geometry: the same shape with every
/// vertex container replaced by its sequence. Codec and dispatcher
/// contracts speak of this model.
#[verifier::ext_equal]
pub ghost enum GeomModel {
    Point(Coord),
    LineString(Seq<Coord>),
    Polygon(Seq<Seq<Coord>>),
    MultiPoint(Seq<Coord>),
    MultiLineString(Seq<Seq<Coord>>),
    MultiPolygon(Seq<Seq<Seq<Coord>>>),
}

/// The abstract content of a geometry value.
pub open spec fn geom_model(g: Geometry) -> GeomModel {
    match g {
        Geometry::Point(p) => GeomModel::Point(p.coord),
        Geometry::LineString(ls) => GeomModel::LineString(ls.coords@),
        Geometry::Polygon(p) => GeomModel::Polygon(polygon_rings(p)),
        Geometry::MultiPoint(mp) => GeomModel::MultiPoint(mp.points@),
        Geometry::MultiLineString(m) => GeomModel::MultiLineString(
            m.lines@.map_values(|l: LineString| l.coords@),
        ),
        Geometry::MultiPolygon(m) => GeomModel::MultiPolygon(
            m.polygons@.map_values(|p: Polygon| polygon_rings(p)),
        ),
    }
}

} // verus!
