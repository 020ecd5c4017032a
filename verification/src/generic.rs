//! The generic nested columnar representation shared with the surrounding
//! storage engine, and the introspection that resolves such a shape to one
//! of the known geometry variants.
//!
//! Coordinate pairs travel as a two-field float64 structure (fields
//! non-nullable), wrapped in one nested list level per offsets level of the
//! originating array, with row-level nullability as an outer validity
//! bitmap. The binary variant travels as a variable-length byte list.

use vstd::prelude::*;

use crate::buffer::Bitmap;
use crate::buffer::Buffer;
use crate::buffer::ByteBuffer;
use crate::buffer::OffsetsBuffer;
use crate::error::GeoError;

verus! {

/// The closed set of geometry variants a column can declare, plus the
/// binary (WKB) fallback used when no structured layout applies.
#[derive(Clone, Copy, Debug, PartialEq, Eq, Structural)]
pub enum GeometryType {
    Point,
    LineString,
    Polygon,
    MultiPoint,
    MultiLineString,
    MultiPolygon,
    WKB,
}

/// A generic nested array: flat numeric storage, a coordinate-pair
/// structure, nested list levels or variable-length binary payloads.
pub enum GenericArray {
    /// Flat column of float64 values, carried as 64-bit patterns.
    Float64 { values: Buffer, validity: Option<Bitmap> },
    /// Two non-nullable float64 fields, one coordinate pair per row.
    Coords { x: Buffer, y: Buffer, validity: Option<Bitmap> },
    /// One nested list level over an inner array.
    List { offsets: OffsetsBuffer, values: Box<GenericArray>, validity: Option<Bitmap> },
    /// Variable-length binary payload per row.
    Binary { offsets: OffsetsBuffer, bytes: ByteBuffer, validity: Option<Bitmap> },
}

/// Whether an optional validity bitmap is consistent with `rows` rows.
pub open spec fn validity_wf(v: Option<Bitmap>, rows: int) -> bool {
    match v {
        Some(b) => b.wf() && b@.len() == rows,
        None => true,
    }
}

impl GenericArray {
    /// Logical row count of the outermost level.
    pub open spec fn spec_row_count(self) -> int {
        match self {
            GenericArray::Float64 { values, .. } => values@.len() as int,
            GenericArray::Coords { x, .. } => x@.len() as int,
            GenericArray::List { offsets, .. } => offsets.spec_row_count(),
            GenericArray::Binary { offsets, .. } => offsets.spec_row_count(),
        }
    }

    /// Cross-buffer invariants, checked recursively through list levels.
    pub open spec fn wf(self) -> bool
        decreases self,
    {
        match self {
            GenericArray::Float64 { values, validity } => {
                &&& values.wf()
                &&& validity_wf(validity, values@.len() as int)
            },
            GenericArray::Coords { x, y, validity } => {
                &&& x.wf()
                &&& y.wf()
                &&& x@.len() == y@.len()
                &&& validity_wf(validity, x@.len() as int)
            },
            GenericArray::List { offsets, values, validity } => {
                &&& offsets.wf()
                &&& (*values).wf()
                &&& offsets.spec_last() <= (*values).spec_row_count()
                &&& validity_wf(validity, offsets.spec_row_count())
            },
            GenericArray::Binary { offsets, bytes, validity } => {
                &&& offsets.wf()
                &&& bytes.wf()
                &&& offsets.spec_last() <= bytes@.len()
                &&& validity_wf(validity, offsets.spec_row_count())
            },
        }
    }
}

/// The variant a generic shape resolves to, if any: a bare coordinate
/// structure is a point array, one list level a line string array, two
/// list levels a polygon array, and binary payloads the WKB fallback.
/// Any other shape is unsupported.
pub open spec fn spec_resolve(g: GenericArray) -> Result<GeometryType, GeoError> {
    match g {
        GenericArray::Coords { .. } => Ok(GeometryType::Point),
        GenericArray::List { values: inner, .. } => match *inner {
            GenericArray::Coords { .. } => Ok(GeometryType::LineString),
            GenericArray::List { values: inner2, .. } => match *inner2 {
                GenericArray::Coords { .. } => Ok(GeometryType::Polygon),
                _ => Err(GeoError::UnsupportedEncoding),
            },
            _ => Err(GeoError::UnsupportedEncoding),
        },
        GenericArray::Binary { .. } => Ok(GeometryType::WKB),
        GenericArray::Float64 { .. } => Err(GeoError::UnsupportedEncoding),
    }
}

/// Resolves the physical shape of a generic array to the geometry variant
/// it encodes, failing when the shape matches none of the known
/// signatures.
pub fn get_geoarrow_type(g: &GenericArray) -> (r: Result<GeometryType, GeoError>)
    ensures
        r == spec_resolve(*g),
{
    match g {
        GenericArray::Coords { .. } => Ok(GeometryType::Point),
        GenericArray::List { values: inner, .. } => match &**inner {
            GenericArray::Coords { .. } => Ok(GeometryType::LineString),
            GenericArray::List { values: inner2, .. } => match &**inner2 {
                GenericArray::Coords { .. } => Ok(GeometryType::Polygon),
                _ => Err(GeoError::UnsupportedEncoding),
            },
            _ => Err(GeoError::UnsupportedEncoding),
        },
        GenericArray::Binary { .. } => Ok(GeometryType::WKB),
        GenericArray::Float64 { .. } => Err(GeoError::UnsupportedEncoding),
    }
}

} // verus!
