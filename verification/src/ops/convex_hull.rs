//! Convex hull of each row of a column. The hull computation itself is
//! supplied externally as a capability returning a polygon per geometry;
//! this module owns the dispatch per encoding, the structured polygon
//! re-encoding, the binary fallback and the null propagation.

use vstd::prelude::*;

use crate::column::Column;
use crate::column::GeometryArrayEnum;
use crate::column::lemma_single_chunk_locate;
use crate::error::GeoError;
use crate::generic::GeometryType;
use crate::geom::Geometry;
use crate::geom::geom_model;
use crate::geom::polygon_rings;
use crate::ops::apply_geometry_wkb;
use crate::ops::decode_failed;
use crate::ops::row_fails;
use crate::polygon::MutablePolygonArray;
use crate::wkb::wkb_wf;

verus! {

/// Convex hull of every present row. Columns of a variant the operation
/// does not support are rejected; the structured paths re-encode the
/// hulls as a polygon column, the fallback path as a binary column.
pub fn convex_hull<F: Fn(&Geometry) -> Result<Geometry, GeoError>>(col: &Column, f: &F) -> (r:
    Result<Column, GeoError>)
    requires
        col.wf(),
        forall|g: &Geometry| #[trigger] f.requires((g,)),
        forall|g: &Geometry, h: Geometry|
            #[trigger] f.ensures((g,), Ok(h)) ==> h is Polygon && wkb_wf(geom_model(h)),
    ensures
        r matches Ok(out) ==> out.wf() && out.spec_len() == col.spec_len() && (forall|i: int|
            0 <= i < col.spec_len() ==> out.flat_valid(i) == col.flat_valid(i)) && (forall|i: int|
            0 <= i < col.spec_len() && col.flat_valid(i) ==> exists|g: Geometry, h: Geometry|
                #![trigger col.flat_row_ok(i, g), f.ensures((&g,), Ok(h))]
                col.flat_row_ok(i, g) && f.ensures((&g,), Ok(h)) && out.flat_row_ok(i, h)),
        !(col.spec_type() == GeometryType::WKB || col.spec_type() == GeometryType::LineString
            || col.spec_type() == GeometryType::Polygon) ==> (r matches Err(e) && e
            == GeoError::UnsupportedEncoding),
        r matches Err(e) ==> ((col.spec_type() == GeometryType::WKB || col.spec_type()
            == GeometryType::LineString || col.spec_type() == GeometryType::Polygon) && (
        decode_failed(*col, e) || row_fails::<Geometry, F>(*col, *f, e))) || (!(col.spec_type()
            == GeometryType::WKB || col.spec_type() == GeometryType::LineString || col.spec_type()
            == GeometryType::Polygon) && e == GeoError::UnsupportedEncoding),
{
    match col.geometry_type() {
        GeometryType::WKB => convex_hull_wkb(col, f),
        GeometryType::LineString => convex_hull_geoarrow_linestring(col, f),
        GeometryType::Polygon => convex_hull_geoarrow_polygon(col, f),
        _ => Err(GeoError::UnsupportedEncoding),
    }
}

/// Convex hull over the binary fallback path: rows decode from WKB, the
/// hulls re-encode as a WKB column.
pub fn convex_hull_wkb<F: Fn(&Geometry) -> Result<Geometry, GeoError>>(col: &Column, f: &F) -> (r:
    Result<Column, GeoError>)
    requires
        col.wf(),
        forall|g: &Geometry| #[trigger] f.requires((g,)),
        forall|g: &Geometry, h: Geometry|
            #[trigger] f.ensures((g,), Ok(h)) ==> wkb_wf(geom_model(h)),
    ensures
        r matches Ok(out) ==> out.wf() && out.spec_type() == GeometryType::WKB && out.spec_len()
            == col.spec_len() && (forall|i: int|
            0 <= i < col.spec_len() ==> out.flat_valid(i) == col.flat_valid(i)) && (forall|i: int|
            0 <= i < col.spec_len() && col.flat_valid(i) ==> exists|g: Geometry, h: Geometry|
                #![trigger col.flat_row_ok(i, g), f.ensures((&g,), Ok(h))]
                col.flat_row_ok(i, g) && f.ensures((&g,), Ok(h)) && out.flat_row_ok(i, h)),
        r matches Err(e) ==> decode_failed(*col, e) || row_fails::<Geometry, F>(*col, *f, e),
{
    apply_geometry_wkb(col, f)
}

/// Convex hull of a structured line string column, hulls re-encoded as
/// a polygon column.
pub fn convex_hull_geoarrow_linestring<F: Fn(&Geometry) -> Result<Geometry, GeoError>>(
    col: &Column,
    f: &F,
) -> (r: Result<Column, GeoError>)
    requires
        col.wf(),
        forall|g: &Geometry| #[trigger] f.requires((g,)),
        forall|g: &Geometry, h: Geometry|
            #[trigger] f.ensures((g,), Ok(h)) ==> h is Polygon,
    ensures
        r matches Ok(out) ==> out.wf() && out.spec_type() == GeometryType::Polygon
            && out.spec_len() == col.spec_len() && (forall|i: int|
            0 <= i < col.spec_len() ==> out.flat_valid(i) == col.flat_valid(i)) && (forall|i: int|
            0 <= i < col.spec_len() && col.flat_valid(i) ==> exists|g: Geometry, h: Geometry|
                #![trigger col.flat_row_ok(i, g), f.ensures((&g,), Ok(h))]
                col.flat_row_ok(i, g) && f.ensures((&g,), Ok(h)) && out.flat_row_ok(i, h)),
        r matches Err(e) ==> decode_failed(*col, e) || row_fails::<Geometry, F>(*col, *f, e),
{
    hull_rows_structured(col, f)
}

/// Convex hull of a structured polygon column, hulls re-encoded as a
/// polygon column.
pub fn convex_hull_geoarrow_polygon<F: Fn(&Geometry) -> Result<Geometry, GeoError>>(
    col: &Column,
    f: &F,
) -> (r: Result<Column, GeoError>)
    requires
        col.wf(),
        forall|g: &Geometry| #[trigger] f.requires((g,)),
        forall|g: &Geometry, h: Geometry|
            #[trigger] f.ensures((g,), Ok(h)) ==> h is Polygon,
    ensures
        r matches Ok(out) ==> out.wf() && out.spec_type() == GeometryType::Polygon
            && out.spec_len() == col.spec_len() && (forall|i: int|
            0 <= i < col.spec_len() ==> out.flat_valid(i) == col.flat_valid(i)) && (forall|i: int|
            0 <= i < col.spec_len() && col.flat_valid(i) ==> exists|g: Geometry, h: Geometry|
                #![trigger col.flat_row_ok(i, g), f.ensures((&g,), Ok(h))]
                col.flat_row_ok(i, g) && f.ensures((&g,), Ok(h)) && out.flat_row_ok(i, h)),
        r matches Err(e) ==> decode_failed(*col, e) || row_fails::<Geometry, F>(*col, *f, e),
{
    hull_rows_structured(col, f)
}

/// Shared structured path: applies the hull capability per present row
/// and freezes the polygons into one polygon chunk, propagating nulls.
fn hull_rows_structured<F: Fn(&Geometry) -> Result<Geometry, GeoError>>(col: &Column, f: &F) -> (r:
    Result<Column, GeoError>)
    requires
        col.wf(),
        forall|g: &Geometry| #[trigger] f.requires((g,)),
        forall|g: &Geometry, h: Geometry|
            #[trigger] f.ensures((g,), Ok(h)) ==> h is Polygon,
    ensures
        r matches Ok(out) ==> out.wf() && out.spec_type() == GeometryType::Polygon
            && out.spec_len() == col.spec_len() && (forall|i: int|
            0 <= i < col.spec_len() ==> out.flat_valid(i) == col.flat_valid(i)) && (forall|i: int|
            0 <= i < col.spec_len() && col.flat_valid(i) ==> exists|g: Geometry, h: Geometry|
                #![trigger col.flat_row_ok(i, g), f.ensures((&g,), Ok(h))]
                col.flat_row_ok(i, g) && f.ensures((&g,), Ok(h)) && out.flat_row_ok(i, h)),
        r matches Err(e) ==> decode_failed(*col, e) || row_fails::<Geometry, F>(*col, *f, e),
{
    let rows = match col.iter_geo() {
        Ok(rows) => rows,
        Err(e) => {
            return Err(e);
        },
    };
    let n = rows.len();
    let mut builder = MutablePolygonArray::new();
    let mut i: usize = 0;
    while i < n
        invariant
            col.wf(),
            forall|g: &Geometry| #[trigger] f.requires((g,)),
            forall|g: &Geometry, h: Geometry|
                #[trigger] f.ensures((g,), Ok(h)) ==> h is Polygon,
            n == rows@.len(),
            n == col.spec_len(),
            forall|t: int|
                0 <= t < n ==> (((#[trigger] rows@[t]) is Some) == col.flat_valid(t)),
            forall|t: int|
                0 <= t < n ==> ((#[trigger] rows@[t]) matches Some(g) ==> col.flat_row_ok(t, g)),
            builder.wf(),
            builder.spec_len() == i,
            i <= n,
            forall|t: int|
                0 <= t < i ==> ((#[trigger] builder.get_spec(t)) is Some) == col.flat_valid(t),
            forall|t: int|
                0 <= t < i && col.flat_valid(t) ==> exists|g: Geometry, h: Geometry|
                    #![trigger col.flat_row_ok(t, g), f.ensures((&g,), Ok(h))]
                    col.flat_row_ok(t, g) && f.ensures((&g,), Ok(h)) && (h matches
                    Geometry::Polygon(p) && builder.get_spec(t) == Some(polygon_rings(p))),
        decreases n - i,
    {
        let row = vstd::std_specs::vec::vec_index(&rows, i);
        match row {
            None => {
                builder.push(None);
            },
            Some(g) => {
                let h = match f(g) {
                    Ok(h) => h,
                    Err(e) => {
                        proof {
                            assert((i as int) < col.spec_len() && col.flat_valid(i as int)
                                && col.flat_row_ok(i as int, *g) && call_ensures(
                                *f,
                                (g,),
                                Err::<Geometry, GeoError>(e),
                            ));
                        }
                        return Err(e);
                    },
                };
                let ghost hh = h;
                match h {
                    Geometry::Polygon(p) => {
                        builder.push(Some(&p));
                        proof {
                            assert(col.flat_row_ok(i as int, *g) && f.ensures((g,), Ok(hh)) && (
                            hh matches Geometry::Polygon(p2) && builder.get_spec(i as int) == Some(
                                polygon_rings(p2),
                            )));
                        }
                    },
                    // The capability is constrained to polygon outputs,
                    // so this arm is proven unreachable.
                    _ => {
                        proof {
                            assert(false);
                        }
                        return Err(GeoError::Compute);
                    },
                }
            },
        }
        i += 1;
    }
    let chunk = builder.finish();
    let out = Column::from_chunk(GeometryArrayEnum::Polygon(chunk));
    proof {
        assert forall|i2: int| 0 <= i2 < col.spec_len() implies out.flat_valid(i2)
            == col.flat_valid(i2) by {
            lemma_single_chunk_locate(out.chunks@, i2);
        }
        assert forall|i2: int|
            0 <= i2 < col.spec_len() && col.flat_valid(i2) implies exists|g: Geometry, h: Geometry|
            #![trigger col.flat_row_ok(i2, g), f.ensures((&g,), Ok(h))]
            col.flat_row_ok(i2, g) && f.ensures((&g,), Ok(h)) && out.flat_row_ok(i2, h) by {
            lemma_single_chunk_locate(out.chunks@, i2);
            let (g, h) = choose|g: Geometry, h: Geometry|
                #![trigger col.flat_row_ok(i2, g), f.ensures((&g,), Ok(h))]
                col.flat_row_ok(i2, g) && f.ensures((&g,), Ok(h)) && (h matches Geometry::Polygon(
                    p,
                ) && builder.get_spec(i2) == Some(polygon_rings(p)));
            assert(out.flat_row_ok(i2, h));
        }
    }
    Ok(out)
}

} // verus!
