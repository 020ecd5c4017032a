//! Length of each row of a column, as the 64-bit patterns of the
//! numeric results. The mathematical length formulas are supplied
//! externally as a capability applied per geometry; this module owns the
//! dispatch, the zero-length shapes, and the null propagation.

use vstd::prelude::*;

use crate::buffer::all_set_bits;
use crate::column::Column;
use crate::error::GeoError;
use crate::generic::GeometryType;
use crate::geom::Geometry;
use crate::ops::apply_scalar;
use crate::ops::decode_failed;
use crate::ops::row_fails;
use crate::ops::flags_of;
use crate::primitive::PrimitiveArray;

verus! {

/// The geodesic length formula to apply.
#[derive(Clone, Copy, Debug, PartialEq, Eq, Structural)]
pub enum GeodesicLengthMethod {
    Haversine,
    Geodesic,
    Vincenty,
}

/// Shapes whose length is zero by definition, with no formula invoked:
/// single vertices and collections of single vertices.
pub open spec fn zero_length_shape(g: Geometry) -> bool {
    g is Point || g is MultiPoint
}

/// The correct scalar output for one row under length dispatch: a
/// zero-length shape yields the pattern of zero without invoking the
/// formula; any other shape yields a value the formula allows.
pub open spec fn length_row_ok<F: Fn(&Geometry) -> Result<u64, GeoError>>(
    f: F,
    g: Geometry,
    v: u64,
) -> bool {
    if zero_length_shape(g) {
        v == 0
    } else {
        call_ensures(f, (&g,), Ok(v))
    }
}

/// A capability abort of the length dispatch is justified: the formula
/// admits this error for the decoding of some present row whose shape
/// is not a zero-length shape (the only rows it is invoked on).
pub open spec fn length_row_fails<F: Fn(&Geometry) -> Result<u64, GeoError>>(
    col: Column,
    f: F,
    e: GeoError,
) -> bool {
    exists|i: int, g: Geometry|
        0 <= i < col.spec_len() && col.flat_valid(i) && #[trigger] col.flat_row_ok(i, g)
            && !zero_length_shape(g) && call_ensures(f, (&g,), Err::<u64, GeoError>(e))
}

/// The same justification for the geodesic dispatch, whose formula also
/// takes the chosen method.
pub open spec fn method_row_fails<F: Fn(GeodesicLengthMethod, &Geometry) -> Result<u64, GeoError>>(
    col: Column,
    method: GeodesicLengthMethod,
    f: F,
    e: GeoError,
) -> bool {
    exists|i: int, g: Geometry|
        0 <= i < col.spec_len() && col.flat_valid(i) && #[trigger] col.flat_row_ok(i, g)
            && !zero_length_shape(g) && call_ensures(f, (method, &g), Err::<u64, GeoError>(e))
}

/// Applies length dispatch to every present row, propagating nulls.
fn length_rows<F: Fn(&Geometry) -> Result<u64, GeoError>>(col: &Column, f: &F) -> (r: Result<
    PrimitiveArray,
    GeoError,
>)
    requires
        col.wf(),
        forall|g: &Geometry| #[trigger] f.requires((g,)),
    ensures
        r matches Ok(out) ==> out.wf() && out.spec_len() == col.spec_len() && (forall|i: int|
            0 <= i < col.spec_len() ==> out.valid_seq()[i] == col.flat_valid(i)) && (forall|i: int|
            0 <= i < col.spec_len() && col.flat_valid(i) ==> exists|g: Geometry|
                #[trigger] col.flat_row_ok(i, g) && length_row_ok(*f, g, out.values@[i])),
        r matches Err(e) ==> decode_failed(*col, e) || length_row_fails(*col, *f, e),
{
    let rows = match col.iter_geo() {
        Ok(rows) => rows,
        Err(e) => {
            return Err(e);
        },
    };
    let n = rows.len();
    let mut values: Vec<u64> = Vec::new();
    let mut validity: Option<Vec<bool>> = None;
    let mut i: usize = 0;
    while i < n
        invariant
            col.wf(),
            forall|g: &Geometry| #[trigger] f.requires((g,)),
            n == rows@.len(),
            n == col.spec_len(),
            forall|t: int|
                0 <= t < n ==> (((#[trigger] rows@[t]) is Some) == col.flat_valid(t)),
            forall|t: int|
                0 <= t < n ==> ((#[trigger] rows@[t]) matches Some(g) ==> col.flat_row_ok(t, g)),
            i <= n,
            values@.len() == i,
            match validity {
                Some(v) => v@.len() == i,
                None => true,
            },
            forall|t: int|
                0 <= t < i ==> #[trigger] flags_of(validity, i as int)[t] == col.flat_valid(t),
            forall|t: int|
                0 <= t < i && col.flat_valid(t) ==> exists|g: Geometry|
                    #[trigger] col.flat_row_ok(t, g) && length_row_ok(*f, g, values@[t]),
        decreases n - i,
    {
        let ghost pre_validity = validity;
        let row = vstd::std_specs::vec::vec_index(&rows, i);
        match row {
            None => {
                values.push(0);
                match &mut validity {
                    Some(v) => {
                        v.push(false);
                    },
                    None => {
                        let mut v = all_set_bits(i);
                        v.push(false);
                        validity = Some(v);
                    },
                }
            },
            Some(g) => {
                let v: u64 = match g {
                    Geometry::Point(_) => 0,
                    Geometry::MultiPoint(_) => 0,
                    _ => match f(g) {
                        Ok(v) => v,
                        Err(e) => {
                            proof {
                                assert((i as int) < col.spec_len() && col.flat_valid(i as int)
                                    && col.flat_row_ok(i as int, *g) && !zero_length_shape(*g)
                                    && call_ensures(*f, (g,), Err::<u64, GeoError>(e)));
                            }
                            return Err(e);
                        },
                    },
                };
                values.push(v);
                if let Some(vd) = &mut validity {
                    vd.push(true);
                }
            },
        }
        proof {
            assert forall|t: int|
                0 <= t < i + 1 implies #[trigger] flags_of(validity, i as int + 1)[t]
                == col.flat_valid(t) by {
                if t < i as int {
                    assert(flags_of(pre_validity, i as int)[t] == col.flat_valid(t));
                }
            }
        }
        i += 1;
    }
    let ghost gv = validity;
    let out = PrimitiveArray::from_parts(values, validity);
    proof {
        assert forall|t: int| 0 <= t < col.spec_len() implies out.valid_seq()[t] == col.flat_valid(
            t,
        ) by {
            assert(flags_of(gv, n as int)[t] == col.flat_valid(t));
        }
    }
    Ok(out)
}

/// Planar length of each row. The supplied capability computes the
/// euclidean length of one geometry; the structured point fast path and
/// the zero-length shapes never invoke it. Columns of a variant the
/// operation does not support are rejected.
pub fn euclidean_length<F: Fn(&Geometry) -> Result<u64, GeoError>>(col: &Column, f: &F) -> (r:
    Result<PrimitiveArray, GeoError>)
    requires
        col.wf(),
        forall|g: &Geometry| #[trigger] f.requires((g,)),
    ensures
        r matches Ok(out) ==> out.wf() && out.spec_len() == col.spec_len() && (forall|i: int|
            0 <= i < col.spec_len() ==> out.valid_seq()[i] == col.flat_valid(i)) && (
        col.spec_type() == GeometryType::Point ==> forall|i: int|
            0 <= i < col.spec_len() && col.flat_valid(i) ==> out.values@[i] == 0) && (
        col.spec_type() == GeometryType::LineString ==> forall|i: int|
            0 <= i < col.spec_len() && col.flat_valid(i) ==> exists|g: Geometry|
                #[trigger] col.flat_row_ok(i, g) && call_ensures(*f, (&g,), Ok(out.values@[i])))
            && (col.spec_type() == GeometryType::WKB ==> forall|i: int|
            0 <= i < col.spec_len() && col.flat_valid(i) ==> exists|g: Geometry|
                #[trigger] col.flat_row_ok(i, g) && length_row_ok(*f, g, out.values@[i])),
        !(col.spec_type() == GeometryType::Point || col.spec_type() == GeometryType::LineString
            || col.spec_type() == GeometryType::WKB) ==> (r matches Err(e) && e
            == GeoError::UnsupportedEncoding),
        r matches Err(e) ==> ((col.spec_type() == GeometryType::Point || col.spec_type()
            == GeometryType::LineString || col.spec_type() == GeometryType::WKB) && (decode_failed(
            *col,
            e,
        ) || row_fails::<u64, F>(*col, *f, e))) || (!(col.spec_type() == GeometryType::Point
            || col.spec_type() == GeometryType::LineString || col.spec_type()
            == GeometryType::WKB) && e == GeoError::UnsupportedEncoding),
{
    let r = match col.geometry_type() {
        GeometryType::WKB => euclidean_length_wkb(col, f),
        GeometryType::Point => euclidean_length_geoarrow_point(col),
        GeometryType::LineString => euclidean_length_geoarrow_linestring(col, f),
        _ => Err(GeoError::UnsupportedEncoding),
    };
    proof {
        match r {
            Err(e) => {
                if length_row_fails(*col, *f, e) {
                    let (i, g) = choose|i: int, g: Geometry|
                        0 <= i < col.spec_len() && col.flat_valid(i) && #[trigger] col.flat_row_ok(
                            i,
                            g,
                        ) && !zero_length_shape(g) && call_ensures(
                            *f,
                            (&g,),
                            Err::<u64, GeoError>(e),
                        );
                    assert(row_fails::<u64, F>(*col, *f, e));
                }
            },
            _ => {},
        }
    }
    r
}

/// Planar length over the binary fallback path: each row is decoded
/// from its WKB payload and dispatched.
pub fn euclidean_length_wkb<F: Fn(&Geometry) -> Result<u64, GeoError>>(col: &Column, f: &F) -> (r:
    Result<PrimitiveArray, GeoError>)
    requires
        col.wf(),
        forall|g: &Geometry| #[trigger] f.requires((g,)),
    ensures
        r matches Ok(out) ==> out.wf() && out.spec_len() == col.spec_len() && (forall|i: int|
            0 <= i < col.spec_len() ==> out.valid_seq()[i] == col.flat_valid(i)) && (forall|i: int|
            0 <= i < col.spec_len() && col.flat_valid(i) ==> exists|g: Geometry|
                #[trigger] col.flat_row_ok(i, g) && length_row_ok(*f, g, out.values@[i])),
        r matches Err(e) ==> decode_failed(*col, e) || length_row_fails(*col, *f, e),
{
    length_rows(col, f)
}

/// Planar length of a structured point column: always the zero pattern,
/// with the validity carried over unchanged.
pub fn euclidean_length_geoarrow_point(col: &Column) -> (r: Result<PrimitiveArray, GeoError>)
    requires
        col.wf(),
        col.spec_type() == GeometryType::Point,
    ensures
        r matches Ok(out) ==> out.wf() && out.spec_len() == col.spec_len() && (forall|i: int|
            0 <= i < col.spec_len() ==> out.valid_seq()[i] == col.flat_valid(i)) && (forall|i: int|
            0 <= i < col.spec_len() && col.flat_valid(i) ==> out.values@[i] == 0),
        r is Ok,
{
    let rows = match col.iter_geo() {
        Ok(rows) => rows,
        Err(e) => {
            proof {
                assert(false);
            }
            return Err(e);
        },
    };
    let n = rows.len();
    let mut values: Vec<u64> = Vec::new();
    let mut validity: Option<Vec<bool>> = None;
    let mut i: usize = 0;
    while i < n
        invariant
            col.wf(),
            n == rows@.len(),
            n == col.spec_len(),
            forall|t: int|
                0 <= t < n ==> (((#[trigger] rows@[t]) is Some) == col.flat_valid(t)),
            i <= n,
            values@.len() == i,
            match validity {
                Some(v) => v@.len() == i,
                None => true,
            },
            forall|t: int|
                0 <= t < i ==> #[trigger] flags_of(validity, i as int)[t] == col.flat_valid(t),
            forall|t: int| 0 <= t < i ==> values@[t] == 0,
        decreases n - i,
    {
        let ghost pre_validity = validity;
        let row = vstd::std_specs::vec::vec_index(&rows, i);
        match row {
            None => {
                values.push(0);
                match &mut validity {
                    Some(v) => {
                        v.push(false);
                    },
                    None => {
                        let mut v = all_set_bits(i);
                        v.push(false);
                        validity = Some(v);
                    },
                }
            },
            Some(_) => {
                values.push(0);
                if let Some(vd) = &mut validity {
                    vd.push(true);
                }
            },
        }
        proof {
            assert forall|t: int|
                0 <= t < i + 1 implies #[trigger] flags_of(validity, i as int + 1)[t]
                == col.flat_valid(t) by {
                if t < i as int {
                    assert(flags_of(pre_validity, i as int)[t] == col.flat_valid(t));
                }
            }
        }
        i += 1;
    }
    let ghost gv = validity;
    let out = PrimitiveArray::from_parts(values, validity);
    proof {
        assert forall|t: int| 0 <= t < col.spec_len() implies out.valid_seq()[t] == col.flat_valid(
            t,
        ) by {
            assert(flags_of(gv, n as int)[t] == col.flat_valid(t));
        }
    }
    Ok(out)
}

/// Planar length of a structured line string column: the capability is
/// applied to each decoded vertex path directly.
pub fn euclidean_length_geoarrow_linestring<F: Fn(&Geometry) -> Result<u64, GeoError>>(
    col: &Column,
    f: &F,
) -> (r: Result<PrimitiveArray, GeoError>)
    requires
        col.wf(),
        forall|g: &Geometry| #[trigger] f.requires((g,)),
    ensures
        r matches Ok(out) ==> out.wf() && out.spec_len() == col.spec_len() && (forall|i: int|
            0 <= i < col.spec_len() ==> out.valid_seq()[i] == col.flat_valid(i)) && (forall|i: int|
            0 <= i < col.spec_len() && col.flat_valid(i) ==> exists|g: Geometry|
                #[trigger] col.flat_row_ok(i, g) && call_ensures(*f, (&g,), Ok(out.values@[i]))),
        r matches Err(e) ==> decode_failed(*col, e) || row_fails::<u64, F>(*col, *f, e),
{
    apply_scalar(col, f)
}

/// Geodesic length of each row under the chosen method. The supplied
/// capability computes the method's length of one geometry; zero-length
/// shapes never invoke it.
pub fn geodesic_length<F: Fn(GeodesicLengthMethod, &Geometry) -> Result<u64, GeoError>>(
    col: &Column,
    method: GeodesicLengthMethod,
    f: &F,
) -> (r: Result<PrimitiveArray, GeoError>)
    requires
        col.wf(),
        forall|m: GeodesicLengthMethod, g: &Geometry| #[trigger] f.requires((m, g)),
    ensures
        r matches Ok(out) ==> out.wf() && out.spec_len() == col.spec_len() && (forall|i: int|
            0 <= i < col.spec_len() ==> out.valid_seq()[i] == col.flat_valid(i)) && (forall|i: int|
            0 <= i < col.spec_len() && col.flat_valid(i) ==> exists|g: Geometry|
                #[trigger] col.flat_row_ok(i, g) && (zero_length_shape(g) ==> out.values@[i] == 0)
                    && (!zero_length_shape(g) ==> call_ensures(
                    *f,
                    (method, &g),
                    Ok(out.values@[i]),
                ))),
        r matches Err(e) ==> decode_failed(*col, e) || method_row_fails(*col, method, *f, e),
{
    geodesic_length_wkb(col, method, f)
}

/// Geodesic length over the binary fallback path, the uniform route for
/// every encoding.
pub fn geodesic_length_wkb<F: Fn(GeodesicLengthMethod, &Geometry) -> Result<u64, GeoError>>(
    col: &Column,
    method: GeodesicLengthMethod,
    f: &F,
) -> (r: Result<PrimitiveArray, GeoError>)
    requires
        col.wf(),
        forall|m: GeodesicLengthMethod, g: &Geometry| #[trigger] f.requires((m, g)),
    ensures
        r matches Ok(out) ==> out.wf() && out.spec_len() == col.spec_len() && (forall|i: int|
            0 <= i < col.spec_len() ==> out.valid_seq()[i] == col.flat_valid(i)) && (forall|i: int|
            0 <= i < col.spec_len() && col.flat_valid(i) ==> exists|g: Geometry|
                #[trigger] col.flat_row_ok(i, g) && (zero_length_shape(g) ==> out.values@[i] == 0)
                    && (!zero_length_shape(g) ==> call_ensures(
                    *f,
                    (method, &g),
                    Ok(out.values@[i]),
                ))),
        r matches Err(e) ==> decode_failed(*col, e) || method_row_fails(*col, method, *f, e),
{
    let wrapped = |g: &Geometry| -> (r2: Result<u64, GeoError>)
        ensures
            r2 matches Ok(v) ==> call_ensures(*f, (method, g), Ok(v)),
            r2 matches Err(e) ==> call_ensures(*f, (method, g), Err::<u64, GeoError>(e)),
        {
            f(method, g)
        };
    match length_rows(col, &wrapped) {
        Ok(out) => {
            proof {
                assert forall|i: int|
                    0 <= i < col.spec_len() && col.flat_valid(i) implies exists|g: Geometry|
                    #[trigger] col.flat_row_ok(i, g) && (zero_length_shape(g) ==> out.values@[i]
                    == 0) && (!zero_length_shape(g) ==> call_ensures(
                    *f,
                    (method, &g),
                    Ok(out.values@[i]),
                )) by {
                    let g = choose|g: Geometry|
                        #[trigger] col.flat_row_ok(i, g) && length_row_ok(
                            wrapped,
                            g,
                            out.values@[i],
                        );
                }
            }
            Ok(out)
        },
        Err(e) => {
            proof {
                if length_row_fails(*col, wrapped, e) {
                    let (i, g) = choose|i: int, g: Geometry|
                        0 <= i < col.spec_len() && col.flat_valid(i) && #[trigger] col.flat_row_ok(
                            i,
                            g,
                        ) && !zero_length_shape(g) && call_ensures(
                            wrapped,
                            (&g,),
                            Err::<u64, GeoError>(e),
                        );
                    assert(f.ensures((method, &g), Err::<u64, GeoError>(e)));
                    assert(method_row_fails(*col, method, *f, e));
                }
            }
            Err(e)
        },
    }
}

} // verus!
