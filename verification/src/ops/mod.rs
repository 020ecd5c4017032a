//! Row-wise algorithm dispatch: given a logical column and a pure
//! native-geometry function, resolve the encoding, apply the function
//! per row with null-preserving semantics, and re-encode the results.
//!
//! Null propagation is uniform: a null input row yields a null output
//! row and the function is not invoked for it. A failure of the function
//! on a present row aborts the whole column operation; per-row
//! skip-and-null is never a silent default.

pub mod affine;
pub mod convex_hull;
pub mod length;

use vstd::prelude::*;

use crate::binary::MutableWkbArray;
use crate::column::Column;
use crate::column::GeometryArrayEnum;
use crate::column::lemma_single_chunk_locate;
use crate::error::GeoError;
use crate::generic::GeometryType;
use crate::geom::Geometry;
use crate::geom::geom_model;
use crate::primitive::PrimitiveArray;
use crate::wkb::geometry_to_wkb;
use crate::wkb::wkb_of;
use crate::wkb::wkb_wf;
use crate::buffer::all_set_bits;

verus! {

/// The validity flags buffered so far: explicit flags once a null has
/// occurred, else implicitly all set.
pub open spec fn flags_of(validity: Option<Vec<bool>>, n: int) -> Seq<bool> {
    match validity {
        Some(v) => v@,
        None => Seq::new(n as nat, |t: int| true),
    }
}

/// A decode abort is justified: the column is binary and some present
/// row's payload is the encoding of no well-formed geometry.
pub open spec fn decode_failed(col: Column, e: GeoError) -> bool {
    e == GeoError::Decode && col.spec_type() == GeometryType::WKB && col.has_undecodable_row()
}

/// A capability abort is justified: the supplied function admits this
/// error for the decoding of some present row of the column.
pub open spec fn row_fails<R, F: Fn(&Geometry) -> Result<R, GeoError>>(
    col: Column,
    f: F,
    e: GeoError,
) -> bool {
    exists|i: int, g: Geometry|
        0 <= i < col.spec_len() && col.flat_valid(i) && #[trigger] col.flat_row_ok(i, g)
            && call_ensures(f, (&g,), Err::<R, GeoError>(e))
}

/// Applies a scalar-valued function to every present row of the column,
/// propagating nulls: the output row is null exactly when the input row
/// is, and the function is not invoked on null rows. A failure of the
/// function on any present row aborts the operation with its error.
pub fn apply_scalar<F: Fn(&Geometry) -> Result<u64, GeoError>>(col: &Column, f: &F) -> (r: Result<
    PrimitiveArray,
    GeoError,
>)
    requires
        col.wf(),
        forall|g: &Geometry| #[trigger] f.requires((g,)),
    ensures
        r matches Ok(out) ==> out.wf() && out.spec_len() == col.spec_len() && (forall|i: int|
            0 <= i < col.spec_len() ==> out.valid_seq()[i] == col.flat_valid(i)) && (forall|i: int|
            0 <= i < col.spec_len() && col.flat_valid(i) ==> exists|g: Geometry|
                #[trigger] col.flat_row_ok(i, g) && f.ensures((&g,), Ok(out.values@[i]))),
        r matches Err(e) ==> decode_failed(*col, e) || row_fails::<u64, F>(*col, *f, e),
{
    let rows = match col.iter_geo() {
        Ok(rows) => rows,
        Err(e) => {
            return Err(e);
        },
    };
    let n = rows.len();
    let mut values: Vec<u64> = Vec::new();
    let mut validity: Option<Vec<bool>> = None;
    let mut i: usize = 0;
    while i < n
        invariant
            col.wf(),
            forall|g: &Geometry| #[trigger] f.requires((g,)),
            n == rows@.len(),
            n == col.spec_len(),
            forall|t: int|
                0 <= t < n ==> (((#[trigger] rows@[t]) is Some) == col.flat_valid(t)),
            forall|t: int|
                0 <= t < n ==> ((#[trigger] rows@[t]) matches Some(g) ==> col.flat_row_ok(t, g)),
            i <= n,
            values@.len() == i,
            match validity {
                Some(v) => v@.len() == i,
                None => true,
            },
            forall|t: int|
                0 <= t < i ==> #[trigger] flags_of(validity, i as int)[t] == col.flat_valid(t),
            forall|t: int|
                0 <= t < i && col.flat_valid(t) ==> exists|g: Geometry|
                    #[trigger] col.flat_row_ok(t, g) && f.ensures((&g,), Ok(values@[t])),
        decreases n - i,
    {
        let ghost pre_validity = validity;
        let row = vstd::std_specs::vec::vec_index(&rows, i);
        match row {
            None => {
                values.push(0);
                match &mut validity {
                    Some(v) => {
                        v.push(false);
                    },
                    None => {
                        let mut v = all_set_bits(i);
                        v.push(false);
                        validity = Some(v);
                    },
                }
            },
            Some(g) => {
                let v = match f(g) {
                    Ok(v) => v,
                    Err(e) => {
                        proof {
                            assert((i as int) < col.spec_len() && col.flat_valid(i as int)
                                && col.flat_row_ok(i as int, *g) && call_ensures(
                                *f,
                                (g,),
                                Err::<u64, GeoError>(e),
                            ));
                        }
                        return Err(e);
                    },
                };
                values.push(v);
                if let Some(vd) = &mut validity {
                    vd.push(true);
                }
            },
        }
        proof {
            assert forall|t: int|
                0 <= t < i + 1 implies #[trigger] flags_of(validity, i as int + 1)[t]
                == col.flat_valid(t) by {
                if t < i as int {
                    assert(flags_of(pre_validity, i as int)[t] == col.flat_valid(t));
                }
            }
        }
        i += 1;
    }
    let ghost gv = validity;
    let out = PrimitiveArray::from_parts(values, validity);
    proof {
        assert forall|t: int| 0 <= t < col.spec_len() implies out.valid_seq()[t] == col.flat_valid(
            t,
        ) by {
            assert(flags_of(gv, n as int)[t] == col.flat_valid(t));
        }
    }
    Ok(out)
}

/// Applies a geometry-valued function to every present row and
/// re-encodes the outputs as a binary (WKB) column, the universal
/// fallback representation, propagating nulls. The function's outputs
/// must stay encodable; an output too large for the platform aborts with
/// a compute error.
pub fn apply_geometry_wkb<F: Fn(&Geometry) -> Result<Geometry, GeoError>>(col: &Column, f: &F) -> (r:
    Result<Column, GeoError>)
    requires
        col.wf(),
        forall|g: &Geometry| #[trigger] f.requires((g,)),
        forall|g: &Geometry, h: Geometry|
            #[trigger] f.ensures((g,), Ok(h)) ==> wkb_wf(geom_model(h)),
    ensures
        r matches Ok(out) ==> out.wf() && out.spec_type() == GeometryType::WKB && out.spec_len()
            == col.spec_len() && (forall|i: int|
            0 <= i < col.spec_len() ==> out.flat_valid(i) == col.flat_valid(i)) && (forall|i: int|
            0 <= i < col.spec_len() && col.flat_valid(i) ==> exists|g: Geometry, h: Geometry|
                #![trigger col.flat_row_ok(i, g), f.ensures((&g,), Ok(h))]
                col.flat_row_ok(i, g) && f.ensures((&g,), Ok(h)) && out.flat_row_ok(i, h)),
        r matches Err(e) ==> decode_failed(*col, e) || row_fails::<Geometry, F>(*col, *f, e),
{
    let rows = match col.iter_geo() {
        Ok(rows) => rows,
        Err(e) => {
            return Err(e);
        },
    };
    let n = rows.len();
    let mut builder = MutableWkbArray::new();
    let mut i: usize = 0;
    while i < n
        invariant
            col.wf(),
            forall|g: &Geometry| #[trigger] f.requires((g,)),
            forall|g: &Geometry, h: Geometry|
                #[trigger] f.ensures((g,), Ok(h)) ==> wkb_wf(geom_model(h)),
            n == rows@.len(),
            n == col.spec_len(),
            forall|t: int|
                0 <= t < n ==> (((#[trigger] rows@[t]) is Some) == col.flat_valid(t)),
            forall|t: int|
                0 <= t < n ==> ((#[trigger] rows@[t]) matches Some(g) ==> col.flat_row_ok(t, g)),
            builder.wf(),
            builder.spec_len() == i,
            i <= n,
            forall|t: int|
                0 <= t < i ==> ((#[trigger] builder.get_spec(t)) is Some) == col.flat_valid(t),
            forall|t: int|
                0 <= t < i && col.flat_valid(t) ==> exists|g: Geometry, h: Geometry|
                    #![trigger col.flat_row_ok(t, g), f.ensures((&g,), Ok(h))]
                    col.flat_row_ok(t, g) && f.ensures((&g,), Ok(h)) && builder.get_spec(t)
                        == Some(wkb_of(geom_model(h))),
        decreases n - i,
    {
        let row = vstd::std_specs::vec::vec_index(&rows, i);
        match row {
            None => {
                builder.push(None);
            },
            Some(g) => {
                let h = match f(g) {
                    Ok(h) => h,
                    Err(e) => {
                        proof {
                            assert((i as int) < col.spec_len() && col.flat_valid(i as int)
                                && col.flat_row_ok(i as int, *g) && call_ensures(
                                *f,
                                (g,),
                                Err::<Geometry, GeoError>(e),
                            ));
                        }
                        return Err(e);
                    },
                };
                let encoded = geometry_to_wkb(&h);
                builder.push(Some(&encoded));
            },
        }
        i += 1;
    }
    let chunk = builder.finish();
    let out = Column::from_chunk(GeometryArrayEnum::WKB(chunk));
    proof {
        assert forall|i2: int| 0 <= i2 < col.spec_len() implies out.flat_valid(i2)
            == col.flat_valid(i2) by {
            lemma_single_chunk_locate(out.chunks@, i2);
        }
        assert forall|i2: int|
            0 <= i2 < col.spec_len() && col.flat_valid(i2) implies exists|g: Geometry, h: Geometry|
            #![trigger col.flat_row_ok(i2, g), f.ensures((&g,), Ok(h))]
            col.flat_row_ok(i2, g) && f.ensures((&g,), Ok(h)) && out.flat_row_ok(i2, h) by {
            lemma_single_chunk_locate(out.chunks@, i2);
            let (g, h) = choose|g: Geometry, h: Geometry|
                #![trigger col.flat_row_ok(i2, g), f.ensures((&g,), Ok(h))]
                col.flat_row_ok(i2, g) && f.ensures((&g,), Ok(h)) && builder.get_spec(i2) == Some(
                    wkb_of(geom_model(h)),
                );
            assert(chunk.get_spec(i2) == Some(wkb_of(geom_model(h))));
            assert(out.flat_row_ok(i2, h));
        }
    }
    Ok(out)
}

} // verus!
