//! Series-level geometry operations: the interface a column of
//! geometries exposes to the surrounding engine.

use vstd::prelude::*;

use crate::column::Column;
use crate::error::GeoError;
use crate::generic::GeometryType;
use crate::geom::Geometry;
use crate::geom::geom_model;
use crate::ops::apply_geometry_wkb;
use crate::ops::decode_failed;
use crate::ops::row_fails;
use crate::wkb::wkb_wf;

verus! {

/// Operations of a logical series of geometries. The geometric
/// computation itself is supplied externally as a capability applied per
/// row; the implementor owns encoding resolution and null propagation.
pub trait GeoSeries {
    spec fn gs_wf(&self) -> bool;

    spec fn gs_len(&self) -> int;

    spec fn gs_valid(&self, i: int) -> bool;

    /// Whether `g` is the correct decoding of row `i`.
    spec fn gs_row_ok(&self, i: int, g: Geometry) -> bool;

    /// Whether row `i` cannot decode: its payload is the encoding of no
    /// well-formed geometry.
    spec fn gs_undecodable(&self, i: int) -> bool;

    /// Centroid of every present row, re-encoded as a binary (WKB)
    /// column; a null row stays null and the capability is not invoked
    /// for it. The operation fails only when some present row cannot
    /// decode or the capability admits the error for some present row's
    /// geometry; otherwise success is owed, with row `i` of the output
    /// holding the capability's centroid of row `i` of the input.
    fn centroid<F: Fn(&Geometry) -> Result<Geometry, GeoError>>(&self, f: &F) -> (r: Result<
        Column,
        GeoError,
    >)
        requires
            self.gs_wf(),
            forall|g: &Geometry| #[trigger] f.requires((g,)),
            forall|g: &Geometry, h: Geometry|
                #[trigger] f.ensures((g,), Ok(h)) ==> wkb_wf(geom_model(h)),
        ensures
            r matches Ok(out) ==> out.wf() && out.spec_type() == GeometryType::WKB
                && out.spec_len() == self.gs_len() && (forall|i: int|
                0 <= i < self.gs_len() ==> out.flat_valid(i) == self.gs_valid(i)) && (forall|
            i: int|
                0 <= i < self.gs_len() && self.gs_valid(i) ==> exists|g: Geometry, h: Geometry|
                    #![trigger self.gs_row_ok(i, g), f.ensures((&g,), Ok(h))]
                    self.gs_row_ok(i, g) && f.ensures((&g,), Ok(h)) && out.flat_row_ok(i, h)),
            r matches Err(e) ==> (e == GeoError::Decode && exists|i: int|
                0 <= i < self.gs_len() && self.gs_valid(i) && #[trigger] self.gs_undecodable(i))
                || (exists|i: int, g: Geometry|
                0 <= i < self.gs_len() && self.gs_valid(i) && #[trigger] self.gs_row_ok(i, g)
                    && f.ensures((&g,), Err::<Geometry, GeoError>(e))),
    ;
}

impl GeoSeries for Column {
    open spec fn gs_wf(&self) -> bool {
        self.wf()
    }

    open spec fn gs_len(&self) -> int {
        self.spec_len()
    }

    open spec fn gs_valid(&self, i: int) -> bool {
        self.flat_valid(i)
    }

    open spec fn gs_row_ok(&self, i: int, g: Geometry) -> bool {
        self.flat_row_ok(i, g)
    }

    open spec fn gs_undecodable(&self, i: int) -> bool {
        self.flat_undecodable(i)
    }

    fn centroid<F: Fn(&Geometry) -> Result<Geometry, GeoError>>(&self, f: &F) -> (r: Result<
        Column,
        GeoError,
    >) {
        let r = apply_geometry_wkb(self, f);
        proof {
            match &r {
                Ok(out) => {
                    assert forall|i: int|
                        0 <= i < self.gs_len() && self.gs_valid(i) implies exists|
                        g: Geometry,
                        h: Geometry,
                    |
                        #![trigger self.gs_row_ok(i, g), call_ensures(*f, (&g,), Ok(h))]
                        self.gs_row_ok(i, g) && call_ensures(*f, (&g,), Ok(h)) && out.flat_row_ok(
                            i,
                            h,
                        ) by {
                        let (g, h) = choose|g: Geometry, h: Geometry|
                            #![trigger self.flat_row_ok(i, g), call_ensures(*f, (&g,), Ok(h))]
                            self.flat_row_ok(i, g) && call_ensures(*f, (&g,), Ok(h))
                                && out.flat_row_ok(i, h);
                        assert(self.gs_row_ok(i, g) && call_ensures(*f, (&g,), Ok(h))
                            && out.flat_row_ok(i, h));
                    }
                },
                Err(e) => {
                    let e = *e;
                    if decode_failed(*self, e) {
                        let i = choose|i: int|
                            0 <= i < self.spec_len() && self.flat_valid(i)
                                && #[trigger] self.flat_undecodable(i);
                        assert(0 <= i < self.gs_len() && self.gs_valid(i) && self.gs_undecodable(
                            i,
                        ));
                    }
                    if row_fails::<Geometry, F>(*self, *f, e) {
                        let (i, g) = choose|i: int, g: Geometry|
                            0 <= i < self.spec_len() && self.flat_valid(i)
                                && #[trigger] self.flat_row_ok(i, g) && call_ensures(
                                *f,
                                (&g,),
                                Err::<Geometry, GeoError>(e),
                            );
                        assert(0 <= i < self.gs_len() && self.gs_valid(i) && self.gs_row_ok(i, g)
                            && f.ensures((&g,), Err::<Geometry, GeoError>(e)));
                    }
                },
            }
        }
        r
    }
}

} // verus!
