//! Typed views over a logical column of one known variant: row access
//! without re-resolving the variant, and typed access to the chunks.

use vstd::prelude::*;

use crate::column::Column;
use crate::column::GeometryArrayEnum;
use crate::generic::GeometryType;
use crate::geom::Geometry;
use crate::geom::LineString;
use crate::geom::Point;
use crate::geom::Polygon;
use crate::linestring::LineStringArray;
use crate::point::PointArray;
use crate::polygon::PolygonArray;

verus! {

/// A column declared to hold points.
pub struct PointSeries(pub Column);

impl PointSeries {
    pub open spec fn wf(self) -> bool {
        self.0.wf() && self.0.spec_type() == GeometryType::Point
    }

    /// Decodes flat row `i`, returning `None` for a null row.
    pub fn get_as_geo(&self, i: usize) -> (r: Option<Point>)
        requires
            self.wf(),
            i < self.0.spec_len(),
        ensures
            r is Some <==> self.0.flat_valid(i as int),
            r matches Some(p) ==> self.0.flat_row_ok(i as int, Geometry::Point(p)),
    {
        match self.0.get_as_geo(i) {
            Ok(Some(Geometry::Point(p))) => Some(p),
            Ok(None) => None,
            _ => {
                proof {
                    crate::column::lemma_locate_ok(self.0.chunks@, i as int);
                    assert(false);
                }
                None
            },
        }
    }

    /// The chunks as typed point arrays, cloning only the
    /// reference-counted buffer handles.
    pub fn chunks(&self) -> (r: Vec<PointArray>)
        requires
            self.wf(),
        ensures
            r@.len() == self.0.chunks@.len(),
            forall|c: int|
                0 <= c < r@.len() ==> (self.0.chunks@[c] matches GeometryArrayEnum::Point(a) && (
                #[trigger] r@[c]).x@ == a.x@ && r@[c].y@ == a.y@ && r@[c].valid_seq()
                    == a.valid_seq()),
    {
        let n = self.0.chunks.len();
        let mut out: Vec<PointArray> = Vec::new();
        let mut c: usize = 0;
        while c < n
            invariant
                self.wf(),
                n == self.0.chunks@.len(),
                c <= n,
                out@.len() == c,
                forall|t: int|
                    0 <= t < c ==> (self.0.chunks@[t] matches GeometryArrayEnum::Point(a) && (
                    #[trigger] out@[t]).x@ == a.x@ && out@[t].y@ == a.y@ && out@[t].valid_seq()
                        == a.valid_seq()),
            decreases n - c,
        {
            match &self.0.chunks[c] {
                GeometryArrayEnum::Point(a) => {
                    let copy = PointArray {
                        x: a.x.clone(),
                        y: a.y.clone(),
                        validity: match &a.validity {
                            Some(b) => Some(b.clone()),
                            None => None,
                        },
                    };
                    proof {
                        assert(copy.valid_seq() =~= a.valid_seq());
                    }
                    out.push(copy);
                },
                _ => {
                    proof {
                        assert(self.0.chunks@[c as int].spec_type()
                            == self.0.chunks@[0].spec_type());
                        assert(false);
                    }
                },
            }
            c += 1;
        }
        out
    }
}

/// A column declared to hold line strings.
pub struct LineStringSeries(pub Column);

impl LineStringSeries {
    pub open spec fn wf(self) -> bool {
        self.0.wf() && self.0.spec_type() == GeometryType::LineString
    }

    /// Decodes flat row `i`, returning `None` for a null row.
    pub fn get_as_geo(&self, i: usize) -> (r: Option<LineString>)
        requires
            self.wf(),
            i < self.0.spec_len(),
        ensures
            r is Some <==> self.0.flat_valid(i as int),
            r matches Some(ls) ==> self.0.flat_row_ok(i as int, Geometry::LineString(ls)),
    {
        match self.0.get_as_geo(i) {
            Ok(Some(Geometry::LineString(ls))) => Some(ls),
            Ok(None) => None,
            _ => {
                proof {
                    crate::column::lemma_locate_ok(self.0.chunks@, i as int);
                    assert(false);
                }
                None
            },
        }
    }

    /// The chunks as typed line string arrays, cloning only the
    /// reference-counted buffer handles.
    pub fn chunks(&self) -> (r: Vec<LineStringArray>)
        requires
            self.wf(),
        ensures
            r@.len() == self.0.chunks@.len(),
            forall|c: int|
                0 <= c < r@.len() ==> (self.0.chunks@[c] matches GeometryArrayEnum::LineString(a)
                    && (#[trigger] r@[c]).model() == a.model()),
    {
        let n = self.0.chunks.len();
        let mut out: Vec<LineStringArray> = Vec::new();
        let mut c: usize = 0;
        while c < n
            invariant
                self.wf(),
                n == self.0.chunks@.len(),
                c <= n,
                out@.len() == c,
                forall|t: int|
                    0 <= t < c ==> (self.0.chunks@[t] matches GeometryArrayEnum::LineString(a) && (
                    #[trigger] out@[t]).model() == a.model()),
            decreases n - c,
        {
            match &self.0.chunks[c] {
                GeometryArrayEnum::LineString(a) => {
                    let copy = LineStringArray {
                        x: a.x.clone(),
                        y: a.y.clone(),
                        geom_offsets: a.geom_offsets.clone(),
                        validity: match &a.validity {
                            Some(b) => Some(b.clone()),
                            None => None,
                        },
                    };
                    proof {
                        assert(copy.model() =~= a.model());
                    }
                    out.push(copy);
                },
                _ => {
                    proof {
                        assert(self.0.chunks@[c as int].spec_type()
                            == self.0.chunks@[0].spec_type());
                        assert(false);
                    }
                },
            }
            c += 1;
        }
        out
    }
}

/// A column declared to hold polygons.
pub struct PolygonSeries(pub Column);

impl PolygonSeries {
    pub open spec fn wf(self) -> bool {
        self.0.wf() && self.0.spec_type() == GeometryType::Polygon
    }

    /// Decodes flat row `i`, returning `None` for a null row.
    pub fn get_as_geo(&self, i: usize) -> (r: Option<Polygon>)
        requires
            self.wf(),
            i < self.0.spec_len(),
        ensures
            r is Some <==> self.0.flat_valid(i as int),
            r matches Some(p) ==> self.0.flat_row_ok(i as int, Geometry::Polygon(p)),
    {
        match self.0.get_as_geo(i) {
            Ok(Some(Geometry::Polygon(p))) => Some(p),
            Ok(None) => None,
            _ => {
                proof {
                    crate::column::lemma_locate_ok(self.0.chunks@, i as int);
                    assert(false);
                }
                None
            },
        }
    }

    /// The chunks as typed polygon arrays, cloning only the
    /// reference-counted buffer handles.
    pub fn chunks(&self) -> (r: Vec<PolygonArray>)
        requires
            self.wf(),
        ensures
            r@.len() == self.0.chunks@.len(),
            forall|c: int|
                0 <= c < r@.len() ==> (self.0.chunks@[c] matches GeometryArrayEnum::Polygon(a) && (
                #[trigger] r@[c]).model() == a.model()),
    {
        let n = self.0.chunks.len();
        let mut out: Vec<PolygonArray> = Vec::new();
        let mut c: usize = 0;
        while c < n
            invariant
                self.wf(),
                n == self.0.chunks@.len(),
                c <= n,
                out@.len() == c,
                forall|t: int|
                    0 <= t < c ==> (self.0.chunks@[t] matches GeometryArrayEnum::Polygon(a) && (
                    #[trigger] out@[t]).model() == a.model()),
            decreases n - c,
        {
            match &self.0.chunks[c] {
                GeometryArrayEnum::Polygon(a) => {
                    let copy = PolygonArray {
                        x: a.x.clone(),
                        y: a.y.clone(),
                        ring_offsets: a.ring_offsets.clone(),
                        geom_offsets: a.geom_offsets.clone(),
                        validity: match &a.validity {
                            Some(b) => Some(b.clone()),
                            None => None,
                        },
                    };
                    proof {
                        assert(copy.model() =~= a.model());
                    }
                    out.push(copy);
                },
                _ => {
                    proof {
                        assert(self.0.chunks@[c as int].spec_type()
                            == self.0.chunks@[0].spec_type());
                        assert(false);
                    }
                },
            }
            c += 1;
        }
        out
    }
}

} // verus!
