//! Fixed-layout polygon arrays: flat coordinate buffers plus two offsets
//! levels — ring offsets delimiting each ring's vertex range, and
//! geometry offsets delimiting each row's ring range — and an optional
//! validity bitmap. The first ring of a row is its exterior; any further
//! rings are holes.

use vstd::prelude::*;

use crate::buffer::Bitmap;
use crate::buffer::Buffer;
use crate::buffer::OffsetsBuffer;
use crate::buffer::all_set_bits;
use crate::error::GeoError;
use crate::generic::GenericArray;
use crate::generic::validity_wf;
use crate::geom::Coord;
use crate::geom::Polygon;
use crate::geom::polygon_rings;

verus! {

/// Abstract content of the two-offsets-level layout. Slicing narrows
/// only the geometry offsets window and the validity; ring offsets and
/// coordinate buffers stay whole, since sliced offsets keep indexing
/// them absolutely.
#[verifier::ext_equal]
pub ghost struct PolygonModel {
    pub x: Seq<u64>,
    pub y: Seq<u64>,
    pub ring_offsets: Seq<usize>,
    pub geom_offsets: Seq<usize>,
    pub valid: Seq<bool>,
    pub has_bitmap: bool,
}

/// Content of the slice window `[off, off + len)`; the bitmap survives
/// only when the window still holds a null.
pub open spec fn spec_slice_polygon(m: PolygonModel, off: int, len: int) -> PolygonModel {
    PolygonModel {
        x: m.x,
        y: m.y,
        ring_offsets: m.ring_offsets,
        geom_offsets: m.geom_offsets.subrange(off, off + len + 1),
        valid: m.valid.subrange(off, off + len),
        has_bitmap: exists|i: int| off <= i < off + len && !m.valid[i],
    }
}

/// Slicing a slice is one slice of the composed window.
pub proof fn lemma_polygon_slice_composition(m: PolygonModel, o1: int, l1: int, o2: int, l2: int)
    requires
        0 <= o1,
        0 <= l1,
        0 <= o2,
        0 <= l2,
        o1 + l1 + 1 <= m.geom_offsets.len(),
        o1 + l1 <= m.valid.len(),
        o2 + l2 <= l1,
    ensures
        spec_slice_polygon(spec_slice_polygon(m, o1, l1), o2, l2) == spec_slice_polygon(
            m,
            o1 + o2,
            l2,
        ),
{
    let inner = spec_slice_polygon(m, o1, l1);
    assert(inner.geom_offsets.subrange(o2, o2 + l2 + 1) =~= m.geom_offsets.subrange(
        o1 + o2,
        o1 + o2 + l2 + 1,
    ));
    assert(inner.valid.subrange(o2, o2 + l2) =~= m.valid.subrange(o1 + o2, o1 + o2 + l2));
    assert((exists|i: int| o2 <= i < o2 + l2 && !inner.valid[i]) == (exists|i: int|
        o1 + o2 <= i < o1 + o2 + l2 && !m.valid[i])) by {
        if exists|i: int| o2 <= i < o2 + l2 && !inner.valid[i] {
            let i = choose|i: int| o2 <= i < o2 + l2 && !inner.valid[i];
            assert(!m.valid[o1 + i]);
        }
        if exists|i: int| o1 + o2 <= i < o1 + o2 + l2 && !m.valid[i] {
            let i = choose|i: int| o1 + o2 <= i < o1 + o2 + l2 && !m.valid[i];
            assert(!inner.valid[i - o1]);
        }
    }
    assert(spec_slice_polygon(inner, o2, l2) =~= spec_slice_polygon(m, o1 + o2, l2));
}

/// A polygon array: geometry `i` holds the rings
/// `[geom_offsets[i], geom_offsets[i+1])`, and ring `j` holds the
/// vertices `coords[ring_offsets[j] .. ring_offsets[j+1])`.
#[derive(Clone, Debug)]
pub struct PolygonArray {
    pub x: Buffer,
    pub y: Buffer,
    pub ring_offsets: OffsetsBuffer,
    pub geom_offsets: OffsetsBuffer,
    pub validity: Option<Bitmap>,
}

impl PolygonArray {
    pub open spec fn wf(self) -> bool {
        &&& self.x.wf()
        &&& self.y.wf()
        &&& self.ring_offsets.wf()
        &&& self.geom_offsets.wf()
        &&& self.x@.len() == self.y@.len()
        &&& self.ring_offsets.spec_last() <= self.x@.len()
        &&& self.geom_offsets.spec_last() <= self.ring_offsets.spec_row_count()
        &&& validity_wf(self.validity, self.geom_offsets.spec_row_count())
    }

    pub open spec fn spec_len(self) -> int {
        self.geom_offsets.spec_row_count()
    }

    pub open spec fn valid_seq(self) -> Seq<bool> {
        match self.validity {
            Some(b) => b@,
            None => Seq::new(self.geom_offsets.spec_row_count() as nat, |i: int| true),
        }
    }

    pub open spec fn model(self) -> PolygonModel {
        PolygonModel {
            x: self.x@,
            y: self.y@,
            ring_offsets: self.ring_offsets@,
            geom_offsets: self.geom_offsets@,
            valid: self.valid_seq(),
            has_bitmap: self.validity is Some,
        }
    }

    /// The vertex sequence of ring `j`.
    pub open spec fn ring_at(self, j: int) -> Seq<Coord> {
        let s = self.ring_offsets@[j] as int;
        let e = self.ring_offsets@[j + 1] as int;
        Seq::new((e - s) as nat, |k: int| Coord { x: self.x@[s + k], y: self.y@[s + k] })
    }

    /// The ring sequences of row `i`, exterior first, ignoring validity.
    pub open spec fn rings_at(self, i: int) -> Seq<Seq<Coord>> {
        let s = self.geom_offsets@[i] as int;
        let e = self.geom_offsets@[i + 1] as int;
        Seq::new((e - s) as nat, |k: int| self.ring_at(s + k))
    }

    /// The nullable ring sequences of row `i`.
    pub open spec fn get_spec(self, i: int) -> Option<Seq<Seq<Coord>>> {
        if self.valid_seq()[i] {
            Some(self.rings_at(i))
        } else {
            None
        }
    }

    /// Creates a polygon array from parts; the caller is responsible for
    /// the length invariants (the checked counterpart is `try_new`).
    pub fn new(
        x: Buffer,
        y: Buffer,
        ring_offsets: OffsetsBuffer,
        geom_offsets: OffsetsBuffer,
        validity: Option<Bitmap>,
    ) -> (r: PolygonArray)
        requires
            (PolygonArray { x, y, ring_offsets, geom_offsets, validity }).wf(),
        ensures
            r.wf(),
            r == (PolygonArray { x, y, ring_offsets, geom_offsets, validity }),
    {
        PolygonArray { x, y, ring_offsets, geom_offsets, validity }
    }

    /// Creates a polygon array from parts, failing fast with a layout
    /// error when the buffer lengths disagree.
    pub fn try_new(
        x: Buffer,
        y: Buffer,
        ring_offsets: OffsetsBuffer,
        geom_offsets: OffsetsBuffer,
        validity: Option<Bitmap>,
    ) -> (r: Result<PolygonArray, GeoError>)
        requires
            x.wf(),
            y.wf(),
            ring_offsets.wf(),
            geom_offsets.wf(),
            match validity {
                Some(b) => b.wf(),
                None => true,
            },
        ensures
            match r {
                Ok(a) => a.wf() && a == (PolygonArray { x, y, ring_offsets, geom_offsets, validity }),
                Err(e) => e == GeoError::Layout,
            },
            r is Ok <==> (PolygonArray { x, y, ring_offsets, geom_offsets, validity }).wf(),
    {
        if x.len() != y.len() {
            return Err(GeoError::Layout);
        }
        if ring_offsets.last() > x.len() {
            return Err(GeoError::Layout);
        }
        if geom_offsets.last() > ring_offsets.row_count() {
            return Err(GeoError::Layout);
        }
        let rows = geom_offsets.row_count();
        let vok = match &validity {
            Some(b) => b.len() == rows,
            None => true,
        };
        if !vok {
            return Err(GeoError::Layout);
        }
        Ok(PolygonArray { x, y, ring_offsets, geom_offsets, validity })
    }

    /// Number of logical rows.
    pub fn len(&self) -> (r: usize)
        requires
            self.wf(),
        ensures
            r == self.spec_len(),
    {
        self.geom_offsets.row_count()
    }

    pub fn is_empty(&self) -> (r: bool)
        requires
            self.wf(),
        ensures
            r == (self.spec_len() == 0),
    {
        self.len() == 0
    }

    /// The optional validity bitmap.
    pub fn validity(&self) -> (r: &Option<Bitmap>)
        ensures
            r == &self.validity,
    {
        &self.validity
    }

    /// Whether row `i` is present.
    pub fn is_valid(&self, i: usize) -> (r: bool)
        requires
            self.wf(),
            i < self.spec_len(),
        ensures
            r == self.valid_seq()[i as int],
    {
        match &self.validity {
            Some(b) => b.get_bit(i),
            None => true,
        }
    }

    /// Reads the vertex sequence of ring `j`.
    fn read_ring(&self, j: usize) -> (r: Vec<Coord>)
        requires
            self.wf(),
            j < self.ring_offsets.spec_row_count(),
        ensures
            r@ == self.ring_at(j as int),
    {
        proof {
            self.ring_offsets.lemma_bounds();
        }
        let (s, e) = self.ring_offsets.start_end(j);
        let mut coords: Vec<Coord> = Vec::new();
        let mut k: usize = s;
        while k < e
            invariant
                self.wf(),
                s == self.ring_offsets@[j as int],
                e == self.ring_offsets@[j as int + 1],
                e <= self.x@.len(),
                s <= k <= e,
                coords@.len() == k - s,
                forall|t: int| 0 <= t < k - s ==> coords@[t] == self.ring_at(j as int)[t],
            decreases e - k,
        {
            coords.push(Coord { x: self.x.get(k), y: self.y.get(k) });
            k += 1;
        }
        proof {
            assert(coords@ =~= self.ring_at(j as int));
        }
        coords
    }

    /// Decodes row `i` without consulting validity: the first ring, if
    /// any, becomes the exterior and the remaining rings the holes. A
    /// zero-ring row decodes to the empty polygon.
    pub fn value_as_geo(&self, i: usize) -> (r: Polygon)
        requires
            self.wf(),
            i < self.spec_len(),
        ensures
            polygon_rings(r) == if self.rings_at(i as int).len() == 0 {
                seq![Seq::<Coord>::empty()]
            } else {
                self.rings_at(i as int)
            },
    {
        proof {
            self.geom_offsets.lemma_bounds();
        }
        let (s, e) = self.geom_offsets.start_end(i);
        if s == e {
            let r = Polygon { exterior: Vec::new(), interiors: Vec::new() };
            proof {
                assert(polygon_rings(r) =~= seq![Seq::<Coord>::empty()]);
            }
            return r;
        }
        let exterior = self.read_ring(s);
        let mut interiors: Vec<Vec<Coord>> = Vec::new();
        let mut j: usize = s + 1;
        while j < e
            invariant
                self.wf(),
                s == self.geom_offsets@[i as int],
                e == self.geom_offsets@[i as int + 1],
                e <= self.ring_offsets.spec_row_count(),
                s < e,
                s + 1 <= j <= e,
                interiors@.len() == j - s - 1,
                forall|t: int|
                    0 <= t < j - s - 1 ==> #[trigger] interiors@[t]@ == self.ring_at(s + 1 + t),
            decreases e - j,
        {
            let ring = self.read_ring(j);
            interiors.push(ring);
            j += 1;
        }
        let r = Polygon { exterior, interiors };
        proof {
            let rs = self.rings_at(i as int);
            assert forall|t: int| 0 <= t < rs.len() implies polygon_rings(r)[t] == rs[t] by {
                if t > 0 {
                    assert(polygon_rings(r)[t] == interiors@.map_values(|v: Vec<Coord>| v@)[t - 1]);
                    assert(interiors@[t - 1]@ == self.ring_at(s + t));
                }
            }
            assert(polygon_rings(r) =~= rs);
        }
        r
    }

    /// Decodes row `i`, returning `None` for a null row.
    pub fn get_as_geo(&self, i: usize) -> (r: Option<Polygon>)
        requires
            self.wf(),
            i < self.spec_len(),
        ensures
            r matches Some(p) ==> self.valid_seq()[i as int] && polygon_rings(p) == if self.rings_at(
                i as int,
            ).len() == 0 {
                seq![Seq::<Coord>::empty()]
            } else {
                self.rings_at(i as int)
            },
            r is None <==> !self.valid_seq()[i as int],
    {
        if !self.is_valid(i) {
            return None;
        }
        Some(self.value_as_geo(i))
    }

    /// O(1) view of rows `[offset, offset + length)`: the geometry
    /// offsets window and validity narrow, ring offsets and coordinate
    /// buffers stay shared and whole. The caller is responsible for the
    /// bound (the checked counterpart is `slice`).
    #[verifier::rlimit(40)]
    pub fn slice_unchecked(&self, offset: usize, length: usize) -> (r: PolygonArray)
        requires
            self.wf(),
            offset + length <= self.spec_len(),
        ensures
            r.wf(),
            r.model() == spec_slice_polygon(self.model(), offset as int, length as int),
    {
        let ghost m = spec_slice_polygon(self.model(), offset as int, length as int);
        let ghost off_i = offset as int;
        let geom_offsets = self.geom_offsets.slice_unchecked(offset, length);
        proof {
            self.geom_offsets.lemma_bounds();
            assert(geom_offsets.spec_last() == self.geom_offsets@[off_i + length]);
        }
        match &self.validity {
            None => {
                let r = PolygonArray {
                    x: self.x.clone(),
                    y: self.y.clone(),
                    ring_offsets: self.ring_offsets.clone(),
                    geom_offsets,
                    validity: None,
                };
                proof {
                    assert(r.valid_seq() =~= m.valid);
                    assert(r.model() =~= m);
                }
                r
            },
            Some(b) => {
                let sliced = b.slice_unchecked(offset, length);
                if sliced.has_unset_bits() {
                    let r = PolygonArray {
                        x: self.x.clone(),
                        y: self.y.clone(),
                        ring_offsets: self.ring_offsets.clone(),
                        geom_offsets,
                        validity: Some(sliced),
                    };
                    proof {
                        let j = choose|j: int| 0 <= j < sliced@.len() && !sliced@[j];
                        assert(!self.model().valid[off_i + j]);
                        assert(r.valid_seq() =~= m.valid);
                        assert(r.model() =~= m);
                    }
                    r
                } else {
                    let r = PolygonArray {
                        x: self.x.clone(),
                        y: self.y.clone(),
                        ring_offsets: self.ring_offsets.clone(),
                        geom_offsets,
                        validity: None,
                    };
                    proof {
                        assert forall|i: int| off_i <= i < off_i + length implies self.model(
                        ).valid[i] by {
                            assert(sliced@[i - off_i]);
                        }
                        assert(r.valid_seq() =~= m.valid);
                        assert(r.model() =~= m);
                    }
                    r
                }
            },
        }
    }

    /// O(1) slice of rows `[offset, offset + length)`, failing with a
    /// bounds error when the window exceeds the array.
    pub fn slice(&self, offset: usize, length: usize) -> (r: Result<PolygonArray, GeoError>)
        requires
            self.wf(),
        ensures
            offset + length <= self.spec_len() ==> (r matches Ok(a) && a.wf() && a.model()
                == spec_slice_polygon(self.model(), offset as int, length as int)),
            offset + length > self.spec_len() ==> (r matches Err(e) && e == GeoError::Bounds),
    {
        let n = self.len();
        if offset > n || length > n - offset {
            return Err(GeoError::Bounds);
        }
        Ok(self.slice_unchecked(offset, length))
    }

    /// The generic columnar form of this array: two list levels over the
    /// coordinate-pair structure, sharing the same buffers.
    pub open spec fn spec_to_generic(self) -> GenericArray {
        GenericArray::List {
            offsets: self.geom_offsets,
            values: Box::new(
                GenericArray::List {
                    offsets: self.ring_offsets,
                    values: Box::new(
                        GenericArray::Coords { x: self.x, y: self.y, validity: None },
                    ),
                    validity: None,
                },
            ),
            validity: self.validity,
        }
    }

    /// Converts into the generic columnar representation without copying
    /// any buffer.
    pub fn into_arrow(self) -> (r: GenericArray)
        requires
            self.wf(),
        ensures
            r == self.spec_to_generic(),
            r.wf(),
    {
        let inner_coords = GenericArray::Coords { x: self.x, y: self.y, validity: None };
        proof {
            assert(inner_coords.wf());
        }
        let inner_list = GenericArray::List {
            offsets: self.ring_offsets,
            values: Box::new(inner_coords),
            validity: None,
        };
        proof {
            assert(inner_list.wf());
        }
        GenericArray::List {
            offsets: self.geom_offsets,
            values: Box::new(inner_list),
            validity: self.validity,
        }
    }

    /// The polygon array a generic array converts to: the shape must be
    /// two list levels over a coordinate-pair structure, all inner
    /// levels non-nullable, and every construction invariant must hold,
    /// else the conversion is a layout error.
    pub open spec fn spec_from_generic(g: GenericArray) -> Result<PolygonArray, GeoError> {
        match g {
            GenericArray::List { offsets: geom_offsets, values, validity } => match *values {
                GenericArray::List {
                    offsets: ring_offsets,
                    values: inner,
                    validity: mid_validity,
                } => match *inner {
                    GenericArray::Coords { x, y, validity: inner_validity } => {
                        let a = PolygonArray { x, y, ring_offsets, geom_offsets, validity };
                        if mid_validity is None && inner_validity is None && a.wf() {
                            Ok(a)
                        } else {
                            Err(GeoError::Layout)
                        }
                    },
                    _ => Err(GeoError::Layout),
                },
                _ => Err(GeoError::Layout),
            },
            _ => Err(GeoError::Layout),
        }
    }

    /// Converts from the generic columnar representation, validating
    /// every construction invariant and failing fast with a layout error.
    pub fn try_from_arrow(g: GenericArray) -> (r: Result<PolygonArray, GeoError>)
        ensures
            r == Self::spec_from_generic(g),
            r matches Ok(a) ==> a.wf(),
    {
        match g {
            GenericArray::List { offsets: geom_offsets, values, validity } => match *values {
                GenericArray::List {
                    offsets: ring_offsets,
                    values: inner,
                    validity: mid_validity,
                } => match *inner {
                    GenericArray::Coords { x, y, validity: inner_validity } => {
                        if mid_validity.is_some() || inner_validity.is_some() {
                            return Err(GeoError::Layout);
                        }
                        if !x.check_wf() || !y.check_wf() || !ring_offsets.check_wf()
                            || !geom_offsets.check_wf() {
                            return Err(GeoError::Layout);
                        }
                        if x.len() != y.len() {
                            return Err(GeoError::Layout);
                        }
                        if ring_offsets.last() > x.len() {
                            return Err(GeoError::Layout);
                        }
                        if geom_offsets.last() > ring_offsets.row_count() {
                            return Err(GeoError::Layout);
                        }
                        let rows = geom_offsets.row_count();
                        let vok = match &validity {
                            Some(b) => b.check_wf() && b.len() == rows,
                            None => true,
                        };
                        if !vok {
                            return Err(GeoError::Layout);
                        }
                        Ok(PolygonArray { x, y, ring_offsets, geom_offsets, validity })
                    },
                    _ => Err(GeoError::Layout),
                },
                _ => Err(GeoError::Layout),
            },
            _ => Err(GeoError::Layout),
        }
    }

    /// Round trip through the generic columnar representation: converting
    /// a well-formed polygon array out and back yields the array itself,
    /// same buffers and validity.
    pub proof fn lemma_generic_round_trip(a: PolygonArray)
        requires
            a.wf(),
        ensures
            PolygonArray::spec_from_generic(a.spec_to_generic()) == Ok::<PolygonArray, GeoError>(a),
    {
    }
}

/// Append-only builder for a polygon array. Before any null is pushed no
/// bitmap exists; the first null materializes one retroactively for all
/// previously pushed rows. A pushed polygon always contributes its
/// exterior ring (holes follow); a null contributes a zero-ring span.
pub struct MutablePolygonArray {
    pub x: Vec<u64>,
    pub y: Vec<u64>,
    pub ring_offsets: Vec<usize>,
    pub geom_offsets: Vec<usize>,
    pub validity: Option<Vec<bool>>,
}

impl MutablePolygonArray {
    pub open spec fn wf(self) -> bool {
        &&& self.x@.len() == self.y@.len()
        &&& self.ring_offsets@.len() >= 1
        &&& self.ring_offsets@[0] == 0
        &&& forall|i: int|
            0 <= i < self.ring_offsets@.len() - 1 ==> #[trigger] self.ring_offsets@[i]
                <= self.ring_offsets@[i + 1]
        &&& self.ring_offsets@.last() == self.x@.len()
        &&& self.geom_offsets@.len() >= 1
        &&& self.geom_offsets@[0] == 0
        &&& forall|i: int|
            0 <= i < self.geom_offsets@.len() - 1 ==> #[trigger] self.geom_offsets@[i]
                <= self.geom_offsets@[i + 1]
        &&& self.geom_offsets@.last() == self.ring_offsets@.len() - 1
        &&& match self.validity {
            Some(v) => v@.len() == self.geom_offsets@.len() - 1,
            None => true,
        }
    }

    pub open spec fn spec_len(self) -> int {
        self.geom_offsets@.len() - 1
    }

    pub open spec fn valid_seq(self) -> Seq<bool> {
        match self.validity {
            Some(v) => v@,
            None => Seq::new((self.geom_offsets@.len() - 1) as nat, |i: int| true),
        }
    }

    pub open spec fn ring_at(self, j: int) -> Seq<Coord> {
        let s = self.ring_offsets@[j] as int;
        let e = self.ring_offsets@[j + 1] as int;
        Seq::new((e - s) as nat, |k: int| Coord { x: self.x@[s + k], y: self.y@[s + k] })
    }

    pub open spec fn rings_at(self, i: int) -> Seq<Seq<Coord>> {
        let s = self.geom_offsets@[i] as int;
        let e = self.geom_offsets@[i + 1] as int;
        Seq::new((e - s) as nat, |k: int| self.ring_at(s + k))
    }

    pub open spec fn get_spec(self, i: int) -> Option<Seq<Seq<Coord>>> {
        if self.valid_seq()[i] {
            Some(self.rings_at(i))
        } else {
            None
        }
    }

    pub fn new() -> (r: MutablePolygonArray)
        ensures
            r.wf(),
            r.spec_len() == 0,
            r.validity is None,
    {
        let mut ring_offsets: Vec<usize> = Vec::new();
        ring_offsets.push(0);
        let mut geom_offsets: Vec<usize> = Vec::new();
        geom_offsets.push(0);
        MutablePolygonArray {
            x: Vec::new(),
            y: Vec::new(),
            ring_offsets,
            geom_offsets,
            validity: None,
        }
    }

    /// Appends the vertices of one ring and closes it with a new ring
    /// offset. Earlier rings and all row structure stay untouched.
    fn push_ring(&mut self, ring: &Vec<Coord>)
        requires
            old(self).x@.len() == old(self).y@.len(),
            old(self).ring_offsets@.len() >= 1,
            old(self).ring_offsets@[0] == 0,
            forall|i: int|
                0 <= i < old(self).ring_offsets@.len() - 1
                    ==> #[trigger] old(self).ring_offsets@[i]
                    <= old(self).ring_offsets@[i + 1],
            old(self).ring_offsets@.last() == old(self).x@.len(),
        ensures
            final(self).x@.len() == old(self).x@.len() + ring@.len(),
            final(self).x@.len() == final(self).y@.len(),
            final(self).ring_offsets@.len() == old(self).ring_offsets@.len() + 1,
            final(self).ring_offsets@[0] == 0,
            forall|i: int|
                0 <= i < final(self).ring_offsets@.len() - 1
                    ==> #[trigger] final(self).ring_offsets@[i]
                    <= final(self).ring_offsets@[i + 1],
            final(self).ring_offsets@.last() == final(self).x@.len(),
            forall|j: int| 0 <= j < old(self).ring_offsets@.len() - 1 ==> final(self).ring_at(j)
                == old(self).ring_at(j),
            final(self).ring_at(old(self).ring_offsets@.len() - 1) == ring@,
            final(self).geom_offsets == old(self).geom_offsets,
            final(self).validity == old(self).validity,
    {
        let ghost pre = *self;
        let m = ring.len();
        let mut k: usize = 0;
        while k < m
            invariant
                m == ring@.len(),
                pre.x@.len() == pre.y@.len(),
                k <= m,
                self.x@ == pre.x@ + ring@.take(k as int).map_values(|c: Coord| c.x),
                self.y@ == pre.y@ + ring@.take(k as int).map_values(|c: Coord| c.y),
                self.ring_offsets == pre.ring_offsets,
                self.geom_offsets == pre.geom_offsets,
                self.validity == pre.validity,
            decreases m - k,
        {
            let c = ring[k];
            self.x.push(c.x);
            self.y.push(c.y);
            proof {
                assert(self.x@ =~= pre.x@ + ring@.take(k + 1).map_values(|c: Coord| c.x));
                assert(self.y@ =~= pre.y@ + ring@.take(k + 1).map_values(|c: Coord| c.y));
            }
            k += 1;
        }
        self.ring_offsets.push(self.x.len());
        proof {
            assert(ring@.take(m as int) =~= ring@);
            assert(pre.ring_offsets@.last() == pre.x@.len());
            let rn = pre.ring_offsets@.len();
            assert forall|i: int|
                0 <= i < self.ring_offsets@.len() - 1 implies #[trigger] self.ring_offsets@[i]
                <= self.ring_offsets@[i + 1] by {
                if i < rn - 1 {
                    assert(self.ring_offsets@[i] == pre.ring_offsets@[i]);
                    assert(self.ring_offsets@[i + 1] == pre.ring_offsets@[i + 1]);
                    assert(pre.ring_offsets@[i] <= pre.ring_offsets@[i + 1]);
                } else {
                    assert(self.ring_offsets@[i] == pre.ring_offsets@[i]);
                    assert(self.ring_offsets@[i + 1] == self.x@.len() as usize);
                    crate::buffer::lemma_offsets_seq_bounded(pre.ring_offsets@, i);
                }
            }
            assert forall|j: int| 0 <= j < rn - 1 implies self.ring_at(j) == pre.ring_at(j) by {
                crate::buffer::lemma_offsets_seq_bounded(pre.ring_offsets@, j);
                crate::buffer::lemma_offsets_seq_bounded(pre.ring_offsets@, j + 1);
                let s = pre.ring_offsets@[j] as int;
                let e = pre.ring_offsets@[j + 1] as int;
                assert forall|t: int| 0 <= t < e - s implies #[trigger] self.x@[s + t] == pre.x@[s
                    + t] && self.y@[s + t] == pre.y@[s + t] by {}
                assert(self.ring_at(j) =~= pre.ring_at(j));
            }
            let s0 = pre.x@.len() as int;
            assert forall|t: int| 0 <= t < ring@.len() implies #[trigger] self.x@[s0 + t]
                == ring@[t].x && self.y@[s0 + t] == ring@[t].y by {
                assert(self.x@[s0 + t] == ring@.map_values(|c: Coord| c.x)[t]);
                assert(self.y@[s0 + t] == ring@.map_values(|c: Coord| c.y)[t]);
            }
            assert(self.ring_at(rn - 1) =~= ring@);
        }
    }

    /// Appends one nullable polygon. A null appends a zero-ring span
    /// and, on the first null only, backfills the bitmap with the
    /// previously pushed (implicitly valid) rows.
    #[verifier::rlimit(100)]
    pub fn push(&mut self, g: Option<&Polygon>)
        requires
            old(self).wf(),
        ensures
            final(self).wf(),
            final(self).spec_len() == old(self).spec_len() + 1,
            final(self).ring_offsets@.len() == old(self).ring_offsets@.len() + (match g {
                Some(p) => 1 + p.interiors@.len() as int,
                None => 0,
            }),
            final(self).x@.len() == old(self).x@.len() + (match g {
                Some(p) => p.exterior@.len() + p.interiors@.fold_left(
                    0,
                    |acc: int, v: Vec<Coord>| acc + v@.len(),
                ),
                None => 0,
            }),
            final(self).geom_offsets@ == old(self).geom_offsets@.push(
                (final(self).ring_offsets@.len() - 1) as usize,
            ),
            forall|i: int| 0 <= i < old(self).spec_len() ==> final(self).get_spec(i) == old(
                self,
            ).get_spec(i),
            final(self).get_spec(old(self).spec_len()) == (match g {
                Some(p) => Some(polygon_rings(*p)),
                None => None::<Seq<Seq<Coord>>>,
            }),
            final(self).validity is None <==> (old(self).validity is None && g is Some),
    {
        let ghost pre = *self;
        match g {
            Some(p) => {
                self.push_rings_of(p);
                let ghost mid = *self;
                let rings_now = self.ring_offsets.len() - 1;
                self.geom_offsets.push(rings_now);
                if let Some(v) = &mut self.validity {
                    v.push(true);
                }
                proof {
                    assert forall|j: int|
                        0 <= j < self.ring_offsets@.len() - 1 implies #[trigger] self.ring_at(j)
                        == mid.ring_at(j) by {
                        assert(self.ring_at(j) =~= mid.ring_at(j));
                    }
                    assert forall|j: int|
                        0 <= j < pre.ring_offsets@.len() - 1 implies #[trigger] pre.ring_at(j)
                        == mid.ring_at(j) by {}
                    lemma_polygon_push_rows(pre, *self, polygon_rings(*p));
                    assert(self.valid_seq()[pre.spec_len()]);
                }
            },
            None => {
                let rings_now = self.ring_offsets.len() - 1;
                self.geom_offsets.push(rings_now);
                match &mut self.validity {
                    Some(v) => {
                        v.push(false);
                    },
                    None => {
                        let mut v = all_set_bits(self.geom_offsets.len() - 2);
                        v.push(false);
                        self.validity = Some(v);
                    },
                }
                proof {
                    assert forall|j: int|
                        0 <= j < pre.ring_offsets@.len() - 1 implies #[trigger] self.ring_at(j)
                        == pre.ring_at(j) by {
                        assert(self.ring_at(j) =~= pre.ring_at(j));
                    }
                    lemma_polygon_push_rows(pre, *self, Seq::empty());
                    assert(!self.valid_seq()[pre.spec_len()]);
                }
            },
        }
    }

    /// Appends the exterior ring of `p` and then each hole, leaving the
    /// geometry offsets for the caller to close.
    fn push_rings_of(&mut self, p: &Polygon)
        requires
            old(self).wf(),
        ensures
            final(self).x@.len() == final(self).y@.len(),
            final(self).x@.len() == old(self).x@.len() + p.exterior@.len()
                + p.interiors@.fold_left(0, |acc: int, v: Vec<Coord>| acc + v@.len()),
            final(self).ring_offsets@.len() == old(self).ring_offsets@.len() + 1
                + p.interiors@.len(),
            final(self).ring_offsets@[0] == 0,
            forall|i: int|
                0 <= i < final(self).ring_offsets@.len() - 1
                    ==> #[trigger] final(self).ring_offsets@[i]
                    <= final(self).ring_offsets@[i + 1],
            final(self).ring_offsets@.last() == final(self).x@.len(),
            forall|j: int| 0 <= j < old(self).ring_offsets@.len() - 1 ==> final(self).ring_at(j)
                == old(self).ring_at(j),
            forall|t: int|
                0 <= t < polygon_rings(*p).len() ==> #[trigger] final(self).ring_at(
                    old(self).ring_offsets@.len() - 1 + t,
                ) == polygon_rings(*p)[t],
            final(self).geom_offsets == old(self).geom_offsets,
            final(self).validity == old(self).validity,
    {
        let ghost pre = *self;
        let ghost rings = polygon_rings(*p);
        proof {
            lemma_fold_len_nonneg(p.interiors@, 0);
        }
        self.push_ring(&p.exterior);
        let n = p.interiors.len();
        let mut k: usize = 0;
        while k < n
            invariant
                pre.wf(),
                n == p.interiors@.len(),
                rings == polygon_rings(*p),
                rings.len() == 1 + n,
                k <= n,
                self.x@.len() == self.y@.len(),
                self.x@.len() == pre.x@.len() + p.exterior@.len() + p.interiors@.take(
                    k as int,
                ).fold_left(0, |acc: int, v: Vec<Coord>| acc + v@.len()),
                self.ring_offsets@.len() == pre.ring_offsets@.len() + 1 + k,
                self.ring_offsets@[0] == 0,
                forall|i: int|
                    0 <= i < self.ring_offsets@.len() - 1 ==> #[trigger] self.ring_offsets@[i]
                        <= self.ring_offsets@[i + 1],
                self.ring_offsets@.last() == self.x@.len(),
                forall|j: int| 0 <= j < pre.ring_offsets@.len() - 1 ==> #[trigger] self.ring_at(j)
                    == pre.ring_at(j),
                forall|t: int|
                    0 <= t < 1 + k ==> #[trigger] self.ring_at(pre.ring_offsets@.len() - 1 + t)
                        == rings[t],
                self.geom_offsets == pre.geom_offsets,
                self.validity == pre.validity,
            decreases n - k,
        {
            let ghost before = *self;
            proof {
                lemma_fold_len_step(p.interiors@, k as int);
                lemma_fold_len_mono(p.interiors@, k as int + 1);
            }
            let ring = &p.interiors[k];
            self.push_ring(ring);
            proof {
                assert forall|t: int| 0 <= t < 1 + k + 1 implies #[trigger] self.ring_at(
                    pre.ring_offsets@.len() - 1 + t,
                ) == rings[t] by {
                    if t < 1 + k {
                        assert(before.ring_at(pre.ring_offsets@.len() - 1 + t) == rings[t]);
                    } else {
                        assert(self.ring_at(before.ring_offsets@.len() - 1) == p.interiors@[
                            k as int]@);
                        assert(rings[1 + k] == p.interiors@.map_values(|v: Vec<Coord>| v@)[
                            k as int]);
                    }
                }
            }
            k += 1;
        }
    }

    /// Freezes the buffered rows into an immutable polygon array,
    /// transferring buffer ownership without copying rows.
    #[verifier::rlimit(100)]
    pub fn finish(self) -> (r: PolygonArray)
        requires
            self.wf(),
        ensures
            r.wf(),
            r.spec_len() == self.spec_len(),
            forall|i: int| 0 <= i < self.spec_len() ==> r.get_spec(i) == self.get_spec(i),
            r.validity is Some <==> self.validity is Some,
    {
        let validity = match self.validity {
            Some(v) => Some(Bitmap::from_vec(v)),
            None => None,
        };
        let r = PolygonArray {
            x: Buffer::from_vec(self.x),
            y: Buffer::from_vec(self.y),
            ring_offsets: OffsetsBuffer::from_vec(self.ring_offsets),
            geom_offsets: OffsetsBuffer::from_vec(self.geom_offsets),
            validity,
        };
        proof {
            assert(r.valid_seq() =~= self.valid_seq());
            assert forall|i: int| 0 <= i < self.spec_len() implies r.get_spec(i) == self.get_spec(
                i,
            ) by {
                assert forall|k: int|
                    0 <= k < r.rings_at(i).len() implies r.rings_at(i)[k] == self.rings_at(i)[k]
                    by {
                    let s = self.geom_offsets@[i] as int;
                    assert(r.ring_at(s + k) =~= self.ring_at(s + k));
                }
                assert(r.rings_at(i) =~= self.rings_at(i));
            }
        }
        r
    }
}

/// After closing one row the earlier rows read back unchanged and the
/// new row holds exactly the appended rings.
proof fn lemma_polygon_push_rows(
    pre: MutablePolygonArray,
    post: MutablePolygonArray,
    rings: Seq<Seq<Coord>>,
)
    requires
        pre.wf(),
        post.x@.len() == post.y@.len(),
        post.ring_offsets@.len() == pre.ring_offsets@.len() + rings.len(),
        post.ring_offsets@.len() <= usize::MAX,
        post.ring_offsets@[0] == 0,
        forall|i: int|
            0 <= i < post.ring_offsets@.len() - 1 ==> #[trigger] post.ring_offsets@[i]
                <= post.ring_offsets@[i + 1],
        post.ring_offsets@.last() == post.x@.len(),
        forall|j: int| 0 <= j < pre.ring_offsets@.len() - 1 ==> post.ring_at(j) == pre.ring_at(j),
        forall|t: int|
            0 <= t < rings.len() ==> #[trigger] post.ring_at(pre.ring_offsets@.len() - 1 + t)
                == rings[t],
        post.geom_offsets@ == pre.geom_offsets@.push((post.ring_offsets@.len() - 1) as usize),
    ensures
        post.geom_offsets@.len() >= 1,
        post.geom_offsets@[0] == 0,
        forall|i: int|
            0 <= i < post.geom_offsets@.len() - 1 ==> #[trigger] post.geom_offsets@[i]
                <= post.geom_offsets@[i + 1],
        post.geom_offsets@.last() == post.ring_offsets@.len() - 1,
        forall|i: int| 0 <= i < pre.spec_len() ==> post.rings_at(i) == pre.rings_at(i),
        post.rings_at(pre.spec_len()) == rings,
{
    let n = pre.geom_offsets@.len();
    assert(pre.geom_offsets@.last() == pre.ring_offsets@.len() - 1);
    assert forall|i: int|
        0 <= i < post.geom_offsets@.len() - 1 implies #[trigger] post.geom_offsets@[i]
        <= post.geom_offsets@[i + 1] by {
        if i < n - 1 {
            assert(post.geom_offsets@[i] == pre.geom_offsets@[i]);
            assert(post.geom_offsets@[i + 1] == pre.geom_offsets@[i + 1]);
            assert(pre.geom_offsets@[i] <= pre.geom_offsets@[i + 1]);
        } else {
            assert(post.geom_offsets@[i] == pre.geom_offsets@[i]);
            assert(post.geom_offsets@[i + 1] == (post.ring_offsets@.len() - 1) as usize);
            crate::buffer::lemma_offsets_seq_bounded(pre.geom_offsets@, i);
        }
    }
    assert forall|i: int| 0 <= i < pre.spec_len() implies post.rings_at(i) == pre.rings_at(
        i,
    ) by {
        crate::buffer::lemma_offsets_seq_bounded(pre.geom_offsets@, i);
        crate::buffer::lemma_offsets_seq_bounded(pre.geom_offsets@, i + 1);
        let s = pre.geom_offsets@[i] as int;
        let e = pre.geom_offsets@[i + 1] as int;
        assert forall|k: int| 0 <= k < e - s implies #[trigger] post.ring_at(s + k) == pre.ring_at(
            s + k,
        ) by {}
        assert(post.rings_at(i) =~= pre.rings_at(i));
    }
    let s0 = (pre.ring_offsets@.len() - 1) as int;
    assert(post.geom_offsets@[pre.spec_len()] == pre.geom_offsets@.last());
    assert forall|k: int|
        0 <= k < rings.len() implies post.rings_at(pre.spec_len())[k] == rings[k] by {
        assert(post.ring_at(s0 + k) == rings[k]);
    }
    assert(post.rings_at(pre.spec_len()) =~= rings);
}

/// The interior-length sum is non-negative and grows with its prefix.
pub proof fn lemma_fold_len_nonneg(s: Seq<Vec<Coord>>, acc: int)
    ensures
        s.fold_left(acc, |a: int, v: Vec<Coord>| a + v@.len()) >= acc,
    decreases s.len(),
{
    if s.len() > 0 {
        lemma_fold_len_nonneg(s.drop_last(), acc);
    }
}

pub proof fn lemma_fold_len_step(s: Seq<Vec<Coord>>, k: int)
    requires
        0 <= k < s.len(),
    ensures
        s.take(k + 1).fold_left(0, |a: int, v: Vec<Coord>| a + v@.len()) == s.take(k).fold_left(
            0,
            |a: int, v: Vec<Coord>| a + v@.len(),
        ) + s[k]@.len(),
{
    assert(s.take(k + 1).drop_last() =~= s.take(k));
    assert(s.take(k + 1).last() == s[k]);
}

pub proof fn lemma_fold_len_mono(s: Seq<Vec<Coord>>, k: int)
    requires
        0 <= k <= s.len(),
    ensures
        s.take(k).fold_left(0, |a: int, v: Vec<Coord>| a + v@.len()) <= s.fold_left(
            0,
            |a: int, v: Vec<Coord>| a + v@.len(),
        ),
    decreases s.len() - k,
{
    if k < s.len() {
        lemma_fold_len_step(s, k);
        lemma_fold_len_mono(s, k + 1);
        assert(s.take(k).fold_left(0, |a: int, v: Vec<Coord>| a + v@.len()) <= s.take(k + 1).fold_left(
            0,
            |a: int, v: Vec<Coord>| a + v@.len(),
        ));
    } else {
        assert(s.take(k) =~= s);
    }
}

} // verus!
