//! Fixed-layout point arrays: one coordinate pair per row, no offsets
//! level, optional validity bitmap.

use vstd::prelude::*;

use crate::buffer::Bitmap;
use crate::buffer::Buffer;
use crate::buffer::all_set_bits;
use crate::error::GeoError;
use crate::generic::GenericArray;
use crate::generic::validity_wf;
use crate::geom::Point;

verus! {

/// Abstract content of a point array: coordinate patterns, per-row
/// validity, and whether a bitmap is physically present (its absence is
/// the zero-overhead no-nulls state).
#[verifier::ext_equal]
pub ghost struct PointModel {
    pub x: Seq<u64>,
    pub y: Seq<u64>,
    pub valid: Seq<bool>,
    pub has_bitmap: bool,
}

/// Content of the slice window `[off, off + len)` of a point model; the
/// bitmap survives only when the window still holds a null.
pub open spec fn spec_slice_point(m: PointModel, off: int, len: int) -> PointModel {
    PointModel {
        x: m.x.subrange(off, off + len),
        y: m.y.subrange(off, off + len),
        valid: m.valid.subrange(off, off + len),
        has_bitmap: exists|i: int| off <= i < off + len && !m.valid[i],
    }
}

/// Slicing a slice is one slice of the composed window: the content of
/// `m` sliced to `[o1, o1+l1)` and then to `[o2, o2+l2)` equals the
/// content of `m` sliced to `[o1+o2, o1+o2+l2)`.
pub proof fn lemma_point_slice_composition(m: PointModel, o1: int, l1: int, o2: int, l2: int)
    requires
        0 <= o1,
        0 <= l1,
        0 <= o2,
        0 <= l2,
        o1 + l1 <= m.x.len(),
        o1 + l1 <= m.y.len(),
        o1 + l1 <= m.valid.len(),
        o2 + l2 <= l1,
    ensures
        spec_slice_point(spec_slice_point(m, o1, l1), o2, l2) == spec_slice_point(
            m,
            o1 + o2,
            l2,
        ),
{
    let inner = spec_slice_point(m, o1, l1);
    assert(inner.x.subrange(o2, o2 + l2) =~= m.x.subrange(o1 + o2, o1 + o2 + l2));
    assert(inner.y.subrange(o2, o2 + l2) =~= m.y.subrange(o1 + o2, o1 + o2 + l2));
    assert(inner.valid.subrange(o2, o2 + l2) =~= m.valid.subrange(o1 + o2, o1 + o2 + l2));
    assert((exists|i: int| o2 <= i < o2 + l2 && !inner.valid[i]) == (exists|i: int|
        o1 + o2 <= i < o1 + o2 + l2 && !m.valid[i])) by {
        if exists|i: int| o2 <= i < o2 + l2 && !inner.valid[i] {
            let i = choose|i: int| o2 <= i < o2 + l2 && !inner.valid[i];
            assert(!m.valid[o1 + i]);
        }
        if exists|i: int| o1 + o2 <= i < o1 + o2 + l2 && !m.valid[i] {
            let i = choose|i: int| o1 + o2 <= i < o1 + o2 + l2 && !m.valid[i];
            assert(!inner.valid[i - o1]);
        }
    }
    assert(spec_slice_point(inner, o2, l2) =~= spec_slice_point(m, o1 + o2, l2));
}

/// A point array: `x` and `y` coordinate buffers of equal length and an
/// optional validity bitmap. Semantically a sequence of nullable points.
#[derive(Clone, Debug)]
pub struct PointArray {
    pub x: Buffer,
    pub y: Buffer,
    pub validity: Option<Bitmap>,
}

impl PointArray {
    /// Construction invariants: equal coordinate lengths and a validity
    /// bitmap, if present, of exactly that length.
    pub open spec fn wf(self) -> bool {
        &&& self.x.wf()
        &&& self.y.wf()
        &&& self.x@.len() == self.y@.len()
        &&& validity_wf(self.validity, self.x@.len() as int)
    }

    pub open spec fn spec_len(self) -> int {
        self.x@.len() as int
    }

    /// Per-row validity; a missing bitmap means every row is present.
    pub open spec fn valid_seq(self) -> Seq<bool> {
        match self.validity {
            Some(b) => b@,
            None => Seq::new(self.x@.len(), |i: int| true),
        }
    }

    pub open spec fn model(self) -> PointModel {
        PointModel {
            x: self.x@,
            y: self.y@,
            valid: self.valid_seq(),
            has_bitmap: self.validity is Some,
        }
    }

    /// Creates a point array from parts; the caller is responsible for
    /// the length invariants (the checked counterpart is `try_new`).
    pub fn new(x: Buffer, y: Buffer, validity: Option<Bitmap>) -> (r: PointArray)
        requires
            x.wf(),
            y.wf(),
            x@.len() == y@.len(),
            validity_wf(validity, x@.len() as int),
        ensures
            r.wf(),
            r == (PointArray { x, y, validity }),
    {
        PointArray { x, y, validity }
    }

    /// Creates a point array from parts, failing fast with a layout error
    /// when the buffer lengths disagree.
    pub fn try_new(x: Buffer, y: Buffer, validity: Option<Bitmap>) -> (r: Result<
        PointArray,
        GeoError,
    >)
        requires
            x.wf(),
            y.wf(),
            match validity {
                Some(b) => b.wf(),
                None => true,
            },
        ensures
            match r {
                Ok(a) => a.wf() && a == (PointArray { x, y, validity }),
                Err(e) => e == GeoError::Layout,
            },
            r is Ok <==> (x@.len() == y@.len() && validity_wf(validity, x@.len() as int)),
    {
        if x.len() != y.len() {
            return Err(GeoError::Layout);
        }
        let ok = match &validity {
            Some(b) => b.len() == x.len(),
            None => true,
        };
        if !ok {
            return Err(GeoError::Layout);
        }
        Ok(PointArray { x, y, validity })
    }

    /// Number of logical rows.
    pub fn len(&self) -> (r: usize)
        requires
            self.wf(),
        ensures
            r == self.spec_len(),
    {
        self.x.len()
    }

    pub fn is_empty(&self) -> (r: bool)
        requires
            self.wf(),
        ensures
            r == (self.spec_len() == 0),
    {
        self.len() == 0
    }

    /// The optional validity bitmap.
    pub fn validity(&self) -> (r: &Option<Bitmap>)
        ensures
            r == &self.validity,
    {
        &self.validity
    }

    /// Whether row `i` is present.
    pub fn is_valid(&self, i: usize) -> (r: bool)
        requires
            self.wf(),
            i < self.spec_len(),
        ensures
            r == self.valid_seq()[i as int],
    {
        match &self.validity {
            Some(b) => b.get_bit(i),
            None => true,
        }
    }

    /// Decodes row `i` without consulting validity; for a null row the
    /// returned coordinates are unspecified padding values.
    pub fn value_as_geo(&self, i: usize) -> (r: Point)
        requires
            self.wf(),
            i < self.spec_len(),
        ensures
            r.coord.x == self.x@[i as int],
            r.coord.y == self.y@[i as int],
    {
        Point::new(self.x.get(i), self.y.get(i))
    }

    /// Decodes row `i`, returning `None` for a null row.
    pub fn get_as_geo(&self, i: usize) -> (r: Option<Point>)
        requires
            self.wf(),
            i < self.spec_len(),
        ensures
            r matches Some(p) ==> self.valid_seq()[i as int] && p.coord.x == self.x@[i as int]
                && p.coord.y == self.y@[i as int],
            r is None <==> !self.valid_seq()[i as int],
    {
        if !self.is_valid(i) {
            return None;
        }
        Some(self.value_as_geo(i))
    }

    /// Bounds-checked row access: out-of-range indexing is reported
    /// rather than a precondition.
    pub fn get(&self, i: usize) -> (r: Result<Option<Point>, GeoError>)
        requires
            self.wf(),
        ensures
            i < self.spec_len() ==> (r matches Ok(p) && p == self.get_spec(i as int)),
            i >= self.spec_len() ==> (r matches Err(e) && e == GeoError::Bounds),
    {
        if i >= self.len() {
            return Err(GeoError::Bounds);
        }
        Ok(self.get_as_geo(i))
    }

    /// The nullable point stored at row `i`.
    pub open spec fn get_spec(self, i: int) -> Option<Point> {
        if self.valid_seq()[i] {
            Some(Point { coord: crate::geom::Coord { x: self.x@[i], y: self.y@[i] } })
        } else {
            None
        }
    }

    /// All rows with their validity, in row order.
    pub fn iter_geo(&self) -> (r: Vec<Option<Point>>)
        requires
            self.wf(),
        ensures
            r@.len() == self.spec_len(),
            forall|i: int| 0 <= i < r@.len() ==> r@[i] == self.get_spec(i),
    {
        let n = self.len();
        let mut out: Vec<Option<Point>> = Vec::new();
        let mut i: usize = 0;
        while i < n
            invariant
                self.wf(),
                n == self.spec_len(),
                i <= n,
                out@.len() == i,
                forall|j: int| 0 <= j < i ==> out@[j] == self.get_spec(j),
            decreases n - i,
        {
            out.push(self.get_as_geo(i));
            i += 1;
        }
        out
    }

    /// Deconstructs the array into its parts, cloning only the
    /// reference-counted buffer handles.
    pub fn parts(&self) -> (r: PointArrayParts)
        requires
            self.wf(),
        ensures
            r.wf(),
            r.x@ == self.x@,
            r.y@ == self.y@,
            r.valid_seq() == self.valid_seq(),
            forall|i: int| 0 <= i < self.spec_len() ==> r.get_spec(i) == self.get_spec(i),
    {
        let r = PointArrayParts {
            x: self.x.clone(),
            y: self.y.clone(),
            validity: match &self.validity {
                Some(b) => Some(b.clone()),
                None => None,
            },
        };
        proof {
            assert(r.valid_seq() =~= self.valid_seq());
        }
        r
    }

    /// O(1) view of rows `[offset, offset + length)` over the same
    /// buffers; the caller is responsible for the bound (the checked
    /// counterpart is `slice`).
    pub fn slice_unchecked(&self, offset: usize, length: usize) -> (r: PointArray)
        requires
            self.wf(),
            offset + length <= self.spec_len(),
        ensures
            r.wf(),
            r.model() == spec_slice_point(self.model(), offset as int, length as int),
    {
        let ghost m = spec_slice_point(self.model(), offset as int, length as int);
        let ghost off_i = offset as int;
        let x = self.x.slice_unchecked(offset, length);
        let y = self.y.slice_unchecked(offset, length);
        match &self.validity {
            None => {
                let r = PointArray { x, y, validity: None };
                proof {
                    assert(r.valid_seq() =~= m.valid);
                    assert forall|i: int| off_i <= i < off_i + length implies self.model().valid[i]
                        by {}
                    assert(r.model() =~= m);
                }
                r
            },
            Some(b) => {
                let sliced = b.slice_unchecked(offset, length);
                if sliced.has_unset_bits() {
                    let r = PointArray { x, y, validity: Some(sliced) };
                    proof {
                        let j = choose|j: int| 0 <= j < sliced@.len() && !sliced@[j];
                        assert(!self.model().valid[off_i + j]);
                        assert(r.valid_seq() =~= m.valid);
                        assert(r.model() =~= m);
                    }
                    r
                } else {
                    let r = PointArray { x, y, validity: None };
                    proof {
                        assert forall|i: int| off_i <= i < off_i + length implies self.model(
                        ).valid[i] by {
                            assert(sliced@[i - off_i]);
                        }
                        assert(r.valid_seq() =~= m.valid);
                        assert(r.model() =~= m);
                    }
                    r
                }
            },
        }
    }

    /// O(1) slice of rows `[offset, offset + length)`, failing with a
    /// bounds error when the window exceeds the array.
    pub fn slice(&self, offset: usize, length: usize) -> (r: Result<PointArray, GeoError>)
        requires
            self.wf(),
        ensures
            offset + length <= self.spec_len() ==> (r matches Ok(a) && a.wf() && a.model()
                == spec_slice_point(self.model(), offset as int, length as int)),
            offset + length > self.spec_len() ==> (r matches Err(e) && e == GeoError::Bounds),
    {
        let n = self.len();
        if offset > n || length > n - offset {
            return Err(GeoError::Bounds);
        }
        Ok(self.slice_unchecked(offset, length))
    }

    /// The generic columnar form of this array: the coordinate-pair
    /// structure with the row validity, sharing the same buffers.
    pub open spec fn spec_to_generic(self) -> GenericArray {
        GenericArray::Coords { x: self.x, y: self.y, validity: self.validity }
    }

    /// Converts into the generic columnar representation without copying
    /// any buffer.
    pub fn into_arrow(self) -> (r: GenericArray)
        requires
            self.wf(),
        ensures
            r == self.spec_to_generic(),
            r.wf(),
    {
        GenericArray::Coords { x: self.x, y: self.y, validity: self.validity }
    }

    /// The point array a generic array converts to: the shape must be the
    /// coordinate-pair structure and every construction invariant must
    /// hold, else the conversion is a layout error.
    pub open spec fn spec_from_generic(g: GenericArray) -> Result<PointArray, GeoError> {
        match g {
            GenericArray::Coords { x, y, validity } => {
                if x.wf() && y.wf() && x@.len() == y@.len() && validity_wf(
                    validity,
                    x@.len() as int,
                ) {
                    Ok(PointArray { x, y, validity })
                } else {
                    Err(GeoError::Layout)
                }
            },
            _ => Err(GeoError::Layout),
        }
    }

    /// Converts from the generic columnar representation, validating
    /// every construction invariant and failing fast with a layout error.
    pub fn try_from_arrow(g: GenericArray) -> (r: Result<PointArray, GeoError>)
        ensures
            r == Self::spec_from_generic(g),
            r matches Ok(a) ==> a.wf(),
    {
        match g {
            GenericArray::Coords { x, y, validity } => {
                if !x.check_wf() || !y.check_wf() {
                    return Err(GeoError::Layout);
                }
                if x.len() != y.len() {
                    return Err(GeoError::Layout);
                }
                let vok = match &validity {
                    Some(b) => b.check_wf() && b.len() == x.len(),
                    None => true,
                };
                if !vok {
                    return Err(GeoError::Layout);
                }
                Ok(PointArray { x, y, validity })
            },
            _ => Err(GeoError::Layout),
        }
    }

    /// Round trip through the generic columnar representation: converting
    /// a well-formed point array out and back yields the array itself,
    /// same buffers and validity.
    pub proof fn lemma_generic_round_trip(a: PointArray)
        requires
            a.wf(),
        ensures
            PointArray::spec_from_generic(a.spec_to_generic()) == Ok::<PointArray, GeoError>(a),
    {
    }
}

/// Append-only builder for a point array. Before any null is pushed no
/// bitmap exists; the first null materializes one retroactively for all
/// previously pushed rows.
pub struct MutablePointArray {
    pub x: Vec<u64>,
    pub y: Vec<u64>,
    pub validity: Option<Vec<bool>>,
}

impl MutablePointArray {
    pub open spec fn wf(self) -> bool {
        &&& self.x@.len() == self.y@.len()
        &&& match self.validity {
            Some(v) => v@.len() == self.x@.len(),
            None => true,
        }
    }

    pub open spec fn spec_len(self) -> int {
        self.x@.len() as int
    }

    pub open spec fn valid_seq(self) -> Seq<bool> {
        match self.validity {
            Some(v) => v@,
            None => Seq::new(self.x@.len(), |i: int| true),
        }
    }

    /// The nullable row `i` as currently buffered.
    pub open spec fn get_spec(self, i: int) -> Option<Point> {
        if self.valid_seq()[i] {
            Some(Point { coord: crate::geom::Coord { x: self.x@[i], y: self.y@[i] } })
        } else {
            None
        }
    }

    pub fn new() -> (r: MutablePointArray)
        ensures
            r.wf(),
            r.spec_len() == 0,
            r.validity is None,
    {
        MutablePointArray { x: Vec::new(), y: Vec::new(), validity: None }
    }

    /// Appends one nullable point. A null appends sentinel zero
    /// coordinates and, on the first null only, backfills the bitmap with
    /// the previously pushed (implicitly valid) rows.
    pub fn push(&mut self, g: Option<Point>)
        requires
            old(self).wf(),
        ensures
            final(self).wf(),
            final(self).spec_len() == old(self).spec_len() + 1,
            forall|i: int| 0 <= i < old(self).spec_len() ==> final(self).get_spec(i) == old(
                self,
            ).get_spec(i),
            final(self).get_spec(old(self).spec_len()) == g,
            final(self).validity is None <==> (old(self).validity is None && g is Some),
    {
        match g {
            Some(p) => {
                self.x.push(p.coord.x);
                self.y.push(p.coord.y);
                if let Some(v) = &mut self.validity {
                    v.push(true);
                }
                proof {
                    assert forall|i: int| 0 <= i < old(self).spec_len() implies self.get_spec(i)
                        == old(self).get_spec(i) by {
                        assert(self.valid_seq()[i] == old(self).valid_seq()[i]);
                    }
                    assert(self.valid_seq()[old(self).spec_len()]);
                }
            },
            None => {
                self.x.push(0);
                self.y.push(0);
                match &mut self.validity {
                    Some(v) => {
                        v.push(false);
                    },
                    None => {
                        let mut v = all_set_bits(self.x.len() - 1);
                        v.push(false);
                        self.validity = Some(v);
                    },
                }
                proof {
                    assert forall|i: int| 0 <= i < old(self).spec_len() implies self.get_spec(i)
                        == old(self).get_spec(i) by {
                        assert(self.valid_seq()[i] == old(self).valid_seq()[i]);
                    }
                    assert(!self.valid_seq()[old(self).spec_len()]);
                }
            },
        }
    }

    /// Freezes the buffered rows into an immutable point array,
    /// transferring buffer ownership without copying rows.
    pub fn finish(self) -> (r: PointArray)
        requires
            self.wf(),
        ensures
            r.wf(),
            r.spec_len() == self.spec_len(),
            forall|i: int| 0 <= i < self.spec_len() ==> r.get_spec(i) == self.get_spec(i),
            r.validity is Some <==> self.validity is Some,
    {
        let validity = match self.validity {
            Some(v) => Some(Bitmap::from_vec(v)),
            None => None,
        };
        let r = PointArray { x: Buffer::from_vec(self.x), y: Buffer::from_vec(self.y), validity };
        proof {
            assert(r.valid_seq() =~= self.valid_seq());
        }
        r
    }
}


/// A deconstructed point array: the same coordinate buffers and
/// validity held as one flat bundle, so that row access never has to
/// re-resolve the array's shape.
#[derive(Debug)]
pub struct PointArrayParts {
    pub x: Buffer,
    pub y: Buffer,
    pub validity: Option<Bitmap>,
}

impl PointArrayParts {
    pub open spec fn wf(self) -> bool {
        &&& self.x.wf()
        &&& self.y.wf()
        &&& self.x@.len() == self.y@.len()
        &&& validity_wf(self.validity, self.x@.len() as int)
    }

    pub open spec fn spec_len(self) -> int {
        self.x@.len() as int
    }

    pub open spec fn valid_seq(self) -> Seq<bool> {
        match self.validity {
            Some(b) => b@,
            None => Seq::new(self.x@.len(), |i: int| true),
        }
    }

    pub open spec fn get_spec(self, i: int) -> Option<Point> {
        if self.valid_seq()[i] {
            Some(Point { coord: crate::geom::Coord { x: self.x@[i], y: self.y@[i] } })
        } else {
            None
        }
    }

    /// Number of logical rows.
    pub fn len(&self) -> (r: usize)
        requires
            self.wf(),
        ensures
            r == self.spec_len(),
    {
        self.x.len()
    }

    pub fn is_empty(&self) -> (r: bool)
        requires
            self.wf(),
        ensures
            r == (self.spec_len() == 0),
    {
        self.len() == 0
    }

    /// Decodes row `i`, returning `None` for a null row.
    pub fn get_as_geo(&self, i: usize) -> (r: Option<Point>)
        requires
            self.wf(),
            i < self.spec_len(),
        ensures
            r == self.get_spec(i as int),
    {
        let is_null = match &self.validity {
            Some(b) => !b.get_bit(i),
            None => false,
        };
        if is_null {
            return None;
        }
        Some(Point::new(self.x.get(i), self.y.get(i)))
    }
}

} // verus!
