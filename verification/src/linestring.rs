//! Fixed-layout line string arrays: flat coordinate buffers plus one
//! offsets level delimiting the vertex range of each row, and an optional
//! validity bitmap. Multi-point arrays share this exact physical layout,
//! so the two convert by an explicit O(1) relabeling.

use vstd::prelude::*;

use crate::buffer::Bitmap;
use crate::buffer::Buffer;
use crate::buffer::OffsetsBuffer;
use crate::buffer::all_set_bits;
use crate::error::GeoError;
use crate::generic::GenericArray;
use crate::generic::validity_wf;
use crate::geom::Coord;
use crate::geom::LineString;
use crate::multipoint::MultiPointArray;

verus! {

/// Abstract content of the shared single-offsets-level layout: whole
/// coordinate buffers, the offsets window, per-row validity and whether a
/// bitmap is physically present. Slicing narrows only the offsets window
/// and the validity; the coordinate buffers stay whole, since sliced
/// offsets keep indexing them absolutely.
#[verifier::ext_equal]
pub ghost struct ListLayoutModel {
    pub x: Seq<u64>,
    pub y: Seq<u64>,
    pub offsets: Seq<usize>,
    pub valid: Seq<bool>,
    pub has_bitmap: bool,
}

/// Content of the slice window `[off, off + len)` of the layout; the
/// bitmap survives only when the window still holds a null.
pub open spec fn spec_slice_list(m: ListLayoutModel, off: int, len: int) -> ListLayoutModel {
    ListLayoutModel {
        x: m.x,
        y: m.y,
        offsets: m.offsets.subrange(off, off + len + 1),
        valid: m.valid.subrange(off, off + len),
        has_bitmap: exists|i: int| off <= i < off + len && !m.valid[i],
    }
}

/// Slicing a slice is one slice of the composed window.
pub proof fn lemma_list_slice_composition(m: ListLayoutModel, o1: int, l1: int, o2: int, l2: int)
    requires
        0 <= o1,
        0 <= l1,
        0 <= o2,
        0 <= l2,
        o1 + l1 + 1 <= m.offsets.len(),
        o1 + l1 <= m.valid.len(),
        o2 + l2 <= l1,
    ensures
        spec_slice_list(spec_slice_list(m, o1, l1), o2, l2) == spec_slice_list(m, o1 + o2, l2),
{
    let inner = spec_slice_list(m, o1, l1);
    assert(inner.offsets.subrange(o2, o2 + l2 + 1) =~= m.offsets.subrange(
        o1 + o2,
        o1 + o2 + l2 + 1,
    ));
    assert(inner.valid.subrange(o2, o2 + l2) =~= m.valid.subrange(o1 + o2, o1 + o2 + l2));
    assert((exists|i: int| o2 <= i < o2 + l2 && !inner.valid[i]) == (exists|i: int|
        o1 + o2 <= i < o1 + o2 + l2 && !m.valid[i])) by {
        if exists|i: int| o2 <= i < o2 + l2 && !inner.valid[i] {
            let i = choose|i: int| o2 <= i < o2 + l2 && !inner.valid[i];
            assert(!m.valid[o1 + i]);
        }
        if exists|i: int| o1 + o2 <= i < o1 + o2 + l2 && !m.valid[i] {
            let i = choose|i: int| o1 + o2 <= i < o1 + o2 + l2 && !m.valid[i];
            assert(!inner.valid[i - o1]);
        }
    }
    assert(spec_slice_list(inner, o2, l2) =~= spec_slice_list(m, o1 + o2, l2));
}

/// Shared length-consistency check of the single-offsets-level layout.
pub open spec fn list_layout_wf(
    x: Buffer,
    y: Buffer,
    geom_offsets: OffsetsBuffer,
    validity: Option<Bitmap>,
) -> bool {
    &&& x.wf()
    &&& y.wf()
    &&& geom_offsets.wf()
    &&& x@.len() == y@.len()
    &&& geom_offsets.spec_last() <= x@.len()
    &&& validity_wf(validity, geom_offsets.spec_row_count())
}

/// A line string array: each row is the ordered vertex path
/// `coords[offsets[i] .. offsets[i+1])`.
#[derive(Clone, Debug)]
pub struct LineStringArray {
    pub x: Buffer,
    pub y: Buffer,
    pub geom_offsets: OffsetsBuffer,
    pub validity: Option<Bitmap>,
}

impl LineStringArray {
    pub open spec fn wf(self) -> bool {
        list_layout_wf(self.x, self.y, self.geom_offsets, self.validity)
    }

    pub open spec fn spec_len(self) -> int {
        self.geom_offsets.spec_row_count()
    }

    pub open spec fn valid_seq(self) -> Seq<bool> {
        match self.validity {
            Some(b) => b@,
            None => Seq::new(self.geom_offsets.spec_row_count() as nat, |i: int| true),
        }
    }

    pub open spec fn model(self) -> ListLayoutModel {
        ListLayoutModel {
            x: self.x@,
            y: self.y@,
            offsets: self.geom_offsets@,
            valid: self.valid_seq(),
            has_bitmap: self.validity is Some,
        }
    }

    /// The vertex sequence of row `i`, ignoring validity.
    pub open spec fn coords_at(self, i: int) -> Seq<Coord> {
        let s = self.geom_offsets@[i] as int;
        let e = self.geom_offsets@[i + 1] as int;
        Seq::new((e - s) as nat, |k: int| Coord { x: self.x@[s + k], y: self.y@[s + k] })
    }

    /// The nullable vertex sequence of row `i`.
    pub open spec fn get_spec(self, i: int) -> Option<Seq<Coord>> {
        if self.valid_seq()[i] {
            Some(self.coords_at(i))
        } else {
            None
        }
    }

    /// Creates a line string array from parts; the caller is responsible
    /// for the length invariants (the checked counterpart is `try_new`).
    pub fn new(
        x: Buffer,
        y: Buffer,
        geom_offsets: OffsetsBuffer,
        validity: Option<Bitmap>,
    ) -> (r: LineStringArray)
        requires
            list_layout_wf(x, y, geom_offsets, validity),
        ensures
            r.wf(),
            r == (LineStringArray { x, y, geom_offsets, validity }),
    {
        LineStringArray { x, y, geom_offsets, validity }
    }

    /// Creates a line string array from parts, failing fast with a layout
    /// error when the buffer lengths disagree.
    pub fn try_new(
        x: Buffer,
        y: Buffer,
        geom_offsets: OffsetsBuffer,
        validity: Option<Bitmap>,
    ) -> (r: Result<LineStringArray, GeoError>)
        requires
            x.wf(),
            y.wf(),
            geom_offsets.wf(),
            match validity {
                Some(b) => b.wf(),
                None => true,
            },
        ensures
            match r {
                Ok(a) => a.wf() && a == (LineStringArray { x, y, geom_offsets, validity }),
                Err(e) => e == GeoError::Layout,
            },
            r is Ok <==> list_layout_wf(x, y, geom_offsets, validity),
    {
        if x.len() != y.len() {
            return Err(GeoError::Layout);
        }
        if geom_offsets.last() > x.len() {
            return Err(GeoError::Layout);
        }
        let rows = geom_offsets.row_count();
        let vok = match &validity {
            Some(b) => b.len() == rows,
            None => true,
        };
        if !vok {
            return Err(GeoError::Layout);
        }
        Ok(LineStringArray { x, y, geom_offsets, validity })
    }

    /// Number of logical rows.
    pub fn len(&self) -> (r: usize)
        requires
            self.wf(),
        ensures
            r == self.spec_len(),
    {
        self.geom_offsets.row_count()
    }

    pub fn is_empty(&self) -> (r: bool)
        requires
            self.wf(),
        ensures
            r == (self.spec_len() == 0),
    {
        self.len() == 0
    }

    /// The optional validity bitmap.
    pub fn validity(&self) -> (r: &Option<Bitmap>)
        ensures
            r == &self.validity,
    {
        &self.validity
    }

    /// Whether row `i` is present.
    pub fn is_valid(&self, i: usize) -> (r: bool)
        requires
            self.wf(),
            i < self.spec_len(),
        ensures
            r == self.valid_seq()[i as int],
    {
        match &self.validity {
            Some(b) => b.get_bit(i),
            None => true,
        }
    }

    /// Decodes row `i` into its vertex path without consulting validity.
    pub fn value_as_geo(&self, i: usize) -> (r: LineString)
        requires
            self.wf(),
            i < self.spec_len(),
        ensures
            r.coords@ == self.coords_at(i as int),
    {
        proof {
            self.geom_offsets.lemma_bounds();
        }
        let (s, e) = self.geom_offsets.start_end(i);
        let mut coords: Vec<Coord> = Vec::new();
        let mut k: usize = s;
        while k < e
            invariant
                self.wf(),
                s == self.geom_offsets@[i as int],
                e == self.geom_offsets@[i as int + 1],
                e <= self.x@.len(),
                s <= k <= e,
                coords@.len() == k - s,
                forall|j: int| 0 <= j < k - s ==> coords@[j] == self.coords_at(i as int)[j],
            decreases e - k,
        {
            coords.push(Coord { x: self.x.get(k), y: self.y.get(k) });
            k += 1;
        }
        let r = LineString { coords };
        proof {
            assert(r.coords@ =~= self.coords_at(i as int));
        }
        r
    }

    /// Decodes row `i`, returning `None` for a null row.
    pub fn get_as_geo(&self, i: usize) -> (r: Option<LineString>)
        requires
            self.wf(),
            i < self.spec_len(),
        ensures
            r matches Some(ls) ==> self.valid_seq()[i as int] && ls.coords@ == self.coords_at(
                i as int,
            ),
            r is None <==> !self.valid_seq()[i as int],
    {
        if !self.is_valid(i) {
            return None;
        }
        Some(self.value_as_geo(i))
    }

    /// Bounds-checked row access: out-of-range indexing is reported
    /// rather than a precondition.
    pub fn get(&self, i: usize) -> (r: Result<Option<LineString>, GeoError>)
        requires
            self.wf(),
        ensures
            i < self.spec_len() ==> (r matches Ok(p) && match p {
                Some(ls) => self.get_spec(i as int) == Some(ls.coords@),
                None => self.get_spec(i as int) is None,
            }),
            i >= self.spec_len() ==> (r matches Err(e) && e == GeoError::Bounds),
    {
        if i >= self.len() {
            return Err(GeoError::Bounds);
        }
        Ok(self.get_as_geo(i))
    }

    /// All rows ignoring validity, in row order.
    pub fn iter_geo_values(&self) -> (r: Vec<LineString>)
        requires
            self.wf(),
        ensures
            r@.len() == self.spec_len(),
            forall|i: int| 0 <= i < r@.len() ==> #[trigger] r@[i].coords@ == self.coords_at(i),
    {
        let n = self.len();
        let mut out: Vec<LineString> = Vec::new();
        let mut i: usize = 0;
        while i < n
            invariant
                self.wf(),
                n == self.spec_len(),
                i <= n,
                out@.len() == i,
                forall|j: int| 0 <= j < i ==> #[trigger] out@[j].coords@ == self.coords_at(j),
            decreases n - i,
        {
            out.push(self.value_as_geo(i));
            i += 1;
        }
        out
    }

    /// All rows with their validity, in row order.
    pub fn iter_geo(&self) -> (r: Vec<Option<LineString>>)
        requires
            self.wf(),
        ensures
            r@.len() == self.spec_len(),
            forall|i: int| 0 <= i < r@.len() ==> match #[trigger] r@[i] {
                Some(ls) => self.get_spec(i) == Some(ls.coords@),
                None => self.get_spec(i) is None,
            },
    {
        let n = self.len();
        let mut out: Vec<Option<LineString>> = Vec::new();
        let mut i: usize = 0;
        while i < n
            invariant
                self.wf(),
                n == self.spec_len(),
                i <= n,
                out@.len() == i,
                forall|j: int| 0 <= j < i ==> match #[trigger] out@[j] {
                    Some(ls) => self.get_spec(j) == Some(ls.coords@),
                    None => self.get_spec(j) is None,
                },
            decreases n - i,
        {
            out.push(self.get_as_geo(i));
            i += 1;
        }
        out
    }

    /// O(1) view of rows `[offset, offset + length)`: the offsets window
    /// and validity narrow, the coordinate buffers stay shared and whole.
    /// The caller is responsible for the bound (the checked counterpart
    /// is `slice`).
    #[verifier::rlimit(40)]
    pub fn slice_unchecked(&self, offset: usize, length: usize) -> (r: LineStringArray)
        requires
            self.wf(),
            offset + length <= self.spec_len(),
        ensures
            r.wf(),
            r.model() == spec_slice_list(self.model(), offset as int, length as int),
    {
        let ghost m = spec_slice_list(self.model(), offset as int, length as int);
        let ghost off_i = offset as int;
        let geom_offsets = self.geom_offsets.slice_unchecked(offset, length);
        proof {
            self.geom_offsets.lemma_bounds();
            assert(geom_offsets.spec_last() == self.geom_offsets@[off_i + length]);
        }
        match &self.validity {
            None => {
                let r = LineStringArray {
                    x: self.x.clone(),
                    y: self.y.clone(),
                    geom_offsets,
                    validity: None,
                };
                proof {
                    assert(r.valid_seq() =~= m.valid);
                    assert(r.model() =~= m);
                }
                r
            },
            Some(b) => {
                let sliced = b.slice_unchecked(offset, length);
                if sliced.has_unset_bits() {
                    let r = LineStringArray {
                        x: self.x.clone(),
                        y: self.y.clone(),
                        geom_offsets,
                        validity: Some(sliced),
                    };
                    proof {
                        let j = choose|j: int| 0 <= j < sliced@.len() && !sliced@[j];
                        assert(!self.model().valid[off_i + j]);
                        assert(r.valid_seq() =~= m.valid);
                        assert(r.model() =~= m);
                    }
                    r
                } else {
                    let r = LineStringArray {
                        x: self.x.clone(),
                        y: self.y.clone(),
                        geom_offsets,
                        validity: None,
                    };
                    proof {
                        assert forall|i: int| off_i <= i < off_i + length implies self.model(
                        ).valid[i] by {
                            assert(sliced@[i - off_i]);
                        }
                        assert(r.valid_seq() =~= m.valid);
                        assert(r.model() =~= m);
                    }
                    r
                }
            },
        }
    }

    /// O(1) slice of rows `[offset, offset + length)`, failing with a
    /// bounds error when the window exceeds the array.
    pub fn slice(&self, offset: usize, length: usize) -> (r: Result<LineStringArray, GeoError>)
        requires
            self.wf(),
        ensures
            offset + length <= self.spec_len() ==> (r matches Ok(a) && a.wf() && a.model()
                == spec_slice_list(self.model(), offset as int, length as int)),
            offset + length > self.spec_len() ==> (r matches Err(e) && e == GeoError::Bounds),
    {
        let n = self.len();
        if offset > n || length > n - offset {
            return Err(GeoError::Bounds);
        }
        Ok(self.slice_unchecked(offset, length))
    }

    /// Relabels this array as a multi-point array. The two variants share
    /// an identical physical layout (flat coordinates plus one offsets
    /// level), so this is a pure O(1) semantic retag: it copies no
    /// buffer, re-validates nothing, and preserves length, offsets,
    /// coordinates and validity exactly.
    pub fn into_multi_point(self) -> (r: MultiPointArray)
        requires
            self.wf(),
        ensures
            r.wf(),
            r.x == self.x,
            r.y == self.y,
            r.geom_offsets == self.geom_offsets,
            r.validity == self.validity,
            r.model() == self.model(),
    {
        let r = MultiPointArray {
            x: self.x,
            y: self.y,
            geom_offsets: self.geom_offsets,
            validity: self.validity,
        };
        proof {
            assert(r.model() =~= self.model());
        }
        r
    }

    /// The generic columnar form of this array: one list level over the
    /// coordinate-pair structure, sharing the same buffers.
    pub open spec fn spec_to_generic(self) -> GenericArray {
        GenericArray::List {
            offsets: self.geom_offsets,
            values: Box::new(GenericArray::Coords { x: self.x, y: self.y, validity: None }),
            validity: self.validity,
        }
    }

    /// Converts into the generic columnar representation without copying
    /// any buffer.
    pub fn into_arrow(self) -> (r: GenericArray)
        requires
            self.wf(),
        ensures
            r == self.spec_to_generic(),
            r.wf(),
    {
        let r = GenericArray::List {
            offsets: self.geom_offsets,
            values: Box::new(GenericArray::Coords { x: self.x, y: self.y, validity: None }),
            validity: self.validity,
        };
        proof {
            assert((GenericArray::Coords { x: self.x, y: self.y, validity: None }).wf());
        }
        r
    }

    /// The line string array a generic array converts to: the shape must
    /// be one list level over a coordinate-pair structure whose fields
    /// are non-nullable, and every construction invariant must hold, else
    /// the conversion is a layout error.
    pub open spec fn spec_from_generic(g: GenericArray) -> Result<LineStringArray, GeoError> {
        match g {
            GenericArray::List { offsets, values, validity } => match *values {
                GenericArray::Coords { x, y, validity: inner_validity } => {
                    if inner_validity is None && list_layout_wf(x, y, offsets, validity) {
                        Ok(LineStringArray { x, y, geom_offsets: offsets, validity })
                    } else {
                        Err(GeoError::Layout)
                    }
                },
                _ => Err(GeoError::Layout),
            },
            _ => Err(GeoError::Layout),
        }
    }

    /// Converts from the generic columnar representation, validating
    /// every construction invariant and failing fast with a layout error.
    pub fn try_from_arrow(g: GenericArray) -> (r: Result<LineStringArray, GeoError>)
        ensures
            r == Self::spec_from_generic(g),
            r matches Ok(a) ==> a.wf(),
    {
        match g {
            GenericArray::List { offsets, values, validity } => match *values {
                GenericArray::Coords { x, y, validity: inner_validity } => {
                    if inner_validity.is_some() {
                        return Err(GeoError::Layout);
                    }
                    if !x.check_wf() || !y.check_wf() || !offsets.check_wf() {
                        return Err(GeoError::Layout);
                    }
                    if x.len() != y.len() {
                        return Err(GeoError::Layout);
                    }
                    if offsets.last() > x.len() {
                        return Err(GeoError::Layout);
                    }
                    let rows = offsets.row_count();
                    let vok = match &validity {
                        Some(b) => b.check_wf() && b.len() == rows,
                        None => true,
                    };
                    if !vok {
                        return Err(GeoError::Layout);
                    }
                    Ok(LineStringArray { x, y, geom_offsets: offsets, validity })
                },
                _ => Err(GeoError::Layout),
            },
            _ => Err(GeoError::Layout),
        }
    }

    /// Round trip through the generic columnar representation: converting
    /// a well-formed line string array out and back yields the array
    /// itself, same buffers and validity.
    pub proof fn lemma_generic_round_trip(a: LineStringArray)
        requires
            a.wf(),
        ensures
            LineStringArray::spec_from_generic(a.spec_to_generic()) == Ok::<
                LineStringArray,
                GeoError,
            >(a),
    {
    }
}

/// Append-only builder for a line string array. Before any null is
/// pushed no bitmap exists; the first null materializes one retroactively
/// for all previously pushed rows.
pub struct MutableLineStringArray {
    pub x: Vec<u64>,
    pub y: Vec<u64>,
    pub geom_offsets: Vec<usize>,
    pub validity: Option<Vec<bool>>,
}

impl MutableLineStringArray {
    pub open spec fn wf(self) -> bool {
        &&& self.x@.len() == self.y@.len()
        &&& self.geom_offsets@.len() >= 1
        &&& self.geom_offsets@[0] == 0
        &&& forall|i: int|
            0 <= i < self.geom_offsets@.len() - 1 ==> #[trigger] self.geom_offsets@[i]
                <= self.geom_offsets@[i + 1]
        &&& self.geom_offsets@.last() == self.x@.len()
        &&& match self.validity {
            Some(v) => v@.len() == self.geom_offsets@.len() - 1,
            None => true,
        }
    }

    pub open spec fn spec_len(self) -> int {
        self.geom_offsets@.len() - 1
    }

    pub open spec fn valid_seq(self) -> Seq<bool> {
        match self.validity {
            Some(v) => v@,
            None => Seq::new((self.geom_offsets@.len() - 1) as nat, |i: int| true),
        }
    }

    /// The vertex sequence buffered for row `i`.
    pub open spec fn coords_at(self, i: int) -> Seq<Coord> {
        let s = self.geom_offsets@[i] as int;
        let e = self.geom_offsets@[i + 1] as int;
        Seq::new((e - s) as nat, |k: int| Coord { x: self.x@[s + k], y: self.y@[s + k] })
    }

    pub open spec fn get_spec(self, i: int) -> Option<Seq<Coord>> {
        if self.valid_seq()[i] {
            Some(self.coords_at(i))
        } else {
            None
        }
    }

    pub fn new() -> (r: MutableLineStringArray)
        ensures
            r.wf(),
            r.spec_len() == 0,
            r.validity is None,
    {
        let mut geom_offsets: Vec<usize> = Vec::new();
        geom_offsets.push(0);
        MutableLineStringArray { x: Vec::new(), y: Vec::new(), geom_offsets, validity: None }
    }

    /// Appends one nullable line string. A null appends a zero-length
    /// vertex span and, on the first null only, backfills the bitmap with
    /// the previously pushed (implicitly valid) rows.
    #[verifier::rlimit(80)]
    pub fn push(&mut self, g: Option<&LineString>)
        requires
            old(self).wf(),
        ensures
            final(self).wf(),
            final(self).spec_len() == old(self).spec_len() + 1,
            final(self).x@.len() == old(self).x@.len() + (match g {
                Some(ls) => ls.coords@.len() as int,
                None => 0,
            }),
            final(self).y@.len() == final(self).x@.len(),
            final(self).geom_offsets@ == old(self).geom_offsets@.push(
                final(self).x@.len() as usize,
            ),
            forall|i: int| 0 <= i < old(self).spec_len() ==> final(self).get_spec(i) == old(
                self,
            ).get_spec(i),
            final(self).get_spec(old(self).spec_len()) == (match g {
                Some(ls) => Some(ls.coords@),
                None => None::<Seq<Coord>>,
            }),
            final(self).validity is None <==> (old(self).validity is None && g is Some),
    {
        let ghost pre = *self;
        match g {
            Some(ls) => {
                let m = ls.coords.len();
                let mut k: usize = 0;
                while k < m
                    invariant
                        m == ls.coords@.len(),
                        k <= m,
                        self.x@ == pre.x@ + ls.coords@.take(k as int).map_values(|c: Coord| c.x),
                        self.y@ == pre.y@ + ls.coords@.take(k as int).map_values(|c: Coord| c.y),
                        self.geom_offsets == pre.geom_offsets,
                        self.validity == pre.validity,
                    decreases m - k,
                {
                    let c = ls.coords[k];
                    self.x.push(c.x);
                    self.y.push(c.y);
                    proof {
                        assert(self.x@ =~= pre.x@ + ls.coords@.take(k + 1).map_values(
                            |c: Coord| c.x,
                        ));
                        assert(self.y@ =~= pre.y@ + ls.coords@.take(k + 1).map_values(
                            |c: Coord| c.y,
                        ));
                    }
                    k += 1;
                }
                self.geom_offsets.push(self.x.len());
                if let Some(v) = &mut self.validity {
                    v.push(true);
                }
                proof {
                    assert(ls.coords@.take(m as int) =~= ls.coords@);
                    lemma_push_preserves(pre, *self, ls.coords@);
                }
            },
            None => {
                let last = self.x.len();
                self.geom_offsets.push(last);
                match &mut self.validity {
                    Some(v) => {
                        v.push(false);
                    },
                    None => {
                        let mut v = all_set_bits(self.geom_offsets.len() - 2);
                        v.push(false);
                        self.validity = Some(v);
                    },
                }
                proof {
                    lemma_push_preserves(pre, *self, Seq::empty());
                    assert(!self.valid_seq()[pre.spec_len()]);
                }
            },
        }
    }

    /// Freezes the buffered rows into an immutable line string array,
    /// transferring buffer ownership without copying rows.
    #[verifier::rlimit(40)]
    pub fn finish(self) -> (r: LineStringArray)
        requires
            self.wf(),
        ensures
            r.wf(),
            r.spec_len() == self.spec_len(),
            forall|i: int| 0 <= i < self.spec_len() ==> r.get_spec(i) == self.get_spec(i),
            r.validity is Some <==> self.validity is Some,
    {
        let validity = match self.validity {
            Some(v) => Some(Bitmap::from_vec(v)),
            None => None,
        };
        let r = LineStringArray {
            x: Buffer::from_vec(self.x),
            y: Buffer::from_vec(self.y),
            geom_offsets: OffsetsBuffer::from_vec(self.geom_offsets),
            validity,
        };
        proof {
            assert(r.valid_seq() =~= self.valid_seq());
            assert forall|i: int| 0 <= i < self.spec_len() implies r.get_spec(i) == self.get_spec(
                i,
            ) by {
                assert(r.coords_at(i) =~= self.coords_at(i));
            }
        }
        r
    }
}

/// After appending one row the earlier rows read back unchanged and the
/// new row holds exactly the appended coordinates.
proof fn lemma_push_preserves(pre: MutableLineStringArray, post: MutableLineStringArray, coords: Seq<Coord>)
    requires
        pre.wf(),
        post.x@ == pre.x@ + coords.map_values(|c: Coord| c.x),
        post.y@ == pre.y@ + coords.map_values(|c: Coord| c.y),
        post.geom_offsets@ == pre.geom_offsets@.push(post.x@.len() as usize),
        post.x@.len() <= usize::MAX,
        post.x@.len() == pre.x@.len() + coords.len(),
        post.x@.len() == post.y@.len(),
    ensures
        forall|i: int| 0 <= i < pre.spec_len() ==> post.coords_at(i) == pre.coords_at(i),
        post.coords_at(pre.spec_len()) == coords,
        post.geom_offsets@.len() >= 1,
        post.geom_offsets@[0] == 0,
        forall|i: int|
            0 <= i < post.geom_offsets@.len() - 1 ==> #[trigger] post.geom_offsets@[i]
                <= post.geom_offsets@[i + 1],
        post.geom_offsets@.last() == post.x@.len(),
{
    let n = pre.geom_offsets@.len();
    assert(pre.geom_offsets@.last() == pre.x@.len());
    assert forall|i: int|
        0 <= i < post.geom_offsets@.len() - 1 implies #[trigger] post.geom_offsets@[i]
        <= post.geom_offsets@[i + 1] by {
        if i < n - 1 {
            assert(post.geom_offsets@[i] == pre.geom_offsets@[i]);
            assert(post.geom_offsets@[i + 1] == pre.geom_offsets@[i + 1]);
            assert(pre.geom_offsets@[i] <= pre.geom_offsets@[i + 1]);
        } else {
            assert(post.geom_offsets@[i] == pre.geom_offsets@[i]);
            assert(post.geom_offsets@[i + 1] == post.x@.len() as usize);
            crate::buffer::lemma_offsets_seq_bounded(pre.geom_offsets@, i);
        }
    }
    assert forall|i: int| 0 <= i < pre.spec_len() implies post.coords_at(i) == pre.coords_at(
        i,
    ) by {
        crate::buffer::lemma_offsets_seq_bounded(pre.geom_offsets@, i);
        crate::buffer::lemma_offsets_seq_bounded(pre.geom_offsets@, i + 1);
        let s = pre.geom_offsets@[i] as int;
        let e = pre.geom_offsets@[i + 1] as int;
        assert forall|k: int| 0 <= k < e - s implies #[trigger] post.x@[s + k] == pre.x@[s + k]
            && post.y@[s + k] == pre.y@[s + k] by {}
        assert(post.coords_at(i) =~= pre.coords_at(i));
    }
    let s0 = pre.x@.len() as int;
    assert forall|k: int| 0 <= k < coords.len() implies post.x@[s0 + k] == coords[k].x && post.y@[
        s0 + k] == coords[k].y by {
        assert(post.x@[s0 + k] == coords.map_values(|c: Coord| c.x)[k]);
        assert(post.y@[s0 + k] == coords.map_values(|c: Coord| c.y)[k]);
    }
    assert(post.coords_at(pre.spec_len()) =~= coords);
}

} // verus!
