//! Fixed-layout multi-point arrays. The physical layout is identical to
//! the line string layout — flat coordinates plus one offsets level — and
//! only the semantic wrapping of a decoded row differs: the coordinate
//! range is an unordered collection of single-vertex geometries rather
//! than an ordered path.

use vstd::prelude::*;

use crate::buffer::Bitmap;
use crate::buffer::Buffer;
use crate::buffer::OffsetsBuffer;
use crate::error::GeoError;
use crate::geom::Coord;
use crate::geom::MultiPoint;
use crate::linestring::LineStringArray;
use crate::linestring::ListLayoutModel;
use crate::linestring::list_layout_wf;
use crate::linestring::spec_slice_list;

verus! {

/// A multi-point array: each row is the vertex collection
/// `coords[offsets[i] .. offsets[i+1])`.
#[derive(Clone, Debug)]
pub struct MultiPointArray {
    pub x: Buffer,
    pub y: Buffer,
    pub geom_offsets: OffsetsBuffer,
    pub validity: Option<Bitmap>,
}

impl MultiPointArray {
    pub open spec fn wf(self) -> bool {
        list_layout_wf(self.x, self.y, self.geom_offsets, self.validity)
    }

    pub open spec fn spec_len(self) -> int {
        self.geom_offsets.spec_row_count()
    }

    pub open spec fn valid_seq(self) -> Seq<bool> {
        match self.validity {
            Some(b) => b@,
            None => Seq::new(self.geom_offsets.spec_row_count() as nat, |i: int| true),
        }
    }

    pub open spec fn model(self) -> ListLayoutModel {
        ListLayoutModel {
            x: self.x@,
            y: self.y@,
            offsets: self.geom_offsets@,
            valid: self.valid_seq(),
            has_bitmap: self.validity is Some,
        }
    }

    /// The vertex collection of row `i`, ignoring validity.
    pub open spec fn coords_at(self, i: int) -> Seq<Coord> {
        let s = self.geom_offsets@[i] as int;
        let e = self.geom_offsets@[i + 1] as int;
        Seq::new((e - s) as nat, |k: int| Coord { x: self.x@[s + k], y: self.y@[s + k] })
    }

    pub open spec fn get_spec(self, i: int) -> Option<Seq<Coord>> {
        if self.valid_seq()[i] {
            Some(self.coords_at(i))
        } else {
            None
        }
    }

    /// Creates a multi-point array from parts; the caller is responsible
    /// for the length invariants.
    pub fn new(
        x: Buffer,
        y: Buffer,
        geom_offsets: OffsetsBuffer,
        validity: Option<Bitmap>,
    ) -> (r: MultiPointArray)
        requires
            list_layout_wf(x, y, geom_offsets, validity),
        ensures
            r.wf(),
            r == (MultiPointArray { x, y, geom_offsets, validity }),
    {
        MultiPointArray { x, y, geom_offsets, validity }
    }

    /// Number of logical rows.
    pub fn len(&self) -> (r: usize)
        requires
            self.wf(),
        ensures
            r == self.spec_len(),
    {
        self.geom_offsets.row_count()
    }

    pub fn is_empty(&self) -> (r: bool)
        requires
            self.wf(),
        ensures
            r == (self.spec_len() == 0),
    {
        self.len() == 0
    }

    /// The optional validity bitmap.
    pub fn validity(&self) -> (r: &Option<Bitmap>)
        ensures
            r == &self.validity,
    {
        &self.validity
    }

    /// Whether row `i` is present.
    pub fn is_valid(&self, i: usize) -> (r: bool)
        requires
            self.wf(),
            i < self.spec_len(),
        ensures
            r == self.valid_seq()[i as int],
    {
        match &self.validity {
            Some(b) => b.get_bit(i),
            None => true,
        }
    }

    /// Decodes row `i` into its vertex collection without consulting
    /// validity. The physical read is the same as for a line string row;
    /// only the semantic wrapping differs.
    pub fn value_as_geo(&self, i: usize) -> (r: MultiPoint)
        requires
            self.wf(),
            i < self.spec_len(),
        ensures
            r.points@ == self.coords_at(i as int),
    {
        proof {
            self.geom_offsets.lemma_bounds();
        }
        let (s, e) = self.geom_offsets.start_end(i);
        let mut points: Vec<Coord> = Vec::new();
        let mut k: usize = s;
        while k < e
            invariant
                self.wf(),
                s == self.geom_offsets@[i as int],
                e == self.geom_offsets@[i as int + 1],
                e <= self.x@.len(),
                s <= k <= e,
                points@.len() == k - s,
                forall|j: int| 0 <= j < k - s ==> points@[j] == self.coords_at(i as int)[j],
            decreases e - k,
        {
            points.push(Coord { x: self.x.get(k), y: self.y.get(k) });
            k += 1;
        }
        let r = MultiPoint { points };
        proof {
            assert(r.points@ =~= self.coords_at(i as int));
        }
        r
    }

    /// Decodes row `i`, returning `None` for a null row.
    pub fn get_as_geo(&self, i: usize) -> (r: Option<MultiPoint>)
        requires
            self.wf(),
            i < self.spec_len(),
        ensures
            r matches Some(mp) ==> self.valid_seq()[i as int] && mp.points@ == self.coords_at(
                i as int,
            ),
            r is None <==> !self.valid_seq()[i as int],
    {
        if !self.is_valid(i) {
            return None;
        }
        Some(self.value_as_geo(i))
    }

    /// O(1) view of rows `[offset, offset + length)`; the relabeling into
    /// the line string layout shares all slicing machinery, so the slice
    /// is taken there and retagged back.
    #[verifier::rlimit(40)]
    pub fn slice_unchecked(&self, offset: usize, length: usize) -> (r: MultiPointArray)
        requires
            self.wf(),
            offset + length <= self.spec_len(),
        ensures
            r.wf(),
            r.model() == spec_slice_list(self.model(), offset as int, length as int),
    {
        let ls = self.clone_as_line_string();
        let sliced = ls.slice_unchecked(offset, length);
        sliced.into_multi_point()
    }

    /// O(1) slice of rows `[offset, offset + length)`, failing with a
    /// bounds error when the window exceeds the array.
    pub fn slice(&self, offset: usize, length: usize) -> (r: Result<MultiPointArray, GeoError>)
        requires
            self.wf(),
        ensures
            offset + length <= self.spec_len() ==> (r matches Ok(a) && a.wf() && a.model()
                == spec_slice_list(self.model(), offset as int, length as int)),
            offset + length > self.spec_len() ==> (r matches Err(e) && e == GeoError::Bounds),
    {
        let n = self.len();
        if offset > n || length > n - offset {
            return Err(GeoError::Bounds);
        }
        Ok(self.slice_unchecked(offset, length))
    }

    /// Relabels this array as a line string array: the exact inverse of
    /// the relabeling in the other direction, equally O(1) and lossless.
    pub fn into_line_string(self) -> (r: LineStringArray)
        requires
            self.wf(),
        ensures
            r.wf(),
            r.x == self.x,
            r.y == self.y,
            r.geom_offsets == self.geom_offsets,
            r.validity == self.validity,
            r.model() == self.model(),
    {
        let r = LineStringArray {
            x: self.x,
            y: self.y,
            geom_offsets: self.geom_offsets,
            validity: self.validity,
        };
        proof {
            assert(r.model() =~= self.model());
        }
        r
    }

    /// A line string view over the same buffers, cloning only the
    /// reference-counted handles.
    fn clone_as_line_string(&self) -> (r: LineStringArray)
        requires
            self.wf(),
        ensures
            r.wf(),
            r.x == self.x,
            r.y == self.y,
            r.geom_offsets == self.geom_offsets,
            r.validity == self.validity,
            r.model() == self.model(),
    {
        let r = LineStringArray {
            x: self.x.clone(),
            y: self.y.clone(),
            geom_offsets: self.geom_offsets.clone(),
            validity: match &self.validity {
                Some(b) => Some(b.clone()),
                None => None,
            },
        };
        proof {
            assert(r.model() =~= self.model());
        }
        r
    }
}

} // verus!
