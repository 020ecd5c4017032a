//! The logical column: an ordered sequence of same-variant arrays
//! ("chunks") presented as one flat indexable sequence. Chunk boundaries
//! carry no semantic meaning: indexed access resolves a flat row index to
//! a chunk and a local index over the running chunk lengths and then
//! delegates to that chunk.

use vstd::prelude::*;

use crate::binary::WkbArray;
use crate::error::GeoError;
use crate::generic::GenericArray;
use crate::generic::GeometryType;
use crate::generic::get_geoarrow_type;
use crate::generic::spec_resolve;
use crate::geom::Coord;
use crate::geom::GeomModel;
use crate::geom::Geometry;
use crate::geom::geom_model;
use crate::linestring::LineStringArray;
use crate::multipoint::MultiPointArray;
use crate::point::PointArray;
use crate::polygon::PolygonArray;
use crate::wkb::wkb_decodable;
use crate::wkb::wkb_of;
use crate::wkb::wkb_wf;

verus! {

/// Closed sum over the array variants, matched exhaustively wherever a
/// chunk's variant matters; there is no runtime type-identity check.
#[derive(Debug)]
pub enum GeometryArrayEnum {
    Point(PointArray),
    LineString(LineStringArray),
    MultiPoint(MultiPointArray),
    Polygon(PolygonArray),
    WKB(WkbArray),
}

impl GeometryArrayEnum {
    pub open spec fn wf(self) -> bool {
        match self {
            GeometryArrayEnum::Point(a) => a.wf(),
            GeometryArrayEnum::LineString(a) => a.wf(),
            GeometryArrayEnum::MultiPoint(a) => a.wf(),
            GeometryArrayEnum::Polygon(a) => a.wf(),
            GeometryArrayEnum::WKB(a) => a.wf(),
        }
    }

    pub open spec fn spec_len(self) -> int {
        match self {
            GeometryArrayEnum::Point(a) => a.spec_len(),
            GeometryArrayEnum::LineString(a) => a.spec_len(),
            GeometryArrayEnum::MultiPoint(a) => a.spec_len(),
            GeometryArrayEnum::Polygon(a) => a.spec_len(),
            GeometryArrayEnum::WKB(a) => a.spec_len(),
        }
    }

    pub open spec fn valid_seq(self) -> Seq<bool> {
        match self {
            GeometryArrayEnum::Point(a) => a.valid_seq(),
            GeometryArrayEnum::LineString(a) => a.valid_seq(),
            GeometryArrayEnum::MultiPoint(a) => a.valid_seq(),
            GeometryArrayEnum::Polygon(a) => a.valid_seq(),
            GeometryArrayEnum::WKB(a) => a.valid_seq(),
        }
    }

    pub open spec fn spec_type(self) -> GeometryType {
        match self {
            GeometryArrayEnum::Point(_) => GeometryType::Point,
            GeometryArrayEnum::LineString(_) => GeometryType::LineString,
            GeometryArrayEnum::MultiPoint(_) => GeometryType::MultiPoint,
            GeometryArrayEnum::Polygon(_) => GeometryType::Polygon,
            GeometryArrayEnum::WKB(_) => GeometryType::WKB,
        }
    }

    /// Whether `g` is the correct decoding of row `i`: for a structured
    /// chunk the row's coordinates with the variant's semantic wrapping,
    /// for a binary chunk a well-formed geometry whose encoding is the
    /// row's payload.
    pub open spec fn row_ok(self, i: int, g: Geometry) -> bool {
        match self {
            GeometryArrayEnum::Point(a) => geom_model(g) == GeomModel::Point(
                Coord { x: a.x@[i], y: a.y@[i] },
            ),
            GeometryArrayEnum::LineString(a) => geom_model(g) == GeomModel::LineString(
                a.coords_at(i),
            ),
            GeometryArrayEnum::MultiPoint(a) => geom_model(g) == GeomModel::MultiPoint(
                a.coords_at(i),
            ),
            GeometryArrayEnum::Polygon(a) => geom_model(g) == GeomModel::Polygon(
                if a.rings_at(i).len() == 0 {
                    seq![Seq::<Coord>::empty()]
                } else {
                    a.rings_at(i)
                },
            ),
            GeometryArrayEnum::WKB(a) => wkb_wf(geom_model(g)) && a.bytes_at(i) == wkb_of(
                geom_model(g),
            ),
        }
    }

    /// The declared variant of this chunk.
    pub fn geometry_type(&self) -> (r: GeometryType)
        ensures
            r == self.spec_type(),
    {
        match self {
            GeometryArrayEnum::Point(_) => GeometryType::Point,
            GeometryArrayEnum::LineString(_) => GeometryType::LineString,
            GeometryArrayEnum::MultiPoint(_) => GeometryType::MultiPoint,
            GeometryArrayEnum::Polygon(_) => GeometryType::Polygon,
            GeometryArrayEnum::WKB(_) => GeometryType::WKB,
        }
    }

    /// Number of logical rows.
    pub fn len(&self) -> (r: usize)
        requires
            self.wf(),
        ensures
            r == self.spec_len(),
    {
        match self {
            GeometryArrayEnum::Point(a) => a.len(),
            GeometryArrayEnum::LineString(a) => a.len(),
            GeometryArrayEnum::MultiPoint(a) => a.len(),
            GeometryArrayEnum::Polygon(a) => a.len(),
            GeometryArrayEnum::WKB(a) => a.len(),
        }
    }

    /// Decodes row `i` with validity: a null row is `None`; a present
    /// row decodes per the chunk's variant. Only the binary variant can
    /// fail, on malformed payload bytes.
    pub fn get_as_geo(&self, i: usize) -> (r: Result<Option<Geometry>, GeoError>)
        requires
            self.wf(),
            i < self.spec_len(),
        ensures
            !self.valid_seq()[i as int] ==> (r matches Ok(o) && o is None),
            self.valid_seq()[i as int] ==> match r {
                Ok(o) => o matches Some(g) && self.row_ok(i as int, g),
                Err(e) => e == GeoError::Decode && (self matches GeometryArrayEnum::WKB(a)
                    && !wkb_decodable(a.bytes_at(i as int))),
            },
            forall|m: GeomModel|
                (self matches GeometryArrayEnum::WKB(a) && self.valid_seq()[i as int] && wkb_wf(m)
                    && a.bytes_at(i as int) == #[trigger] wkb_of(m)) ==> (r matches Ok(o)
                    && o matches Some(g) && geom_model(g) == m),
    {
        match self {
            GeometryArrayEnum::Point(a) => match a.get_as_geo(i) {
                Some(p) => Ok(Some(Geometry::Point(p))),
                None => Ok(None),
            },
            GeometryArrayEnum::LineString(a) => match a.get_as_geo(i) {
                Some(ls) => Ok(Some(Geometry::LineString(ls))),
                None => Ok(None),
            },
            GeometryArrayEnum::MultiPoint(a) => match a.get_as_geo(i) {
                Some(mp) => Ok(Some(Geometry::MultiPoint(mp))),
                None => Ok(None),
            },
            GeometryArrayEnum::Polygon(a) => match a.get_as_geo(i) {
                Some(p) => Ok(Some(Geometry::Polygon(p))),
                None => Ok(None),
            },
            GeometryArrayEnum::WKB(a) => a.get_as_geo(i),
        }
    }
}

/// Total rows over a chunk sequence.
pub open spec fn sum_lens(s: Seq<GeometryArrayEnum>) -> int
    decreases s.len(),
{
    if s.len() == 0 {
        0
    } else {
        s[0].spec_len() + sum_lens(s.drop_first())
    }
}

pub proof fn lemma_sum_lens_nonneg(s: Seq<GeometryArrayEnum>)
    requires
        forall|j: int| 0 <= j < s.len() ==> (#[trigger] s[j]).wf(),
    ensures
        sum_lens(s) >= 0,
    decreases s.len(),
{
    if s.len() > 0 {
        assert forall|j: int|
            0 <= j < s.drop_first().len() implies (#[trigger] s.drop_first()[j]).wf() by {
            assert(s.drop_first()[j] == s[j + 1]);
        }
        lemma_sum_lens_nonneg(s.drop_first());
        assert(s[0].wf());
        assert(s[0].spec_len() >= 0);
    }
}

pub proof fn lemma_sum_lens_push(s: Seq<GeometryArrayEnum>, k: int)
    requires
        0 <= k < s.len(),
    ensures
        sum_lens(s.take(k + 1)) == sum_lens(s.take(k)) + s[k].spec_len(),
    decreases k,
{
    let a = s.take(k + 1);
    if k == 0 {
        assert(a.drop_first() =~= Seq::<GeometryArrayEnum>::empty());
        assert(s.take(0) =~= Seq::<GeometryArrayEnum>::empty());
        assert(a[0] == s[0]);
    } else {
        lemma_sum_lens_push(s.drop_first(), k - 1);
        assert(a.drop_first() =~= s.drop_first().take(k));
        assert(s.take(k).drop_first() =~= s.drop_first().take(k - 1));
        assert(s.drop_first()[k - 1] == s[k]);
        assert(a[0] == s[0]);
        assert(s.take(k)[0] == s[0]);
    }
}

/// Resolution of flat index `i` to `(chunk, local index)` over the
/// running chunk lengths.
pub open spec fn spec_locate(s: Seq<GeometryArrayEnum>, i: int) -> (int, int)
    decreases s.len(),
{
    if s.len() == 0 {
        (0, 0)
    } else if i < s[0].spec_len() {
        (0, i)
    } else {
        let r = spec_locate(s.drop_first(), i - s[0].spec_len());
        (r.0 + 1, r.1)
    }
}

/// With `0 <= i < sum_lens(s)` the resolved chunk index is in range, the
/// local index is in its chunk, and the prefix sums add back up to `i`.
pub proof fn lemma_locate_ok(s: Seq<GeometryArrayEnum>, i: int)
    requires
        0 <= i < sum_lens(s),
        forall|j: int| 0 <= j < s.len() ==> (#[trigger] s[j]).wf(),
    ensures
        0 <= spec_locate(s, i).0 < s.len(),
        0 <= spec_locate(s, i).1 < s[spec_locate(s, i).0].spec_len(),
        sum_lens(s.take(spec_locate(s, i).0)) + spec_locate(s, i).1 == i,
    decreases s.len(),
{
    if s.len() == 0 {
    } else if i < s[0].spec_len() {
        assert(s.take(0) =~= Seq::<GeometryArrayEnum>::empty());
    } else {
        assert forall|j: int|
            0 <= j < s.drop_first().len() implies (#[trigger] s.drop_first()[j]).wf() by {
            assert(s.drop_first()[j] == s[j + 1]);
        }
        lemma_sum_lens_nonneg(s.drop_first());
        assert(s[0].wf());
        assert(s[0].spec_len() >= 0);
        lemma_locate_ok(s.drop_first(), i - s[0].spec_len());
        let r = spec_locate(s.drop_first(), i - s[0].spec_len());
        assert(s.drop_first()[r.0] == s[r.0 + 1]);
        assert(s.take(r.0 + 1).drop_first() =~= s.drop_first().take(r.0));
        assert(s.take(r.0 + 1)[0] == s[0]);
        assert(sum_lens(s.take(r.0 + 1)) == s[0].spec_len() + sum_lens(s.drop_first().take(r.0)));
    }
}

/// A logical column: at least one chunk, all chunks well formed and of
/// one declared variant, total length within the platform bound.
#[derive(Debug)]
pub struct Column {
    pub chunks: Vec<GeometryArrayEnum>,
}

impl Column {
    pub open spec fn wf(self) -> bool {
        &&& self.chunks@.len() >= 1
        &&& forall|i: int| 0 <= i < self.chunks@.len() ==> (#[trigger] self.chunks@[i]).wf()
        &&& forall|i: int|
            0 <= i < self.chunks@.len() ==> (#[trigger] self.chunks@[i]).spec_type()
                == self.chunks@[0].spec_type()
        &&& sum_lens(self.chunks@) <= usize::MAX
    }

    pub open spec fn spec_len(self) -> int {
        sum_lens(self.chunks@)
    }

    pub open spec fn spec_type(self) -> GeometryType {
        self.chunks@[0].spec_type()
    }

    /// Per-row validity of the flat view.
    pub open spec fn flat_valid(self, i: int) -> bool {
        let loc = spec_locate(self.chunks@, i);
        self.chunks@[loc.0].valid_seq()[loc.1]
    }

    /// Whether `g` is the correct decoding of flat row `i`.
    pub open spec fn flat_row_ok(self, i: int, g: Geometry) -> bool {
        let loc = spec_locate(self.chunks@, i);
        self.chunks@[loc.0].row_ok(loc.1, g)
    }

    /// Whether flat row `i` cannot decode: it sits in a binary chunk and
    /// its payload is the encoding of no well-formed geometry. Structured
    /// rows always decode.
    pub open spec fn flat_undecodable(self, i: int) -> bool {
        let loc = spec_locate(self.chunks@, i);
        match self.chunks@[loc.0] {
            GeometryArrayEnum::WKB(a) => !wkb_decodable(a.bytes_at(loc.1)),
            _ => false,
        }
    }

    /// Whether some present row of the column cannot decode: the one
    /// condition under which a decode error is permitted.
    pub open spec fn has_undecodable_row(self) -> bool {
        exists|i: int|
            0 <= i < self.spec_len() && self.flat_valid(i) && #[trigger] self.flat_undecodable(i)
    }

    /// Wraps one chunk as a column.
    pub fn from_chunk(chunk: GeometryArrayEnum) -> (r: Column)
        requires
            chunk.wf(),
        ensures
            r.wf(),
            r.chunks@.len() == 1,
            r.chunks@[0] == chunk,
            r.spec_len() == chunk.spec_len(),
    {
        let ghost c = chunk;
        let mut chunks: Vec<GeometryArrayEnum> = Vec::new();
        let n = chunk.len();
        chunks.push(chunk);
        proof {
            assert(chunks@.drop_first() =~= Seq::<GeometryArrayEnum>::empty());
            assert(sum_lens(Seq::<GeometryArrayEnum>::empty()) == 0);
            assert(sum_lens(chunks@) == c.spec_len());
        }
        Column { chunks }
    }

    /// The chunks, for operations that exploit native buffer layout
    /// directly rather than going through the flat index path.
    pub fn chunks(&self) -> (r: &Vec<GeometryArrayEnum>)
        ensures
            r == &self.chunks,
    {
        &self.chunks
    }

    /// The declared variant of the column.
    pub fn geometry_type(&self) -> (r: GeometryType)
        requires
            self.wf(),
        ensures
            r == self.spec_type(),
    {
        self.chunks[0].geometry_type()
    }

    /// Total number of rows across all chunks.
    pub fn len(&self) -> (r: usize)
        requires
            self.wf(),
        ensures
            r == self.spec_len(),
    {
        let n = self.chunks.len();
        let mut total: usize = 0;
        let mut k: usize = 0;
        proof {
            assert(self.chunks@.take(0) =~= Seq::<GeometryArrayEnum>::empty());
        }
        while k < n
            invariant
                self.wf(),
                n == self.chunks@.len(),
                k <= n,
                total == sum_lens(self.chunks@.take(k as int)),
            decreases n - k,
        {
            proof {
                lemma_sum_lens_push(self.chunks@, k as int);
                lemma_sum_take_bound(self.chunks@, k as int + 1);
            }
            total = total + self.chunks[k].len();
            k += 1;
        }
        proof {
            assert(self.chunks@.take(n as int) =~= self.chunks@);
        }
        total
    }

    /// Resolves flat row index `i` to its chunk and local index.
    pub fn index_to_chunked_index(&self, i: usize) -> (r: (usize, usize))
        requires
            self.wf(),
            i < self.spec_len(),
        ensures
            (r.0 as int, r.1 as int) == spec_locate(self.chunks@, i as int),
            r.0 < self.chunks@.len(),
            r.1 < self.chunks@[r.0 as int].spec_len(),
    {
        proof {
            lemma_locate_ok(self.chunks@, i as int);
            assert(self.chunks@.skip(0) =~= self.chunks@);
            assert(self.chunks@.take(0) =~= Seq::<GeometryArrayEnum>::empty());
        }
        let n = self.chunks.len();
        let mut k: usize = 0;
        let mut rem: usize = i;
        loop
            invariant
                self.wf(),
                n == self.chunks@.len(),
                k < n,
                0 <= rem <= i,
                sum_lens(self.chunks@.take(k as int)) + rem == i,
                spec_locate(self.chunks@, i as int) == spec_locate_shift(
                    self.chunks@,
                    k as int,
                    rem as int,
                ),
                0 <= spec_locate(self.chunks@, i as int).0 < n,
                spec_locate(self.chunks@, i as int).1 < self.chunks@[spec_locate(
                    self.chunks@,
                    i as int,
                ).0].spec_len(),
                spec_locate(self.chunks@, i as int).0 >= k,
            decreases n - k,
        {
            let chunk_len = self.chunks[k].len();
            if rem < chunk_len {
                proof {
                    lemma_locate_shift_here(self.chunks@, k as int, rem as int);
                }
                return (k, rem);
            }
            proof {
                lemma_locate_shift_step(self.chunks@, k as int, rem as int);
                lemma_sum_lens_push(self.chunks@, k as int);
                lemma_locate_nonneg(self.chunks@.skip(k as int + 1), rem - chunk_len);
            }
            rem = rem - chunk_len;
            k += 1;
            proof {
                if k >= n {
                    assert(spec_locate(self.chunks@, i as int).0 >= n);
                    assert(false);
                }
            }
        }
    }

    /// Decodes every row of the column with validity, in flat row
    /// order: the lazy per-chunk iteration materialized as one sequence.
    /// A null row yields `None`; only a binary column can fail, on a
    /// malformed payload.
    pub fn iter_geo(&self) -> (r: Result<Vec<Option<Geometry>>, GeoError>)
        requires
            self.wf(),
        ensures
            r matches Ok(rows) ==> rows@.len() == self.spec_len() && (forall|i: int|
                0 <= i < rows@.len() ==> (((#[trigger] rows@[i]) is Some) == self.flat_valid(i)))
                && (forall|i: int|
                0 <= i < rows@.len() ==> ((#[trigger] rows@[i]) matches Some(g)
                    ==> self.flat_row_ok(i, g))),
            r matches Err(e) ==> e == GeoError::Decode && self.spec_type() == GeometryType::WKB
                && self.has_undecodable_row(),
    {
        let nchunks = self.chunks.len();
        let mut out: Vec<Option<Geometry>> = Vec::new();
        let mut c: usize = 0;
        proof {
            assert(self.chunks@.take(0) =~= Seq::<GeometryArrayEnum>::empty());
        }
        while c < nchunks
            invariant
                self.wf(),
                nchunks == self.chunks@.len(),
                c <= nchunks,
                out@.len() == sum_lens(self.chunks@.take(c as int)),
                forall|i: int|
                    0 <= i < out@.len() ==> (((#[trigger] out@[i]) is Some) == self.flat_valid(i)),
                forall|i: int|
                    0 <= i < out@.len() ==> ((#[trigger] out@[i]) matches Some(g)
                        ==> self.flat_row_ok(i, g)),
            decreases nchunks - c,
        {
            let chunk = &self.chunks[c];
            let rows = chunk.len();
            let mut j: usize = 0;
            while j < rows
                invariant
                    self.wf(),
                    nchunks == self.chunks@.len(),
                    c < nchunks,
                    chunk == &self.chunks@[c as int],
                    rows == chunk.spec_len(),
                    j <= rows,
                    out@.len() == sum_lens(self.chunks@.take(c as int)) + j,
                    forall|i: int|
                        0 <= i < out@.len() ==> (((#[trigger] out@[i]) is Some)
                            == self.flat_valid(i)),
                    forall|i: int|
                        0 <= i < out@.len() ==> ((#[trigger] out@[i]) matches Some(g)
                            ==> self.flat_row_ok(i, g)),
                decreases rows - j,
            {
                let o = match chunk.get_as_geo(j) {
                    Ok(o) => o,
                    Err(e) => {
                        proof {
                            assert(chunk.spec_type() == self.spec_type());
                            let i0 = sum_lens(self.chunks@.take(c as int)) + j;
                            lemma_locate_of_parts(self.chunks@, c as int, j as int);
                            lemma_sum_lens_push(self.chunks@, c as int);
                            lemma_sum_take_bound(self.chunks@, c as int + 1);
                            assert(self.flat_valid(i0) && self.flat_undecodable(i0));
                        }
                        return Err(e);
                    },
                };
                proof {
                    lemma_locate_of_parts(self.chunks@, c as int, j as int);
                }
                out.push(o);
                j += 1;
            }
            proof {
                lemma_sum_lens_push(self.chunks@, c as int);
            }
            c += 1;
        }
        proof {
            assert(self.chunks@.take(nchunks as int) =~= self.chunks@);
        }
        Ok(out)
    }

    /// Decodes flat row `i` with validity, resolving the chunk first;
    /// an out-of-range index is a bounds error.
    pub fn get_as_geo(&self, i: usize) -> (r: Result<Option<Geometry>, GeoError>)
        requires
            self.wf(),
        ensures
            i >= self.spec_len() ==> (r matches Err(e) && e == GeoError::Bounds),
            i < self.spec_len() && !self.flat_valid(i as int) ==> (r matches Ok(o) && o is None),
            i < self.spec_len() && self.flat_valid(i as int) ==> match r {
                Ok(o) => o matches Some(g) && self.flat_row_ok(i as int, g),
                Err(e) => self.spec_type() == GeometryType::WKB && e == GeoError::Decode
                    && self.flat_undecodable(i as int),
            },
    {
        let n = self.len();
        if i >= n {
            return Err(GeoError::Bounds);
        }
        let (c, j) = self.index_to_chunked_index(i);
        let chunk = &self.chunks[c];
        proof {
            if chunk.spec_type() != self.spec_type() {
                assert(false);
            }
        }
        chunk.get_as_geo(j)
    }
}

/// The locate result as seen after skipping the first `k` chunks whose
/// rows are already accounted for.
pub open spec fn spec_locate_shift(s: Seq<GeometryArrayEnum>, k: int, rem: int) -> (int, int) {
    let r = spec_locate(s.skip(k), rem);
    (r.0 + k, r.1)
}

proof fn lemma_locate_shift_here(s: Seq<GeometryArrayEnum>, k: int, rem: int)
    requires
        0 <= k < s.len(),
        0 <= rem < s[k].spec_len(),
    ensures
        spec_locate_shift(s, k, rem) == (k, rem),
{
    assert(s.skip(k)[0] == s[k]);
}

proof fn lemma_locate_shift_step(s: Seq<GeometryArrayEnum>, k: int, rem: int)
    requires
        0 <= k < s.len(),
        rem >= s[k].spec_len(),
    ensures
        spec_locate_shift(s, k, rem) == spec_locate_shift(s, k + 1, rem - s[k].spec_len()),
{
    assert(s.skip(k)[0] == s[k]);
    assert(s.skip(k).drop_first() =~= s.skip(k + 1));
}

/// A prefix sum never exceeds the total.
pub proof fn lemma_sum_take_bound(s: Seq<GeometryArrayEnum>, k: int)
    requires
        0 <= k <= s.len(),
        forall|j: int| 0 <= j < s.len() ==> (#[trigger] s[j]).wf(),
    ensures
        sum_lens(s.take(k)) <= sum_lens(s),
    decreases s.len() - k,
{
    if k < s.len() {
        lemma_sum_lens_push(s, k);
        lemma_sum_take_bound(s, k + 1);
        assert(s[k].wf());
        assert(s[k].spec_len() >= 0);
    } else {
        assert(s.take(k) =~= s);
    }
}

/// Converts one generic chunk to its resolved variant array, the
/// conversion the introspection result names.
pub open spec fn spec_chunk_convert(g: GenericArray) -> Result<GeometryArrayEnum, GeoError> {
    match spec_resolve(g) {
        Ok(GeometryType::Point) => match PointArray::spec_from_generic(g) {
            Ok(a) => Ok(GeometryArrayEnum::Point(a)),
            Err(e) => Err(e),
        },
        Ok(GeometryType::LineString) => match LineStringArray::spec_from_generic(g) {
            Ok(a) => Ok(GeometryArrayEnum::LineString(a)),
            Err(e) => Err(e),
        },
        Ok(GeometryType::Polygon) => match PolygonArray::spec_from_generic(g) {
            Ok(a) => Ok(GeometryArrayEnum::Polygon(a)),
            Err(e) => Err(e),
        },
        Ok(GeometryType::WKB) => match WkbArray::spec_from_generic(g) {
            Ok(a) => Ok(GeometryArrayEnum::WKB(a)),
            Err(e) => Err(e),
        },
        Ok(_) => Err(GeoError::UnsupportedEncoding),
        Err(e) => Err(e),
    }
}

/// Resolves a generic chunk's shape and converts it to the matching
/// variant array, validating every construction invariant.
pub fn chunk_convert(g: GenericArray) -> (r: Result<GeometryArrayEnum, GeoError>)
    ensures
        r == spec_chunk_convert(g),
        r matches Ok(c) ==> c.wf(),
        r matches Err(e) ==> e == GeoError::Layout || e == GeoError::UnsupportedEncoding,
{
    let t = match get_geoarrow_type(&g) {
        Ok(t) => t,
        Err(e) => {
            return Err(e);
        },
    };
    match t {
        GeometryType::Point => match PointArray::try_from_arrow(g) {
            Ok(a) => Ok(GeometryArrayEnum::Point(a)),
            Err(e) => Err(e),
        },
        GeometryType::LineString => match LineStringArray::try_from_arrow(g) {
            Ok(a) => Ok(GeometryArrayEnum::LineString(a)),
            Err(e) => Err(e),
        },
        GeometryType::Polygon => match PolygonArray::try_from_arrow(g) {
            Ok(a) => Ok(GeometryArrayEnum::Polygon(a)),
            Err(e) => Err(e),
        },
        GeometryType::WKB => match WkbArray::try_from_arrow(g) {
            Ok(a) => Ok(GeometryArrayEnum::WKB(a)),
            Err(e) => Err(e),
        },
        _ => {
            proof {
                assert(false);
            }
            Err(GeoError::UnsupportedEncoding)
        },
    }
}


/// The resolved chunk index is never negative.
proof fn lemma_locate_nonneg(s: Seq<GeometryArrayEnum>, i: int)
    ensures
        spec_locate(s, i).0 >= 0,
    decreases s.len(),
{
    if s.len() > 0 && i >= s[0].spec_len() {
        lemma_locate_nonneg(s.drop_first(), i - s[0].spec_len());
    }
}


/// The flat index of local row `j` of chunk `c` resolves back to
/// `(c, j)`.
pub proof fn lemma_locate_of_parts(s: Seq<GeometryArrayEnum>, c: int, j: int)
    requires
        forall|t: int| 0 <= t < s.len() ==> (#[trigger] s[t]).wf(),
        0 <= c < s.len(),
        0 <= j < s[c].spec_len(),
    ensures
        spec_locate(s, sum_lens(s.take(c)) + j) == (c, j),
    decreases c,
{
    if c == 0 {
        assert(s.take(0) =~= Seq::<GeometryArrayEnum>::empty());
        assert(sum_lens(Seq::<GeometryArrayEnum>::empty()) == 0);
    } else {
        let d = s.drop_first();
        assert forall|t: int| 0 <= t < d.len() implies (#[trigger] d[t]).wf() by {
            assert(d[t] == s[t + 1]);
        }
        assert(d[c - 1] == s[c]);
        lemma_locate_of_parts(d, c - 1, j);
        assert(s.take(c)[0] == s[0]);
        assert(s.take(c).drop_first() =~= d.take(c - 1));
        assert(sum_lens(s.take(c)) == s[0].spec_len() + sum_lens(d.take(c - 1)));
        assert forall|t: int| 0 <= t < d.take(c - 1).len() implies (#[trigger] d.take(c - 1)[
            t]).wf() by {
            assert(d.take(c - 1)[t] == d[t]);
        }
        lemma_sum_lens_nonneg(d.take(c - 1));
        assert(s[0].wf());
        assert(sum_lens(s.take(c)) + j >= s[0].spec_len());
    }
}


/// In a single-chunk column the flat index is the local index.
pub proof fn lemma_single_chunk_locate(s: Seq<GeometryArrayEnum>, i: int)
    requires
        s.len() == 1,
        0 <= i < s[0].spec_len(),
    ensures
        spec_locate(s, i) == (0int, i),
{
}


/// Total rows the converted chunks would hold, counting a chunk that
/// fails to convert as nothing.
pub open spec fn conv_sum(gs: Seq<GenericArray>) -> int
    decreases gs.len(),
{
    if gs.len() == 0 {
        0
    } else {
        (match spec_chunk_convert(gs[0]) {
            Ok(c) => c.spec_len(),
            Err(_) => 0,
        }) + conv_sum(gs.drop_first())
    }
}

/// When every chunk converts, the converted total is the conversion
/// total.
proof fn lemma_conv_sum(gs: Seq<GenericArray>, cs: Seq<GeometryArrayEnum>)
    requires
        gs.len() == cs.len(),
        forall|i: int| 0 <= i < gs.len() ==> #[trigger] spec_chunk_convert(gs[i]) == Ok::<GeometryArrayEnum, GeoError>(cs[i]),
    ensures
        sum_lens(cs) == conv_sum(gs),
    decreases gs.len(),
{
    if gs.len() > 0 {
        assert forall|i: int|
            0 <= i < gs.drop_first().len() implies #[trigger] spec_chunk_convert(
            gs.drop_first()[i],
        ) == Ok::<GeometryArrayEnum, GeoError>(cs.drop_first()[i]) by {
            assert(gs.drop_first()[i] == gs[i + 1]);
            assert(cs.drop_first()[i] == cs[i + 1]);
        }
        lemma_conv_sum(gs.drop_first(), cs.drop_first());
        assert(spec_chunk_convert(gs[0]) == Ok::<GeometryArrayEnum, GeoError>(cs[0]));
    }
}

impl Column {
    /// Groups generic chunks into a logical column: each chunk's shape
    /// is resolved and converted, every chunk must resolve to one
    /// declared variant, and the total length must fit the platform.
    /// An empty chunk list, a mixed or unknown shape, or a failing
    /// conversion is rejected.
    pub fn try_new(chunks: Vec<GenericArray>) -> (r: Result<Column, GeoError>)
        ensures
            r matches Ok(c) ==> c.wf() && c.chunks@.len() == chunks@.len() && (forall|i: int|
                0 <= i < chunks@.len() ==> #[trigger] spec_chunk_convert(chunks@[i])
                    == Ok::<GeometryArrayEnum, GeoError>(c.chunks@[i])),
            r matches Err(e) ==> e == GeoError::Layout || e == GeoError::UnsupportedEncoding,
            (chunks@.len() >= 1 && (forall|i: int|
                0 <= i < chunks@.len() ==> (#[trigger] spec_chunk_convert(chunks@[i])) is Ok) && (
            forall|i: int|
                0 <= i < chunks@.len() ==> #[trigger] spec_resolve(chunks@[i]) == spec_resolve(
                    chunks@[0],
                )) && conv_sum(chunks@) <= usize::MAX) ==> r is Ok,
    {
        let ghost gs = chunks@;
        let ghost ok_hyp: bool = gs.len() >= 1 && (forall|i: int|
            0 <= i < gs.len() ==> (#[trigger] spec_chunk_convert(gs[i])) is Ok) && (forall|i: int|
            0 <= i < gs.len() ==> #[trigger] spec_resolve(gs[i]) == spec_resolve(gs[0]))
            && conv_sum(gs) <= usize::MAX;
        let n = chunks.len();
        if n == 0 {
            return Err(GeoError::UnsupportedEncoding);
        }
        let mut rem = chunks;
        let mut out: Vec<GeometryArrayEnum> = Vec::new();
        let mut k: usize = 0;
        while k < n
            invariant
                gs == chunks@,
                n == gs.len(),
                ok_hyp == (gs.len() >= 1 && (forall|i: int|
                    0 <= i < gs.len() ==> (#[trigger] spec_chunk_convert(gs[i])) is Ok) && (
                forall|i: int|
                    0 <= i < gs.len() ==> #[trigger] spec_resolve(gs[i]) == spec_resolve(gs[0]))
                    && conv_sum(gs) <= usize::MAX),
                k <= n,
                rem@ == gs.skip(k as int),
                out@.len() == k,
                forall|i: int|
                    0 <= i < k ==> #[trigger] spec_chunk_convert(gs[i]) == Ok::<GeometryArrayEnum, GeoError>(out@[i]),
                forall|i: int| 0 <= i < k ==> (#[trigger] out@[i]).wf(),
            decreases n - k,
        {
            proof {
                assert(rem@[0] == gs[k as int]);
            }
            let g = rem.remove(0);
            match chunk_convert(g) {
                Ok(c) => {
                    out.push(c);
                },
                Err(e) => {
                    proof {
                        if ok_hyp {
                            assert((spec_chunk_convert(gs[k as int])) is Ok);
                            assert(false);
                        }
                    }
                    return Err(e);
                },
            }
            proof {
                assert(rem@ =~= gs.skip(k as int + 1));
            }
            k += 1;
        }
        let t0 = out[0].geometry_type();
        let mut j: usize = 1;
        while j < n
            invariant
                gs == chunks@,
                n == gs.len(),
                ok_hyp == (gs.len() >= 1 && (forall|i: int|
                    0 <= i < gs.len() ==> (#[trigger] spec_chunk_convert(gs[i])) is Ok) && (
                forall|i: int|
                    0 <= i < gs.len() ==> #[trigger] spec_resolve(gs[i]) == spec_resolve(gs[0]))
                    && conv_sum(gs) <= usize::MAX),
                n >= 1,
                out@.len() == n,
                1 <= j <= n,
                t0 == out@[0].spec_type(),
                forall|i: int|
                    0 <= i < n ==> #[trigger] spec_chunk_convert(gs[i]) == Ok::<GeometryArrayEnum, GeoError>(out@[i]),
                forall|i: int| 0 <= i < n ==> (#[trigger] out@[i]).wf(),
                forall|i: int| 0 <= i < j ==> (#[trigger] out@[i]).spec_type() == t0,
            decreases n - j,
        {
            if out[j].geometry_type() != t0 {
                proof {
                    if ok_hyp {
                        assert(spec_chunk_convert(gs[j as int]) == Ok::<
                            GeometryArrayEnum,
                            GeoError,
                        >(out@[j as int]));
                        assert(spec_chunk_convert(gs[0]) == Ok::<GeometryArrayEnum, GeoError>(
                            out@[0],
                        ));
                        assert(spec_resolve(gs[j as int]) == spec_resolve(gs[0]));
                        assert(out@[j as int].spec_type() == out@[0].spec_type());
                        assert(false);
                    }
                }
                return Err(GeoError::UnsupportedEncoding);
            }
            j += 1;
        }
        let mut total: usize = 0;
        let mut t: usize = 0;
        proof {
            assert(out@.take(0) =~= Seq::<GeometryArrayEnum>::empty());
        }
        while t < n
            invariant
                gs == chunks@,
                n == gs.len(),
                ok_hyp == (gs.len() >= 1 && (forall|i: int|
                    0 <= i < gs.len() ==> (#[trigger] spec_chunk_convert(gs[i])) is Ok) && (
                forall|i: int|
                    0 <= i < gs.len() ==> #[trigger] spec_resolve(gs[i]) == spec_resolve(gs[0]))
                    && conv_sum(gs) <= usize::MAX),
                out@.len() == n,
                t <= n,
                forall|i: int|
                    0 <= i < n ==> #[trigger] spec_chunk_convert(gs[i]) == Ok::<GeometryArrayEnum, GeoError>(out@[i]),
                forall|i: int| 0 <= i < n ==> (#[trigger] out@[i]).wf(),
                total == sum_lens(out@.take(t as int)),
            decreases n - t,
        {
            let l = out[t].len();
            proof {
                lemma_sum_lens_push(out@, t as int);
            }
            if l > usize::MAX - total {
                proof {
                    if ok_hyp {
                        lemma_conv_sum(gs, out@);
                        lemma_sum_take_bound(out@, t as int + 1);
                        assert(sum_lens(out@) > usize::MAX);
                        assert(false);
                    }
                }
                return Err(GeoError::Layout);
            }
            total = total + l;
            t += 1;
        }
        proof {
            assert(out@.take(n as int) =~= out@);
            lemma_conv_sum(gs, out@);
        }
        Ok(Column { chunks: out })
    }
}

} // verus!
