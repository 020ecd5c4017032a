//! The binary (WKB) fallback array: one variable-length byte payload per
//! row, delimited by an offsets level, with an optional validity bitmap.
//! The payload of a row is expected to be a WKB-encoded geometry, decoded
//! on access; the layout itself never interprets the bytes.

use vstd::prelude::*;

use crate::buffer::Bitmap;
use crate::buffer::ByteBuffer;
use crate::buffer::OffsetsBuffer;
use crate::buffer::all_set_bits;
use crate::error::GeoError;
use crate::generic::GenericArray;
use crate::generic::validity_wf;
use crate::geom::GeomModel;
use crate::geom::Geometry;
use crate::geom::geom_model;
use crate::wkb::parse_geometry;
use crate::wkb::wkb_decodable;
use crate::wkb::wkb_of;
use crate::wkb::wkb_wf;

verus! {

/// Abstract content of the binary layout. Slicing narrows only the
/// offsets window and the validity; the payload buffer stays whole.
#[verifier::ext_equal]
pub ghost struct WkbModel {
    pub bytes: Seq<u8>,
    pub offsets: Seq<usize>,
    pub valid: Seq<bool>,
    pub has_bitmap: bool,
}

/// Content of the slice window `[off, off + len)`; the bitmap survives
/// only when the window still holds a null.
pub open spec fn spec_slice_wkb(m: WkbModel, off: int, len: int) -> WkbModel {
    WkbModel {
        bytes: m.bytes,
        offsets: m.offsets.subrange(off, off + len + 1),
        valid: m.valid.subrange(off, off + len),
        has_bitmap: exists|i: int| off <= i < off + len && !m.valid[i],
    }
}

/// Slicing a slice is one slice of the composed window.
pub proof fn lemma_wkb_slice_composition(m: WkbModel, o1: int, l1: int, o2: int, l2: int)
    requires
        0 <= o1,
        0 <= l1,
        0 <= o2,
        0 <= l2,
        o1 + l1 + 1 <= m.offsets.len(),
        o1 + l1 <= m.valid.len(),
        o2 + l2 <= l1,
    ensures
        spec_slice_wkb(spec_slice_wkb(m, o1, l1), o2, l2) == spec_slice_wkb(m, o1 + o2, l2),
{
    let inner = spec_slice_wkb(m, o1, l1);
    assert(inner.offsets.subrange(o2, o2 + l2 + 1) =~= m.offsets.subrange(
        o1 + o2,
        o1 + o2 + l2 + 1,
    ));
    assert(inner.valid.subrange(o2, o2 + l2) =~= m.valid.subrange(o1 + o2, o1 + o2 + l2));
    assert((exists|i: int| o2 <= i < o2 + l2 && !inner.valid[i]) == (exists|i: int|
        o1 + o2 <= i < o1 + o2 + l2 && !m.valid[i])) by {
        if exists|i: int| o2 <= i < o2 + l2 && !inner.valid[i] {
            let i = choose|i: int| o2 <= i < o2 + l2 && !inner.valid[i];
            assert(!m.valid[o1 + i]);
        }
        if exists|i: int| o1 + o2 <= i < o1 + o2 + l2 && !m.valid[i] {
            let i = choose|i: int| o1 + o2 <= i < o1 + o2 + l2 && !m.valid[i];
            assert(!inner.valid[i - o1]);
        }
    }
    assert(spec_slice_wkb(inner, o2, l2) =~= spec_slice_wkb(m, o1 + o2, l2));
}

/// A binary array: row `i` holds the opaque byte payload
/// `bytes[offsets[i] .. offsets[i+1])`.
#[derive(Clone, Debug)]
pub struct WkbArray {
    pub bytes: ByteBuffer,
    pub geom_offsets: OffsetsBuffer,
    pub validity: Option<Bitmap>,
}

impl WkbArray {
    pub open spec fn wf(self) -> bool {
        &&& self.bytes.wf()
        &&& self.geom_offsets.wf()
        &&& self.geom_offsets.spec_last() <= self.bytes@.len()
        &&& validity_wf(self.validity, self.geom_offsets.spec_row_count())
    }

    pub open spec fn spec_len(self) -> int {
        self.geom_offsets.spec_row_count()
    }

    pub open spec fn valid_seq(self) -> Seq<bool> {
        match self.validity {
            Some(b) => b@,
            None => Seq::new(self.geom_offsets.spec_row_count() as nat, |i: int| true),
        }
    }

    pub open spec fn model(self) -> WkbModel {
        WkbModel {
            bytes: self.bytes@,
            offsets: self.geom_offsets@,
            valid: self.valid_seq(),
            has_bitmap: self.validity is Some,
        }
    }

    /// The byte payload of row `i`, ignoring validity.
    pub open spec fn bytes_at(self, i: int) -> Seq<u8> {
        self.bytes@.subrange(self.geom_offsets@[i] as int, self.geom_offsets@[i + 1] as int)
    }

    /// The nullable byte payload of row `i`.
    pub open spec fn get_spec(self, i: int) -> Option<Seq<u8>> {
        if self.valid_seq()[i] {
            Some(self.bytes_at(i))
        } else {
            None
        }
    }

    /// Creates a binary array from parts; the caller is responsible for
    /// the length invariants (the checked counterpart is `try_new`).
    pub fn new(bytes: ByteBuffer, geom_offsets: OffsetsBuffer, validity: Option<Bitmap>) -> (r:
        WkbArray)
        requires
            (WkbArray { bytes, geom_offsets, validity }).wf(),
        ensures
            r.wf(),
            r == (WkbArray { bytes, geom_offsets, validity }),
    {
        WkbArray { bytes, geom_offsets, validity }
    }

    /// Creates a binary array from parts, failing fast with a layout
    /// error when the buffer lengths disagree.
    pub fn try_new(bytes: ByteBuffer, geom_offsets: OffsetsBuffer, validity: Option<Bitmap>) -> (r:
        Result<WkbArray, GeoError>)
        requires
            bytes.wf(),
            geom_offsets.wf(),
            match validity {
                Some(b) => b.wf(),
                None => true,
            },
        ensures
            match r {
                Ok(a) => a.wf() && a == (WkbArray { bytes, geom_offsets, validity }),
                Err(e) => e == GeoError::Layout,
            },
            r is Ok <==> (WkbArray { bytes, geom_offsets, validity }).wf(),
    {
        if geom_offsets.last() > bytes.len() {
            return Err(GeoError::Layout);
        }
        let rows = geom_offsets.row_count();
        let vok = match &validity {
            Some(b) => b.len() == rows,
            None => true,
        };
        if !vok {
            return Err(GeoError::Layout);
        }
        Ok(WkbArray { bytes, geom_offsets, validity })
    }

    /// Number of logical rows.
    pub fn len(&self) -> (r: usize)
        requires
            self.wf(),
        ensures
            r == self.spec_len(),
    {
        self.geom_offsets.row_count()
    }

    pub fn is_empty(&self) -> (r: bool)
        requires
            self.wf(),
        ensures
            r == (self.spec_len() == 0),
    {
        self.len() == 0
    }

    /// The optional validity bitmap.
    pub fn validity(&self) -> (r: &Option<Bitmap>)
        ensures
            r == &self.validity,
    {
        &self.validity
    }

    /// Whether row `i` is present.
    pub fn is_valid(&self, i: usize) -> (r: bool)
        requires
            self.wf(),
            i < self.spec_len(),
        ensures
            r == self.valid_seq()[i as int],
    {
        match &self.validity {
            Some(b) => b.get_bit(i),
            None => true,
        }
    }

    /// The raw byte payload of row `i` as an O(1) shared view.
    pub fn value_bytes(&self, i: usize) -> (r: ByteBuffer)
        requires
            self.wf(),
            i < self.spec_len(),
        ensures
            r.wf(),
            r@ == self.bytes_at(i as int),
    {
        proof {
            self.geom_offsets.lemma_bounds();
        }
        let (s, e) = self.geom_offsets.start_end(i);
        self.bytes.slice_unchecked(s, e - s)
    }

    /// Decodes row `i` by parsing its payload as a WKB geometry,
    /// ignoring validity; malformed or unsupported bytes are a decode
    /// error. Exactly the payloads that are complete encodings of
    /// well-formed geometries decode, to exactly the encoded content.
    pub fn value_as_geo(&self, i: usize) -> (r: Result<Geometry, GeoError>)
        requires
            self.wf(),
            i < self.spec_len(),
        ensures
            r matches Ok(g) ==> wkb_wf(geom_model(g)) && self.bytes_at(i as int) == wkb_of(
                geom_model(g),
            ),
            forall|m: GeomModel|
                (wkb_wf(m) && self.bytes_at(i as int) == #[trigger] wkb_of(m)) ==> (r matches Ok(g)
                    && geom_model(g) == m),
            r matches Err(e) ==> e == GeoError::Decode && !wkb_decodable(self.bytes_at(i as int)),
    {
        let row = self.value_bytes(i);
        let r = parse_geometry(&row);
        proof {
            if r is Err && wkb_decodable(self.bytes_at(i as int)) {
                let m = choose|m: GeomModel|
                    wkb_wf(m) && self.bytes_at(i as int) == #[trigger] wkb_of(m);
                assert(r is Ok);
            }
        }
        r
    }

    /// Decodes row `i` with validity: a null row is `None`, a present
    /// row parses as WKB.
    pub fn get_as_geo(&self, i: usize) -> (r: Result<Option<Geometry>, GeoError>)
        requires
            self.wf(),
            i < self.spec_len(),
        ensures
            !self.valid_seq()[i as int] ==> (r matches Ok(o) && o is None),
            self.valid_seq()[i as int] ==> match r {
                Ok(o) => o matches Some(g) && wkb_wf(geom_model(g)) && self.bytes_at(i as int)
                    == wkb_of(geom_model(g)),
                Err(e) => e == GeoError::Decode && !wkb_decodable(self.bytes_at(i as int)),
            },
            forall|m: GeomModel|
                (self.valid_seq()[i as int] && wkb_wf(m) && self.bytes_at(i as int)
                    == #[trigger] wkb_of(m)) ==> (r matches Ok(o) && o matches Some(g)
                    && geom_model(g) == m),
    {
        if !self.is_valid(i) {
            return Ok(None);
        }
        match self.value_as_geo(i) {
            Ok(g) => Ok(Some(g)),
            Err(e) => Err(e),
        }
    }

    /// O(1) view of rows `[offset, offset + length)`: the offsets window
    /// and validity narrow, the payload buffer stays shared and whole.
    /// The caller is responsible for the bound (the checked counterpart
    /// is `slice`).
    #[verifier::rlimit(40)]
    pub fn slice_unchecked(&self, offset: usize, length: usize) -> (r: WkbArray)
        requires
            self.wf(),
            offset + length <= self.spec_len(),
        ensures
            r.wf(),
            r.model() == spec_slice_wkb(self.model(), offset as int, length as int),
    {
        let ghost m = spec_slice_wkb(self.model(), offset as int, length as int);
        let ghost off_i = offset as int;
        let geom_offsets = self.geom_offsets.slice_unchecked(offset, length);
        proof {
            self.geom_offsets.lemma_bounds();
            assert(geom_offsets.spec_last() == self.geom_offsets@[off_i + length]);
        }
        match &self.validity {
            None => {
                let r = WkbArray { bytes: self.bytes.clone(), geom_offsets, validity: None };
                proof {
                    assert(r.valid_seq() =~= m.valid);
                    assert(r.model() =~= m);
                }
                r
            },
            Some(b) => {
                let sliced = b.slice_unchecked(offset, length);
                if sliced.has_unset_bits() {
                    let r = WkbArray {
                        bytes: self.bytes.clone(),
                        geom_offsets,
                        validity: Some(sliced),
                    };
                    proof {
                        let j = choose|j: int| 0 <= j < sliced@.len() && !sliced@[j];
                        assert(!self.model().valid[off_i + j]);
                        assert(r.valid_seq() =~= m.valid);
                        assert(r.model() =~= m);
                    }
                    r
                } else {
                    let r = WkbArray { bytes: self.bytes.clone(), geom_offsets, validity: None };
                    proof {
                        assert forall|i: int| off_i <= i < off_i + length implies self.model(
                        ).valid[i] by {
                            assert(sliced@[i - off_i]);
                        }
                        assert(r.valid_seq() =~= m.valid);
                        assert(r.model() =~= m);
                    }
                    r
                }
            },
        }
    }

    /// O(1) slice of rows `[offset, offset + length)`, failing with a
    /// bounds error when the window exceeds the array.
    pub fn slice(&self, offset: usize, length: usize) -> (r: Result<WkbArray, GeoError>)
        requires
            self.wf(),
        ensures
            offset + length <= self.spec_len() ==> (r matches Ok(a) && a.wf() && a.model()
                == spec_slice_wkb(self.model(), offset as int, length as int)),
            offset + length > self.spec_len() ==> (r matches Err(e) && e == GeoError::Bounds),
    {
        let n = self.len();
        if offset > n || length > n - offset {
            return Err(GeoError::Bounds);
        }
        Ok(self.slice_unchecked(offset, length))
    }

    /// The generic columnar form of this array: the variable-length
    /// binary shape, sharing the same buffers.
    pub open spec fn spec_to_generic(self) -> GenericArray {
        GenericArray::Binary {
            offsets: self.geom_offsets,
            bytes: self.bytes,
            validity: self.validity,
        }
    }

    /// Converts into the generic columnar representation without copying
    /// any buffer.
    pub fn into_arrow(self) -> (r: GenericArray)
        requires
            self.wf(),
        ensures
            r == self.spec_to_generic(),
            r.wf(),
    {
        GenericArray::Binary {
            offsets: self.geom_offsets,
            bytes: self.bytes,
            validity: self.validity,
        }
    }

    /// The binary array a generic array converts to: the shape must be
    /// the variable-length binary shape and every construction invariant
    /// must hold, else the conversion is a layout error.
    pub open spec fn spec_from_generic(g: GenericArray) -> Result<WkbArray, GeoError> {
        match g {
            GenericArray::Binary { offsets, bytes, validity } => {
                let a = WkbArray { bytes, geom_offsets: offsets, validity };
                if a.wf() {
                    Ok(a)
                } else {
                    Err(GeoError::Layout)
                }
            },
            _ => Err(GeoError::Layout),
        }
    }

    /// Converts from the generic columnar representation, validating
    /// every construction invariant and failing fast with a layout error.
    pub fn try_from_arrow(g: GenericArray) -> (r: Result<WkbArray, GeoError>)
        ensures
            r == Self::spec_from_generic(g),
            r matches Ok(a) ==> a.wf(),
    {
        match g {
            GenericArray::Binary { offsets, bytes, validity } => {
                if !bytes.check_wf() || !offsets.check_wf() {
                    return Err(GeoError::Layout);
                }
                if offsets.last() > bytes.len() {
                    return Err(GeoError::Layout);
                }
                let rows = offsets.row_count();
                let vok = match &validity {
                    Some(b) => b.check_wf() && b.len() == rows,
                    None => true,
                };
                if !vok {
                    return Err(GeoError::Layout);
                }
                Ok(WkbArray { bytes, geom_offsets: offsets, validity })
            },
            _ => Err(GeoError::Layout),
        }
    }

    /// Round trip through the generic columnar representation: converting
    /// a well-formed binary array out and back yields the array itself,
    /// same buffers and validity.
    pub proof fn lemma_generic_round_trip(a: WkbArray)
        requires
            a.wf(),
        ensures
            WkbArray::spec_from_generic(a.spec_to_generic()) == Ok::<WkbArray, GeoError>(a),
    {
    }
}

/// Append-only builder for a binary array. Before any null is pushed no
/// bitmap exists; the first null materializes one retroactively for all
/// previously pushed rows.
pub struct MutableWkbArray {
    pub bytes: Vec<u8>,
    pub geom_offsets: Vec<usize>,
    pub validity: Option<Vec<bool>>,
}

impl MutableWkbArray {
    pub open spec fn wf(self) -> bool {
        &&& self.geom_offsets@.len() >= 1
        &&& self.geom_offsets@[0] == 0
        &&& forall|i: int|
            0 <= i < self.geom_offsets@.len() - 1 ==> #[trigger] self.geom_offsets@[i]
                <= self.geom_offsets@[i + 1]
        &&& self.geom_offsets@.last() == self.bytes@.len()
        &&& match self.validity {
            Some(v) => v@.len() == self.geom_offsets@.len() - 1,
            None => true,
        }
    }

    pub open spec fn spec_len(self) -> int {
        self.geom_offsets@.len() - 1
    }

    pub open spec fn valid_seq(self) -> Seq<bool> {
        match self.validity {
            Some(v) => v@,
            None => Seq::new((self.geom_offsets@.len() - 1) as nat, |i: int| true),
        }
    }

    pub open spec fn bytes_at(self, i: int) -> Seq<u8> {
        self.bytes@.subrange(self.geom_offsets@[i] as int, self.geom_offsets@[i + 1] as int)
    }

    pub open spec fn get_spec(self, i: int) -> Option<Seq<u8>> {
        if self.valid_seq()[i] {
            Some(self.bytes_at(i))
        } else {
            None
        }
    }

    pub fn new() -> (r: MutableWkbArray)
        ensures
            r.wf(),
            r.spec_len() == 0,
            r.validity is None,
    {
        let mut geom_offsets: Vec<usize> = Vec::new();
        geom_offsets.push(0);
        MutableWkbArray { bytes: Vec::new(), geom_offsets, validity: None }
    }

    /// Appends one nullable byte payload. A null appends a zero-length
    /// span and, on the first null only, backfills the bitmap with the
    /// previously pushed (implicitly valid) rows.
    #[verifier::rlimit(80)]
    pub fn push(&mut self, g: Option<&Vec<u8>>)
        requires
            old(self).wf(),
        ensures
            final(self).wf(),
            final(self).spec_len() == old(self).spec_len() + 1,
            final(self).bytes@.len() == old(self).bytes@.len() + (match g {
                Some(b) => b@.len() as int,
                None => 0,
            }),
            final(self).geom_offsets@ == old(self).geom_offsets@.push(
                final(self).bytes@.len() as usize,
            ),
            forall|i: int| 0 <= i < old(self).spec_len() ==> final(self).get_spec(i) == old(
                self,
            ).get_spec(i),
            final(self).get_spec(old(self).spec_len()) == (match g {
                Some(b) => Some(b@),
                None => None::<Seq<u8>>,
            }),
            final(self).validity is None <==> (old(self).validity is None && g is Some),
    {
        let ghost pre = *self;
        match g {
            Some(payload) => {
                let m = payload.len();
                let mut k: usize = 0;
                while k < m
                    invariant
                        m == payload@.len(),
                        k <= m,
                        self.bytes@ == pre.bytes@ + payload@.take(k as int),
                        self.geom_offsets == pre.geom_offsets,
                        self.validity == pre.validity,
                    decreases m - k,
                {
                    self.bytes.push(payload[k]);
                    proof {
                        assert(self.bytes@ =~= pre.bytes@ + payload@.take(k + 1));
                    }
                    k += 1;
                }
                self.geom_offsets.push(self.bytes.len());
                if let Some(v) = &mut self.validity {
                    v.push(true);
                }
                proof {
                    assert(payload@.take(m as int) =~= payload@);
                    lemma_wkb_push_preserves(pre, *self, payload@);
                }
            },
            None => {
                let last = self.bytes.len();
                self.geom_offsets.push(last);
                match &mut self.validity {
                    Some(v) => {
                        v.push(false);
                    },
                    None => {
                        let mut v = all_set_bits(self.geom_offsets.len() - 2);
                        v.push(false);
                        self.validity = Some(v);
                    },
                }
                proof {
                    lemma_wkb_push_preserves(pre, *self, Seq::empty());
                    assert(!self.valid_seq()[pre.spec_len()]);
                }
            },
        }
    }

    /// Freezes the buffered rows into an immutable binary array,
    /// transferring buffer ownership without copying rows.
    #[verifier::rlimit(40)]
    pub fn finish(self) -> (r: WkbArray)
        requires
            self.wf(),
        ensures
            r.wf(),
            r.spec_len() == self.spec_len(),
            forall|i: int| 0 <= i < self.spec_len() ==> r.get_spec(i) == self.get_spec(i),
            r.validity is Some <==> self.validity is Some,
    {
        let validity = match self.validity {
            Some(v) => Some(Bitmap::from_vec(v)),
            None => None,
        };
        let r = WkbArray {
            bytes: ByteBuffer::from_vec(self.bytes),
            geom_offsets: OffsetsBuffer::from_vec(self.geom_offsets),
            validity,
        };
        proof {
            assert(r.valid_seq() =~= self.valid_seq());
            assert forall|i: int| 0 <= i < self.spec_len() implies r.get_spec(i) == self.get_spec(
                i,
            ) by {
                assert(r.bytes_at(i) =~= self.bytes_at(i));
            }
        }
        r
    }
}

/// After appending one row the earlier rows read back unchanged and the
/// new row holds exactly the appended payload.
proof fn lemma_wkb_push_preserves(pre: MutableWkbArray, post: MutableWkbArray, payload: Seq<u8>)
    requires
        pre.wf(),
        post.bytes@ == pre.bytes@ + payload,
        post.geom_offsets@ == pre.geom_offsets@.push(post.bytes@.len() as usize),
        post.bytes@.len() <= usize::MAX,
    ensures
        forall|i: int| 0 <= i < pre.spec_len() ==> post.bytes_at(i) == pre.bytes_at(i),
        post.bytes_at(pre.spec_len()) == payload,
        post.geom_offsets@.len() >= 1,
        post.geom_offsets@[0] == 0,
        forall|i: int|
            0 <= i < post.geom_offsets@.len() - 1 ==> #[trigger] post.geom_offsets@[i]
                <= post.geom_offsets@[i + 1],
        post.geom_offsets@.last() == post.bytes@.len(),
{
    let n = pre.geom_offsets@.len();
    assert(pre.geom_offsets@.last() == pre.bytes@.len());
    assert forall|i: int|
        0 <= i < post.geom_offsets@.len() - 1 implies #[trigger] post.geom_offsets@[i]
        <= post.geom_offsets@[i + 1] by {
        if i < n - 1 {
            assert(post.geom_offsets@[i] == pre.geom_offsets@[i]);
            assert(post.geom_offsets@[i + 1] == pre.geom_offsets@[i + 1]);
            assert(pre.geom_offsets@[i] <= pre.geom_offsets@[i + 1]);
        } else {
            assert(post.geom_offsets@[i] == pre.geom_offsets@[i]);
            assert(post.geom_offsets@[i + 1] == post.bytes@.len() as usize);
            crate::buffer::lemma_offsets_seq_bounded(pre.geom_offsets@, i);
        }
    }
    assert forall|i: int| 0 <= i < pre.spec_len() implies post.bytes_at(i) == pre.bytes_at(
        i,
    ) by {
        crate::buffer::lemma_offsets_seq_bounded(pre.geom_offsets@, i);
        crate::buffer::lemma_offsets_seq_bounded(pre.geom_offsets@, i + 1);
        assert(post.bytes_at(i) =~= pre.bytes_at(i));
    }
    assert(post.bytes_at(pre.spec_len()) =~= payload);
}

} // verus!
