//! Immutable, reference-counted flat storage with O(1) shared slicing.
//!
//! A buffer is a lightweight `(offset, length)` view over shared backing
//! storage. Slicing clones the reference-counted handle and narrows the
//! window; it never copies or mutates bytes, so every view stays valid for
//! as long as any holder keeps the backing storage alive.

use std::sync::Arc;
use vstd::prelude::*;

verus! {

/// Shared buffer of 64-bit values. Coordinate buffers store each `f64`
/// coordinate as its 64-bit pattern; the layout machinery never interprets
/// the numeric value, so the pattern is carried through unchanged.
#[derive(Debug)]
pub struct Buffer {
    pub data: Arc<Vec<u64>>,
    pub off: usize,
    pub len: usize,
}

impl View for Buffer {
    type V = Seq<u64>;

    open spec fn view(&self) -> Seq<u64> {
        self.data@.subrange(self.off as int, self.off + self.len)
    }
}

impl Buffer {
    /// The window lies inside the backing storage.
    pub open spec fn wf(self) -> bool {
        self.off + self.len <= self.data@.len()
    }

    pub fn from_vec(v: Vec<u64>) -> (r: Buffer)
        ensures
            r.wf(),
            r@ == v@,
    {
        let n = v.len();
        let r = Buffer { data: Arc::new(v), off: 0, len: n };
        proof {
            assert(r@ =~= r.data@);
        }
        r
    }

    pub fn len(&self) -> (r: usize)
        requires
            self.wf(),
        ensures
            r == self@.len(),
    {
        self.len
    }


    /// Runtime check of the window invariant, for validating storage that
    /// arrives from outside the library.
    pub fn check_wf(&self) -> (r: bool)
        ensures
            r == self.wf(),
    {
        let n = self.data.len();
        self.off <= n && self.len <= n - self.off
    }

    pub fn get(&self, i: usize) -> (r: u64)
        requires
            self.wf(),
            i < self@.len(),
        ensures
            r == self@[i as int],
    {
        let v: &Vec<u64> = &self.data;
        let n = v.len();
        v[self.off + i]
    }

    /// O(1) shared slice. The caller is responsible for the bound.
    pub fn slice_unchecked(&self, offset: usize, length: usize) -> (r: Buffer)
        requires
            self.wf(),
            offset + length <= self@.len(),
        ensures
            r.wf(),
            r@ == self@.subrange(offset as int, offset + length),
    {
        let n = self.data.len();
        let r = Buffer { data: Arc::clone(&self.data), off: self.off + offset, len: length };
        proof {
            assert(r@ =~= self@.subrange(offset as int, offset + length));
        }
        r
    }

    /// Copies the window out into a plain vector.
    pub fn to_vec(&self) -> (r: Vec<u64>)
        requires
            self.wf(),
        ensures
            r@ == self@,
    {
        let mut out: Vec<u64> = Vec::new();
        let n = self.len();
        let mut i: usize = 0;
        while i < n
            invariant
                self.wf(),
                n == self@.len(),
                i <= n,
                out@ == self@.subrange(0, i as int),
            decreases n - i,
        {
            out.push(self.get(i));
            proof {
                assert(out@ =~= self@.subrange(0, i + 1));
            }
            i += 1;
        }
        proof {
            assert(self@.subrange(0, n as int) =~= self@);
        }
        out
    }
}

/// Shared buffer of raw bytes, the payload storage of the binary (WKB)
/// fallback variant.
#[derive(Debug)]
pub struct ByteBuffer {
    pub data: Arc<Vec<u8>>,
    pub off: usize,
    pub len: usize,
}

impl View for ByteBuffer {
    type V = Seq<u8>;

    open spec fn view(&self) -> Seq<u8> {
        self.data@.subrange(self.off as int, self.off + self.len)
    }
}

impl ByteBuffer {
    pub open spec fn wf(self) -> bool {
        self.off + self.len <= self.data@.len()
    }

    pub fn from_vec(v: Vec<u8>) -> (r: ByteBuffer)
        ensures
            r.wf(),
            r@ == v@,
    {
        let n = v.len();
        let r = ByteBuffer { data: Arc::new(v), off: 0, len: n };
        proof {
            assert(r@ =~= r.data@);
        }
        r
    }

    pub fn len(&self) -> (r: usize)
        requires
            self.wf(),
        ensures
            r == self@.len(),
    {
        self.len
    }


    /// Runtime check of the window invariant, for validating storage that
    /// arrives from outside the library.
    pub fn check_wf(&self) -> (r: bool)
        ensures
            r == self.wf(),
    {
        let n = self.data.len();
        self.off <= n && self.len <= n - self.off
    }

    pub fn get(&self, i: usize) -> (r: u8)
        requires
            self.wf(),
            i < self@.len(),
        ensures
            r == self@[i as int],
    {
        let v: &Vec<u8> = &self.data;
        let n = v.len();
        v[self.off + i]
    }

    /// O(1) shared slice. The caller is responsible for the bound.
    pub fn slice_unchecked(&self, offset: usize, length: usize) -> (r: ByteBuffer)
        requires
            self.wf(),
            offset + length <= self@.len(),
        ensures
            r.wf(),
            r@ == self@.subrange(offset as int, offset + length),
    {
        let n = self.data.len();
        let r = ByteBuffer { data: Arc::clone(&self.data), off: self.off + offset, len: length };
        proof {
            assert(r@ =~= self@.subrange(offset as int, offset + length));
        }
        r
    }

    /// Copies the window out into a plain vector.
    pub fn to_vec(&self) -> (r: Vec<u8>)
        requires
            self.wf(),
        ensures
            r@ == self@,
    {
        let mut out: Vec<u8> = Vec::new();
        let n = self.len();
        let mut i: usize = 0;
        while i < n
            invariant
                self.wf(),
                n == self@.len(),
                i <= n,
                out@ == self@.subrange(0, i as int),
            decreases n - i,
        {
            out.push(self.get(i));
            proof {
                assert(out@ =~= self@.subrange(0, i + 1));
            }
            i += 1;
        }
        proof {
            assert(self@.subrange(0, n as int) =~= self@);
        }
        out
    }
}

/// Monotonically non-decreasing offsets delimiting variable-length
/// sub-ranges of an inner buffer: row `i` of the owning array spans the
/// half-open index range `[offsets[i], offsets[i+1])`. A window always
/// holds one more entry than the owning array has rows. After slicing the
/// entries keep their absolute values, so a sliced view keeps indexing the
/// same inner buffer without any copying.
#[derive(Debug)]
pub struct OffsetsBuffer {
    pub data: Arc<Vec<usize>>,
    pub off: usize,
    pub len: usize,
}

impl View for OffsetsBuffer {
    type V = Seq<usize>;

    open spec fn view(&self) -> Seq<usize> {
        self.data@.subrange(self.off as int, self.off + self.len)
    }
}

impl OffsetsBuffer {
    /// Non-empty window inside the backing storage, non-decreasing entries.
    pub open spec fn wf(self) -> bool {
        &&& self.off + self.len <= self.data@.len()
        &&& self.len >= 1
        &&& forall|i: int| 0 <= i < self.len - 1 ==> #[trigger] self@[i] <= self@[i + 1]
    }

    /// Number of rows delimited by this window.
    pub open spec fn spec_row_count(self) -> int {
        self.len - 1
    }

    /// The last offset; with `wf` every entry is at most this value.
    pub open spec fn spec_last(self) -> usize {
        self@[self.len - 1]
    }

    /// Entries are bounded by the final entry of the window.
    pub proof fn lemma_bounds(self)
        requires
            self.wf(),
        ensures
            forall|i: int, j: int|
                0 <= i <= j < self.len ==> #[trigger] self@[i] <= #[trigger] self@[j],
    {
        assert forall|i: int, j: int| 0 <= i <= j < self.len implies #[trigger] self@[i]
            <= #[trigger] self@[j] by {
            self.lemma_pair(i, j);
        }
    }

    proof fn lemma_pair(self, i: int, j: int)
        requires
            self.wf(),
            0 <= i <= j < self.len,
        ensures
            self@[i] <= self@[j],
        decreases j - i,
    {
        if i < j {
            self.lemma_pair(i + 1, j);
            assert(self@[i] <= self@[i + 1]);
        }
    }

    /// Builds an offsets buffer from a vector the caller has kept sorted.
    pub fn from_vec(v: Vec<usize>) -> (r: OffsetsBuffer)
        requires
            v@.len() >= 1,
            forall|i: int| 0 <= i < v@.len() - 1 ==> #[trigger] v@[i] <= v@[i + 1],
        ensures
            r.wf(),
            r@ == v@,
    {
        let n = v.len();
        let r = OffsetsBuffer { data: Arc::new(v), off: 0, len: n };
        proof {
            assert(r@ =~= r.data@);
        }
        r
    }

    pub fn row_count(&self) -> (r: usize)
        requires
            self.wf(),
        ensures
            r == self.spec_row_count(),
    {
        self.len - 1
    }


    /// Runtime check of the offsets invariant: window in range, at least
    /// one entry, entries non-decreasing.
    pub fn check_wf(&self) -> (r: bool)
        ensures
            r == self.wf(),
    {
        let n = self.data.len();
        if !(self.off <= n && self.len <= n - self.off && self.len >= 1) {
            return false;
        }
        let mut i: usize = 0;
        while i < self.len - 1
            invariant
                n == self.data@.len(),
                self.off + self.len <= n,
                self.len >= 1,
                i <= self.len - 1,
                forall|j: int| 0 <= j < i ==> #[trigger] self@[j] <= self@[j + 1],
            decreases self.len - 1 - i,
        {
            let a = self.data[self.off + i];
            let b = self.data[self.off + i + 1];
            if a > b {
                assert(self@[i as int] > self@[i + 1]);
                return false;
            }
            assert(self@[i as int] <= self@[i + 1]);
            i += 1;
        }
        true
    }

    pub fn get(&self, i: usize) -> (r: usize)
        requires
            self.wf(),
            i < self.len,
        ensures
            r == self@[i as int],
    {
        let v: &Vec<usize> = &self.data;
        let n = v.len();
        v[self.off + i]
    }

    /// The half-open range of inner-buffer indices covered by row `i`.
    pub fn start_end(&self, i: usize) -> (r: (usize, usize))
        requires
            self.wf(),
            i < self.spec_row_count(),
        ensures
            r.0 == self@[i as int],
            r.1 == self@[i + 1],
            r.0 <= r.1,
    {
        (self.get(i), self.get(i + 1))
    }

    pub fn last(&self) -> (r: usize)
        requires
            self.wf(),
        ensures
            r == self.spec_last(),
    {
        self.get(self.len - 1)
    }

    /// O(1) shared slice keeping rows `[offset, offset + length)`; entries
    /// keep their absolute values.
    pub fn slice_unchecked(&self, offset: usize, length: usize) -> (r: OffsetsBuffer)
        requires
            self.wf(),
            offset + length <= self.spec_row_count(),
        ensures
            r.wf(),
            r@ == self@.subrange(offset as int, offset + length + 1),
            r.spec_row_count() == length,
    {
        let n = self.data.len();
        let r = OffsetsBuffer {
            data: Arc::clone(&self.data),
            off: self.off + offset,
            len: length + 1,
        };
        proof {
            assert(r@ =~= self@.subrange(offset as int, offset + length + 1));
        }
        r
    }
}
/// Validity bitmap: one flag per logical row, `true` = present. An array
/// without a bitmap has no nulls at all; that absent state is deliberate
/// zero-overhead and is only left once a null actually occurs.
#[derive(Debug)]
pub struct Bitmap {
    pub data: Arc<Vec<bool>>,
    pub off: usize,
    pub len: usize,
}

impl View for Bitmap {
    type V = Seq<bool>;

    open spec fn view(&self) -> Seq<bool> {
        self.data@.subrange(self.off as int, self.off + self.len)
    }
}

impl Bitmap {
    pub open spec fn wf(self) -> bool {
        self.off + self.len <= self.data@.len()
    }

    pub fn from_vec(v: Vec<bool>) -> (r: Bitmap)
        ensures
            r.wf(),
            r@ == v@,
    {
        let n = v.len();
        let r = Bitmap { data: Arc::new(v), off: 0, len: n };
        proof {
            assert(r@ =~= r.data@);
        }
        r
    }

    pub fn len(&self) -> (r: usize)
        requires
            self.wf(),
        ensures
            r == self@.len(),
    {
        self.len
    }


    /// Runtime check of the window invariant, for validating storage that
    /// arrives from outside the library.
    pub fn check_wf(&self) -> (r: bool)
        ensures
            r == self.wf(),
    {
        let n = self.data.len();
        self.off <= n && self.len <= n - self.off
    }

    /// Whether row `i` is present (not null).
    pub fn get_bit(&self, i: usize) -> (r: bool)
        requires
            self.wf(),
            i < self@.len(),
        ensures
            r == self@[i as int],
    {
        let v: &Vec<bool> = &self.data;
        let n = v.len();
        v[self.off + i]
    }

    /// O(1) shared slice. The caller is responsible for the bound.
    pub fn slice_unchecked(&self, offset: usize, length: usize) -> (r: Bitmap)
        requires
            self.wf(),
            offset + length <= self@.len(),
        ensures
            r.wf(),
            r@ == self@.subrange(offset as int, offset + length),
    {
        let n = self.data.len();
        let r = Bitmap { data: Arc::clone(&self.data), off: self.off + offset, len: length };
        proof {
            assert(r@ =~= self@.subrange(offset as int, offset + length));
        }
        r
    }

    /// Whether any row is marked null.
    pub fn has_unset_bits(&self) -> (r: bool)
        requires
            self.wf(),
        ensures
            r == exists|i: int| 0 <= i < self@.len() && !self@[i],
    {
        let n = self.len();
        let mut i: usize = 0;
        while i < n
            invariant
                self.wf(),
                n == self@.len(),
                i <= n,
                forall|j: int| 0 <= j < i ==> self@[j],
            decreases n - i,
        {
            if !self.get_bit(i) {
                return true;
            }
            i += 1;
        }
        false
    }
}

/// A run of `n` set validity flags, the retroactive backfill a builder
/// performs when the first null arrives after `n` implicitly valid rows.
pub fn all_set_bits(n: usize) -> (r: Vec<bool>)
    ensures
        r@.len() == n,
        forall|i: int| 0 <= i < n ==> r@[i],
{
    let mut out: Vec<bool> = Vec::new();
    let mut i: usize = 0;
    while i < n
        invariant
            i <= n,
            out@.len() == i,
            forall|j: int| 0 <= j < i ==> out@[j],
        decreases n - i,
    {
        out.push(true);
        i += 1;
    }
    out
}


impl Clone for Buffer {
    /// Clones the view: bumps the reference count of the backing storage
    /// and copies the window, never the contents.
    fn clone(&self) -> (r: Self)
        ensures
            r == *self,
    {
        Buffer { data: Arc::clone(&self.data), off: self.off, len: self.len }
    }
}

impl Clone for ByteBuffer {
    /// Clones the view: bumps the reference count of the backing storage
    /// and copies the window, never the contents.
    fn clone(&self) -> (r: Self)
        ensures
            r == *self,
    {
        ByteBuffer { data: Arc::clone(&self.data), off: self.off, len: self.len }
    }
}

impl Clone for OffsetsBuffer {
    /// Clones the view: bumps the reference count of the backing storage
    /// and copies the window, never the contents.
    fn clone(&self) -> (r: Self)
        ensures
            r == *self,
    {
        OffsetsBuffer { data: Arc::clone(&self.data), off: self.off, len: self.len }
    }
}

impl Clone for Bitmap {
    /// Clones the view: bumps the reference count of the backing storage
    /// and copies the window, never the contents.
    fn clone(&self) -> (r: Self)
        ensures
            r == *self,
    {
        Bitmap { data: Arc::clone(&self.data), off: self.off, len: self.len }
    }
}


/// In a non-decreasing sequence of offsets every entry is at most the
/// last entry.
pub proof fn lemma_offsets_seq_bounded(offs: Seq<usize>, i: int)
    requires
        offs.len() >= 1,
        0 <= i < offs.len(),
        forall|j: int| 0 <= j < offs.len() - 1 ==> #[trigger] offs[j] <= offs[j + 1],
    ensures
        offs[i] <= offs.last(),
    decreases offs.len() - i,
{
    if i < offs.len() - 1 {
        lemma_offsets_seq_bounded(offs, i + 1);
    }
}

} // verus!
