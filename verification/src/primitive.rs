//! Flat numeric column, the output shape of scalar row-wise algorithms.
//! Values are 64-bit patterns of `f64` results; the layout never
//! interprets them numerically.

use vstd::prelude::*;

use crate::buffer::Bitmap;
use crate::buffer::Buffer;
use crate::error::GeoError;
use crate::generic::GenericArray;
use crate::generic::validity_wf;

verus! {

/// A flat float64 column: one 64-bit pattern per row plus an optional
/// validity bitmap.
#[derive(Clone, Debug)]
pub struct PrimitiveArray {
    pub values: Buffer,
    pub validity: Option<Bitmap>,
}

impl PrimitiveArray {
    pub open spec fn wf(self) -> bool {
        &&& self.values.wf()
        &&& validity_wf(self.validity, self.values@.len() as int)
    }

    pub open spec fn spec_len(self) -> int {
        self.values@.len() as int
    }

    pub open spec fn valid_seq(self) -> Seq<bool> {
        match self.validity {
            Some(b) => b@,
            None => Seq::new(self.values@.len(), |i: int| true),
        }
    }

    /// The nullable value at row `i`.
    pub open spec fn get_spec(self, i: int) -> Option<u64> {
        if self.valid_seq()[i] {
            Some(self.values@[i])
        } else {
            None
        }
    }

    /// Builds the column from buffered values and flags, keeping the
    /// zero-overhead no-bitmap state when no null occurred.
    pub fn from_parts(values: Vec<u64>, validity: Option<Vec<bool>>) -> (r: PrimitiveArray)
        requires
            match validity {
                Some(v) => v@.len() == values@.len(),
                None => true,
            },
        ensures
            r.wf(),
            r.spec_len() == values@.len(),
            r.values@ == values@,
            r.valid_seq() == (match validity {
                Some(v) => v@,
                None => Seq::new(values@.len(), |i: int| true),
            }),
            r.validity is Some <==> validity is Some,
    {
        let ghost vv = values@;
        let validity_bm = match validity {
            Some(v) => Some(Bitmap::from_vec(v)),
            None => None,
        };
        let r = PrimitiveArray { values: Buffer::from_vec(values), validity: validity_bm };
        proof {
            assert(r.valid_seq() =~= (match validity {
                Some(v) => v@,
                None => Seq::new(vv.len(), |i: int| true),
            }));
        }
        r
    }

    /// Number of logical rows.
    pub fn len(&self) -> (r: usize)
        requires
            self.wf(),
        ensures
            r == self.spec_len(),
    {
        self.values.len()
    }

    /// Whether row `i` is present.
    pub fn is_valid(&self, i: usize) -> (r: bool)
        requires
            self.wf(),
            i < self.spec_len(),
        ensures
            r == self.valid_seq()[i as int],
    {
        match &self.validity {
            Some(b) => b.get_bit(i),
            None => true,
        }
    }

    /// The nullable value at row `i`.
    pub fn get(&self, i: usize) -> (r: Option<u64>)
        requires
            self.wf(),
            i < self.spec_len(),
        ensures
            r == self.get_spec(i as int),
    {
        if self.is_valid(i) {
            Some(self.values.get(i))
        } else {
            None
        }
    }

    /// The generic columnar form: the flat float64 shape, sharing the
    /// same buffers.
    pub open spec fn spec_to_generic(self) -> GenericArray {
        GenericArray::Float64 { values: self.values, validity: self.validity }
    }

    /// Converts into the generic columnar representation without copying
    /// any buffer.
    pub fn into_arrow(self) -> (r: GenericArray)
        requires
            self.wf(),
        ensures
            r == self.spec_to_generic(),
            r.wf(),
    {
        GenericArray::Float64 { values: self.values, validity: self.validity }
    }
}

} // verus!
