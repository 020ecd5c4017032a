//! Error taxonomy for the columnar geometry layout.

use vstd::prelude::*;

verus! {

/// Every failure the library reports falls into one of these kinds.
///
/// - `Layout`: buffer-length mismatch among coordinates, offsets and validity
///   at construction time.
/// - `Bounds`: a slice or indexed access exceeds the array length.
/// - `Decode`: malformed bytes or an unsupported sub-type during a WKB parse.
/// - `UnsupportedEncoding`: a column's physical shape matches none of the
///   known variants, or is unsupported by the requested algorithm.
/// - `Compute`: the supplied native-geometry function rejected an input.
#[derive(Clone, Copy, Debug, PartialEq, Eq, Structural)]
pub enum GeoError {
    Layout,
    Bounds,
    Decode,
    UnsupportedEncoding,
    Compute,
}

} // verus!
