//! The binary (WKB) geometry encoding: a one-byte little-endian marker, a
//! 32-bit geometry tag, and per-variant payloads of 32-bit counts and
//! 64-bit coordinate patterns, all little-endian. Multi-part geometries
//! nest one complete encoding per part. The encoder and the parser are
//! both specified against the same byte-level description, so a parse
//! accepts exactly the encodings and returns exactly the encoded content.

use vstd::prelude::*;

use crate::buffer::ByteBuffer;
use crate::error::GeoError;
use crate::geom::Coord;
use crate::geom::GeomModel;
use crate::geom::Geometry;
use crate::geom::LineString;
use crate::geom::MultiLineString;
use crate::geom::MultiPoint;
use crate::geom::MultiPolygon;
use crate::geom::Point;
use crate::geom::Polygon;
use crate::geom::geom_model;
use crate::geom::polygon_rings;

verus! {

/// A 32-bit value as four little-endian bytes.
pub open spec fn le4(v: u32) -> Seq<u8> {
    Seq::new(4, |k: int| (v >> ((8 * k) as u32)) as u8)
}

/// A 64-bit value as eight little-endian bytes.
pub open spec fn le8(v: u64) -> Seq<u8> {
    Seq::new(8, |k: int| (v >> ((8 * k) as u64)) as u8)
}

/// One vertex: the x pattern then the y pattern.
pub open spec fn wkb_coord(c: Coord) -> Seq<u8> {
    le8(c.x) + le8(c.y)
}

pub open spec fn wkb_coords(cs: Seq<Coord>) -> Seq<u8>
    decreases cs.len(),
{
    if cs.len() == 0 {
        Seq::empty()
    } else {
        wkb_coord(cs[0]) + wkb_coords(cs.drop_first())
    }
}

/// The little-endian marker byte followed by the geometry tag.
pub open spec fn wkb_header(tag: u32) -> Seq<u8> {
    seq![1u8] + le4(tag)
}

pub open spec fn wkb_point(c: Coord) -> Seq<u8> {
    wkb_header(1) + wkb_coord(c)
}

pub open spec fn wkb_linestring(cs: Seq<Coord>) -> Seq<u8> {
    wkb_header(2) + le4(cs.len() as u32) + wkb_coords(cs)
}

/// A ring: its vertex count then its vertices, with no header.
pub open spec fn wkb_ring(cs: Seq<Coord>) -> Seq<u8> {
    le4(cs.len() as u32) + wkb_coords(cs)
}

pub open spec fn wkb_rings(rs: Seq<Seq<Coord>>) -> Seq<u8>
    decreases rs.len(),
{
    if rs.len() == 0 {
        Seq::empty()
    } else {
        wkb_ring(rs[0]) + wkb_rings(rs.drop_first())
    }
}

pub open spec fn wkb_polygon(rs: Seq<Seq<Coord>>) -> Seq<u8> {
    wkb_header(3) + le4(rs.len() as u32) + wkb_rings(rs)
}

/// Each part of a multi-point is one complete point encoding.
pub open spec fn wkb_points(cs: Seq<Coord>) -> Seq<u8>
    decreases cs.len(),
{
    if cs.len() == 0 {
        Seq::empty()
    } else {
        wkb_point(cs[0]) + wkb_points(cs.drop_first())
    }
}

pub open spec fn wkb_linestrings(ss: Seq<Seq<Coord>>) -> Seq<u8>
    decreases ss.len(),
{
    if ss.len() == 0 {
        Seq::empty()
    } else {
        wkb_linestring(ss[0]) + wkb_linestrings(ss.drop_first())
    }
}

pub open spec fn wkb_polygons(ps: Seq<Seq<Seq<Coord>>>) -> Seq<u8>
    decreases ps.len(),
{
    if ps.len() == 0 {
        Seq::empty()
    } else {
        wkb_polygon(ps[0]) + wkb_polygons(ps.drop_first())
    }
}

/// The geometry tag of each shape.
pub open spec fn wkb_tag(m: GeomModel) -> u32 {
    match m {
        GeomModel::Point(_) => 1,
        GeomModel::LineString(_) => 2,
        GeomModel::Polygon(_) => 3,
        GeomModel::MultiPoint(_) => 4,
        GeomModel::MultiLineString(_) => 5,
        GeomModel::MultiPolygon(_) => 6,
    }
}

/// The complete encoding of a geometry.
pub open spec fn wkb_of(m: GeomModel) -> Seq<u8> {
    match m {
        GeomModel::Point(c) => wkb_point(c),
        GeomModel::LineString(cs) => wkb_linestring(cs),
        GeomModel::Polygon(rs) => wkb_polygon(rs),
        GeomModel::MultiPoint(cs) => wkb_header(4) + le4(cs.len() as u32) + wkb_points(cs),
        GeomModel::MultiLineString(ss) => wkb_header(5) + le4(ss.len() as u32) + wkb_linestrings(
            ss,
        ),
        GeomModel::MultiPolygon(ps) => wkb_header(6) + le4(ps.len() as u32) + wkb_polygons(ps),
    }
}

/// Whether a byte sequence is the complete encoding of some well-formed
/// geometry: exactly the payloads the parser accepts.
pub open spec fn wkb_decodable(bytes: Seq<u8>) -> bool {
    exists|m: GeomModel| wkb_wf(m) && bytes == #[trigger] wkb_of(m)
}

/// Encodability: every count fits its 32-bit field, and a polygon always
/// carries its exterior ring.
pub open spec fn wkb_wf(m: GeomModel) -> bool {
    match m {
        GeomModel::Point(_) => true,
        GeomModel::LineString(cs) => cs.len() <= u32::MAX,
        GeomModel::Polygon(rs) => 1 <= rs.len() <= u32::MAX && forall|j: int|
            0 <= j < rs.len() ==> #[trigger] rs[j].len() <= u32::MAX,
        GeomModel::MultiPoint(cs) => cs.len() <= u32::MAX,
        GeomModel::MultiLineString(ss) => ss.len() <= u32::MAX && forall|j: int|
            0 <= j < ss.len() ==> #[trigger] ss[j].len() <= u32::MAX,
        GeomModel::MultiPolygon(ps) => ps.len() <= u32::MAX && forall|j: int|
            0 <= j < ps.len() ==> 1 <= #[trigger] ps[j].len() <= u32::MAX && forall|t: int|
                0 <= t < ps[j].len() ==> #[trigger] ps[j][t].len() <= u32::MAX,
    }
}

/// Four little-endian bytes pin the 32-bit value.
pub proof fn lemma_le4_inj(a: u32, b: u32)
    requires
        le4(a) == le4(b),
    ensures
        a == b,
{
    assert forall|k: int| 0 <= k < 4 implies le4(a)[k] == le4(b)[k] by {}
    assert((a >> 0u32) as u8 == (b >> 0u32) as u8) by {
        assert(le4(a)[0] == (a >> 0u32) as u8);
        assert(le4(b)[0] == (b >> 0u32) as u8);
    }
    assert((a >> 8u32) as u8 == (b >> 8u32) as u8) by {
        assert(le4(a)[1] == (a >> 8u32) as u8);
        assert(le4(b)[1] == (b >> 8u32) as u8);
    }
    assert((a >> 16u32) as u8 == (b >> 16u32) as u8) by {
        assert(le4(a)[2] == (a >> 16u32) as u8);
        assert(le4(b)[2] == (b >> 16u32) as u8);
    }
    assert((a >> 24u32) as u8 == (b >> 24u32) as u8) by {
        assert(le4(a)[3] == (a >> 24u32) as u8);
        assert(le4(b)[3] == (b >> 24u32) as u8);
    }
    assert(a == b) by (bit_vector)
        requires
            (a >> 0u32) as u8 == (b >> 0u32) as u8,
            (a >> 8u32) as u8 == (b >> 8u32) as u8,
            (a >> 16u32) as u8 == (b >> 16u32) as u8,
            (a >> 24u32) as u8 == (b >> 24u32) as u8,
    ;
}

/// Eight little-endian bytes pin the 64-bit value.
pub proof fn lemma_le8_inj(a: u64, b: u64)
    requires
        le8(a) == le8(b),
    ensures
        a == b,
{
    assert forall|k: int| 0 <= k < 8 implies le8(a)[k] == le8(b)[k] by {}
    assert((a >> 0u64) as u8 == (b >> 0u64) as u8) by {
        assert(le8(a)[0] == (a >> 0u64) as u8);
        assert(le8(b)[0] == (b >> 0u64) as u8);
    }
    assert((a >> 8u64) as u8 == (b >> 8u64) as u8) by {
        assert(le8(a)[1] == (a >> 8u64) as u8);
        assert(le8(b)[1] == (b >> 8u64) as u8);
    }
    assert((a >> 16u64) as u8 == (b >> 16u64) as u8) by {
        assert(le8(a)[2] == (a >> 16u64) as u8);
        assert(le8(b)[2] == (b >> 16u64) as u8);
    }
    assert((a >> 24u64) as u8 == (b >> 24u64) as u8) by {
        assert(le8(a)[3] == (a >> 24u64) as u8);
        assert(le8(b)[3] == (b >> 24u64) as u8);
    }
    assert((a >> 32u64) as u8 == (b >> 32u64) as u8) by {
        assert(le8(a)[4] == (a >> 32u64) as u8);
        assert(le8(b)[4] == (b >> 32u64) as u8);
    }
    assert((a >> 40u64) as u8 == (b >> 40u64) as u8) by {
        assert(le8(a)[5] == (a >> 40u64) as u8);
        assert(le8(b)[5] == (b >> 40u64) as u8);
    }
    assert((a >> 48u64) as u8 == (b >> 48u64) as u8) by {
        assert(le8(a)[6] == (a >> 48u64) as u8);
        assert(le8(b)[6] == (b >> 48u64) as u8);
    }
    assert((a >> 56u64) as u8 == (b >> 56u64) as u8) by {
        assert(le8(a)[7] == (a >> 56u64) as u8);
        assert(le8(b)[7] == (b >> 56u64) as u8);
    }
    assert(a == b) by (bit_vector)
        requires
            (a >> 0u64) as u8 == (b >> 0u64) as u8,
            (a >> 8u64) as u8 == (b >> 8u64) as u8,
            (a >> 16u64) as u8 == (b >> 16u64) as u8,
            (a >> 24u64) as u8 == (b >> 24u64) as u8,
            (a >> 32u64) as u8 == (b >> 32u64) as u8,
            (a >> 40u64) as u8 == (b >> 40u64) as u8,
            (a >> 48u64) as u8 == (b >> 48u64) as u8,
            (a >> 56u64) as u8 == (b >> 56u64) as u8,
    ;
}

/// The coordinate encoding is sixteen bytes per vertex.
pub proof fn lemma_coords_len(cs: Seq<Coord>)
    ensures
        wkb_coords(cs).len() == 16 * cs.len(),
    decreases cs.len(),
{
    if cs.len() > 0 {
        lemma_coords_len(cs.drop_first());
    }
}

/// Appending one vertex appends its sixteen bytes.
pub proof fn lemma_coords_push(cs: Seq<Coord>, k: int)
    requires
        0 <= k < cs.len(),
    ensures
        wkb_coords(cs.take(k + 1)) == wkb_coords(cs.take(k)) + wkb_coord(cs[k]),
    decreases k,
{
    let a = cs.take(k + 1);
    if k == 0 {
        assert(a.len() == 1);
        assert(a[0] == cs[0]);
        assert(a.drop_first() =~= Seq::<Coord>::empty());
        assert(wkb_coords(a.drop_first()) == Seq::<u8>::empty());
        assert(wkb_coords(a) == wkb_coord(cs[0]) + Seq::<u8>::empty());
        assert(cs.take(0) =~= Seq::<Coord>::empty());
        assert(wkb_coords(cs.take(0)) == Seq::<u8>::empty());
        assert(wkb_coords(cs.take(k + 1)) =~= wkb_coords(cs.take(k)) + wkb_coord(cs[k]));
    } else {
        lemma_coords_push(cs.drop_first(), k - 1);
        assert(a.drop_first() =~= cs.drop_first().take(k));
        assert(cs.take(k).drop_first() =~= cs.drop_first().take(k - 1));
        assert(cs.drop_first()[k - 1] == cs[k]);
        assert(wkb_coords(cs.take(k + 1)) =~= wkb_coords(cs.take(k)) + wkb_coord(cs[k]));
    }
}



pub proof fn lemma_coords_split(s: Seq<Coord>, k: int)
    requires
        0 <= k <= s.len(),
    ensures
        wkb_coords(s) == wkb_coords(s.take(k)) + wkb_coords(s.skip(k)),
    decreases k,
{
    if k == 0 {
        assert(s.take(0) =~= Seq::<Coord>::empty());
        assert(s.skip(0) =~= s);
        assert(wkb_coords(s) =~= wkb_coords(s.take(0)) + wkb_coords(s.skip(0)));
    } else {
        lemma_coords_split(s, k - 1);
        lemma_coords_push(s, k - 1);
        assert(s.skip(k - 1)[0] == s[k - 1]);
        assert(s.skip(k - 1).drop_first() =~= s.skip(k));
        assert(wkb_coords(s.skip(k - 1)) == wkb_coord(s[k - 1]) + wkb_coords(s.skip(k)));
        assert(wkb_coords(s) =~= wkb_coords(s.take(k)) + wkb_coords(s.skip(k)));
    }
}

pub proof fn lemma_rings_push(s: Seq<Seq<Coord>>, k: int)
    requires
        0 <= k < s.len(),
    ensures
        wkb_rings(s.take(k + 1)) == wkb_rings(s.take(k)) + wkb_ring(s[k]),
    decreases k,
{
    let a = s.take(k + 1);
    if k == 0 {
        assert(a.len() == 1);
        assert(a[0] == s[0]);
        assert(a.drop_first() =~= Seq::<Seq<Coord>>::empty());
        assert(wkb_rings(a.drop_first()) == Seq::<u8>::empty());
        assert(wkb_rings(a) == wkb_ring(s[0]) + Seq::<u8>::empty());
        assert(s.take(0) =~= Seq::<Seq<Coord>>::empty());
        assert(wkb_rings(s.take(0)) == Seq::<u8>::empty());
        assert(wkb_rings(s.take(k + 1)) =~= wkb_rings(s.take(k)) + wkb_ring(s[k]));
    } else {
        lemma_rings_push(s.drop_first(), k - 1);
        assert(a.drop_first() =~= s.drop_first().take(k));
        assert(s.take(k).drop_first() =~= s.drop_first().take(k - 1));
        assert(s.drop_first()[k - 1] == s[k]);
        assert(wkb_rings(s.take(k + 1)) =~= wkb_rings(s.take(k)) + wkb_ring(s[k]));
    }
}

pub proof fn lemma_rings_split(s: Seq<Seq<Coord>>, k: int)
    requires
        0 <= k <= s.len(),
    ensures
        wkb_rings(s) == wkb_rings(s.take(k)) + wkb_rings(s.skip(k)),
    decreases k,
{
    if k == 0 {
        assert(s.take(0) =~= Seq::<Seq<Coord>>::empty());
        assert(s.skip(0) =~= s);
        assert(wkb_rings(s) =~= wkb_rings(s.take(0)) + wkb_rings(s.skip(0)));
    } else {
        lemma_rings_split(s, k - 1);
        lemma_rings_push(s, k - 1);
        assert(s.skip(k - 1)[0] == s[k - 1]);
        assert(s.skip(k - 1).drop_first() =~= s.skip(k));
        assert(wkb_rings(s.skip(k - 1)) == wkb_ring(s[k - 1]) + wkb_rings(s.skip(k)));
        assert(wkb_rings(s) =~= wkb_rings(s.take(k)) + wkb_rings(s.skip(k)));
    }
}

pub proof fn lemma_points_push(s: Seq<Coord>, k: int)
    requires
        0 <= k < s.len(),
    ensures
        wkb_points(s.take(k + 1)) == wkb_points(s.take(k)) + wkb_point(s[k]),
    decreases k,
{
    let a = s.take(k + 1);
    if k == 0 {
        assert(a.len() == 1);
        assert(a[0] == s[0]);
        assert(a.drop_first() =~= Seq::<Coord>::empty());
        assert(wkb_points(a.drop_first()) == Seq::<u8>::empty());
        assert(wkb_points(a) == wkb_point(s[0]) + Seq::<u8>::empty());
        assert(s.take(0) =~= Seq::<Coord>::empty());
        assert(wkb_points(s.take(0)) == Seq::<u8>::empty());
        assert(wkb_points(s.take(k + 1)) =~= wkb_points(s.take(k)) + wkb_point(s[k]));
    } else {
        lemma_points_push(s.drop_first(), k - 1);
        assert(a.drop_first() =~= s.drop_first().take(k));
        assert(s.take(k).drop_first() =~= s.drop_first().take(k - 1));
        assert(s.drop_first()[k - 1] == s[k]);
        assert(wkb_points(s.take(k + 1)) =~= wkb_points(s.take(k)) + wkb_point(s[k]));
    }
}

pub proof fn lemma_points_split(s: Seq<Coord>, k: int)
    requires
        0 <= k <= s.len(),
    ensures
        wkb_points(s) == wkb_points(s.take(k)) + wkb_points(s.skip(k)),
    decreases k,
{
    if k == 0 {
        assert(s.take(0) =~= Seq::<Coord>::empty());
        assert(s.skip(0) =~= s);
        assert(wkb_points(s) =~= wkb_points(s.take(0)) + wkb_points(s.skip(0)));
    } else {
        lemma_points_split(s, k - 1);
        lemma_points_push(s, k - 1);
        assert(s.skip(k - 1)[0] == s[k - 1]);
        assert(s.skip(k - 1).drop_first() =~= s.skip(k));
        assert(wkb_points(s.skip(k - 1)) == wkb_point(s[k - 1]) + wkb_points(s.skip(k)));
        assert(wkb_points(s) =~= wkb_points(s.take(k)) + wkb_points(s.skip(k)));
    }
}

pub proof fn lemma_linestrings_push(s: Seq<Seq<Coord>>, k: int)
    requires
        0 <= k < s.len(),
    ensures
        wkb_linestrings(s.take(k + 1)) == wkb_linestrings(s.take(k)) + wkb_linestring(s[k]),
    decreases k,
{
    let a = s.take(k + 1);
    if k == 0 {
        assert(a.len() == 1);
        assert(a[0] == s[0]);
        assert(a.drop_first() =~= Seq::<Seq<Coord>>::empty());
        assert(wkb_linestrings(a.drop_first()) == Seq::<u8>::empty());
        assert(wkb_linestrings(a) == wkb_linestring(s[0]) + Seq::<u8>::empty());
        assert(s.take(0) =~= Seq::<Seq<Coord>>::empty());
        assert(wkb_linestrings(s.take(0)) == Seq::<u8>::empty());
        assert(wkb_linestrings(s.take(k + 1)) =~= wkb_linestrings(s.take(k)) + wkb_linestring(s[k]));
    } else {
        lemma_linestrings_push(s.drop_first(), k - 1);
        assert(a.drop_first() =~= s.drop_first().take(k));
        assert(s.take(k).drop_first() =~= s.drop_first().take(k - 1));
        assert(s.drop_first()[k - 1] == s[k]);
        assert(wkb_linestrings(s.take(k + 1)) =~= wkb_linestrings(s.take(k)) + wkb_linestring(s[k]));
    }
}

pub proof fn lemma_linestrings_split(s: Seq<Seq<Coord>>, k: int)
    requires
        0 <= k <= s.len(),
    ensures
        wkb_linestrings(s) == wkb_linestrings(s.take(k)) + wkb_linestrings(s.skip(k)),
    decreases k,
{
    if k == 0 {
        assert(s.take(0) =~= Seq::<Seq<Coord>>::empty());
        assert(s.skip(0) =~= s);
        assert(wkb_linestrings(s) =~= wkb_linestrings(s.take(0)) + wkb_linestrings(s.skip(0)));
    } else {
        lemma_linestrings_split(s, k - 1);
        lemma_linestrings_push(s, k - 1);
        assert(s.skip(k - 1)[0] == s[k - 1]);
        assert(s.skip(k - 1).drop_first() =~= s.skip(k));
        assert(wkb_linestrings(s.skip(k - 1)) == wkb_linestring(s[k - 1]) + wkb_linestrings(s.skip(k)));
        assert(wkb_linestrings(s) =~= wkb_linestrings(s.take(k)) + wkb_linestrings(s.skip(k)));
    }
}

pub proof fn lemma_polygons_push(s: Seq<Seq<Seq<Coord>>>, k: int)
    requires
        0 <= k < s.len(),
    ensures
        wkb_polygons(s.take(k + 1)) == wkb_polygons(s.take(k)) + wkb_polygon(s[k]),
    decreases k,
{
    let a = s.take(k + 1);
    if k == 0 {
        assert(a.len() == 1);
        assert(a[0] == s[0]);
        assert(a.drop_first() =~= Seq::<Seq<Seq<Coord>>>::empty());
        assert(wkb_polygons(a.drop_first()) == Seq::<u8>::empty());
        assert(wkb_polygons(a) == wkb_polygon(s[0]) + Seq::<u8>::empty());
        assert(s.take(0) =~= Seq::<Seq<Seq<Coord>>>::empty());
        assert(wkb_polygons(s.take(0)) == Seq::<u8>::empty());
        assert(wkb_polygons(s.take(k + 1)) =~= wkb_polygons(s.take(k)) + wkb_polygon(s[k]));
    } else {
        lemma_polygons_push(s.drop_first(), k - 1);
        assert(a.drop_first() =~= s.drop_first().take(k));
        assert(s.take(k).drop_first() =~= s.drop_first().take(k - 1));
        assert(s.drop_first()[k - 1] == s[k]);
        assert(wkb_polygons(s.take(k + 1)) =~= wkb_polygons(s.take(k)) + wkb_polygon(s[k]));
    }
}

pub proof fn lemma_polygons_split(s: Seq<Seq<Seq<Coord>>>, k: int)
    requires
        0 <= k <= s.len(),
    ensures
        wkb_polygons(s) == wkb_polygons(s.take(k)) + wkb_polygons(s.skip(k)),
    decreases k,
{
    if k == 0 {
        assert(s.take(0) =~= Seq::<Seq<Seq<Coord>>>::empty());
        assert(s.skip(0) =~= s);
        assert(wkb_polygons(s) =~= wkb_polygons(s.take(0)) + wkb_polygons(s.skip(0)));
    } else {
        lemma_polygons_split(s, k - 1);
        lemma_polygons_push(s, k - 1);
        assert(s.skip(k - 1)[0] == s[k - 1]);
        assert(s.skip(k - 1).drop_first() =~= s.skip(k));
        assert(wkb_polygons(s.skip(k - 1)) == wkb_polygon(s[k - 1]) + wkb_polygons(s.skip(k)));
        assert(wkb_polygons(s) =~= wkb_polygons(s.take(k)) + wkb_polygons(s.skip(k)));
    }
}


fn push_le4(out: &mut Vec<u8>, v: u32)
    ensures
        final(out)@ == old(out)@ + le4(v),
{
    out.push((v >> 0u32) as u8);
    out.push((v >> 8u32) as u8);
    out.push((v >> 16u32) as u8);
    out.push((v >> 24u32) as u8);
    proof {
        assert(out@ =~= old(out)@ + le4(v));
    }
}

fn push_le8(out: &mut Vec<u8>, v: u64)
    ensures
        final(out)@ == old(out)@ + le8(v),
{
    out.push((v >> 0u64) as u8);
    out.push((v >> 8u64) as u8);
    out.push((v >> 16u64) as u8);
    out.push((v >> 24u64) as u8);
    out.push((v >> 32u64) as u8);
    out.push((v >> 40u64) as u8);
    out.push((v >> 48u64) as u8);
    out.push((v >> 56u64) as u8);
    proof {
        assert(out@ =~= old(out)@ + le8(v));
    }
}

fn push_coords(out: &mut Vec<u8>, coords: &Vec<Coord>)
    ensures
        final(out)@ == old(out)@ + wkb_coords(coords@),
{
    let ghost base = out@;
    let n = coords.len();
    proof {
        assert(coords@.take(0) =~= Seq::<Coord>::empty());
        assert(base + wkb_coords(coords@.take(0)) =~= base);
    }
    let mut k: usize = 0;
    while k < n
        invariant
            n == coords@.len(),
            k <= n,
            out@ == base + wkb_coords(coords@.take(k as int)),
        decreases n - k,
    {
        let c = coords[k];
        push_le8(out, c.x);
        push_le8(out, c.y);
        proof {
            lemma_coords_push(coords@, k as int);
            assert(wkb_coord(coords@[k as int]) =~= le8(c.x) + le8(c.y));
            assert(out@ =~= base + wkb_coords(coords@.take(k + 1)));
        }
        k += 1;
    }
    proof {
        assert(coords@.take(n as int) =~= coords@);
    }
}

/// Appends the headerless ring encoding: vertex count then vertices.
fn push_ring_enc(out: &mut Vec<u8>, coords: &Vec<Coord>)
    requires
        coords@.len() <= u32::MAX,
    ensures
        final(out)@ == old(out)@ + wkb_ring(coords@),
{
    push_le4(out, coords.len() as u32);
    push_coords(out, coords);
    proof {
        assert(out@ =~= old(out)@ + wkb_ring(coords@));
    }
}

/// Appends one complete line string encoding.
fn encode_linestring_full(out: &mut Vec<u8>, ls: &LineString)
    requires
        ls.coords@.len() <= u32::MAX,
    ensures
        final(out)@ == old(out)@ + wkb_linestring(ls.coords@),
{
    out.push(1u8);
    push_le4(out, 2);
    push_le4(out, ls.coords.len() as u32);
    push_coords(out, &ls.coords);
    proof {
        assert(out@ =~= old(out)@ + wkb_linestring(ls.coords@));
    }
}

/// Appends one complete polygon encoding: exterior ring first, then the
/// holes.
fn encode_polygon_full(out: &mut Vec<u8>, p: &Polygon)
    requires
        wkb_wf(GeomModel::Polygon(polygon_rings(*p))),
    ensures
        final(out)@ == old(out)@ + wkb_polygon(polygon_rings(*p)),
{
    let ghost base = out@;
    let ghost rings = polygon_rings(*p);
    proof {
        assert(rings.len() == 1 + p.interiors@.len());
        assert(rings[0] == p.exterior@);
    }
    out.push(1u8);
    push_le4(out, 3);
    let nrings = 1 + p.interiors.len();
    push_le4(out, nrings as u32);
    let ghost pre_rings = out@;
    push_ring_enc(out, &p.exterior);
    proof {
        lemma_rings_push(rings, 0);
        assert(rings.take(0) =~= Seq::<Seq<Coord>>::empty());
        assert(wkb_rings(rings.take(0)) == Seq::<u8>::empty());
        assert(out@ =~= pre_rings + wkb_rings(rings.take(1)));
    }
    let n = p.interiors.len();
    let mut k: usize = 0;
    while k < n
        invariant
            n == p.interiors@.len(),
            rings == polygon_rings(*p),
            rings.len() == 1 + n,
            wkb_wf(GeomModel::Polygon(rings)),
            k <= n,
            out@ == pre_rings + wkb_rings(rings.take(1 + k as int)),
        decreases n - k,
    {
        proof {
            assert(rings[1 + k as int] == p.interiors@.map_values(|v: Vec<Coord>| v@)[k as int]);
            assert(rings[1 + k as int].len() <= u32::MAX);
        }
        let ring = &p.interiors[k];
        push_ring_enc(out, ring);
        proof {
            lemma_rings_push(rings, 1 + k as int);
            assert(out@ =~= pre_rings + wkb_rings(rings.take(1 + k as int + 1)));
        }
        k += 1;
    }
    proof {
        assert(rings.take(1 + n as int) =~= rings);
        assert(out@ =~= base + wkb_polygon(rings));
    }
}

/// Appends the complete encoding of a geometry.
pub fn encode_geometry(g: &Geometry, out: &mut Vec<u8>)
    requires
        wkb_wf(geom_model(*g)),
    ensures
        final(out)@ == old(out)@ + wkb_of(geom_model(*g)),
{
    let ghost base = out@;
    match g {
        Geometry::Point(p) => {
            out.push(1u8);
            push_le4(out, 1);
            push_le8(out, p.coord.x);
            push_le8(out, p.coord.y);
            proof {
                assert(out@ =~= base + wkb_point(p.coord));
            }
        },
        Geometry::LineString(ls) => {
            encode_linestring_full(out, ls);
        },
        Geometry::Polygon(p) => {
            encode_polygon_full(out, p);
        },
        Geometry::MultiPoint(mp) => {
            out.push(1u8);
            push_le4(out, 4);
            push_le4(out, mp.points.len() as u32);
            let ghost pre_items = out@;
            let ghost cs = mp.points@;
            proof {
                assert(cs.take(0) =~= Seq::<Coord>::empty());
                assert(pre_items + wkb_points(cs.take(0)) =~= pre_items);
            }
            let n = mp.points.len();
            let mut k: usize = 0;
            while k < n
                invariant
                    n == mp.points@.len(),
                    cs == mp.points@,
                    k <= n,
                    out@ == pre_items + wkb_points(cs.take(k as int)),
                decreases n - k,
            {
                let c = mp.points[k];
                out.push(1u8);
                push_le4(out, 1);
                push_le8(out, c.x);
                push_le8(out, c.y);
                proof {
                    lemma_points_push(cs, k as int);
                    assert(wkb_point(cs[k as int]) =~= seq![1u8] + le4(1) + (le8(c.x) + le8(
                        c.y,
                    )));
                    assert(out@ =~= pre_items + wkb_points(cs.take(k + 1)));
                }
                k += 1;
            }
            proof {
                assert(cs.take(n as int) =~= cs);
                assert(out@ =~= base + wkb_of(geom_model(*g)));
            }
        },
        Geometry::MultiLineString(m) => {
            out.push(1u8);
            push_le4(out, 5);
            push_le4(out, m.lines.len() as u32);
            let ghost pre_items = out@;
            let ghost ss = m.lines@.map_values(|l: LineString| l.coords@);
            proof {
                assert(ss.take(0) =~= Seq::<Seq<Coord>>::empty());
                assert(pre_items + wkb_linestrings(ss.take(0)) =~= pre_items);
            }
            let n = m.lines.len();
            let mut k: usize = 0;
            while k < n
                invariant
                    n == m.lines@.len(),
                    ss == m.lines@.map_values(|l: LineString| l.coords@),
                    wkb_wf(GeomModel::MultiLineString(ss)),
                    k <= n,
                    out@ == pre_items + wkb_linestrings(ss.take(k as int)),
                decreases n - k,
            {
                proof {
                    assert(ss[k as int] == m.lines@[k as int].coords@);
                    assert(ss[k as int].len() <= u32::MAX);
                }
                let ls = &m.lines[k];
                encode_linestring_full(out, ls);
                proof {
                    lemma_linestrings_push(ss, k as int);
                    assert(out@ =~= pre_items + wkb_linestrings(ss.take(k + 1)));
                }
                k += 1;
            }
            proof {
                assert(ss.take(n as int) =~= ss);
                assert(out@ =~= base + wkb_of(geom_model(*g)));
            }
        },
        Geometry::MultiPolygon(m) => {
            out.push(1u8);
            push_le4(out, 6);
            push_le4(out, m.polygons.len() as u32);
            let ghost pre_items = out@;
            let ghost ps = m.polygons@.map_values(|p: Polygon| polygon_rings(p));
            proof {
                assert(ps.take(0) =~= Seq::<Seq<Seq<Coord>>>::empty());
                assert(pre_items + wkb_polygons(ps.take(0)) =~= pre_items);
            }
            let n = m.polygons.len();
            let mut k: usize = 0;
            while k < n
                invariant
                    n == m.polygons@.len(),
                    ps == m.polygons@.map_values(|p: Polygon| polygon_rings(p)),
                    wkb_wf(GeomModel::MultiPolygon(ps)),
                    k <= n,
                    out@ == pre_items + wkb_polygons(ps.take(k as int)),
                decreases n - k,
            {
                proof {
                    assert(ps[k as int] == polygon_rings(m.polygons@[k as int]));
                    assert(wkb_wf(GeomModel::Polygon(ps[k as int])));
                }
                let p = &m.polygons[k];
                encode_polygon_full(out, p);
                proof {
                    lemma_polygons_push(ps, k as int);
                    assert(out@ =~= pre_items + wkb_polygons(ps.take(k + 1)));
                }
                k += 1;
            }
            proof {
                assert(ps.take(n as int) =~= ps);
                assert(out@ =~= base + wkb_of(geom_model(*g)));
            }
        },
    }
}

/// The complete WKB encoding of a geometry as a fresh byte vector.
pub fn geometry_to_wkb(g: &Geometry) -> (r: Vec<u8>)
    requires
        wkb_wf(geom_model(*g)),
    ensures
        r@ == wkb_of(geom_model(*g)),
{
    let mut out: Vec<u8> = Vec::new();
    encode_geometry(g, &mut out);
    proof {
        assert(out@ =~= wkb_of(geom_model(*g)));
    }
    out
}


/// Splitting a matched concatenation: when a byte range holds `a + c`,
/// the front of the range holds `a` and the rest holds `c`.
pub proof fn lemma_concat_extract(b: Seq<u8>, pos: int, a: Seq<u8>, c: Seq<u8>, p2: int)
    requires
        0 <= pos,
        pos + a.len() + c.len() == p2 <= b.len(),
        b.subrange(pos, p2) == a + c,
    ensures
        b.subrange(pos, pos + a.len()) == a,
        b.subrange(pos + a.len(), p2) == c,
{
    assert forall|i: int| 0 <= i < a.len() implies b.subrange(pos, pos + a.len())[i] == a[i] by {
        assert(b.subrange(pos, p2)[i] == (a + c)[i]);
    }
    assert(b.subrange(pos, pos + a.len()) =~= a);
    assert forall|i: int| 0 <= i < c.len() implies b.subrange(pos + a.len(), p2)[i] == c[i] by {
        assert(b.subrange(pos, p2)[a.len() + i] == (a + c)[a.len() + i]);
        assert((a + c)[a.len() + i] == c[i]);
        assert(b.subrange(pos, p2)[a.len() + i] == b[pos + a.len() + i]);
        assert(b.subrange(pos + a.len(), p2)[i] == b[pos + a.len() + i]);
    }
    assert(b.subrange(pos + a.len(), p2) =~= c);
}

/// Joining two matched adjacent ranges into one.
pub proof fn lemma_concat_combine(b: Seq<u8>, pos: int, a: Seq<u8>, c: Seq<u8>, p2: int)
    requires
        0 <= pos,
        pos + a.len() + c.len() == p2 <= b.len(),
        b.subrange(pos, pos + a.len()) == a,
        b.subrange(pos + a.len(), p2) == c,
    ensures
        b.subrange(pos, p2) == a + c,
{
    assert forall|i: int| 0 <= i < p2 - pos implies b.subrange(pos, p2)[i] == (a + c)[i] by {
        if i < a.len() {
            assert(b.subrange(pos, pos + a.len())[i] == a[i]);
        } else {
            assert(b.subrange(pos + a.len(), p2)[i - a.len()] == c[i - a.len()]);
        }
    }
    assert(b.subrange(pos, p2) =~= a + c);
}

/// Every complete encoding is at least nine bytes, starts with the
/// little-endian marker, and carries its tag in the four bytes after it.
pub proof fn lemma_wkb_of_header(m: GeomModel)
    ensures
        wkb_of(m).len() >= 9,
        wkb_of(m)[0] == 1,
        wkb_of(m).subrange(1, 5) == le4(wkb_tag(m)),
        1 <= wkb_tag(m) <= 6,
{
    let e = wkb_of(m);
    match m {
        GeomModel::Point(c) => {
            assert(e =~= wkb_header(1) + wkb_coord(c));
            assert(e.subrange(1, 5) =~= le4(1));
        },
        GeomModel::LineString(cs) => {
            lemma_coords_len(cs);
            assert(e.subrange(1, 5) =~= le4(2));
        },
        GeomModel::Polygon(rs) => {
            assert(e.subrange(1, 5) =~= le4(3));
        },
        GeomModel::MultiPoint(cs) => {
            assert(e.subrange(1, 5) =~= le4(4));
        },
        GeomModel::MultiLineString(ss) => {
            assert(e.subrange(1, 5) =~= le4(5));
        },
        GeomModel::MultiPolygon(ps) => {
            assert(e.subrange(1, 5) =~= le4(6));
        },
    }
}

/// Reads a 32-bit little-endian value.
fn read_le4(b: &ByteBuffer, pos: usize) -> (r: Result<(u32, usize), GeoError>)
    requires
        b.wf(),
        pos <= b@.len(),
    ensures
        pos + 4 <= b@.len() ==> (r matches Ok(pair) && pair.1 == pos + 4 && le4(pair.0)
            == b@.subrange(pos as int, pos + 4)),
        pos + 4 > b@.len() ==> (r matches Err(e) && e == GeoError::Decode),
{
    let n = b.len();
    if n - pos < 4 {
        return Err(GeoError::Decode);
    }
    let b0 = b.get(pos);
    let b1 = b.get(pos + 1);
    let b2 = b.get(pos + 2);
    let b3 = b.get(pos + 3);
    let v: u32 = (b0 as u32) | ((b1 as u32) << 8u32) | ((b2 as u32) << 16u32) | ((b3 as u32)
        << 24u32);
    proof {
        assert((v >> 0u32) as u8 == b0 && (v >> 8u32) as u8 == b1 && (v >> 16u32) as u8 == b2 && (v
            >> 24u32) as u8 == b3) by (bit_vector)
            requires
                v == (b0 as u32) | ((b1 as u32) << 8u32) | ((b2 as u32) << 16u32) | ((b3 as u32)
                    << 24u32),
        ;
        assert(le4(v) =~= b@.subrange(pos as int, pos + 4));
    }
    Ok((v, pos + 4))
}

/// Reads a 64-bit little-endian value.
fn read_le8(b: &ByteBuffer, pos: usize) -> (r: Result<(u64, usize), GeoError>)
    requires
        b.wf(),
        pos <= b@.len(),
    ensures
        pos + 8 <= b@.len() ==> (r matches Ok(pair) && pair.1 == pos + 8 && le8(pair.0)
            == b@.subrange(pos as int, pos + 8)),
        pos + 8 > b@.len() ==> (r matches Err(e) && e == GeoError::Decode),
{
    let n = b.len();
    if n - pos < 8 {
        return Err(GeoError::Decode);
    }
    let b0 = b.get(pos);
    let b1 = b.get(pos + 1);
    let b2 = b.get(pos + 2);
    let b3 = b.get(pos + 3);
    let b4 = b.get(pos + 4);
    let b5 = b.get(pos + 5);
    let b6 = b.get(pos + 6);
    let b7 = b.get(pos + 7);
    let v: u64 = (b0 as u64) | ((b1 as u64) << 8u64) | ((b2 as u64) << 16u64) | ((b3 as u64)
        << 24u64) | ((b4 as u64) << 32u64) | ((b5 as u64) << 40u64) | ((b6 as u64) << 48u64) | ((
    b7 as u64) << 56u64);
    proof {
        assert((v >> 0u64) as u8 == b0 && (v >> 8u64) as u8 == b1 && (v >> 16u64) as u8 == b2 && (v
            >> 24u64) as u8 == b3 && (v >> 32u64) as u8 == b4 && (v >> 40u64) as u8 == b5 && (v
            >> 48u64) as u8 == b6 && (v >> 56u64) as u8 == b7) by (bit_vector)
            requires
                v == (b0 as u64) | ((b1 as u64) << 8u64) | ((b2 as u64) << 16u64) | ((b3 as u64)
                    << 24u64) | ((b4 as u64) << 32u64) | ((b5 as u64) << 40u64) | ((b6 as u64)
                    << 48u64) | ((b7 as u64) << 56u64),
        ;
        assert(le8(v) =~= b@.subrange(pos as int, pos + 8));
    }
    Ok((v, pos + 8))
}

/// Parses exactly `n` vertices. The returned vertex sequence is the only
/// one whose encoding occupies the parsed range.
#[verifier::rlimit(80)]
fn parse_coords(b: &ByteBuffer, pos: usize, n: u32) -> (r: Result<(Vec<Coord>, usize), GeoError>)
    requires
        b.wf(),
        pos <= b@.len(),
    ensures
        pos + 16 * (n as int) <= b@.len() ==> (r matches Ok(pair) && pair.0@.len() == n && pair.1
            == pos + 16 * (n as int) && b@.subrange(pos as int, pair.1 as int) == wkb_coords(
            pair.0@,
        )),
        pos + 16 * (n as int) > b@.len() ==> (r matches Err(e) && e == GeoError::Decode),
        forall|cs: Seq<Coord>|
            (cs.len() == n && pos + 16 * (n as int) <= b@.len() && b@.subrange(
                pos as int,
                pos + 16 * (n as int),
            ) == wkb_coords(cs)) ==> (r matches Ok(pair) && pair.0@ == cs),
{
    let len = b.len();
    let need: u64 = (n as u64) * 16;
    let remaining: u64 = (len - pos) as u64;
    if remaining < need {
        proof {
            assert(pos + 16 * (n as int) > b@.len());
        }
        return Err(GeoError::Decode);
    }
    let n_us: usize = n as usize;
    let mut out: Vec<Coord> = Vec::new();
    let mut cur: usize = pos;
    let mut k: usize = 0;
    proof {
        assert(b@.subrange(pos as int, pos as int) =~= wkb_coords(out@));
    }
    while k < n_us
        invariant
            b.wf(),
            n_us == n,
            pos + 16 * (n as int) <= b@.len(),
            k <= n_us,
            out@.len() == k,
            cur == pos + 16 * (k as int),
            b@.subrange(pos as int, cur as int) == wkb_coords(out@),
        decreases n_us - k,
    {
        let x = match read_le8(b, cur) {
            Ok(p) => p.0,
            Err(e) => {
                proof {
                    assert(false);
                }
                return Err(e);
            },
        };
        let y = match read_le8(b, cur + 8) {
            Ok(p) => p.0,
            Err(e) => {
                proof {
                    assert(false);
                }
                return Err(e);
            },
        };
        let c = Coord { x, y };
        let ghost prev = out@;
        out.push(c);
        proof {
            assert(out@.take(k as int) =~= prev);
            assert(out@.take(k + 1) =~= out@);
            assert(out@[k as int] == c);
            lemma_coords_push(out@, k as int);
            assert(wkb_coord(c) =~= le8(x) + le8(y));
            lemma_concat_combine(b@, cur as int, le8(x), le8(y), cur + 16);
            lemma_coords_len(prev);
            lemma_concat_combine(b@, pos as int, wkb_coords(prev), wkb_coord(c), cur + 16);
            assert(b@.subrange(pos as int, cur + 16) == wkb_coords(out@));
        }
        cur = cur + 16;
        k += 1;
    }
    proof {
        lemma_coords_len(out@);
        assert forall|cs: Seq<Coord>|
            (cs.len() == n && pos + 16 * (n as int) <= b@.len() && b@.subrange(
                pos as int,
                pos + 16 * (n as int),
            ) == wkb_coords(cs)) implies out@ == cs by {
            assert forall|j: int| 0 <= j < n implies out@[j] == cs[j] by {
                lemma_coords_at(b@, pos as int, out@, j);
                lemma_coords_at(b@, pos as int, cs, j);
                lemma_le8_inj(out@[j].x, cs[j].x);
                lemma_le8_inj(out@[j].y, cs[j].y);
            }
            assert(out@ =~= cs);
        }
    }
    Ok((out, cur))
}

/// In a matched vertex range, vertex `j` occupies its sixteen-byte slot.
proof fn lemma_coords_at(b: Seq<u8>, pos: int, cs: Seq<Coord>, j: int)
    requires
        0 <= pos,
        0 <= j < cs.len(),
        pos + 16 * cs.len() <= b.len(),
        b.subrange(pos, pos + 16 * cs.len()) == wkb_coords(cs),
    ensures
        b.subrange(pos + 16 * j, pos + 16 * j + 8) == le8(cs[j].x),
        b.subrange(pos + 16 * j + 8, pos + 16 * j + 16) == le8(cs[j].y),
{
    lemma_coords_split(cs, j);
    lemma_coords_len(cs);
    lemma_coords_len(cs.take(j));
    lemma_coords_len(cs.skip(j));
    assert(cs.skip(j)[0] == cs[j]);
    assert(cs.skip(j).drop_first() =~= cs.skip(j + 1));
    lemma_coords_len(cs.skip(j + 1));
    assert(wkb_coords(cs.skip(j)) == wkb_coord(cs[j]) + wkb_coords(cs.skip(j + 1)));
    lemma_concat_extract(
        b,
        pos,
        wkb_coords(cs.take(j)),
        wkb_coords(cs.skip(j)),
        pos + 16 * cs.len(),
    );
    lemma_concat_extract(
        b,
        pos + 16 * j,
        wkb_coord(cs[j]),
        wkb_coords(cs.skip(j + 1)),
        pos + 16 * cs.len(),
    );
    lemma_concat_extract(b, pos + 16 * j, le8(cs[j].x), le8(cs[j].y), pos + 16 * j + 16);
}


/// Parses one headerless ring (count then vertices). The returned ring
/// is the only one whose encoding starts at `pos`.
#[verifier::rlimit(80)]
fn parse_ring(b: &ByteBuffer, pos: usize) -> (r: Result<(Vec<Coord>, usize), GeoError>)
    requires
        b.wf(),
        pos <= b@.len(),
    ensures
        r matches Ok(pair) ==> pair.0@.len() <= u32::MAX && pos <= pair.1 <= b@.len() && pair.1
            == pos + 4 + 16 * pair.0@.len() && b@.subrange(pos as int, pair.1 as int) == wkb_ring(
            pair.0@,
        ),
        forall|cs: Seq<Coord>, p2: int|
            (cs.len() <= u32::MAX && pos <= p2 <= b@.len() && b@.subrange(pos as int, p2)
                == wkb_ring(cs)) ==> (r matches Ok(pair) && pair.0@ == cs && pair.1 == p2),
        r matches Err(e) ==> e == GeoError::Decode,
{
    let count = match read_le4(b, pos) {
        Ok(p) => p.0,
        Err(e) => {
            proof {
                assert forall|cs: Seq<Coord>, p2: int|
                    !(cs.len() <= u32::MAX && pos <= p2 <= b@.len() && b@.subrange(pos as int, p2)
                        == wkb_ring(cs)) by {
                    if cs.len() <= u32::MAX && pos <= p2 <= b@.len() && b@.subrange(pos as int, p2)
                        == wkb_ring(cs) {
                        lemma_coords_len(cs);
                        assert(le4(cs.len() as u32).len() == 4);
                        assert(wkb_ring(cs).len() == 4 + 16 * cs.len());
                        assert(b@.subrange(pos as int, p2).len() == p2 - pos);
                        assert(p2 - pos == 4 + 16 * cs.len());
                        assert(pos + 4 > b@.len());
                        assert(false);
                    }
                }
            }
            return Err(e);
        },
    };
    let body = pos + 4;
    match parse_coords(b, body, count) {
        Ok(p) => {
            let (coords, endp) = p;
            proof {
                lemma_coords_len(coords@);
                lemma_concat_combine(
                    b@,
                    pos as int,
                    le4(count),
                    wkb_coords(coords@),
                    endp as int,
                );
                assert((coords@.len() as u32) == count);
                assert(b@.subrange(pos as int, endp as int) == wkb_ring(coords@));
                assert forall|cs: Seq<Coord>, p2: int|
                    (cs.len() <= u32::MAX && pos <= p2 <= b@.len() && b@.subrange(pos as int, p2)
                        == wkb_ring(cs)) implies (coords@ == cs && endp == p2) by {
                    lemma_coords_len(cs);
                    assert(le4(cs.len() as u32).len() == 4);
                    assert(wkb_ring(cs).len() == 4 + 16 * cs.len());
                    assert(b@.subrange(pos as int, p2).len() == p2 - pos);
                    assert(p2 - pos == 4 + 16 * cs.len());
                    lemma_concat_extract(b@, pos as int, le4(cs.len() as u32), wkb_coords(cs), p2);
                    lemma_le4_inj(count, cs.len() as u32);
                    assert(cs.len() == count);
                    assert(p2 == body + 16 * (count as int));
                    assert(b@.subrange(body as int, body + 16 * (count as int)) == wkb_coords(cs));
                }
            }
            Ok((coords, endp))
        },
        Err(e) => {
            proof {
                assert forall|cs: Seq<Coord>, p2: int|
                    !(cs.len() <= u32::MAX && pos <= p2 <= b@.len() && b@.subrange(pos as int, p2)
                        == wkb_ring(cs)) by {
                    if cs.len() <= u32::MAX && pos <= p2 <= b@.len() && b@.subrange(pos as int, p2)
                        == wkb_ring(cs) {
                        lemma_coords_len(cs);
                        assert(le4(cs.len() as u32).len() == 4);
                        assert(wkb_ring(cs).len() == 4 + 16 * cs.len());
                        assert(b@.subrange(pos as int, p2).len() == p2 - pos);
                        assert(p2 - pos == 4 + 16 * cs.len());
                        lemma_concat_extract(
                            b@,
                            pos as int,
                            le4(cs.len() as u32),
                            wkb_coords(cs),
                            p2,
                        );
                        lemma_le4_inj(count, cs.len() as u32);
                        assert(body + 16 * (count as int) <= b@.len());
                        assert(false);
                    }
                }
            }
            Err(e)
        },
    }
}

/// Parses one complete point encoding. The returned vertex is the only
/// one whose complete encoding starts at `pos`.
#[verifier::rlimit(80)]
fn parse_full_point(b: &ByteBuffer, pos: usize) -> (r: Result<(Coord, usize), GeoError>)
    requires
        b.wf(),
        pos <= b@.len(),
    ensures
        r matches Ok(pair) ==> pos <= pair.1 <= b@.len() && pair.1 == pos + 21 && b@.subrange(
            pos as int,
            pair.1 as int,
        ) == wkb_point(pair.0),
        forall|c: Coord, p2: int|
            (pos <= p2 <= b@.len() && b@.subrange(pos as int, p2) == wkb_point(c)) ==> (r matches
                Ok(pair) && pair.0 == c && pair.1 == p2),
        r matches Err(e) ==> e == GeoError::Decode,
{
    let len = b.len();
    proof {
        assert forall|c: Coord, p2: int|
            (pos <= p2 <= b@.len() && b@.subrange(pos as int, p2) == wkb_point(c)) implies (p2
            == pos + 21 && b@[pos as int] == 1 && b@.subrange(pos + 1, pos + 5) == le4(1)
            && b@.subrange(pos + 5, pos + 13) == le8(c.x) && b@.subrange(pos + 13, pos + 21)
            == le8(c.y)) by {
            assert(wkb_point(c).len() == 21);
            assert(p2 - pos == 21);
            lemma_concat_extract(b@, pos as int, wkb_header(1), wkb_coord(c), p2);
            lemma_concat_extract(b@, pos as int, seq![1u8], le4(1), pos + 5);
            lemma_concat_extract(b@, pos + 5, le8(c.x), le8(c.y), p2);
            assert(b@.subrange(pos as int, pos + 1)[0] == b@[pos as int]);
            assert(seq![1u8][0] == 1u8);
        }
    }
    if len - pos < 21 {
        return Err(GeoError::Decode);
    }
    if b.get(pos) != 1 {
        return Err(GeoError::Decode);
    }
    let tag = match read_le4(b, pos + 1) {
        Ok(p) => p.0,
        Err(e) => {
            proof {
                assert(false);
            }
            return Err(e);
        },
    };
    if tag != 1 {
        proof {
            assert forall|c: Coord, p2: int|
                !(pos <= p2 <= b@.len() && b@.subrange(pos as int, p2) == wkb_point(c)) by {
                if pos <= p2 <= b@.len() && b@.subrange(pos as int, p2) == wkb_point(c) {
                    lemma_le4_inj(tag, 1);
                    assert(false);
                }
            }
        }
        return Err(GeoError::Decode);
    }
    let x = match read_le8(b, pos + 5) {
        Ok(p) => p.0,
        Err(e) => {
            proof {
                assert(false);
            }
            return Err(e);
        },
    };
    let y = match read_le8(b, pos + 13) {
        Ok(p) => p.0,
        Err(e) => {
            proof {
                assert(false);
            }
            return Err(e);
        },
    };
    let c = Coord { x, y };
    proof {
        assert(b@.subrange(pos as int, pos + 1) =~= seq![1u8]);
        lemma_concat_combine(b@, pos as int, seq![1u8], le4(1), pos + 5);
        lemma_concat_combine(b@, pos + 5, le8(x), le8(y), pos + 21);
        lemma_concat_combine(b@, pos as int, wkb_header(1), wkb_coord(c), pos + 21);
        assert(b@.subrange(pos as int, pos + 21) == wkb_point(c));
        assert forall|c2: Coord, p2: int|
            (pos <= p2 <= b@.len() && b@.subrange(pos as int, p2) == wkb_point(c2)) implies (c
            == c2 && pos + 21 == p2) by {
            lemma_le8_inj(x, c2.x);
            lemma_le8_inj(y, c2.y);
        }
    }
    Ok((c, pos + 21))
}

/// Parses one complete line string encoding. The returned vertex
/// sequence is the only one whose complete encoding starts at `pos`.
#[verifier::rlimit(100)]
fn parse_full_linestring(b: &ByteBuffer, pos: usize) -> (r: Result<(Vec<Coord>, usize), GeoError>)
    requires
        b.wf(),
        pos <= b@.len(),
    ensures
        r matches Ok(pair) ==> pair.0@.len() <= u32::MAX && pos <= pair.1 <= b@.len() && pair.1
            == pos + 9 + 16 * pair.0@.len() && b@.subrange(pos as int, pair.1 as int)
            == wkb_linestring(pair.0@),
        forall|cs: Seq<Coord>, p2: int|
            (cs.len() <= u32::MAX && pos <= p2 <= b@.len() && b@.subrange(pos as int, p2)
                == wkb_linestring(cs)) ==> (r matches Ok(pair) && pair.0@ == cs && pair.1 == p2),
        r matches Err(e) ==> e == GeoError::Decode,
{
    let len = b.len();
    proof {
        assert forall|cs: Seq<Coord>, p2: int|
            (cs.len() <= u32::MAX && pos <= p2 <= b@.len() && b@.subrange(pos as int, p2)
                == wkb_linestring(cs)) implies (p2 == pos + 9 + 16 * cs.len() && b@[pos as int]
            == 1 && b@.subrange(pos + 1, pos + 5) == le4(2) && b@.subrange(pos + 5, p2)
            == wkb_ring(cs)) by {
            lemma_coords_len(cs);
            assert(wkb_linestring(cs).len() == 9 + 16 * cs.len());
            assert(p2 - pos == 9 + 16 * cs.len());
            assert(wkb_linestring(cs) =~= wkb_header(2) + wkb_ring(cs));
            lemma_concat_extract(b@, pos as int, wkb_header(2), wkb_ring(cs), p2);
            lemma_concat_extract(b@, pos as int, seq![1u8], le4(2), pos + 5);
            assert(b@.subrange(pos as int, pos + 1)[0] == b@[pos as int]);
            assert(seq![1u8][0] == 1u8);
        }
    }
    if len - pos < 9 {
        return Err(GeoError::Decode);
    }
    if b.get(pos) != 1 {
        return Err(GeoError::Decode);
    }
    let tag = match read_le4(b, pos + 1) {
        Ok(p) => p.0,
        Err(e) => {
            proof {
                assert(false);
            }
            return Err(e);
        },
    };
    if tag != 2 {
        proof {
            assert forall|cs: Seq<Coord>, p2: int|
                !(cs.len() <= u32::MAX && pos <= p2 <= b@.len() && b@.subrange(pos as int, p2)
                    == wkb_linestring(cs)) by {
                if cs.len() <= u32::MAX && pos <= p2 <= b@.len() && b@.subrange(pos as int, p2)
                    == wkb_linestring(cs) {
                    lemma_le4_inj(tag, 2);
                    assert(false);
                }
            }
        }
        return Err(GeoError::Decode);
    }
    match parse_ring(b, pos + 5) {
        Ok(p) => {
            let (coords, endp) = p;
            proof {
                assert(b@.subrange(pos as int, pos + 1) =~= seq![1u8]);
                lemma_concat_combine(b@, pos as int, seq![1u8], le4(2), pos + 5);
                lemma_concat_combine(b@, pos as int, wkb_header(2), wkb_ring(coords@), endp as int);
                assert(wkb_linestring(coords@) =~= wkb_header(2) + wkb_ring(coords@));
                assert(b@.subrange(pos as int, endp as int) == wkb_linestring(coords@));
            }
            Ok((coords, endp))
        },
        Err(e) => {
            proof {
                assert forall|cs: Seq<Coord>, p2: int|
                    !(cs.len() <= u32::MAX && pos <= p2 <= b@.len() && b@.subrange(pos as int, p2)
                        == wkb_linestring(cs)) by {
                    if cs.len() <= u32::MAX && pos <= p2 <= b@.len() && b@.subrange(pos as int, p2)
                        == wkb_linestring(cs) {
                        assert(false);
                    }
                }
            }
            Err(e)
        },
    }
}


/// In a matched item range, item `k` occupies its own slot right after
/// the encodings of the items before it.
proof fn lemma_rings_item(b: Seq<u8>, start: int, s: Seq<Seq<Coord>>, k: int, pend: int)
    requires
        0 <= start,
        start + wkb_rings(s).len() == pend <= b.len(),
        b.subrange(start, pend) == wkb_rings(s),
        0 <= k < s.len(),
    ensures
        wkb_rings(s.take(k)).len() + wkb_ring(s[k]).len() <= wkb_rings(s).len(),
        b.subrange(
            start + wkb_rings(s.take(k)).len(),
            start + wkb_rings(s.take(k)).len() + wkb_ring(s[k]).len(),
        ) == wkb_ring(s[k]),
{
    lemma_rings_split(s, k);
    assert(s.skip(k)[0] == s[k]);
    assert(s.skip(k).drop_first() =~= s.skip(k + 1));
    assert(wkb_rings(s.skip(k)) == wkb_ring(s[k]) + wkb_rings(s.skip(k + 1)));
    lemma_concat_extract(b, start, wkb_rings(s.take(k)), wkb_rings(s.skip(k)), pend);
    lemma_concat_extract(
        b,
        start + wkb_rings(s.take(k)).len(),
        wkb_ring(s[k]),
        wkb_rings(s.skip(k + 1)),
        pend,
    );
}

/// In a matched item range, item `k` occupies its own slot right after
/// the encodings of the items before it.
proof fn lemma_points_item(b: Seq<u8>, start: int, s: Seq<Coord>, k: int, pend: int)
    requires
        0 <= start,
        start + wkb_points(s).len() == pend <= b.len(),
        b.subrange(start, pend) == wkb_points(s),
        0 <= k < s.len(),
    ensures
        wkb_points(s.take(k)).len() + wkb_point(s[k]).len() <= wkb_points(s).len(),
        b.subrange(
            start + wkb_points(s.take(k)).len(),
            start + wkb_points(s.take(k)).len() + wkb_point(s[k]).len(),
        ) == wkb_point(s[k]),
{
    lemma_points_split(s, k);
    assert(s.skip(k)[0] == s[k]);
    assert(s.skip(k).drop_first() =~= s.skip(k + 1));
    assert(wkb_points(s.skip(k)) == wkb_point(s[k]) + wkb_points(s.skip(k + 1)));
    lemma_concat_extract(b, start, wkb_points(s.take(k)), wkb_points(s.skip(k)), pend);
    lemma_concat_extract(
        b,
        start + wkb_points(s.take(k)).len(),
        wkb_point(s[k]),
        wkb_points(s.skip(k + 1)),
        pend,
    );
}

/// In a matched item range, item `k` occupies its own slot right after
/// the encodings of the items before it.
proof fn lemma_linestrings_item(b: Seq<u8>, start: int, s: Seq<Seq<Coord>>, k: int, pend: int)
    requires
        0 <= start,
        start + wkb_linestrings(s).len() == pend <= b.len(),
        b.subrange(start, pend) == wkb_linestrings(s),
        0 <= k < s.len(),
    ensures
        wkb_linestrings(s.take(k)).len() + wkb_linestring(s[k]).len() <= wkb_linestrings(s).len(),
        b.subrange(
            start + wkb_linestrings(s.take(k)).len(),
            start + wkb_linestrings(s.take(k)).len() + wkb_linestring(s[k]).len(),
        ) == wkb_linestring(s[k]),
{
    lemma_linestrings_split(s, k);
    assert(s.skip(k)[0] == s[k]);
    assert(s.skip(k).drop_first() =~= s.skip(k + 1));
    assert(wkb_linestrings(s.skip(k)) == wkb_linestring(s[k]) + wkb_linestrings(s.skip(k + 1)));
    lemma_concat_extract(b, start, wkb_linestrings(s.take(k)), wkb_linestrings(s.skip(k)), pend);
    lemma_concat_extract(
        b,
        start + wkb_linestrings(s.take(k)).len(),
        wkb_linestring(s[k]),
        wkb_linestrings(s.skip(k + 1)),
        pend,
    );
}

/// In a matched item range, item `k` occupies its own slot right after
/// the encodings of the items before it.
proof fn lemma_polygons_item(b: Seq<u8>, start: int, s: Seq<Seq<Seq<Coord>>>, k: int, pend: int)
    requires
        0 <= start,
        start + wkb_polygons(s).len() == pend <= b.len(),
        b.subrange(start, pend) == wkb_polygons(s),
        0 <= k < s.len(),
    ensures
        wkb_polygons(s.take(k)).len() + wkb_polygon(s[k]).len() <= wkb_polygons(s).len(),
        b.subrange(
            start + wkb_polygons(s.take(k)).len(),
            start + wkb_polygons(s.take(k)).len() + wkb_polygon(s[k]).len(),
        ) == wkb_polygon(s[k]),
{
    lemma_polygons_split(s, k);
    assert(s.skip(k)[0] == s[k]);
    assert(s.skip(k).drop_first() =~= s.skip(k + 1));
    assert(wkb_polygons(s.skip(k)) == wkb_polygon(s[k]) + wkb_polygons(s.skip(k + 1)));
    lemma_concat_extract(b, start, wkb_polygons(s.take(k)), wkb_polygons(s.skip(k)), pend);
    lemma_concat_extract(
        b,
        start + wkb_polygons(s.take(k)).len(),
        wkb_polygon(s[k]),
        wkb_polygons(s.skip(k + 1)),
        pend,
    );
}

/// A matched complete polygon encoding decomposes into marker, tag,
/// ring count and ring payload.
proof fn lemma_polygon_candidate(b: Seq<u8>, pos: int, rs: Seq<Seq<Coord>>, p2: int)
    requires
        0 <= pos,
        pos <= p2 <= b.len(),
        b.subrange(pos, p2) == wkb_polygon(rs),
    ensures
        p2 == pos + 9 + wkb_rings(rs).len(),
        b[pos] == 1,
        b.subrange(pos + 1, pos + 5) == le4(3),
        b.subrange(pos + 5, pos + 9) == le4(rs.len() as u32),
        b.subrange(pos + 9, p2) == wkb_rings(rs),
{
    assert(b.subrange(pos, p2).len() == p2 - pos);
    assert(wkb_polygon(rs) =~= (wkb_header(3) + le4(rs.len() as u32)) + wkb_rings(rs));
    lemma_concat_extract(b, pos, wkb_header(3) + le4(rs.len() as u32), wkb_rings(rs), p2);
    assert((wkb_header(3) + le4(rs.len() as u32)) =~= (seq![1u8] + le4(3)) + le4(
        rs.len() as u32,
    ));
    lemma_concat_extract(b, pos, seq![1u8] + le4(3), le4(rs.len() as u32), pos + 9);
    lemma_concat_extract(b, pos, seq![1u8], le4(3), pos + 5);
    assert(b.subrange(pos, pos + 1)[0] == b[pos]);
    assert(seq![1u8][0] == 1u8);
}

/// Whether the ring sequence `rs` is well formed for encoding and its
/// complete polygon encoding occupies `[pos, p2)` of `b`.
pub open spec fn polygon_cand(b: Seq<u8>, pos: int, rs: Seq<Seq<Coord>>, p2: int) -> bool {
    &&& 1 <= rs.len() <= u32::MAX
    &&& forall|j: int| 0 <= j < rs.len() ==> #[trigger] rs[j].len() <= u32::MAX
    &&& pos <= p2 <= b.len()
    &&& b.subrange(pos, p2) == wkb_polygon(rs)
}

/// Parses one complete polygon encoding. The returned polygon's rings
/// are the only ring sequence whose complete encoding starts at `pos`.
#[verifier::rlimit(100)]
fn parse_full_polygon(b: &ByteBuffer, pos: usize) -> (r: Result<(Polygon, usize), GeoError>)
    requires
        b.wf(),
        pos <= b@.len(),
    ensures
        r matches Ok(pair) ==> wkb_wf(GeomModel::Polygon(polygon_rings(pair.0))) && pos <= pair.1
            <= b@.len() && b@.subrange(pos as int, pair.1 as int) == wkb_polygon(
            polygon_rings(pair.0),
        ),
        forall|rs: Seq<Seq<Coord>>, p2: int|
            #[trigger] polygon_cand(b@, pos as int, rs, p2) ==> (r matches Ok(pair)
                && polygon_rings(pair.0) == rs && pair.1 == p2),
        r matches Err(e) ==> e == GeoError::Decode,
{
    let len = b.len();
    proof {
        assert forall|rs: Seq<Seq<Coord>>, p2: int|
            #[trigger] polygon_cand(b@, pos as int, rs, p2) implies (p2 == pos + 9 + wkb_rings(
            rs,
        ).len() && b@[pos as int] == 1 && b@.subrange(pos + 1, pos + 5) == le4(3) && b@.subrange(
            pos + 5,
            pos + 9,
        ) == le4(rs.len() as u32) && b@.subrange(pos + 9, p2) == wkb_rings(rs)) by {
            lemma_polygon_candidate(b@, pos as int, rs, p2);
        }
    }
    if len - pos < 9 {
        return Err(GeoError::Decode);
    }
    if b.get(pos) != 1 {
        return Err(GeoError::Decode);
    }
    let tag = match read_le4(b, pos + 1) {
        Ok(p) => p.0,
        Err(e) => {
            proof {
                assert(false);
            }
            return Err(e);
        },
    };
    if tag != 3 {
        proof {
            assert forall|rs: Seq<Seq<Coord>>, p2: int|
                !(#[trigger] polygon_cand(b@, pos as int, rs, p2)) by {
                if polygon_cand(b@, pos as int, rs, p2) {
                    lemma_le4_inj(tag, 3);
                    assert(false);
                }
            }
        }
        return Err(GeoError::Decode);
    }
    let nr = match read_le4(b, pos + 5) {
        Ok(p) => p.0,
        Err(e) => {
            proof {
                assert(false);
            }
            return Err(e);
        },
    };
    proof {
        assert forall|rs: Seq<Seq<Coord>>, p2: int|
            #[trigger] polygon_cand(b@, pos as int, rs, p2) implies rs.len() == nr by {
            lemma_le4_inj(nr, rs.len() as u32);
        }
    }
    if nr == 0 {
        proof {
            assert forall|rs: Seq<Seq<Coord>>, p2: int|
                !(#[trigger] polygon_cand(b@, pos as int, rs, p2)) by {
                if polygon_cand(b@, pos as int, rs, p2) {
                    assert(rs.len() == nr);
                    assert(false);
                }
            }
        }
        return Err(GeoError::Decode);
    }
    let items_start = pos + 9;
    let (exterior, first_cur) = match parse_ring(b, items_start) {
        Ok(p) => p,
        Err(e) => {
            proof {
                assert forall|rs: Seq<Seq<Coord>>, p2: int|
                    !(#[trigger] polygon_cand(b@, pos as int, rs, p2)) by {
                    if polygon_cand(b@, pos as int, rs, p2) {
                        lemma_rings_item(b@, items_start as int, rs, 0, p2);
                        assert(rs.take(0) =~= Seq::<Seq<Coord>>::empty());
                        assert(wkb_rings(rs.take(0)).len() == 0);
                        assert(false);
                    }
                }
            }
            return Err(e);
        },
    };
    let mut cur = first_cur;
    let mut interiors: Vec<Vec<Coord>> = Vec::new();
    let mut k: usize = 1;
    proof {
        assert(seq![exterior@] + interiors@.map_values(|v: Vec<Coord>| v@) =~= seq![exterior@]);
        assert(seq![exterior@].drop_first() =~= Seq::<Seq<Coord>>::empty());
        assert(wkb_rings(Seq::<Seq<Coord>>::empty()) == Seq::<u8>::empty());
        assert(wkb_rings(seq![exterior@]) == wkb_ring(exterior@) + Seq::<u8>::empty());
        assert(wkb_rings(seq![exterior@]) =~= wkb_ring(exterior@));
        assert(b@.subrange(items_start as int, cur as int) == wkb_rings(
            seq![exterior@] + interiors@.map_values(|v: Vec<Coord>| v@),
        ));
        assert forall|rs: Seq<Seq<Coord>>, p2: int|
            #[trigger] polygon_cand(b@, pos as int, rs, p2) implies (rs.take(1) == (seq![
            exterior@,
        ] + interiors@.map_values(|v: Vec<Coord>| v@)) && items_start + wkb_rings(
            rs.take(1),
        ).len() == cur) by {
            lemma_polygon_candidate(b@, pos as int, rs, p2);
            lemma_rings_item(b@, items_start as int, rs, 0, p2);
            assert(rs.take(0) =~= Seq::<Seq<Coord>>::empty());
            assert(wkb_rings(rs.take(0)).len() == 0);
            assert(exterior@ == rs[0]);
            assert(rs.take(1) =~= seq![exterior@] + interiors@.map_values(|v: Vec<Coord>| v@));
            lemma_rings_push(rs, 0);
        }
    }
    let nr_us: usize = nr as usize;
    while k < nr_us
        invariant
            b.wf(),
            pos <= b@.len(),
            nr_us == nr,
            1 <= nr,
            pos + 9 == items_start,
            items_start <= cur <= b@.len(),
            1 <= k <= nr_us,
            interiors@.len() == k - 1,
            exterior@.len() <= u32::MAX,
            forall|j: int| 0 <= j < interiors@.len() ==> #[trigger] interiors@[j]@.len()
                <= u32::MAX,
            b@.subrange(items_start as int, cur as int) == wkb_rings(
                seq![exterior@] + interiors@.map_values(|v: Vec<Coord>| v@),
            ),
            forall|rs: Seq<Seq<Coord>>, p2: int|
                #[trigger] polygon_cand(b@, pos as int, rs, p2) ==> (rs.take(k as int) == seq![
                    exterior@,
                ] + interiors@.map_values(|v: Vec<Coord>| v@) && items_start + wkb_rings(
                    rs.take(k as int),
                ).len() == cur),
            forall|rs: Seq<Seq<Coord>>, p2: int|
                #[trigger] polygon_cand(b@, pos as int, rs, p2) ==> rs.len() == nr,
        decreases nr_us - k,
    {
        let ghost ms = seq![exterior@] + interiors@.map_values(|v: Vec<Coord>| v@);
        let (ring, newcur) = match parse_ring(b, cur) {
            Ok(p) => p,
            Err(e) => {
                proof {
                    assert forall|rs: Seq<Seq<Coord>>, p2: int|
                        !(#[trigger] polygon_cand(b@, pos as int, rs, p2)) by {
                        if polygon_cand(b@, pos as int, rs, p2) {
                            lemma_polygon_candidate(b@, pos as int, rs, p2);
                            lemma_rings_item(b@, items_start as int, rs, k as int, p2);
                            assert(false);
                        }
                    }
                }
                return Err(e);
            },
        };
        interiors.push(ring);
        proof {
            let ms2 = seq![exterior@] + interiors@.map_values(|v: Vec<Coord>| v@);
            assert(ms2 =~= ms.push(interiors@.last()@));
            assert(ms2.take(k as int) =~= ms);
            assert(ms2.take(k as int + 1) =~= ms2);
            lemma_rings_push(ms2, k as int);
            lemma_concat_combine(
                b@,
                items_start as int,
                wkb_rings(ms),
                wkb_ring(ms2[k as int]),
                newcur as int,
            );
            assert(b@.subrange(items_start as int, newcur as int) == wkb_rings(ms2));
            assert forall|rs: Seq<Seq<Coord>>, p2: int|
                #[trigger] polygon_cand(b@, pos as int, rs, p2) implies (rs.take(k as int + 1)
                == ms2 && items_start + wkb_rings(rs.take(k as int + 1)).len() == newcur) by {
                lemma_polygon_candidate(b@, pos as int, rs, p2);
                lemma_rings_item(b@, items_start as int, rs, k as int, p2);
                assert(rs[k as int].len() <= u32::MAX);
                assert(rs.take(k as int + 1) =~= rs.take(k as int).push(rs[k as int]));
                lemma_rings_push(rs, k as int);
            }
        }
        cur = newcur;
        k += 1;
    }
    let poly = Polygon { exterior, interiors };
    proof {
        let ms = seq![poly.exterior@] + poly.interiors@.map_values(|v: Vec<Coord>| v@);
        assert(polygon_rings(poly) =~= ms);
        assert(ms.len() == nr);
        assert(b@.subrange(pos as int, pos + 1) =~= seq![1u8]);
        lemma_concat_combine(b@, pos as int, seq![1u8], le4(3), pos + 5);
        lemma_concat_combine(b@, pos as int, seq![1u8] + le4(3), le4(nr), pos + 9);
        assert((seq![1u8] + le4(3)) + le4(nr) =~= wkb_header(3) + le4(ms.len() as u32));
        lemma_concat_combine(
            b@,
            pos as int,
            wkb_header(3) + le4(ms.len() as u32),
            wkb_rings(ms),
            cur as int,
        );
        assert(wkb_polygon(ms) =~= (wkb_header(3) + le4(ms.len() as u32)) + wkb_rings(ms));
        assert(b@.subrange(pos as int, cur as int) == wkb_polygon(polygon_rings(poly)));
        assert forall|rs: Seq<Seq<Coord>>, p2: int|
            #[trigger] polygon_cand(b@, pos as int, rs, p2) implies (polygon_rings(poly) == rs
            && cur == p2) by {
            lemma_polygon_candidate(b@, pos as int, rs, p2);
            assert(rs.take(nr as int) =~= rs);
        }
    }
    Ok((poly, cur))
}


/// The multi-point payload is twenty-one bytes per part.
proof fn lemma_points_len(cs: Seq<Coord>)
    ensures
        wkb_points(cs).len() == 21 * cs.len(),
    decreases cs.len(),
{
    if cs.len() > 0 {
        lemma_points_len(cs.drop_first());
    }
}

/// A complete point encoding pins the vertex.
proof fn lemma_point_enc_inj(c1: Coord, c2: Coord)
    requires
        wkb_point(c1) == wkb_point(c2),
    ensures
        c1 == c2,
{
    let e = wkb_point(c1);
    assert(e.subrange(0, 21) =~= e);
    lemma_concat_extract(e, 0, wkb_header(1), wkb_coord(c1), 21);
    lemma_concat_extract(e, 5, le8(c1.x), le8(c1.y), 21);
    let e2 = wkb_point(c2);
    assert(e2.subrange(0, 21) =~= e2);
    lemma_concat_extract(e2, 0, wkb_header(1), wkb_coord(c2), 21);
    lemma_concat_extract(e2, 5, le8(c2.x), le8(c2.y), 21);
    lemma_le8_inj(c1.x, c2.x);
    lemma_le8_inj(c1.y, c2.y);
}

/// Parses a complete WKB payload into a native geometry. Exactly the
/// byte sequences that are complete encodings of well-formed geometries
/// are accepted, and the returned geometry's content is the encoded one;
/// anything else is a decode error.
#[verifier::rlimit(100)]
pub fn parse_geometry(b: &ByteBuffer) -> (r: Result<Geometry, GeoError>)
    requires
        b.wf(),
    ensures
        r matches Ok(g) ==> wkb_wf(geom_model(g)) && b@ == wkb_of(geom_model(g)),
        forall|m: GeomModel|
            (wkb_wf(m) && b@ == #[trigger] wkb_of(m)) ==> (r matches Ok(g) && geom_model(g) == m),
        r matches Err(e) ==> e == GeoError::Decode,
{
    let len = b.len();
    proof {
        assert forall|m: GeomModel| (wkb_wf(m) && b@ == #[trigger] wkb_of(m)) implies (b@.len()
            >= 9 && b@[0] == 1 && b@.subrange(1, 5) == le4(wkb_tag(m)) && 1 <= wkb_tag(m)
            <= 6) by {
            lemma_wkb_of_header(m);
        }
    }
    if len < 9 {
        return Err(GeoError::Decode);
    }
    if b.get(0) != 1 {
        return Err(GeoError::Decode);
    }
    let tag = match read_le4(b, 1) {
        Ok(p) => p.0,
        Err(e) => {
            proof {
                assert(false);
            }
            return Err(e);
        },
    };
    proof {
        assert forall|m: GeomModel|
            (wkb_wf(m) && b@ == #[trigger] wkb_of(m)) implies wkb_tag(m) == tag by {
            lemma_wkb_of_header(m);
            lemma_le4_inj(tag, wkb_tag(m));
        }
    }
    if tag == 1 {
        match parse_full_point(b, 0) {
            Ok(p) => {
                let (c, endp) = p;
                if endp != len {
                    proof {
                        assert forall|m: GeomModel|
                            !(wkb_wf(m) && b@ == #[trigger] wkb_of(m)) by {
                            if wkb_wf(m) && b@ == wkb_of(m) {
                                match m {
                                    GeomModel::Point(c2) => {
                                        assert(b@.subrange(0, len as int) =~= wkb_point(c2));
                                        assert(false);
                                    },
                                    _ => {
                                        assert(wkb_tag(m) != 1);
                                        assert(false);
                                    },
                                }
                            }
                        }
                    }
                    return Err(GeoError::Decode);
                }
                let g = Geometry::Point(Point { coord: c });
                proof {
                    assert(b@ =~= b@.subrange(0, endp as int));
                    assert forall|m: GeomModel|
                        (wkb_wf(m) && b@ == #[trigger] wkb_of(m)) implies geom_model(g) == m by {
                        match m {
                            GeomModel::Point(c2) => {
                                assert(b@.subrange(0, len as int) =~= wkb_point(c2));
                            },
                            _ => {
                                assert(wkb_tag(m) != 1);
                            },
                        }
                    }
                }
                Ok(g)
            },
            Err(e) => {
                proof {
                    assert forall|m: GeomModel| !(wkb_wf(m) && b@ == #[trigger] wkb_of(m)) by {
                        if wkb_wf(m) && b@ == wkb_of(m) {
                            match m {
                                GeomModel::Point(c2) => {
                                    assert(b@.subrange(0, len as int) =~= wkb_point(c2));
                                    assert(false);
                                },
                                _ => {
                                    assert(wkb_tag(m) != 1);
                                    assert(false);
                                },
                            }
                        }
                    }
                }
                Err(e)
            },
        }
    } else if tag == 2 {
        match parse_full_linestring(b, 0) {
            Ok(p) => {
                let (coords, endp) = p;
                if endp != len {
                    proof {
                        assert forall|m: GeomModel|
                            !(wkb_wf(m) && b@ == #[trigger] wkb_of(m)) by {
                            if wkb_wf(m) && b@ == wkb_of(m) {
                                match m {
                                    GeomModel::LineString(cs2) => {
                                        assert(b@.subrange(0, len as int) =~= wkb_linestring(
                                            cs2,
                                        ));
                                        assert(false);
                                    },
                                    _ => {
                                        assert(wkb_tag(m) != 2);
                                        assert(false);
                                    },
                                }
                            }
                        }
                    }
                    return Err(GeoError::Decode);
                }
                let g = Geometry::LineString(LineString { coords });
                proof {
                    assert(b@ =~= b@.subrange(0, endp as int));
                    assert forall|m: GeomModel|
                        (wkb_wf(m) && b@ == #[trigger] wkb_of(m)) implies geom_model(g) == m by {
                        match m {
                            GeomModel::LineString(cs2) => {
                                assert(b@.subrange(0, len as int) =~= wkb_linestring(cs2));
                            },
                            _ => {
                                assert(wkb_tag(m) != 2);
                            },
                        }
                    }
                }
                Ok(g)
            },
            Err(e) => {
                proof {
                    assert forall|m: GeomModel| !(wkb_wf(m) && b@ == #[trigger] wkb_of(m)) by {
                        if wkb_wf(m) && b@ == wkb_of(m) {
                            match m {
                                GeomModel::LineString(cs2) => {
                                    assert(b@.subrange(0, len as int) =~= wkb_linestring(cs2));
                                    assert(false);
                                },
                                _ => {
                                    assert(wkb_tag(m) != 2);
                                    assert(false);
                                },
                            }
                        }
                    }
                }
                Err(e)
            },
        }
    } else if tag == 3 {
        match parse_full_polygon(b, 0) {
            Ok(p) => {
                let (poly, endp) = p;
                if endp != len {
                    proof {
                        assert forall|m: GeomModel|
                            !(wkb_wf(m) && b@ == #[trigger] wkb_of(m)) by {
                            if wkb_wf(m) && b@ == wkb_of(m) {
                                match m {
                                    GeomModel::Polygon(rs2) => {
                                        assert(b@.subrange(0, len as int) =~= wkb_polygon(rs2));
                                        assert(polygon_cand(b@, 0, rs2, len as int));
                                        assert(false);
                                    },
                                    _ => {
                                        assert(wkb_tag(m) != 3);
                                        assert(false);
                                    },
                                }
                            }
                        }
                    }
                    return Err(GeoError::Decode);
                }
                let g = Geometry::Polygon(poly);
                proof {
                    assert(b@ =~= b@.subrange(0, endp as int));
                    assert forall|m: GeomModel|
                        (wkb_wf(m) && b@ == #[trigger] wkb_of(m)) implies geom_model(g) == m by {
                        match m {
                            GeomModel::Polygon(rs2) => {
                                assert(b@.subrange(0, len as int) =~= wkb_polygon(rs2));
                                assert(polygon_cand(b@, 0, rs2, len as int));
                            },
                            _ => {
                                assert(wkb_tag(m) != 3);
                            },
                        }
                    }
                }
                Ok(g)
            },
            Err(e) => {
                proof {
                    assert forall|m: GeomModel| !(wkb_wf(m) && b@ == #[trigger] wkb_of(m)) by {
                        if wkb_wf(m) && b@ == wkb_of(m) {
                            match m {
                                GeomModel::Polygon(rs2) => {
                                    assert(b@.subrange(0, len as int) =~= wkb_polygon(rs2));
                                    assert(polygon_cand(b@, 0, rs2, len as int));
                                    assert(false);
                                },
                                _ => {
                                    assert(wkb_tag(m) != 3);
                                    assert(false);
                                },
                            }
                        }
                    }
                }
                Err(e)
            },
        }
    } else if tag == 4 {
        parse_multi_point(b, len, tag)
    } else if tag == 5 {
        parse_multi_linestring(b, len, tag)
    } else if tag == 6 {
        parse_multi_polygon(b, len, tag)
    } else {
        proof {
            assert forall|m: GeomModel| !(wkb_wf(m) && b@ == #[trigger] wkb_of(m)) by {
                if wkb_wf(m) && b@ == wkb_of(m) {
                    assert(wkb_tag(m) == tag);
                    assert(1 <= wkb_tag(m) <= 6);
                    assert(false);
                }
            }
        }
        Err(GeoError::Decode)
    }
}


/// Shape of a candidate multi-point: `m` is a multi-point of `n` parts
/// whose payload fills `b` after the nine header bytes.
spec fn mp_cand(m: GeomModel, b: Seq<u8>, n: u32) -> bool {
    match m {
        GeomModel::MultiPoint(cs) => {
            &&& cs.len() == n
            &&& 9 + wkb_points(cs).len() == b.len()
            &&& b.subrange(9, b.len() as int) == wkb_points(cs)
        },
        _ => false,
    }
}

/// Parses the multi-point form, header already inspected.
#[verifier::rlimit(100)]
fn parse_multi_point(b: &ByteBuffer, len: usize, tag: u32) -> (r: Result<Geometry, GeoError>)
    requires
        b.wf(),
        len == b@.len(),
        len >= 9,
        b@[0] == 1,
        b@.subrange(1, 5) == le4(tag),
        tag == 4,
    ensures
        r matches Ok(g) ==> wkb_wf(geom_model(g)) && b@ == wkb_of(geom_model(g)),
        forall|m: GeomModel|
            (wkb_wf(m) && b@ == #[trigger] wkb_of(m)) ==> (r matches Ok(g) && geom_model(g) == m),
        r matches Err(e) ==> e == GeoError::Decode,
{
    let n = match read_le4(b, 5) {
        Ok(p) => p.0,
        Err(e) => {
            proof {
                assert(false);
            }
            return Err(e);
        },
    };
    proof {
        assert forall|m: GeomModel|
            (wkb_wf(m) && b@ == #[trigger] wkb_of(m)) implies mp_cand(m, b@, n) by {
            lemma_wkb_of_header(m);
            lemma_le4_inj(tag, wkb_tag(m));
            match m {
                GeomModel::MultiPoint(cs) => {
                    lemma_points_len(cs);
                    assert(b@.subrange(0, len as int) =~= b@);
                    assert(wkb_of(m) =~= (wkb_header(4) + le4(cs.len() as u32)) + wkb_points(cs));
                    lemma_concat_extract(
                        b@,
                        0,
                        wkb_header(4) + le4(cs.len() as u32),
                        wkb_points(cs),
                        len as int,
                    );
                    assert((wkb_header(4) + le4(cs.len() as u32)) =~= (seq![1u8] + le4(4)) + le4(
                        cs.len() as u32,
                    ));
                    lemma_concat_extract(b@, 0, seq![1u8] + le4(4), le4(cs.len() as u32), 9);
                    lemma_le4_inj(n, cs.len() as u32);
                },
                _ => {
                    assert(false);
                },
            }
        }
    }
    let n_us: usize = n as usize;
    let mut out: Vec<Coord> = Vec::new();
    let mut cur: usize = 9;
    let mut k: usize = 0;
    proof {
        assert(b@.subrange(9, 9) =~= wkb_points(out@));
    }
    while k < n_us
        invariant
            b.wf(),
            len == b@.len(),
            len >= 9,
            b@[0] == 1,
            b@.subrange(1, 5) == le4(4),
            n_us == n,
            k <= n_us,
            out@.len() == k,
            cur == 9 + 21 * (k as int),
            cur <= len,
            b@.subrange(9, cur as int) == wkb_points(out@),
            forall|m: GeomModel| (wkb_wf(m) && b@ == #[trigger] wkb_of(m)) ==> mp_cand(m, b@, n),
        decreases n_us - k,
    {
        let (c, newcur) = match parse_full_point(b, cur) {
            Ok(p) => p,
            Err(e) => {
                proof {
                    assert forall|m: GeomModel| !(wkb_wf(m) && b@ == #[trigger] wkb_of(m)) by {
                        if wkb_wf(m) && b@ == wkb_of(m) {
                            match m {
                                GeomModel::MultiPoint(cs) => {
                                    lemma_points_item(b@, 9, cs, k as int, len as int);
                                    lemma_points_len(cs.take(k as int));
                                    assert(false);
                                },
                                _ => {
                                    assert(false);
                                },
                            }
                        }
                    }
                }
                return Err(e);
            },
        };
        let ghost prev = out@;
        out.push(c);
        proof {
            assert(out@.take(k as int) =~= prev);
            assert(out@.take(k + 1) =~= out@);
            lemma_points_push(out@, k as int);
            lemma_points_len(prev);
            lemma_concat_combine(b@, 9, wkb_points(prev), wkb_point(c), newcur as int);
            assert(b@.subrange(9, newcur as int) == wkb_points(out@));
        }
        cur = newcur;
        k += 1;
    }
    if cur != len {
        proof {
            assert forall|m: GeomModel| !(wkb_wf(m) && b@ == #[trigger] wkb_of(m)) by {
                if wkb_wf(m) && b@ == wkb_of(m) {
                    match m {
                        GeomModel::MultiPoint(cs) => {
                            lemma_points_len(cs);
                            assert(false);
                        },
                        _ => {
                            assert(false);
                        },
                    }
                }
            }
        }
        return Err(GeoError::Decode);
    }
    let g = Geometry::MultiPoint(MultiPoint { points: out });
    proof {
        let ghost ms = out@;
        assert(b@.subrange(0, 1) =~= seq![1u8]);
        lemma_concat_combine(b@, 0, seq![1u8], le4(4), 5);
        lemma_concat_combine(b@, 0, seq![1u8] + le4(4), le4(n), 9);
        assert((seq![1u8] + le4(4)) + le4(n) =~= wkb_header(4) + le4(ms.len() as u32));
        lemma_concat_combine(
            b@,
            0,
            wkb_header(4) + le4(ms.len() as u32),
            wkb_points(ms),
            len as int,
        );
        assert(wkb_of(geom_model(g)) =~= (wkb_header(4) + le4(ms.len() as u32)) + wkb_points(ms));
        assert(b@ =~= b@.subrange(0, len as int));
        assert(b@ == wkb_of(geom_model(g)));
        lemma_points_len(ms);
        assert forall|m: GeomModel|
            (wkb_wf(m) && b@ == #[trigger] wkb_of(m)) implies geom_model(g) == m by {
            match m {
                GeomModel::MultiPoint(cs) => {
                    lemma_points_len(cs);
                    assert forall|j: int| 0 <= j < n implies ms[j] == cs[j] by {
                        lemma_points_item(b@, 9, cs, j, len as int);
                        lemma_points_item(b@, 9, ms, j, len as int);
                        lemma_points_len(cs.take(j));
                        lemma_points_len(ms.take(j));
                        lemma_point_enc_inj(ms[j], cs[j]);
                    }
                    assert(ms =~= cs);
                },
                _ => {
                    assert(false);
                },
            }
        }
    }
    Ok(g)
}

/// Shape of a candidate multi-line-string, with its parts' prefix
/// alignment: the first `k` parts are `ms` and their encodings end at
/// `cur`.
spec fn mls_cand(m: GeomModel, b: Seq<u8>, n: u32) -> bool {
    match m {
        GeomModel::MultiLineString(ss) => {
            &&& ss.len() == n
            &&& forall|j: int| 0 <= j < ss.len() ==> #[trigger] ss[j].len() <= u32::MAX
            &&& 9 + wkb_linestrings(ss).len() == b.len()
            &&& b.subrange(9, b.len() as int) == wkb_linestrings(ss)
        },
        _ => false,
    }
}

spec fn mls_prefix(m: GeomModel, ms: Seq<Seq<Coord>>, k: int, cur: int) -> bool {
    match m {
        GeomModel::MultiLineString(ss) => ss.take(k) == ms && 9 + wkb_linestrings(
            ss.take(k),
        ).len() == cur,
        _ => false,
    }
}

/// Parses the multi-line-string form, header already inspected.
#[verifier::rlimit(100)]
fn parse_multi_linestring(b: &ByteBuffer, len: usize, tag: u32) -> (r: Result<Geometry, GeoError>)
    requires
        b.wf(),
        len == b@.len(),
        len >= 9,
        b@[0] == 1,
        b@.subrange(1, 5) == le4(tag),
        tag == 5,
    ensures
        r matches Ok(g) ==> wkb_wf(geom_model(g)) && b@ == wkb_of(geom_model(g)),
        forall|m: GeomModel|
            (wkb_wf(m) && b@ == #[trigger] wkb_of(m)) ==> (r matches Ok(g) && geom_model(g) == m),
        r matches Err(e) ==> e == GeoError::Decode,
{
    let n = match read_le4(b, 5) {
        Ok(p) => p.0,
        Err(e) => {
            proof {
                assert(false);
            }
            return Err(e);
        },
    };
    proof {
        assert forall|m: GeomModel|
            (wkb_wf(m) && b@ == #[trigger] wkb_of(m)) implies mls_cand(m, b@, n) by {
            lemma_wkb_of_header(m);
            lemma_le4_inj(tag, wkb_tag(m));
            match m {
                GeomModel::MultiLineString(ss) => {
                    assert(b@.subrange(0, len as int) =~= b@);
                    assert(wkb_of(m) =~= (wkb_header(5) + le4(ss.len() as u32))
                        + wkb_linestrings(ss));
                    lemma_concat_extract(
                        b@,
                        0,
                        wkb_header(5) + le4(ss.len() as u32),
                        wkb_linestrings(ss),
                        len as int,
                    );
                    assert((wkb_header(5) + le4(ss.len() as u32)) =~= (seq![1u8] + le4(5)) + le4(
                        ss.len() as u32,
                    ));
                    lemma_concat_extract(b@, 0, seq![1u8] + le4(5), le4(ss.len() as u32), 9);
                    lemma_le4_inj(n, ss.len() as u32);
                },
                _ => {
                    assert(false);
                },
            }
        }
    }
    let n_us: usize = n as usize;
    let mut out: Vec<LineString> = Vec::new();
    let mut cur: usize = 9;
    let mut k: usize = 0;
    proof {
        assert(out@.map_values(|l: LineString| l.coords@) =~= Seq::<Seq<Coord>>::empty());
        assert(b@.subrange(9, 9) =~= wkb_linestrings(out@.map_values(|l: LineString| l.coords@)));
        assert forall|m: GeomModel|
            (wkb_wf(m) && b@ == #[trigger] wkb_of(m)) implies mls_prefix(
            m,
            out@.map_values(|l: LineString| l.coords@),
            0,
            9,
        ) by {
            match m {
                GeomModel::MultiLineString(ss) => {
                    assert(ss.take(0) =~= Seq::<Seq<Coord>>::empty());
                },
                _ => {
                    assert(false);
                },
            }
        }
    }
    while k < n_us
        invariant
            b.wf(),
            len == b@.len(),
            len >= 9,
            b@[0] == 1,
            b@.subrange(1, 5) == le4(5),
            n_us == n,
            k <= n_us,
            out@.len() == k,
            9 <= cur <= len,
            forall|j: int| 0 <= j < out@.len() ==> #[trigger] out@[j].coords@.len() <= u32::MAX,
            b@.subrange(9, cur as int) == wkb_linestrings(
                out@.map_values(|l: LineString| l.coords@),
            ),
            forall|m: GeomModel| (wkb_wf(m) && b@ == #[trigger] wkb_of(m)) ==> mls_cand(m, b@, n),
            forall|m: GeomModel| (wkb_wf(m) && b@ == #[trigger] wkb_of(m)) ==> mls_prefix(
                m,
                out@.map_values(|l: LineString| l.coords@),
                k as int,
                cur as int,
            ),
        decreases n_us - k,
    {
        let ghost ms = out@.map_values(|l: LineString| l.coords@);
        let (coords, newcur) = match parse_full_linestring(b, cur) {
            Ok(p) => p,
            Err(e) => {
                proof {
                    assert forall|m: GeomModel| !(wkb_wf(m) && b@ == #[trigger] wkb_of(m)) by {
                        if wkb_wf(m) && b@ == wkb_of(m) {
                            match m {
                                GeomModel::MultiLineString(ss) => {
                                    lemma_linestrings_item(b@, 9, ss, k as int, len as int);
                                    assert(false);
                                },
                                _ => {
                                    assert(false);
                                },
                            }
                        }
                    }
                }
                return Err(e);
            },
        };
        out.push(LineString { coords });
        proof {
            let ms2 = out@.map_values(|l: LineString| l.coords@);
            assert(ms2 =~= ms.push(out@.last().coords@));
            assert(ms2.take(k as int) =~= ms);
            assert(ms2.take(k as int + 1) =~= ms2);
            lemma_linestrings_push(ms2, k as int);
            lemma_concat_combine(
                b@,
                9,
                wkb_linestrings(ms),
                wkb_linestring(ms2[k as int]),
                newcur as int,
            );
            assert(b@.subrange(9, newcur as int) == wkb_linestrings(ms2));
            assert forall|m: GeomModel|
                (wkb_wf(m) && b@ == #[trigger] wkb_of(m)) implies mls_prefix(
                m,
                ms2,
                k as int + 1,
                newcur as int,
            ) by {
                match m {
                    GeomModel::MultiLineString(ss) => {
                        lemma_linestrings_item(b@, 9, ss, k as int, len as int);
                        assert(ss[k as int].len() <= u32::MAX);
                        assert(ss.take(k as int + 1) =~= ss.take(k as int).push(ss[k as int]));
                        lemma_linestrings_push(ss, k as int);
                    },
                    _ => {
                        assert(false);
                    },
                }
            }
        }
        cur = newcur;
        k += 1;
    }
    if cur != len {
        proof {
            assert forall|m: GeomModel| !(wkb_wf(m) && b@ == #[trigger] wkb_of(m)) by {
                if wkb_wf(m) && b@ == wkb_of(m) {
                    match m {
                        GeomModel::MultiLineString(ss) => {
                            assert(ss.take(n as int) =~= ss);
                            assert(false);
                        },
                        _ => {
                            assert(false);
                        },
                    }
                }
            }
        }
        return Err(GeoError::Decode);
    }
    let g = Geometry::MultiLineString(MultiLineString { lines: out });
    proof {
        let ms = out@.map_values(|l: LineString| l.coords@);
        assert(b@.subrange(0, 1) =~= seq![1u8]);
        lemma_concat_combine(b@, 0, seq![1u8], le4(5), 5);
        lemma_concat_combine(b@, 0, seq![1u8] + le4(5), le4(n), 9);
        assert((seq![1u8] + le4(5)) + le4(n) =~= wkb_header(5) + le4(ms.len() as u32));
        lemma_concat_combine(
            b@,
            0,
            wkb_header(5) + le4(ms.len() as u32),
            wkb_linestrings(ms),
            len as int,
        );
        assert(wkb_of(geom_model(g)) =~= (wkb_header(5) + le4(ms.len() as u32)) + wkb_linestrings(
            ms,
        ));
        assert(b@ =~= b@.subrange(0, len as int));
        assert(b@ == wkb_of(geom_model(g)));
        assert forall|m: GeomModel|
            (wkb_wf(m) && b@ == #[trigger] wkb_of(m)) implies geom_model(g) == m by {
            match m {
                GeomModel::MultiLineString(ss) => {
                    assert(ss.take(n as int) =~= ss);
                    assert(geom_model(g) =~= m);
                },
                _ => {
                    assert(false);
                },
            }
        }
    }
    Ok(g)
}

/// Shape of a candidate multi-polygon, with its parts' prefix alignment.
spec fn mpoly_cand(m: GeomModel, b: Seq<u8>, n: u32) -> bool {
    match m {
        GeomModel::MultiPolygon(ps) => {
            &&& ps.len() == n
            &&& forall|j: int|
                0 <= j < ps.len() ==> 1 <= #[trigger] ps[j].len() <= u32::MAX && forall|t: int|
                    0 <= t < ps[j].len() ==> #[trigger] ps[j][t].len() <= u32::MAX
            &&& 9 + wkb_polygons(ps).len() == b.len()
            &&& b.subrange(9, b.len() as int) == wkb_polygons(ps)
        },
        _ => false,
    }
}

spec fn mpoly_prefix(m: GeomModel, ms: Seq<Seq<Seq<Coord>>>, k: int, cur: int) -> bool {
    match m {
        GeomModel::MultiPolygon(ps) => ps.take(k) == ms && 9 + wkb_polygons(ps.take(k)).len()
            == cur,
        _ => false,
    }
}

/// Parses the multi-polygon form, header already inspected.
#[verifier::rlimit(100)]
fn parse_multi_polygon(b: &ByteBuffer, len: usize, tag: u32) -> (r: Result<Geometry, GeoError>)
    requires
        b.wf(),
        len == b@.len(),
        len >= 9,
        b@[0] == 1,
        b@.subrange(1, 5) == le4(tag),
        tag == 6,
    ensures
        r matches Ok(g) ==> wkb_wf(geom_model(g)) && b@ == wkb_of(geom_model(g)),
        forall|m: GeomModel|
            (wkb_wf(m) && b@ == #[trigger] wkb_of(m)) ==> (r matches Ok(g) && geom_model(g) == m),
        r matches Err(e) ==> e == GeoError::Decode,
{
    let n = match read_le4(b, 5) {
        Ok(p) => p.0,
        Err(e) => {
            proof {
                assert(false);
            }
            return Err(e);
        },
    };
    proof {
        assert forall|m: GeomModel|
            (wkb_wf(m) && b@ == #[trigger] wkb_of(m)) implies mpoly_cand(m, b@, n) by {
            lemma_wkb_of_header(m);
            lemma_le4_inj(tag, wkb_tag(m));
            match m {
                GeomModel::MultiPolygon(ps) => {
                    assert(b@.subrange(0, len as int) =~= b@);
                    assert(wkb_of(m) =~= (wkb_header(6) + le4(ps.len() as u32)) + wkb_polygons(
                        ps,
                    ));
                    lemma_concat_extract(
                        b@,
                        0,
                        wkb_header(6) + le4(ps.len() as u32),
                        wkb_polygons(ps),
                        len as int,
                    );
                    assert((wkb_header(6) + le4(ps.len() as u32)) =~= (seq![1u8] + le4(6)) + le4(
                        ps.len() as u32,
                    ));
                    lemma_concat_extract(b@, 0, seq![1u8] + le4(6), le4(ps.len() as u32), 9);
                    lemma_le4_inj(n, ps.len() as u32);
                },
                _ => {
                    assert(false);
                },
            }
        }
    }
    let n_us: usize = n as usize;
    let mut out: Vec<Polygon> = Vec::new();
    let mut cur: usize = 9;
    let mut k: usize = 0;
    proof {
        assert(out@.map_values(|p: Polygon| polygon_rings(p)) =~= Seq::<Seq<Seq<Coord>>>::empty());
        assert(b@.subrange(9, 9) =~= wkb_polygons(out@.map_values(|p: Polygon| polygon_rings(p))));
        assert forall|m: GeomModel|
            (wkb_wf(m) && b@ == #[trigger] wkb_of(m)) implies mpoly_prefix(
            m,
            out@.map_values(|p: Polygon| polygon_rings(p)),
            0,
            9,
        ) by {
            match m {
                GeomModel::MultiPolygon(ps) => {
                    assert(ps.take(0) =~= Seq::<Seq<Seq<Coord>>>::empty());
                },
                _ => {
                    assert(false);
                },
            }
        }
    }
    while k < n_us
        invariant
            b.wf(),
            len == b@.len(),
            len >= 9,
            b@[0] == 1,
            b@.subrange(1, 5) == le4(6),
            n_us == n,
            k <= n_us,
            out@.len() == k,
            9 <= cur <= len,
            forall|j: int|
                0 <= j < out@.len() ==> #[trigger] wkb_wf(
                    GeomModel::Polygon(polygon_rings(out@[j])),
                ),
            b@.subrange(9, cur as int) == wkb_polygons(
                out@.map_values(|p: Polygon| polygon_rings(p)),
            ),
            forall|m: GeomModel| (wkb_wf(m) && b@ == #[trigger] wkb_of(m)) ==> mpoly_cand(
                m,
                b@,
                n,
            ),
            forall|m: GeomModel| (wkb_wf(m) && b@ == #[trigger] wkb_of(m)) ==> mpoly_prefix(
                m,
                out@.map_values(|p: Polygon| polygon_rings(p)),
                k as int,
                cur as int,
            ),
        decreases n_us - k,
    {
        let ghost ms = out@.map_values(|p: Polygon| polygon_rings(p));
        let (poly, newcur) = match parse_full_polygon(b, cur) {
            Ok(p) => p,
            Err(e) => {
                proof {
                    assert forall|m: GeomModel| !(wkb_wf(m) && b@ == #[trigger] wkb_of(m)) by {
                        if wkb_wf(m) && b@ == wkb_of(m) {
                            match m {
                                GeomModel::MultiPolygon(ps) => {
                                    lemma_polygons_item(b@, 9, ps, k as int, len as int);
                                    assert(polygon_cand(
                                        b@,
                                        cur as int,
                                        ps[k as int],
                                        cur + wkb_polygon(ps[k as int]).len(),
                                    ));
                                    assert(false);
                                },
                                _ => {
                                    assert(false);
                                },
                            }
                        }
                    }
                }
                return Err(e);
            },
        };
        out.push(poly);
        proof {
            let ms2 = out@.map_values(|p: Polygon| polygon_rings(p));
            assert(ms2 =~= ms.push(polygon_rings(out@.last())));
            assert(ms2.take(k as int) =~= ms);
            assert(ms2.take(k as int + 1) =~= ms2);
            lemma_polygons_push(ms2, k as int);
            lemma_concat_combine(
                b@,
                9,
                wkb_polygons(ms),
                wkb_polygon(ms2[k as int]),
                newcur as int,
            );
            assert(b@.subrange(9, newcur as int) == wkb_polygons(ms2));
            assert forall|m: GeomModel|
                (wkb_wf(m) && b@ == #[trigger] wkb_of(m)) implies mpoly_prefix(
                m,
                ms2,
                k as int + 1,
                newcur as int,
            ) by {
                match m {
                    GeomModel::MultiPolygon(ps) => {
                        lemma_polygons_item(b@, 9, ps, k as int, len as int);
                        assert(polygon_cand(
                            b@,
                            cur as int,
                            ps[k as int],
                            cur + wkb_polygon(ps[k as int]).len(),
                        ));
                        assert(ps.take(k as int + 1) =~= ps.take(k as int).push(ps[k as int]));
                        lemma_polygons_push(ps, k as int);
                    },
                    _ => {
                        assert(false);
                    },
                }
            }
        }
        cur = newcur;
        k += 1;
    }
    if cur != len {
        proof {
            assert forall|m: GeomModel| !(wkb_wf(m) && b@ == #[trigger] wkb_of(m)) by {
                if wkb_wf(m) && b@ == wkb_of(m) {
                    match m {
                        GeomModel::MultiPolygon(ps) => {
                            assert(ps.take(n as int) =~= ps);
                            assert(false);
                        },
                        _ => {
                            assert(false);
                        },
                    }
                }
            }
        }
        return Err(GeoError::Decode);
    }
    let g = Geometry::MultiPolygon(MultiPolygon { polygons: out });
    proof {
        let ms = out@.map_values(|p: Polygon| polygon_rings(p));
        assert(b@.subrange(0, 1) =~= seq![1u8]);
        lemma_concat_combine(b@, 0, seq![1u8], le4(6), 5);
        lemma_concat_combine(b@, 0, seq![1u8] + le4(6), le4(n), 9);
        assert((seq![1u8] + le4(6)) + le4(n) =~= wkb_header(6) + le4(ms.len() as u32));
        lemma_concat_combine(
            b@,
            0,
            wkb_header(6) + le4(ms.len() as u32),
            wkb_polygons(ms),
            len as int,
        );
        assert(wkb_of(geom_model(g)) =~= (wkb_header(6) + le4(ms.len() as u32)) + wkb_polygons(
            ms,
        ));
        assert(b@ =~= b@.subrange(0, len as int));
        assert(b@ == wkb_of(geom_model(g)));
        assert forall|j: int|
            0 <= j < ms.len() implies 1 <= #[trigger] ms[j].len() <= u32::MAX && (forall|t: int|
            0 <= t < ms[j].len() ==> #[trigger] ms[j][t].len() <= u32::MAX) by {
            assert(ms[j] == polygon_rings(out@[j]));
            assert(wkb_wf(GeomModel::Polygon(polygon_rings(out@[j]))));
        }
        assert(wkb_wf(geom_model(g)));
        assert forall|m: GeomModel|
            (wkb_wf(m) && b@ == #[trigger] wkb_of(m)) implies geom_model(g) == m by {
            match m {
                GeomModel::MultiPolygon(ps) => {
                    assert(ps.take(n as int) =~= ps);
                    assert(geom_model(g) =~= m);
                },
                _ => {
                    assert(false);
                },
            }
        }
    }
    Ok(g)
}


/// A matched coordinate block pins the vertex.
proof fn lemma_coord_enc_inj(c1: Coord, c2: Coord)
    requires
        wkb_coord(c1) == wkb_coord(c2),
    ensures
        c1 == c2,
{
    let e = wkb_coord(c1);
    assert(e.subrange(0, 16) =~= e);
    lemma_concat_extract(e, 0, le8(c1.x), le8(c1.y), 16);
    lemma_concat_extract(e, 0, le8(c2.x), le8(c2.y), 16);
    lemma_le8_inj(c1.x, c2.x);
    lemma_le8_inj(c1.y, c2.y);
}

/// Two equal-count vertex runs that open the same byte stream are the
/// same run, and leave the same rest.
proof fn lemma_coords_prefix_inj(cs1: Seq<Coord>, cs2: Seq<Coord>, t1: Seq<u8>, t2: Seq<u8>)
    requires
        cs1.len() == cs2.len(),
        wkb_coords(cs1) + t1 == wkb_coords(cs2) + t2,
    ensures
        cs1 == cs2,
        t1 == t2,
    decreases cs1.len(),
{
    let e = wkb_coords(cs1) + t1;
    if cs1.len() == 0 {
        assert(cs1 =~= cs2);
        assert(t1 =~= e);
        assert(t2 =~= e);
    } else {
        assert(e =~= wkb_coord(cs1[0]) + (wkb_coords(cs1.drop_first()) + t1));
        assert(e =~= wkb_coord(cs2[0]) + (wkb_coords(cs2.drop_first()) + t2));
        assert(e.subrange(0, e.len() as int) =~= e);
        lemma_coords_len(cs1.drop_first());
        lemma_coords_len(cs2.drop_first());
        lemma_concat_extract(
            e,
            0,
            wkb_coord(cs1[0]),
            wkb_coords(cs1.drop_first()) + t1,
            e.len() as int,
        );
        lemma_concat_extract(
            e,
            0,
            wkb_coord(cs2[0]),
            wkb_coords(cs2.drop_first()) + t2,
            e.len() as int,
        );
        lemma_coord_enc_inj(cs1[0], cs2[0]);
        lemma_coords_prefix_inj(cs1.drop_first(), cs2.drop_first(), t1, t2);
        assert forall|j0: int| 0 <= j0 < cs1.len() implies cs1[j0] == cs2[j0] by {
            if j0 > 0 {
                assert(cs1.drop_first()[j0 - 1] == cs2.drop_first()[j0 - 1]);
            }
        }
        assert(cs1 =~= cs2);
    }
}

/// Two headerless rings that open the same byte stream are the same
/// ring, and leave the same rest.
proof fn lemma_ring_prefix_inj(r1: Seq<Coord>, r2: Seq<Coord>, t1: Seq<u8>, t2: Seq<u8>)
    requires
        r1.len() <= u32::MAX,
        r2.len() <= u32::MAX,
        wkb_ring(r1) + t1 == wkb_ring(r2) + t2,
    ensures
        r1 == r2,
        t1 == t2,
{
    let e = wkb_ring(r1) + t1;
    assert(e =~= le4(r1.len() as u32) + (wkb_coords(r1) + t1));
    assert(e =~= le4(r2.len() as u32) + (wkb_coords(r2) + t2));
    assert(e.subrange(0, e.len() as int) =~= e);
    lemma_coords_len(r1);
    lemma_coords_len(r2);
    lemma_concat_extract(e, 0, le4(r1.len() as u32), wkb_coords(r1) + t1, e.len() as int);
    lemma_concat_extract(e, 0, le4(r2.len() as u32), wkb_coords(r2) + t2, e.len() as int);
    lemma_le4_inj(r1.len() as u32, r2.len() as u32);
    lemma_coords_prefix_inj(r1, r2, t1, t2);
}

/// Two equal-count ring runs that open the same byte stream are the
/// same run, and leave the same rest.
proof fn lemma_rings_prefix_inj(
    rs1: Seq<Seq<Coord>>,
    rs2: Seq<Seq<Coord>>,
    t1: Seq<u8>,
    t2: Seq<u8>,
)
    requires
        rs1.len() == rs2.len(),
        forall|j: int| 0 <= j < rs1.len() ==> #[trigger] rs1[j].len() <= u32::MAX,
        forall|j: int| 0 <= j < rs2.len() ==> #[trigger] rs2[j].len() <= u32::MAX,
        wkb_rings(rs1) + t1 == wkb_rings(rs2) + t2,
    ensures
        rs1 == rs2,
        t1 == t2,
    decreases rs1.len(),
{
    let e = wkb_rings(rs1) + t1;
    if rs1.len() == 0 {
        assert(rs1 =~= rs2);
        assert(t1 =~= e);
        assert(t2 =~= e);
    } else {
        assert(e =~= wkb_ring(rs1[0]) + (wkb_rings(rs1.drop_first()) + t1));
        assert(e =~= wkb_ring(rs2[0]) + (wkb_rings(rs2.drop_first()) + t2));
        lemma_ring_prefix_inj(
            rs1[0],
            rs2[0],
            wkb_rings(rs1.drop_first()) + t1,
            wkb_rings(rs2.drop_first()) + t2,
        );
        assert forall|j: int|
            0 <= j < rs1.drop_first().len() implies #[trigger] rs1.drop_first()[j].len()
            <= u32::MAX by {
            assert(rs1.drop_first()[j] == rs1[j + 1]);
        }
        assert forall|j: int|
            0 <= j < rs2.drop_first().len() implies #[trigger] rs2.drop_first()[j].len()
            <= u32::MAX by {
            assert(rs2.drop_first()[j] == rs2[j + 1]);
        }
        lemma_rings_prefix_inj(rs1.drop_first(), rs2.drop_first(), t1, t2);
        assert forall|j0: int| 0 <= j0 < rs1.len() implies rs1[j0] == rs2[j0] by {
            if j0 > 0 {
                assert(rs1.drop_first()[j0 - 1] == rs2.drop_first()[j0 - 1]);
            }
        }
        assert(rs1 =~= rs2);
    }
}

/// Two complete point encodings that open the same byte stream carry
/// the same vertex, and leave the same rest.
proof fn lemma_point_prefix_inj(c1: Coord, c2: Coord, t1: Seq<u8>, t2: Seq<u8>)
    requires
        wkb_point(c1) + t1 == wkb_point(c2) + t2,
    ensures
        c1 == c2,
        t1 == t2,
{
    let e = wkb_point(c1) + t1;
    assert(e.subrange(0, e.len() as int) =~= e);
    lemma_concat_extract(e, 0, wkb_point(c1), t1, e.len() as int);
    lemma_concat_extract(e, 0, wkb_point(c2), t2, e.len() as int);
    lemma_point_enc_inj(c1, c2);
}

/// Two equal-count multi-point part runs that open the same byte stream
/// are the same run.
proof fn lemma_points_prefix_inj(cs1: Seq<Coord>, cs2: Seq<Coord>, t1: Seq<u8>, t2: Seq<u8>)
    requires
        cs1.len() == cs2.len(),
        wkb_points(cs1) + t1 == wkb_points(cs2) + t2,
    ensures
        cs1 == cs2,
        t1 == t2,
    decreases cs1.len(),
{
    let e = wkb_points(cs1) + t1;
    if cs1.len() == 0 {
        assert(cs1 =~= cs2);
        assert(t1 =~= e);
        assert(t2 =~= e);
    } else {
        assert(e =~= wkb_point(cs1[0]) + (wkb_points(cs1.drop_first()) + t1));
        assert(e =~= wkb_point(cs2[0]) + (wkb_points(cs2.drop_first()) + t2));
        lemma_point_prefix_inj(
            cs1[0],
            cs2[0],
            wkb_points(cs1.drop_first()) + t1,
            wkb_points(cs2.drop_first()) + t2,
        );
        lemma_points_prefix_inj(cs1.drop_first(), cs2.drop_first(), t1, t2);
        assert forall|j0: int| 0 <= j0 < cs1.len() implies cs1[j0] == cs2[j0] by {
            if j0 > 0 {
                assert(cs1.drop_first()[j0 - 1] == cs2.drop_first()[j0 - 1]);
            }
        }
        assert(cs1 =~= cs2);
    }
}

/// Two complete line string encodings that open the same byte stream
/// carry the same vertices, and leave the same rest.
proof fn lemma_linestring_prefix_inj(cs1: Seq<Coord>, cs2: Seq<Coord>, t1: Seq<u8>, t2: Seq<u8>)
    requires
        cs1.len() <= u32::MAX,
        cs2.len() <= u32::MAX,
        wkb_linestring(cs1) + t1 == wkb_linestring(cs2) + t2,
    ensures
        cs1 == cs2,
        t1 == t2,
{
    let e = wkb_linestring(cs1) + t1;
    assert(e =~= wkb_header(2) + (wkb_ring(cs1) + t1));
    assert(e =~= wkb_header(2) + (wkb_ring(cs2) + t2));
    assert(e.subrange(0, e.len() as int) =~= e);
    lemma_coords_len(cs1);
    lemma_coords_len(cs2);
    lemma_concat_extract(e, 0, wkb_header(2), wkb_ring(cs1) + t1, e.len() as int);
    lemma_concat_extract(e, 0, wkb_header(2), wkb_ring(cs2) + t2, e.len() as int);
    lemma_ring_prefix_inj(cs1, cs2, t1, t2);
}

/// Two equal-count multi-line-string part runs that open the same byte
/// stream are the same run.
proof fn lemma_linestrings_prefix_inj(
    ss1: Seq<Seq<Coord>>,
    ss2: Seq<Seq<Coord>>,
    t1: Seq<u8>,
    t2: Seq<u8>,
)
    requires
        ss1.len() == ss2.len(),
        forall|j: int| 0 <= j < ss1.len() ==> #[trigger] ss1[j].len() <= u32::MAX,
        forall|j: int| 0 <= j < ss2.len() ==> #[trigger] ss2[j].len() <= u32::MAX,
        wkb_linestrings(ss1) + t1 == wkb_linestrings(ss2) + t2,
    ensures
        ss1 == ss2,
        t1 == t2,
    decreases ss1.len(),
{
    let e = wkb_linestrings(ss1) + t1;
    if ss1.len() == 0 {
        assert(ss1 =~= ss2);
        assert(t1 =~= e);
        assert(t2 =~= e);
    } else {
        assert(e =~= wkb_linestring(ss1[0]) + (wkb_linestrings(ss1.drop_first()) + t1));
        assert(e =~= wkb_linestring(ss2[0]) + (wkb_linestrings(ss2.drop_first()) + t2));
        lemma_linestring_prefix_inj(
            ss1[0],
            ss2[0],
            wkb_linestrings(ss1.drop_first()) + t1,
            wkb_linestrings(ss2.drop_first()) + t2,
        );
        assert forall|j: int|
            0 <= j < ss1.drop_first().len() implies #[trigger] ss1.drop_first()[j].len()
            <= u32::MAX by {
            assert(ss1.drop_first()[j] == ss1[j + 1]);
        }
        assert forall|j: int|
            0 <= j < ss2.drop_first().len() implies #[trigger] ss2.drop_first()[j].len()
            <= u32::MAX by {
            assert(ss2.drop_first()[j] == ss2[j + 1]);
        }
        lemma_linestrings_prefix_inj(ss1.drop_first(), ss2.drop_first(), t1, t2);
        assert forall|j0: int| 0 <= j0 < ss1.len() implies ss1[j0] == ss2[j0] by {
            if j0 > 0 {
                assert(ss1.drop_first()[j0 - 1] == ss2.drop_first()[j0 - 1]);
            }
        }
        assert(ss1 =~= ss2);
    }
}

/// Two complete polygon encodings that open the same byte stream carry
/// the same rings, and leave the same rest.
proof fn lemma_polygon_prefix_inj(
    rs1: Seq<Seq<Coord>>,
    rs2: Seq<Seq<Coord>>,
    t1: Seq<u8>,
    t2: Seq<u8>,
)
    requires
        rs1.len() <= u32::MAX,
        rs2.len() <= u32::MAX,
        forall|j: int| 0 <= j < rs1.len() ==> #[trigger] rs1[j].len() <= u32::MAX,
        forall|j: int| 0 <= j < rs2.len() ==> #[trigger] rs2[j].len() <= u32::MAX,
        wkb_polygon(rs1) + t1 == wkb_polygon(rs2) + t2,
    ensures
        rs1 == rs2,
        t1 == t2,
{
    let e = wkb_polygon(rs1) + t1;
    assert(e =~= (wkb_header(3) + le4(rs1.len() as u32)) + (wkb_rings(rs1) + t1));
    assert(e =~= (wkb_header(3) + le4(rs2.len() as u32)) + (wkb_rings(rs2) + t2));
    assert(e.subrange(0, e.len() as int) =~= e);
    lemma_concat_extract(
        e,
        0,
        wkb_header(3) + le4(rs1.len() as u32),
        wkb_rings(rs1) + t1,
        e.len() as int,
    );
    lemma_concat_extract(
        e,
        0,
        wkb_header(3) + le4(rs2.len() as u32),
        wkb_rings(rs2) + t2,
        e.len() as int,
    );
    assert((wkb_header(3) + le4(rs1.len() as u32)).subrange(5, 9) =~= le4(rs1.len() as u32));
    assert((wkb_header(3) + le4(rs2.len() as u32)).subrange(5, 9) =~= le4(rs2.len() as u32));
    lemma_le4_inj(rs1.len() as u32, rs2.len() as u32);
    lemma_rings_prefix_inj(rs1, rs2, t1, t2);
}

/// Two equal-count multi-polygon part runs that open the same byte
/// stream are the same run.
proof fn lemma_polygons_prefix_inj(
    ps1: Seq<Seq<Seq<Coord>>>,
    ps2: Seq<Seq<Seq<Coord>>>,
    t1: Seq<u8>,
    t2: Seq<u8>,
)
    requires
        ps1.len() == ps2.len(),
        forall|j: int|
            0 <= j < ps1.len() ==> #[trigger] ps1[j].len() <= u32::MAX && forall|k: int|
                0 <= k < ps1[j].len() ==> #[trigger] ps1[j][k].len() <= u32::MAX,
        forall|j: int|
            0 <= j < ps2.len() ==> #[trigger] ps2[j].len() <= u32::MAX && forall|k: int|
                0 <= k < ps2[j].len() ==> #[trigger] ps2[j][k].len() <= u32::MAX,
        wkb_polygons(ps1) + t1 == wkb_polygons(ps2) + t2,
    ensures
        ps1 == ps2,
        t1 == t2,
    decreases ps1.len(),
{
    let e = wkb_polygons(ps1) + t1;
    if ps1.len() == 0 {
        assert(ps1 =~= ps2);
        assert(t1 =~= e);
        assert(t2 =~= e);
    } else {
        assert(e =~= wkb_polygon(ps1[0]) + (wkb_polygons(ps1.drop_first()) + t1));
        assert(e =~= wkb_polygon(ps2[0]) + (wkb_polygons(ps2.drop_first()) + t2));
        lemma_polygon_prefix_inj(
            ps1[0],
            ps2[0],
            wkb_polygons(ps1.drop_first()) + t1,
            wkb_polygons(ps2.drop_first()) + t2,
        );
        assert forall|j: int|
            0 <= j < ps1.drop_first().len() implies #[trigger] ps1.drop_first()[j].len()
            <= u32::MAX && forall|k: int|
            0 <= k < ps1.drop_first()[j].len() ==> #[trigger] ps1.drop_first()[j][k].len()
                <= u32::MAX by {
            assert(ps1.drop_first()[j] == ps1[j + 1]);
        }
        assert forall|j: int|
            0 <= j < ps2.drop_first().len() implies #[trigger] ps2.drop_first()[j].len()
            <= u32::MAX && forall|k: int|
            0 <= k < ps2.drop_first()[j].len() ==> #[trigger] ps2.drop_first()[j][k].len()
                <= u32::MAX by {
            assert(ps2.drop_first()[j] == ps2[j + 1]);
        }
        lemma_polygons_prefix_inj(ps1.drop_first(), ps2.drop_first(), t1, t2);
        assert forall|j0: int| 0 <= j0 < ps1.len() implies ps1[j0] == ps2[j0] by {
            if j0 > 0 {
                assert(ps1.drop_first()[j0 - 1] == ps2.drop_first()[j0 - 1]);
            }
        }
        assert(ps1 =~= ps2);
    }
}

/// The encoding is injective on well-formed geometries: equal byte
/// sequences come from equal content. Together with the parser's
/// contract this pins, spec-side, which geometry a binary payload holds.
#[verifier::rlimit(100)]
pub proof fn lemma_wkb_of_injective(m1: GeomModel, m2: GeomModel)
    requires
        wkb_wf(m1),
        wkb_wf(m2),
        wkb_of(m1) == wkb_of(m2),
    ensures
        m1 == m2,
{
    let e = wkb_of(m1);
    lemma_wkb_of_header(m1);
    lemma_wkb_of_header(m2);
    lemma_le4_inj(wkb_tag(m1), wkb_tag(m2));
    let empty = Seq::<u8>::empty();
    match m1 {
        GeomModel::Point(c1) => {
            match m2 {
                GeomModel::Point(c2) => {
                    assert(wkb_point(c1) + empty =~= wkb_point(c2) + empty);
                    lemma_point_prefix_inj(c1, c2, empty, empty);
                },
                _ => {
                    assert(false);
                },
            }
        },
        GeomModel::LineString(cs1) => {
            match m2 {
                GeomModel::LineString(cs2) => {
                    assert(wkb_linestring(cs1) + empty =~= wkb_linestring(cs2) + empty);
                    lemma_linestring_prefix_inj(cs1, cs2, empty, empty);
                },
                _ => {
                    assert(false);
                },
            }
        },
        GeomModel::Polygon(rs1) => {
            match m2 {
                GeomModel::Polygon(rs2) => {
                    assert(wkb_polygon(rs1) + empty =~= wkb_polygon(rs2) + empty);
                    lemma_polygon_prefix_inj(rs1, rs2, empty, empty);
                },
                _ => {
                    assert(false);
                },
            }
        },
        GeomModel::MultiPoint(cs1) => {
            match m2 {
                GeomModel::MultiPoint(cs2) => {
                    assert(e.subrange(5, 9) =~= le4(cs1.len() as u32));
                    assert(e.subrange(5, 9) =~= le4(cs2.len() as u32));
                    lemma_le4_inj(cs1.len() as u32, cs2.len() as u32);
                    assert(e =~= (wkb_header(4) + le4(cs1.len() as u32)) + (wkb_points(cs1)
                        + empty));
                    assert(e =~= (wkb_header(4) + le4(cs2.len() as u32)) + (wkb_points(cs2)
                        + empty));
                    assert(e.subrange(0, e.len() as int) =~= e);
                    lemma_concat_extract(
                        e,
                        0,
                        wkb_header(4) + le4(cs1.len() as u32),
                        wkb_points(cs1) + empty,
                        e.len() as int,
                    );
                    lemma_concat_extract(
                        e,
                        0,
                        wkb_header(4) + le4(cs2.len() as u32),
                        wkb_points(cs2) + empty,
                        e.len() as int,
                    );
                    lemma_points_prefix_inj(cs1, cs2, empty, empty);
                },
                _ => {
                    assert(false);
                },
            }
        },
        GeomModel::MultiLineString(ss1) => {
            match m2 {
                GeomModel::MultiLineString(ss2) => {
                    assert(e.subrange(5, 9) =~= le4(ss1.len() as u32));
                    assert(e.subrange(5, 9) =~= le4(ss2.len() as u32));
                    lemma_le4_inj(ss1.len() as u32, ss2.len() as u32);
                    assert(e =~= (wkb_header(5) + le4(ss1.len() as u32)) + (wkb_linestrings(ss1)
                        + empty));
                    assert(e =~= (wkb_header(5) + le4(ss2.len() as u32)) + (wkb_linestrings(ss2)
                        + empty));
                    assert(e.subrange(0, e.len() as int) =~= e);
                    lemma_concat_extract(
                        e,
                        0,
                        wkb_header(5) + le4(ss1.len() as u32),
                        wkb_linestrings(ss1) + empty,
                        e.len() as int,
                    );
                    lemma_concat_extract(
                        e,
                        0,
                        wkb_header(5) + le4(ss2.len() as u32),
                        wkb_linestrings(ss2) + empty,
                        e.len() as int,
                    );
                    lemma_linestrings_prefix_inj(ss1, ss2, empty, empty);
                },
                _ => {
                    assert(false);
                },
            }
        },
        GeomModel::MultiPolygon(ps1) => {
            match m2 {
                GeomModel::MultiPolygon(ps2) => {
                    assert(e.subrange(5, 9) =~= le4(ps1.len() as u32));
                    assert(e.subrange(5, 9) =~= le4(ps2.len() as u32));
                    lemma_le4_inj(ps1.len() as u32, ps2.len() as u32);
                    assert(e =~= (wkb_header(6) + le4(ps1.len() as u32)) + (wkb_polygons(ps1)
                        + empty));
                    assert(e =~= (wkb_header(6) + le4(ps2.len() as u32)) + (wkb_polygons(ps2)
                        + empty));
                    assert(e.subrange(0, e.len() as int) =~= e);
                    lemma_concat_extract(
                        e,
                        0,
                        wkb_header(6) + le4(ps1.len() as u32),
                        wkb_polygons(ps1) + empty,
                        e.len() as int,
                    );
                    lemma_concat_extract(
                        e,
                        0,
                        wkb_header(6) + le4(ps2.len() as u32),
                        wkb_polygons(ps2) + empty,
                        e.len() as int,
                    );
                    lemma_polygons_prefix_inj(ps1, ps2, empty, empty);
                },
                _ => {
                    assert(false);
                },
            }
        },
    }
}

} // verus!
