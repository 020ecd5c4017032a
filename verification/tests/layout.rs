//! Layout machinery: construction, slicing, generic round trips, the
//! relabeling between layout-identical variants, builders, the binary
//! codec and the chunked column.

use arctic::binary::{MutableWkbArray, WkbArray};
use arctic::buffer::{Bitmap, Buffer, ByteBuffer, OffsetsBuffer};
use arctic::column::{chunk_convert, Column, GeometryArrayEnum};
use arctic::error::GeoError;
use arctic::generic::{get_geoarrow_type, GenericArray, GeometryType};
use arctic::geom::{Coord, Geometry, LineString, MultiLineString, MultiPoint, MultiPolygon, Point, Polygon};
use arctic::geoseries::GeoSeries;
use arctic::linestring::{LineStringArray, MutableLineStringArray};
use arctic::multipoint::MultiPointArray;
use arctic::ops::length::euclidean_length;
use arctic::point::{MutablePointArray, PointArray};
use arctic::series::{LineStringSeries, PointSeries};
use arctic::polygon::MutablePolygonArray;
use arctic::wkb::{geometry_to_wkb, parse_geometry};

use geozero::{CoordDimensions, ToWkb};

fn c(x: f64, y: f64) -> Coord {
    Coord { x: x.to_bits(), y: y.to_bits() }
}

fn sample_linestring_array() -> LineStringArray {
    let mut builder = MutableLineStringArray::new();
    builder.push(Some(&LineString { coords: vec![c(0.0, 0.0), c(1.0, 1.0)] }));
    builder.push(None);
    builder.push(Some(&LineString { coords: vec![c(2.0, 2.0), c(3.0, 3.0), c(4.0, 4.0)] }));
    builder.push(Some(&LineString { coords: vec![] }));
    builder.push(Some(&LineString { coords: vec![c(5.0, 5.0), c(6.0, 6.0)] }));
    builder.finish()
}

#[test]
fn point_array_construction_and_access() {
    let x = Buffer::from_vec(vec![c(1.0, 0.0).x, c(2.0, 0.0).x]);
    let y = Buffer::from_vec(vec![c(0.0, 3.0).y, c(0.0, 4.0).y]);
    let arr = PointArray::try_new(x, y, None).unwrap();
    assert_eq!(arr.len(), 2);
    assert!(!arr.is_empty());
    let p = arr.value_as_geo(1);
    assert_eq!(f64::from_bits(p.coord.x), 2.0);
    assert_eq!(f64::from_bits(p.coord.y), 4.0);
    assert_eq!(arr.get_as_geo(0), Some(Point::new(1.0f64.to_bits(), 3.0f64.to_bits())));
}

#[test]
fn try_new_rejects_mismatched_lengths() {
    let x = Buffer::from_vec(vec![0u64, 1u64]);
    let y = Buffer::from_vec(vec![0u64]);
    assert_eq!(PointArray::try_new(x, y, None).unwrap_err(), GeoError::Layout);

    let x = Buffer::from_vec(vec![0u64, 1u64]);
    let y = Buffer::from_vec(vec![2u64, 3u64]);
    let validity = Bitmap::from_vec(vec![true]);
    assert_eq!(
        PointArray::try_new(x, y, Some(validity)).unwrap_err(),
        GeoError::Layout
    );
}

#[test]
fn builder_materializes_validity_retroactively() {
    // Scenario: push present, null, present; the bitmap appears only
    // with the first null and backfills the earlier rows.
    let mut builder = MutablePointArray::new();
    builder.push(Some(Point::new(1.0f64.to_bits(), 1.0f64.to_bits())));
    builder.push(None);
    builder.push(Some(Point::new(2.0f64.to_bits(), 2.0f64.to_bits())));
    let arr = builder.finish();

    assert_eq!(arr.len(), 3);
    assert!(arr.is_valid(0));
    assert!(!arr.is_valid(1));
    assert!(arr.is_valid(2));
    assert_eq!(arr.get_as_geo(1), None);
    let rows = arr.iter_geo();
    assert_eq!(
        rows,
        vec![
            Some(Point::new(1.0f64.to_bits(), 1.0f64.to_bits())),
            None,
            Some(Point::new(2.0f64.to_bits(), 2.0f64.to_bits())),
        ]
    );
}

#[test]
fn no_bitmap_before_first_null() {
    let mut builder = MutablePointArray::new();
    builder.push(Some(Point::new(0, 0)));
    builder.push(Some(Point::new(1, 1)));
    let arr = builder.finish();
    assert!(arr.validity().is_none());
}

#[test]
fn slice_composition_matches_single_slice() {
    let arr = sample_linestring_array();
    let twice = arr.slice(1, 3).unwrap().slice(1, 2).unwrap();
    let once = arr.slice(2, 2).unwrap();
    assert_eq!(twice.len(), once.len());
    for i in 0..once.len() {
        assert_eq!(twice.is_valid(i), once.is_valid(i));
        if once.is_valid(i) {
            assert_eq!(twice.value_as_geo(i), once.value_as_geo(i));
        }
    }
    assert_eq!(twice.validity().is_none(), once.validity().is_none());
}

#[test]
fn slice_out_of_bounds_is_a_bounds_error() {
    let arr = sample_linestring_array();
    assert_eq!(arr.slice(3, 3).unwrap_err(), GeoError::Bounds);
    assert!(arr.slice(5, 0).is_ok());
}

#[test]
fn slice_drops_bitmap_when_no_null_remains() {
    let arr = sample_linestring_array();
    assert!(arr.validity().is_some());
    // Rows 2..5 are all present, so the sliced view returns to the
    // zero-overhead no-bitmap state.
    let tail = arr.slice(2, 3).unwrap();
    assert!(tail.validity().is_none());
    // Rows 0..2 still hold the null, so the bitmap survives.
    let head = arr.slice(0, 2).unwrap();
    assert!(head.validity().is_some());
}

#[test]
fn generic_round_trip_linestring() {
    let arr = sample_linestring_array();
    let rows: Vec<Option<LineString>> = arr.iter_geo();
    let generic = arr.into_arrow();
    assert_eq!(get_geoarrow_type(&generic).unwrap(), GeometryType::LineString);
    let back = LineStringArray::try_from_arrow(generic).unwrap();
    assert_eq!(back.iter_geo(), rows);
    assert!(back.validity().is_some());
}

#[test]
fn generic_round_trip_point() {
    let mut builder = MutablePointArray::new();
    builder.push(Some(Point::new(1, 2)));
    builder.push(None);
    let arr = builder.finish();
    let generic = arr.into_arrow();
    assert_eq!(get_geoarrow_type(&generic).unwrap(), GeometryType::Point);
    let back = PointArray::try_from_arrow(generic).unwrap();
    assert_eq!(back.len(), 2);
    assert_eq!(back.get_as_geo(0), Some(Point::new(1, 2)));
    assert_eq!(back.get_as_geo(1), None);
}

#[test]
fn generic_round_trip_polygon() {
    let mut builder = MutablePolygonArray::new();
    let poly = Polygon {
        exterior: vec![c(0.0, 0.0), c(4.0, 0.0), c(4.0, 4.0), c(0.0, 0.0)],
        interiors: vec![vec![c(1.0, 1.0), c(2.0, 1.0), c(2.0, 2.0), c(1.0, 1.0)]],
    };
    builder.push(Some(&poly));
    builder.push(None);
    let arr = builder.finish();
    let generic = arr.into_arrow();
    assert_eq!(get_geoarrow_type(&generic).unwrap(), GeometryType::Polygon);
    let back = arctic::polygon::PolygonArray::try_from_arrow(generic).unwrap();
    assert_eq!(back.len(), 2);
    assert_eq!(back.get_as_geo(0), Some(poly));
    assert_eq!(back.get_as_geo(1), None);
}

#[test]
fn generic_round_trip_wkb() {
    let mut builder = MutableWkbArray::new();
    let payload = geometry_to_wkb(&Geometry::Point(Point::new(7, 9)));
    builder.push(Some(&payload));
    let arr = builder.finish();
    let generic = arr.into_arrow();
    assert_eq!(get_geoarrow_type(&generic).unwrap(), GeometryType::WKB);
    let back = WkbArray::try_from_arrow(generic).unwrap();
    assert_eq!(back.len(), 1);
    assert_eq!(back.value_bytes(0).to_vec(), payload);
}

#[test]
fn empty_array_round_trips_and_rejects_access() {
    // Scenario: an empty array with no validity bitmap survives the
    // generic round trip, and indexed access reports bounds.
    let builder = MutablePointArray::new();
    let arr = builder.finish();
    assert_eq!(arr.len(), 0);
    assert!(arr.validity().is_none());
    assert_eq!(arr.get(0).unwrap_err(), GeoError::Bounds);
    let back = PointArray::try_from_arrow(arr.into_arrow()).unwrap();
    assert_eq!(back.len(), 0);
    assert!(back.validity().is_none());
    assert_eq!(back.get(0).unwrap_err(), GeoError::Bounds);
}

#[test]
fn unsupported_generic_shape_is_rejected() {
    let flat = GenericArray::Float64 { values: Buffer::from_vec(vec![0u64]), validity: None };
    assert_eq!(get_geoarrow_type(&flat).unwrap_err(), GeoError::UnsupportedEncoding);
    assert!(chunk_convert(flat).is_err());
    let wrong = GenericArray::Float64 { values: Buffer::from_vec(vec![0u64]), validity: None };
    assert_eq!(LineStringArray::try_from_arrow(wrong).unwrap_err(), GeoError::Layout);
}

#[test]
fn reinterpret_linestring_as_multipoint_is_lossless() {
    let arr = sample_linestring_array();
    let x_before: Vec<u64> = arr.x.to_vec();
    let y_before: Vec<u64> = arr.y.to_vec();
    let len_before = arr.len();
    let valid_before: Vec<bool> = (0..len_before).map(|i| arr.is_valid(i)).collect();
    let row2 = arr.value_as_geo(2);

    let mp: MultiPointArray = arr.into_multi_point();
    assert_eq!(mp.len(), len_before);
    assert_eq!(mp.x.to_vec(), x_before);
    assert_eq!(mp.y.to_vec(), y_before);
    for i in 0..len_before {
        assert_eq!(mp.is_valid(i), valid_before[i]);
    }
    // Same physical read, different semantic wrapping.
    assert_eq!(mp.value_as_geo(2).points, row2.coords);

    let back: LineStringArray = mp.into_line_string();
    assert_eq!(back.len(), len_before);
    assert_eq!(back.value_as_geo(2), row2);
}

#[test]
fn wkb_codec_round_trips_every_shape() {
    let shapes = vec![
        Geometry::Point(Point::new(1.5f64.to_bits(), 2.5f64.to_bits())),
        Geometry::LineString(LineString { coords: vec![c(0.0, 0.0), c(1.0, 2.0)] }),
        Geometry::LineString(LineString { coords: vec![] }),
        Geometry::Polygon(Polygon {
            exterior: vec![c(0.0, 0.0), c(1.0, 0.0), c(1.0, 1.0), c(0.0, 0.0)],
            interiors: vec![vec![c(0.2, 0.2), c(0.4, 0.2), c(0.4, 0.4), c(0.2, 0.2)]],
        }),
        Geometry::MultiPoint(MultiPoint { points: vec![c(1.0, 1.0), c(2.0, 2.0)] }),
        Geometry::MultiLineString(MultiLineString {
            lines: vec![
                LineString { coords: vec![c(0.0, 0.0), c(1.0, 1.0)] },
                LineString { coords: vec![c(2.0, 2.0), c(3.0, 3.0)] },
            ],
        }),
        Geometry::MultiPolygon(MultiPolygon {
            polygons: vec![Polygon {
                exterior: vec![c(0.0, 0.0), c(2.0, 0.0), c(2.0, 2.0), c(0.0, 0.0)],
                interiors: vec![],
            }],
        }),
    ];
    for g in shapes {
        let bytes = geometry_to_wkb(&g);
        let parsed = parse_geometry(&ByteBuffer::from_vec(bytes)).unwrap();
        assert_eq!(parsed, g);
    }
}

#[test]
fn wkb_codec_matches_external_encoder() {
    let ls = geo::LineString::from(vec![(1.0, 1.0), (7.0, 1.0), (11.0, 3.5)]);
    let external = geo::Geometry::LineString(ls.clone())
        .to_wkb(CoordDimensions::xy())
        .unwrap();
    let own = geometry_to_wkb(&Geometry::LineString(LineString {
        coords: ls.coords().map(|p| c(p.x, p.y)).collect(),
    }));
    assert_eq!(own, external);
}

#[test]
fn wkb_parser_rejects_malformed_bytes() {
    // Big-endian marker.
    let mut bytes = geometry_to_wkb(&Geometry::Point(Point::new(0, 0)));
    bytes[0] = 0;
    assert_eq!(
        parse_geometry(&ByteBuffer::from_vec(bytes)).unwrap_err(),
        GeoError::Decode
    );
    // Unsupported geometry tag.
    let mut bytes = geometry_to_wkb(&Geometry::Point(Point::new(0, 0)));
    bytes[1] = 9;
    assert_eq!(
        parse_geometry(&ByteBuffer::from_vec(bytes)).unwrap_err(),
        GeoError::Decode
    );
    // Truncated payload.
    let mut bytes = geometry_to_wkb(&Geometry::Point(Point::new(0, 0)));
    bytes.pop();
    assert_eq!(
        parse_geometry(&ByteBuffer::from_vec(bytes)).unwrap_err(),
        GeoError::Decode
    );
    // Trailing garbage.
    let mut bytes = geometry_to_wkb(&Geometry::Point(Point::new(0, 0)));
    bytes.push(0);
    assert_eq!(
        parse_geometry(&ByteBuffer::from_vec(bytes)).unwrap_err(),
        GeoError::Decode
    );
    // Empty payload.
    assert_eq!(
        parse_geometry(&ByteBuffer::from_vec(vec![])).unwrap_err(),
        GeoError::Decode
    );
}

#[test]
fn column_flattens_chunks() {
    let mut b1 = MutablePointArray::new();
    b1.push(Some(Point::new(1, 1)));
    b1.push(None);
    let mut b2 = MutablePointArray::new();
    b2.push(Some(Point::new(3, 3)));
    let col = Column {
        chunks: vec![
            GeometryArrayEnum::Point(b1.finish()),
            GeometryArrayEnum::Point(b2.finish()),
        ],
    };
    assert_eq!(col.len(), 3);
    assert_eq!(col.geometry_type(), GeometryType::Point);
    assert_eq!(col.index_to_chunked_index(2), (1, 0));
    assert_eq!(
        col.get_as_geo(0).unwrap(),
        Some(Geometry::Point(Point::new(1, 1)))
    );
    assert_eq!(col.get_as_geo(1).unwrap(), None);
    assert_eq!(
        col.get_as_geo(2).unwrap(),
        Some(Geometry::Point(Point::new(3, 3)))
    );
    assert_eq!(col.get_as_geo(3).unwrap_err(), GeoError::Bounds);
}

#[test]
fn dispatch_propagates_nulls_and_skips_the_capability() {
    // The capability fails on every input; since the only row is null it
    // is never invoked and the output is a null row.
    let mut builder = MutableLineStringArray::new();
    builder.push(None);
    builder.push(Some(&LineString { coords: vec![c(0.0, 0.0), c(3.0, 4.0)] }));
    let col = Column { chunks: vec![GeometryArrayEnum::LineString(builder.finish())] };

    let counted = |g: &Geometry| -> Result<u64, GeoError> {
        match g {
            Geometry::LineString(_) => Ok(5.0f64.to_bits()),
            _ => Err(GeoError::Compute),
        }
    };
    let out = euclidean_length(&col, &counted).unwrap();
    assert_eq!(out.len(), 2);
    assert_eq!(out.get(0), None);
    assert_eq!(out.get(1), Some(5.0f64.to_bits()));
}

#[test]
fn dispatch_aborts_on_capability_error() {
    let mut builder = MutableLineStringArray::new();
    builder.push(Some(&LineString { coords: vec![c(0.0, 0.0), c(3.0, 4.0)] }));
    let col = Column { chunks: vec![GeometryArrayEnum::LineString(builder.finish())] };
    let failing = |_g: &Geometry| -> Result<u64, GeoError> { Err(GeoError::Compute) };
    assert_eq!(
        euclidean_length(&col, &failing).unwrap_err(),
        GeoError::Compute
    );
}

#[test]
fn euclidean_length_rejects_unsupported_variant() {
    let mut builder = MutablePolygonArray::new();
    builder.push(Some(&Polygon {
        exterior: vec![c(0.0, 0.0), c(1.0, 0.0), c(1.0, 1.0), c(0.0, 0.0)],
        interiors: vec![],
    }));
    let col = Column { chunks: vec![GeometryArrayEnum::Polygon(builder.finish())] };
    let f = |_g: &Geometry| -> Result<u64, GeoError> { Ok(0) };
    assert_eq!(
        euclidean_length(&col, &f).unwrap_err(),
        GeoError::UnsupportedEncoding
    );
}

#[test]
fn point_column_euclidean_length_is_zero() {
    let mut builder = MutablePointArray::new();
    builder.push(Some(Point::new(5.0f64.to_bits(), 5.0f64.to_bits())));
    builder.push(None);
    let col = Column { chunks: vec![GeometryArrayEnum::Point(builder.finish())] };
    let must_not_run = |_g: &Geometry| -> Result<u64, GeoError> { Err(GeoError::Compute) };
    let out = euclidean_length(&col, &must_not_run).unwrap();
    assert_eq!(out.get(0), Some(0.0f64.to_bits()));
    assert_eq!(out.get(1), None);
}

#[test]
fn centroid_encodes_wkb_output() {
    let mut builder = MutableWkbArray::new();
    let payload = geometry_to_wkb(&Geometry::LineString(LineString {
        coords: vec![c(0.0, 0.0), c(2.0, 2.0)],
    }));
    builder.push(Some(&payload));
    let col = Column { chunks: vec![GeometryArrayEnum::WKB(builder.finish())] };

    let centroid_of = |g: &Geometry| -> Result<Geometry, GeoError> {
        match g {
            Geometry::LineString(ls) => {
                let n = ls.coords.len() as f64;
                let sx: f64 = ls.coords.iter().map(|p| f64::from_bits(p.x)).sum();
                let sy: f64 = ls.coords.iter().map(|p| f64::from_bits(p.y)).sum();
                Ok(Geometry::Point(Point::new((sx / n).to_bits(), (sy / n).to_bits())))
            }
            _ => Err(GeoError::Compute),
        }
    };
    let out = col.centroid(&centroid_of).unwrap();
    assert_eq!(out.geometry_type(), GeometryType::WKB);
    assert_eq!(
        out.get_as_geo(0).unwrap(),
        Some(Geometry::Point(Point::new(1.0f64.to_bits(), 1.0f64.to_bits())))
    );
}

#[test]
fn offsets_validation_rejects_decreasing_offsets() {
    let x = Buffer::from_vec(vec![0u64; 4]);
    let y = Buffer::from_vec(vec![0u64; 4]);
    let offsets = OffsetsBuffer::from_vec(vec![0, 2, 4]);
    let generic = GenericArray::List {
        offsets,
        values: Box::new(GenericArray::Coords { x, y, validity: None }),
        validity: None,
    };
    assert!(LineStringArray::try_from_arrow(generic).is_ok());

    // An offsets window pointing past the coordinates is a layout error.
    let x = Buffer::from_vec(vec![0u64; 4]);
    let y = Buffer::from_vec(vec![0u64; 4]);
    let offsets = OffsetsBuffer::from_vec(vec![0, 2, 9]);
    let generic = GenericArray::List {
        offsets,
        values: Box::new(GenericArray::Coords { x, y, validity: None }),
        validity: None,
    };
    assert_eq!(
        LineStringArray::try_from_arrow(generic).unwrap_err(),
        GeoError::Layout
    );
}

#[test]
fn column_try_new_resolves_and_rejects() {
    let x = Buffer::from_vec(vec![1u64, 2u64]);
    let y = Buffer::from_vec(vec![3u64, 4u64]);
    let points = GenericArray::Coords { x, y, validity: None };
    let col = Column::try_new(vec![points]).unwrap();
    assert_eq!(col.geometry_type(), GeometryType::Point);
    assert_eq!(col.len(), 2);

    assert_eq!(
        Column::try_new(vec![]).unwrap_err(),
        GeoError::UnsupportedEncoding
    );

    let x = Buffer::from_vec(vec![1u64]);
    let y = Buffer::from_vec(vec![3u64]);
    let points = GenericArray::Coords { x, y, validity: None };
    let flat = GenericArray::Float64 { values: Buffer::from_vec(vec![0u64]), validity: None };
    assert_eq!(
        Column::try_new(vec![points, flat]).unwrap_err(),
        GeoError::UnsupportedEncoding
    );

    let x = Buffer::from_vec(vec![1u64]);
    let y = Buffer::from_vec(vec![3u64]);
    let points = GenericArray::Coords { x, y, validity: None };
    let bytes = GenericArray::Binary {
        offsets: OffsetsBuffer::from_vec(vec![0, 0]),
        bytes: ByteBuffer::from_vec(vec![]),
        validity: None,
    };
    assert_eq!(
        Column::try_new(vec![points, bytes]).unwrap_err(),
        GeoError::UnsupportedEncoding
    );
}

#[test]
fn typed_series_views_expose_rows_and_chunks() {
    let mut builder = MutablePointArray::new();
    builder.push(Some(Point::new(1, 10)));
    builder.push(None);
    let arr = builder.finish();
    let parts = arr.parts();
    assert_eq!(parts.len(), 2);
    assert!(!parts.is_empty());
    assert_eq!(parts.get_as_geo(0), Some(Point::new(1, 10)));
    assert_eq!(parts.get_as_geo(1), None);

    let series = PointSeries(Column { chunks: vec![GeometryArrayEnum::Point(arr)] });
    assert_eq!(series.get_as_geo(0), Some(Point::new(1, 10)));
    assert_eq!(series.get_as_geo(1), None);
    let typed = series.chunks();
    assert_eq!(typed.len(), 1);
    assert_eq!(typed[0].get_as_geo(0), Some(Point::new(1, 10)));

    let ls_series = LineStringSeries(Column {
        chunks: vec![GeometryArrayEnum::LineString(sample_linestring_array())],
    });
    assert_eq!(ls_series.get_as_geo(1), None);
    assert_eq!(
        ls_series.get_as_geo(2),
        Some(LineString { coords: vec![c(2.0, 2.0), c(3.0, 3.0), c(4.0, 4.0)] })
    );
    assert_eq!(ls_series.chunks().len(), 1);
}

#[test]
fn wkb_array_slice_narrows_rows_only() {
    let mut builder = MutableWkbArray::new();
    let a = geometry_to_wkb(&Geometry::Point(Point::new(1, 1)));
    let b = geometry_to_wkb(&Geometry::Point(Point::new(2, 2)));
    builder.push(Some(&a));
    builder.push(None);
    builder.push(Some(&b));
    let arr = builder.finish();
    let tail = arr.slice(2, 1).unwrap();
    assert_eq!(tail.len(), 1);
    assert!(tail.validity().is_none());
    assert_eq!(tail.value_bytes(0).to_vec(), b);
    assert_eq!(arr.slice(2, 2).unwrap_err(), GeoError::Bounds);
}

#[test]
fn undecodable_row_aborts_with_decode_error() {
    // A present binary row whose payload is not a WKB encoding makes
    // the whole operation abort with a decode error.
    let mut builder = MutableWkbArray::new();
    let mut bytes = geometry_to_wkb(&Geometry::Point(Point::new(1, 1)));
    bytes[1] = 9;
    builder.push(Some(&bytes));
    let col = Column { chunks: vec![GeometryArrayEnum::WKB(builder.finish())] };
    let f = |_g: &Geometry| -> Result<u64, GeoError> { Ok(0) };
    assert_eq!(euclidean_length(&col, &f).unwrap_err(), GeoError::Decode);
    assert_eq!(col.get_as_geo(0).unwrap_err(), GeoError::Decode);

    // A null row with the same garbage payload span is never decoded.
    let mut builder = MutableWkbArray::new();
    builder.push(None);
    let col = Column { chunks: vec![GeometryArrayEnum::WKB(builder.finish())] };
    assert_eq!(col.get_as_geo(0).unwrap(), None);
    assert!(euclidean_length(&col, &f).is_ok());
}

#[test]
fn null_row_occupies_a_zero_length_span() {
    let mut builder = MutableLineStringArray::new();
    builder.push(Some(&LineString { coords: vec![c(1.0, 1.0)] }));
    builder.push(None);
    builder.push(Some(&LineString { coords: vec![c(2.0, 2.0)] }));
    let arr = builder.finish();
    // The null row's offsets pair delimits an empty coordinate range.
    assert_eq!(arr.geom_offsets.get(1), arr.geom_offsets.get(2));
    assert_eq!(arr.geom_offsets.get(1), 1);
    assert_eq!(arr.geom_offsets.get(3), 2);
    assert_eq!(arr.get_as_geo(2), Some(LineString { coords: vec![c(2.0, 2.0)] }));
}
