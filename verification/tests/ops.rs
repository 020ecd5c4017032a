//! Column operations exercised end to end with real geometry formulas
//! supplied as capabilities.

use arctic::column::{Column, GeometryArrayEnum};
use arctic::binary::MutableWkbArray;
use arctic::error::GeoError;
use arctic::geom::{Coord, Geometry, LineString, MultiLineString, MultiPoint, MultiPolygon, Point, Polygon};
use arctic::linestring::MutableLineStringArray;
use arctic::ops::convex_hull::convex_hull;
use arctic::ops::length::GeodesicLengthMethod;
use arctic::series::PolygonSeries;

use geo::algorithm::convex_hull::ConvexHull;
use geo::algorithm::euclidean_length::EuclideanLength;
use geo::algorithm::geodesic_length::GeodesicLength;
use geo::algorithm::haversine_length::HaversineLength;
use geo::algorithm::vincenty_length::VincentyLength;
use geozero::{CoordDimensions, ToWkb};

fn lib_coord(c: geo::Coord<f64>) -> Coord {
    Coord { x: c.x.to_bits(), y: c.y.to_bits() }
}

fn geo_coord(c: &Coord) -> geo::Coord<f64> {
    geo::Coord { x: f64::from_bits(c.x), y: f64::from_bits(c.y) }
}

fn lib_ring(ls: &geo::LineString<f64>) -> Vec<Coord> {
    ls.coords().map(|c| lib_coord(*c)).collect()
}

fn geo_ring(cs: &[Coord]) -> geo::LineString<f64> {
    geo::LineString::new(cs.iter().map(geo_coord).collect())
}

fn to_geo_geometry(g: &Geometry) -> geo::Geometry<f64> {
    match g {
        Geometry::Point(p) => geo::Geometry::Point(geo::Point(geo_coord(&p.coord))),
        Geometry::LineString(ls) => geo::Geometry::LineString(geo_ring(&ls.coords)),
        Geometry::Polygon(p) => geo::Geometry::Polygon(geo::Polygon::new(
            geo_ring(&p.exterior),
            p.interiors.iter().map(|r| geo_ring(r)).collect(),
        )),
        Geometry::MultiPoint(mp) => geo::Geometry::MultiPoint(geo::MultiPoint(
            mp.points.iter().map(|c| geo::Point(geo_coord(c))).collect(),
        )),
        Geometry::MultiLineString(mls) => geo::Geometry::MultiLineString(geo::MultiLineString(
            mls.lines.iter().map(|ls| geo_ring(&ls.coords)).collect(),
        )),
        Geometry::MultiPolygon(mp) => geo::Geometry::MultiPolygon(geo::MultiPolygon(
            mp.polygons
                .iter()
                .map(|p| {
                    geo::Polygon::new(
                        geo_ring(&p.exterior),
                        p.interiors.iter().map(|r| geo_ring(r)).collect(),
                    )
                })
                .collect(),
        )),
    }
}

fn lib_polygon(p: &geo::Polygon<f64>) -> Polygon {
    Polygon {
        exterior: lib_ring(p.exterior()),
        interiors: p.interiors().iter().map(lib_ring).collect(),
    }
}

fn hull_capability(g: &Geometry) -> Result<Geometry, GeoError> {
    let hull: geo::Polygon<f64> = match to_geo_geometry(g) {
        geo::Geometry::Polygon(polygon) => polygon.convex_hull(),
        geo::Geometry::MultiPolygon(multi_poly) => multi_poly.convex_hull(),
        geo::Geometry::MultiPoint(points) => points.convex_hull(),
        geo::Geometry::LineString(line_string) => line_string.convex_hull(),
        geo::Geometry::MultiLineString(multi_line_string) => multi_line_string.convex_hull(),
        _ => return Err(GeoError::Compute),
    };
    Ok(Geometry::Polygon(lib_polygon(&hull)))
}

fn euclidean_capability(g: &Geometry) -> Result<u64, GeoError> {
    let length: f64 = match to_geo_geometry(g) {
        geo::Geometry::Point(_) => 0.0,
        geo::Geometry::LineString(line_string) => line_string.euclidean_length(),
        geo::Geometry::Polygon(polygon) => polygon.exterior().euclidean_length(),
        geo::Geometry::MultiPoint(_) => 0.0,
        geo::Geometry::MultiLineString(multi_line_string) => multi_line_string.euclidean_length(),
        geo::Geometry::MultiPolygon(multi_polygon) => multi_polygon
            .iter()
            .map(|poly| poly.exterior().euclidean_length())
            .sum(),
        _ => return Err(GeoError::Compute),
    };
    Ok(length.to_bits())
}

fn geodesic_capability(method: GeodesicLengthMethod, g: &Geometry) -> Result<u64, GeoError> {
    let to_compute = to_geo_geometry(g);
    let length: f64 = match (&method, to_compute) {
        (_, geo::Geometry::Point(_)) => 0.0,
        (_, geo::Geometry::MultiPoint(_)) => 0.0,
        (GeodesicLengthMethod::Haversine, geo::Geometry::LineString(ls)) => ls.haversine_length(),
        (GeodesicLengthMethod::Geodesic, geo::Geometry::LineString(ls)) => ls.geodesic_length(),
        (GeodesicLengthMethod::Vincenty, geo::Geometry::LineString(ls)) => {
            ls.vincenty_length().map_err(|_| GeoError::Compute)?
        }
        (GeodesicLengthMethod::Haversine, geo::Geometry::Polygon(p)) => {
            p.exterior().haversine_length()
        }
        (GeodesicLengthMethod::Geodesic, geo::Geometry::Polygon(p)) => {
            p.exterior().geodesic_length()
        }
        (GeodesicLengthMethod::Vincenty, geo::Geometry::Polygon(p)) => {
            p.exterior().vincenty_length().map_err(|_| GeoError::Compute)?
        }
        (GeodesicLengthMethod::Haversine, geo::Geometry::MultiLineString(mls)) => {
            mls.haversine_length()
        }
        (GeodesicLengthMethod::Geodesic, geo::Geometry::MultiLineString(mls)) => {
            mls.geodesic_length()
        }
        (GeodesicLengthMethod::Vincenty, geo::Geometry::MultiLineString(mls)) => {
            mls.vincenty_length().map_err(|_| GeoError::Compute)?
        }
        (GeodesicLengthMethod::Haversine, geo::Geometry::MultiPolygon(mp)) => mp
            .iter()
            .map(|poly| poly.exterior().haversine_length())
            .sum(),
        (GeodesicLengthMethod::Geodesic, geo::Geometry::MultiPolygon(mp)) => mp
            .iter()
            .map(|poly| poly.exterior().geodesic_length())
            .sum(),
        (GeodesicLengthMethod::Vincenty, geo::Geometry::MultiPolygon(mp)) => {
            let lengths: Result<Vec<f64>, _> = mp
                .iter()
                .map(|poly| poly.exterior().vincenty_length())
                .collect();
            lengths.map_err(|_| GeoError::Compute)?.iter().sum()
        }
        _ => return Err(GeoError::Compute),
    };
    Ok(length.to_bits())
}

fn wkb_column_of(g: &geo::Geometry<f64>) -> Column {
    let wkb = g.to_wkb(CoordDimensions::xy()).unwrap();
    let mut builder = MutableWkbArray::new();
    builder.push(Some(&wkb));
    Column { chunks: vec![GeometryArrayEnum::WKB(builder.finish())] }
}

#[test]
fn convex_hull_for_multipoint() {
    // Values borrowed from the convex hull fixture of the geo crate.
    let v = vec![
        geo::Point::new(0.0, 10.0),
        geo::Point::new(1.0, 1.0),
        geo::Point::new(10.0, 0.0),
        geo::Point::new(1.0, -1.0),
        geo::Point::new(0.0, -10.0),
        geo::Point::new(-1.0, -1.0),
        geo::Point::new(-10.0, 0.0),
        geo::Point::new(-1.0, 1.0),
        geo::Point::new(0.0, 10.0),
    ];
    let mp = geo::MultiPoint(v);

    let correct_poly: geo::Geometry<f64> = geo::Polygon::new(
        geo::LineString::from(vec![
            (0.0, -10.0),
            (10.0, 0.0),
            (0.0, 10.0),
            (-10.0, 0.0),
            (0.0, -10.0),
        ]),
        vec![],
    )
    .into();

    let test_geom: geo::Geometry<f64> = mp.into();
    let series = wkb_column_of(&test_geom);
    let convex_res = convex_hull(&series, &hull_capability);

    assert!(
        convex_res.is_ok(),
        "Should get a valid result back from convex hull"
    );
    let convex_res = convex_res.unwrap();

    assert_eq!(
        convex_res.len(),
        1,
        "Should get a single result back from the series"
    );
    let result = to_geo_geometry(&convex_res.get_as_geo(0).unwrap().unwrap());

    assert_eq!(result, correct_poly, "Should get the correct convex hull");
}

#[test]
fn convex_hull_linestring_test() {
    let line_string = geo::LineString::from(vec![
        (0.0, 10.0),
        (1.0, 1.0),
        (10.0, 0.0),
        (1.0, -1.0),
        (0.0, -10.0),
        (-1.0, -1.0),
        (-10.0, 0.0),
        (-1.0, 1.0),
        (0.0, 10.0),
    ]);
    let expected = geo::Polygon::new(
        geo::LineString::from(vec![
            (0.0, -10.0),
            (10.0, 0.0),
            (0.0, 10.0),
            (-10.0, 0.0),
            (0.0, -10.0),
        ]),
        vec![],
    );

    let lib_ls = LineString { coords: lib_ring(&line_string) };
    let mut builder = MutableLineStringArray::new();
    builder.push(Some(&lib_ls));
    let series = Column { chunks: vec![GeometryArrayEnum::LineString(builder.finish())] };

    let actual = convex_hull(&series, &hull_capability).unwrap();
    let actual_geo = PolygonSeries(actual).get_as_geo(0).unwrap();
    let actual_geo = match to_geo_geometry(&Geometry::Polygon(actual_geo)) {
        geo::Geometry::Polygon(p) => p,
        _ => unreachable!(),
    };
    assert_eq!(actual_geo, expected);
}

#[test]
fn euclidean_length() {
    let line_string: geo::Geometry<f64> = geo::LineString::from(vec![
        (1.0, 1.0),
        (7.0, 1.0),
        (8.0, 1.0),
        (9.0, 1.0),
        (10.0, 1.0),
        (11.0, 1.0),
    ])
    .into();

    let series = wkb_column_of(&line_string);
    let lengths = arctic::ops::length::euclidean_length(&series, &euclidean_capability).unwrap();
    let as_vec: Vec<f64> = (0..lengths.len())
        .map(|i| f64::from_bits(lengths.get(i).unwrap()))
        .collect();

    assert_eq!(10.0_f64, as_vec[0]);
}

#[test]
fn euclidean_length_geoarrow_linestring() {
    let line_string = geo::LineString::from(vec![
        (1.0, 1.0),
        (7.0, 1.0),
        (8.0, 1.0),
        (9.0, 1.0),
        (10.0, 1.0),
        (11.0, 1.0),
    ]);
    let lib_ls = LineString { coords: lib_ring(&line_string) };
    let mut builder = MutableLineStringArray::new();
    builder.push(Some(&lib_ls));
    let series = Column { chunks: vec![GeometryArrayEnum::LineString(builder.finish())] };

    let actual = arctic::ops::length::euclidean_length(&series, &euclidean_capability).unwrap();
    assert_eq!(f64::from_bits(actual.get(0).unwrap()), 10.0_f64);
}

#[test]
fn haversine_length() {
    let line_string: geo::Geometry<f64> = geo::LineString::from(vec![
        // New York City
        (-74.006, 40.7128),
        // London
        (-0.1278, 51.5074),
    ])
    .into();

    let series = wkb_column_of(&line_string);
    let lengths = arctic::ops::length::geodesic_length(
        &series,
        GeodesicLengthMethod::Haversine,
        &geodesic_capability,
    )
    .unwrap();
    let as_vec: Vec<f64> = (0..lengths.len())
        .map(|i| f64::from_bits(lengths.get(i).unwrap()))
        .collect();

    assert_eq!(
        5_570_230., // meters
        as_vec[0].round()
    );
}

#[test]
fn vincenty_length() {
    let line_string: geo::Geometry<f64> = geo::LineString::from(vec![
        // New York City
        (-74.006, 40.7128),
        // London
        (-0.1278, 51.5074),
    ])
    .into();

    let series = wkb_column_of(&line_string);
    let lengths = arctic::ops::length::geodesic_length(
        &series,
        GeodesicLengthMethod::Vincenty,
        &geodesic_capability,
    )
    .unwrap();
    let as_vec: Vec<f64> = (0..lengths.len())
        .map(|i| f64::from_bits(lengths.get(i).unwrap()))
        .collect();

    assert_eq!(
        5585234., // meters
        as_vec[0].round()
    );
}

#[test]
fn geodesic_length() {
    let line_string: geo::Geometry<f64> = geo::LineString::from(vec![
        // New York City
        (-74.006, 40.7128),
        // London
        (-0.1278, 51.5074),
        // Osaka
        (135.5244559, 34.687455),
    ])
    .into();

    let series = wkb_column_of(&line_string);
    let lengths = arctic::ops::length::geodesic_length(
        &series,
        GeodesicLengthMethod::Geodesic,
        &geodesic_capability,
    )
    .unwrap();
    let as_vec: Vec<f64> = (0..lengths.len())
        .map(|i| f64::from_bits(lengths.get(i).unwrap()))
        .collect();

    assert_eq!(
        15_109_158., // meters
        as_vec[0].round()
    );
}
