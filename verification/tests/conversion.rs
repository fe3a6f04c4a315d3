//! Round trips through the geometry stream protocol: emit a flat geometry
//! with the reader, replay the recorded events into a builder, and check
//! what comes back. Coordinates enter the library as `f64` bit patterns.

use flatgeom::Geometry;
use flatgeom::Geometry2;
use flatgeom::Geometry3;
use flatgeom::LineString2;
use flatgeom::LineString3;
use flatgeom::MultiLineString2;
use flatgeom::MultiLineString3;
use flatgeom::MultiPoint2;
use flatgeom::MultiPoint3;
use flatgeom::MultiPolygon2;
use flatgeom::MultiPolygon3;
use flatgeom::Polygon2;
use flatgeom::Polygon3;
use flatgeom::convert::ToFlatgeom;
use flatgeom::protocol::EventLog;
use flatgeom::protocol::GeomEvent;
use flatgeom::protocol::play;
use flatgeom::reader::process_geometry;
use flatgeom::reader::process_linestring;
use flatgeom::reader::process_multilinestring;
use flatgeom::reader::process_multipoint;
use flatgeom::reader::process_multipolygon;
use flatgeom::reader::process_polygon;
use flatgeom::writer::FlatgeomWriter;

fn c2(pts: &[[f64; 2]]) -> Vec<u64> {
    let mut v = Vec::new();
    for p in pts {
        v.push(p[0].to_bits());
        v.push(p[1].to_bits());
    }
    v
}

fn c3(pts: &[[f64; 3]]) -> Vec<u64> {
    let mut v = Vec::new();
    for p in pts {
        v.push(p[0].to_bits());
        v.push(p[1].to_bits());
        v.push(p[2].to_bits());
    }
    v
}

fn coordinate_event_count(events: &[GeomEvent]) -> usize {
    events
        .iter()
        .filter(|e| matches!(e, GeomEvent::Xy { .. } | GeomEvent::Coordinate { .. }))
        .count()
}

#[test]
fn multipolygon() {
    let mut mpoly = MultiPolygon2::new();
    // 1st polygon
    let mut poly1 = Polygon2::new();
    poly1.add_ring(&c2(&[[0., 0.], [5., 0.], [5., 5.], [0., 5.]])); // exterior
    poly1.add_ring(&c2(&[[1., 1.], [2., 1.], [2., 2.], [1., 2.]])); // interior
    poly1.add_ring(&c2(&[[3., 3.], [4., 3.], [4., 4.], [3., 4.]])); // interior
    mpoly.push(&poly1);

    // 2nd polygon
    let mut poly2 = Polygon2::new();
    poly2.add_ring(&c2(&[[4., 0.], [7., 0.], [7., 3.], [4., 3.]])); // exterior
    poly2.add_ring(&c2(&[[5., 1.], [6., 1.], [6., 2.], [5., 2.]])); // interior
    mpoly.push(&poly2);

    // 3rd polygon
    let mut poly3 = Polygon2::new();
    poly3.add_ring(&c2(&[[4., 0.], [7., 0.], [7., 3.], [4., 3.]])); // exterior
    mpoly.push(&poly3);

    // Conversion: emit through the protocol, rebuild on the other side.
    let mut log = EventLog::new(false);
    let Ok(()) = process_multipolygon(&mpoly, &mut log, 0) else {
        panic!("Conversion failed");
    };
    let mut writer = FlatgeomWriter::<2>::new();
    let Ok(()) = play(log.events(), &mut writer) else {
        panic!("Conversion failed");
    };
    match writer.take_geometry() {
        Some(Geometry::MultiPolygon(built)) => {
            assert_eq!(built.len(), 3);
            assert_eq!(built.ring_len(0, 0), 5); // ring must be closed
            assert_eq!(built.num_rings(0) - 1, 2); // interiors
        }
        _ => panic!("Geometry type must be MultiPolygon"),
    };

    // Inversion
    let Ok(flat) = mpoly.to_flatgeom() else {
        panic!("Conversion failed");
    };
    match &flat {
        Geometry::MultiPolygon(mpoly) => {
            assert_eq!(mpoly.len(), 3);
        }
        _ => panic!("MultiPolygon is expected"),
    }
}

#[test]
fn multipolygon3d() {
    let mut mpoly = MultiPolygon3::new();
    // 1st polygon
    let mut poly1 = Polygon3::new();
    poly1.add_ring(&c3(&[[0., 0., 0.], [5., 0., 0.], [5., 5., 0.], [0., 5., 0.]])); // exterior
    poly1.add_ring(&c3(&[[1., 1., 0.], [2., 1., 0.], [2., 2., 0.], [1., 2., 0.]])); // interior
    poly1.add_ring(&c3(&[[3., 3., 0.], [4., 3., 0.], [4., 4., 0.], [3., 4., 0.]])); // interior
    mpoly.push(&poly1);

    // 2nd polygon
    let mut poly2 = Polygon3::new();
    poly2.add_ring(&c3(&[[4., 0., 0.], [7., 0., 0.], [7., 3., 0.], [4., 3., 0.]])); // exterior
    poly2.add_ring(&c3(&[[5., 1., 0.], [6., 1., 0.], [6., 2., 0.], [5., 2., 0.]])); // interior
    mpoly.push(&poly2);

    // 3rd polygon
    let mut poly3 = Polygon3::new();
    poly3.add_ring(&c3(&[[4., 0., 0.], [7., 0., 0.], [7., 3., 0.], [4., 3., 0.]])); // exterior
    mpoly.push(&poly3);

    let Ok(flat) = mpoly.to_flatgeom() else {
        panic!("Conversion failed");
    };
    match &flat {
        Geometry::MultiPolygon(mpoly) => {
            assert_eq!(mpoly.len(), 3);
        }
        _ => panic!("MultiPolygon is expected"),
    }
}

#[test]
fn polygon() {
    let mut poly = Polygon2::new();
    poly.add_ring(&c2(&[[0., 0.], [5., 0.], [5., 5.], [0., 5.]])); // exterior
    poly.add_ring(&c2(&[[1., 1.], [2., 1.], [2., 2.], [1., 2.]])); // interior
    poly.add_ring(&c2(&[[3., 3.], [4., 3.], [4., 4.], [3., 4.]])); // interior

    // Conversion
    let mut log = EventLog::new(false);
    let Ok(()) = process_polygon(&poly, &mut log, 0) else {
        panic!("Conversion failed");
    };
    let mut writer = FlatgeomWriter::<2>::new();
    let Ok(()) = play(log.events(), &mut writer) else {
        panic!("Conversion failed");
    };
    match writer.take_geometry() {
        Some(Geometry::Polygon(built)) => {
            assert_eq!(built.ring_len(0), 5); // ring must be closed
            assert_eq!(built.len() - 1, 2); // interiors
        }
        _ => panic!("Geometry type must be Polygon"),
    }

    // Inversion
    let Ok(flat) = poly.to_flatgeom() else {
        panic!("Conversion failed");
    };
    match &flat {
        Geometry::Polygon(poly) => {
            assert_eq!(poly.len(), 3);
        }
        _ => panic!("Polygon is expected"),
    }
}

#[test]
fn polygon3d() {
    let mut poly = Polygon3::new();
    poly.add_ring(&c3(&[[0., 0., 0.], [5., 0., 0.], [5., 5., 0.], [0., 5., 0.]])); // exterior
    poly.add_ring(&c3(&[[1., 1., 0.], [2., 1., 0.], [2., 2., 0.], [1., 2., 0.]])); // interior
    poly.add_ring(&c3(&[[3., 3., 0.], [4., 3., 0.], [4., 4., 0.], [3., 4., 0.]])); // interior

    let Ok(flat) = poly.to_flatgeom() else {
        panic!("Conversion failed");
    };
    match &flat {
        Geometry::Polygon(poly) => {
            assert_eq!(poly.len(), 3);
        }
        _ => panic!("Polygon is expected"),
    }
}

#[test]
fn multilinestring() {
    let mut mls = MultiLineString2::new();
    mls.add_linestring(&c2(&[[0., 0.], [5., 0.], [5., 5.], [0., 5.]]));
    mls.add_linestring(&c2(&[[1., 0.], [5., 0.], [5., 5.], [0., 5.]]));
    mls.add_linestring(&c2(&[[2., 0.], [5., 0.], [5., 5.], [0., 5.]]));

    // Conversion
    let mut log = EventLog::new(false);
    let Ok(()) = process_multilinestring(&mls, &mut log, 0) else {
        panic!("Conversion failed");
    };
    let mut writer = FlatgeomWriter::<2>::new();
    let Ok(()) = play(log.events(), &mut writer) else {
        panic!("Conversion failed");
    };
    match writer.take_geometry() {
        Some(Geometry::MultiLineString(built)) => {
            assert_eq!(built.len(), 3);
            assert_eq!(built.part_len(0), 4); // a part is not a ring: stays open
        }
        _ => panic!("Geometry type must be MultiLineString"),
    }

    // Inversion
    let Ok(flat) = mls.to_flatgeom() else {
        panic!("Conversion failed");
    };
    match &flat {
        Geometry::MultiLineString(mls) => {
            assert_eq!(mls.len(), 3);
        }
        _ => panic!("MultiLineString is expected"),
    }
}

#[test]
fn multilinestring3d() {
    let mut mls = MultiLineString3::new();
    mls.add_linestring(&c3(&[[0., 0., 0.], [5., 0., 0.], [5., 5., 0.], [0., 5., 0.]]));
    mls.add_linestring(&c3(&[[1., 0., 0.], [5., 0., 0.], [5., 5., 0.], [0., 5., 0.]]));
    mls.add_linestring(&c3(&[[2., 0., 0.], [5., 0., 0.], [5., 5., 0.], [0., 5., 0.]]));

    let Ok(flat) = mls.to_flatgeom() else {
        panic!("Conversion failed");
    };
    match &flat {
        Geometry::MultiLineString(mls) => {
            assert_eq!(mls.len(), 3);
        }
        _ => panic!("MultiLineString is expected"),
    }
}

#[test]
fn linestring() {
    // Conversion
    let ls = LineString2::from_raw(c2(&[[0., 0.], [5., 0.], [5., 5.], [0., 5.]]));
    let mut log = EventLog::new(false);
    let Ok(()) = process_linestring(&ls, &mut log, 0) else {
        panic!("Conversion failed");
    };
    let mut writer = FlatgeomWriter::<2>::new();
    let Ok(()) = play(log.events(), &mut writer) else {
        panic!("Conversion failed");
    };
    match writer.take_geometry() {
        Some(Geometry::LineString(built)) => {
            assert_eq!(built.len(), 4); // open path: no closing point
        }
        _ => panic!("Geometry type must be LineString"),
    }

    // Inversion
    let Ok(flat) = ls.to_flatgeom() else {
        panic!("Conversion failed");
    };
    match &flat {
        Geometry::LineString(ls) => {
            assert_eq!(ls.len(), 4);
        }
        _ => panic!("LineString is expected"),
    }
}

#[test]
fn linestring3d() {
    let ls = LineString3::from_raw(c3(&[
        [0., 0., 0.],
        [5., 0., 0.],
        [5., 5., 0.],
        [0., 5., 0.],
    ]));
    let Ok(flat) = ls.to_flatgeom() else {
        panic!("Conversion failed");
    };
    match &flat {
        Geometry::LineString(ls) => {
            assert_eq!(ls.len(), 4);
        }
        _ => panic!("LineString is expected"),
    }
}

#[test]
fn multipoint() {
    let mut mp = MultiPoint2::new();
    mp.extend(&c2(&[[0., 0.], [5., 0.], [5., 5.], [0., 5.]]));

    // Conversion
    let mut log = EventLog::new(false);
    let Ok(()) = process_multipoint(&mp, &mut log, 0) else {
        panic!("Conversion failed");
    };
    let mut writer = FlatgeomWriter::<2>::new();
    let Ok(()) = play(log.events(), &mut writer) else {
        panic!("Conversion failed");
    };
    match writer.take_geometry() {
        Some(Geometry::MultiPoint(built)) => {
            assert_eq!(built.len(), 4);
        }
        _ => panic!("Geometry type must be MultiPoint"),
    }

    // Inversion
    let Ok(flat) = mp.to_flatgeom() else {
        panic!("Conversion failed");
    };
    match &flat {
        Geometry::MultiPoint(mp) => {
            assert_eq!(mp.len(), 4);
        }
        _ => panic!("MultiPoint is expected"),
    }
}

#[test]
fn multipoint3d() {
    let mut mp = MultiPoint3::new();
    mp.extend(&c3(&[[0., 0., 0.], [5., 0., 0.], [5., 5., 0.], [0., 5., 0.]]));

    let Ok(flat) = mp.to_flatgeom() else {
        panic!("Conversion failed");
    };
    match &flat {
        Geometry::MultiPoint(mp) => {
            assert_eq!(mp.len(), 4);
        }
        _ => panic!("MultiPoint is expected"),
    }
}

#[test]
fn geometry() {
    let mut mp = MultiPoint2::new();
    mp.extend(&c2(&[[0., 0.], [5., 0.], [5., 5.], [0., 5.]]));
    let geom = Geometry2::MultiPoint(mp);

    // Conversion
    let mut log = EventLog::new(false);
    let Ok(()) = process_geometry(&geom, &mut log, 0) else {
        panic!("Conversion failed");
    };
    let mut writer = FlatgeomWriter::<2>::new();
    let Ok(()) = play(log.events(), &mut writer) else {
        panic!("Conversion failed");
    };
    match writer.take_geometry() {
        Some(Geometry::MultiPoint(built)) => {
            assert_eq!(built.len(), 4);
        }
        _ => panic!("Geometry type must be MultiPoint"),
    }

    // Inversion, into three dimensions: the 2D emission replays into a
    // three-axis builder, which zero-fills the missing axis.
    let mut writer3 = FlatgeomWriter::<3>::new();
    let Ok(()) = play(log.events(), &mut writer3) else {
        panic!("Conversion failed");
    };
    match writer3.take_geometry() {
        Some(Geometry::MultiPoint(mp)) => {
            assert_eq!(mp.len(), 4);
        }
        _ => panic!("MultiPoint is expected"),
    }
}

#[test]
fn geometry3d() {
    let mut mp = MultiPoint3::new();
    mp.extend(&c3(&[[0., 0., 0.], [5., 0., 0.], [5., 5., 0.], [0., 5., 0.]]));
    let geom = Geometry3::MultiPoint(mp);

    // Inversion
    let Ok(flat) = geom.to_flatgeom() else {
        panic!("Conversion failed");
    };
    match &flat {
        Geometry::MultiPoint(mp) => {
            assert_eq!(mp.len(), 4);
        }
        _ => panic!("MultiPoint is expected"),
    }
}

#[test]
fn geometry_collection() {
    let mut mp = MultiPoint2::new();
    mp.extend(&c2(&[[0., 0.], [5., 0.], [5., 5.], [0., 5.]]));

    let ls = LineString2::from_raw(c2(&[[0., 0.], [5., 0.], [5., 5.], [0., 5.]]));

    let geomcoll = Geometry2::GeometryCollection(vec![
        Geometry::MultiPoint(mp),
        Geometry::LineString(ls),
    ]);

    // Conversion
    let mut log = EventLog::new(false);
    let Ok(()) = process_geometry(&geomcoll, &mut log, 0) else {
        panic!("Conversion failed");
    };
    let mut writer = FlatgeomWriter::<2>::new();
    let Ok(()) = play(log.events(), &mut writer) else {
        panic!("Conversion failed");
    };
    match writer.take_geometry() {
        Some(Geometry::GeometryCollection(members)) => {
            assert_eq!(members.len(), 2);
            assert!(matches!(members[0], Geometry::MultiPoint(_)));
            assert!(matches!(members[1], Geometry::LineString(_)));
        }
        _ => panic!("Geometry type must be GeometryCollection"),
    }

    // Inversion, into three dimensions.
    let mut writer3 = FlatgeomWriter::<3>::new();
    let Ok(()) = play(log.events(), &mut writer3) else {
        panic!("Conversion failed");
    };
    match writer3.take_geometry() {
        Some(Geometry::GeometryCollection(members)) => {
            assert_eq!(members.len(), 2);
        }
        _ => panic!("GeometryCollection is expected"),
    }
}

#[test]
fn ring_emission_is_closed() {
    // A ring of 4 stored coordinates emits 5 coordinate events while the
    // stored ring still reports 4.
    let mut poly = Polygon2::new();
    poly.add_ring(&c2(&[[0., 0.], [5., 0.], [5., 5.], [0., 5.]]));
    assert_eq!(poly.ring_len(0), 4);

    let mut log = EventLog::new(false);
    process_polygon(&poly, &mut log, 0).unwrap();
    assert_eq!(coordinate_event_count(log.events()), 5);
    assert_eq!(poly.ring_len(0), 4);
}

#[test]
fn collapsing_rule() {
    // Zero top-level geometries: no geometry at all.
    let writer = FlatgeomWriter::<2>::new();
    assert!(writer.take_geometry().is_none());

    // Exactly one: that geometry, not wrapped.
    let mut one = FlatgeomWriter::<2>::new();
    let mut mp = MultiPoint2::new();
    mp.extend(&c2(&[[1., 2.]]));
    process_multipoint(&mp, &mut one, 0).unwrap();
    assert!(matches!(one.take_geometry(), Some(Geometry::MultiPoint(_))));

    // More than one: an implicit collection of all of them, in order.
    let mut many = FlatgeomWriter::<2>::new();
    let mut mp1 = MultiPoint2::new();
    mp1.extend(&c2(&[[1., 2.]]));
    let ls = LineString2::from_raw(c2(&[[0., 0.], [1., 1.]]));
    process_multipoint(&mp1, &mut many, 0).unwrap();
    process_linestring(&ls, &mut many, 1).unwrap();
    match many.take_geometry() {
        Some(Geometry::GeometryCollection(members)) => {
            assert_eq!(members.len(), 2);
            assert!(matches!(members[0], Geometry::MultiPoint(_)));
            assert!(matches!(members[1], Geometry::LineString(_)));
        }
        _ => panic!("GeometryCollection is expected"),
    }
}

#[test]
fn dimension_gating_2d() {
    // With two axes every coordinate goes out as the compact 2D call.
    let mut mp = MultiPoint2::new();
    mp.extend(&c2(&[[1., 2.], [3., 4.]]));
    let mut log = EventLog::new(true);
    process_multipoint(&mp, &mut log, 0).unwrap();
    for e in log.events() {
        assert!(!matches!(e, GeomEvent::Coordinate { .. }));
    }
    assert_eq!(coordinate_event_count(log.events()), 2);
}

#[test]
fn dimension_gating_3d() {
    // With three axes and a multi-dimensional processor every coordinate
    // goes out as the full call with a defined z.
    let mut mp = MultiPoint3::new();
    mp.extend(&c3(&[[1., 2., 9.], [3., 4., 8.]]));
    let mut log = EventLog::new(true);
    process_multipoint(&mp, &mut log, 0).unwrap();
    for e in log.events() {
        assert!(!matches!(e, GeomEvent::Xy { .. }));
        if let GeomEvent::Coordinate { z, .. } = e {
            assert!(z.is_some());
        }
    }
    assert_eq!(coordinate_event_count(log.events()), 2);
}

#[test]
fn z_preserved_through_round_trip() {
    // A three-axis round trip carries the third coordinate through exactly.
    let mut mp = MultiPoint3::new();
    mp.extend(&c3(&[[1.5, 2.5, 42.25], [3.0, 4.0, -0.5]]));
    let Ok(flat) = mp.to_flatgeom() else {
        panic!("Conversion failed");
    };
    match &flat {
        Geometry::MultiPoint(built) => {
            assert_eq!(built.len(), 2);
            assert_eq!(built.coord_scalar(0, 2), 42.25f64.to_bits());
            assert_eq!(built.coord_scalar(1, 2), (-0.5f64).to_bits());
            assert_eq!(built.coord_scalar(1, 0), 3.0f64.to_bits());
        }
        _ => panic!("MultiPoint is expected"),
    }
}

#[test]
fn z_dropped_by_2d_protocol() {
    // A processor that declares itself 2D-only receives compact calls, so
    // the third coordinate is deterministically dropped: replaying into a
    // three-axis builder zero-fills it.
    let mut mp = MultiPoint3::new();
    mp.extend(&c3(&[[1., 2., 9.]]));
    let mut log = EventLog::new(false);
    process_multipoint(&mp, &mut log, 0).unwrap();
    for e in log.events() {
        assert!(!matches!(e, GeomEvent::Coordinate { .. }));
    }
    let mut writer = FlatgeomWriter::<3>::new();
    play(log.events(), &mut writer).unwrap();
    match writer.take_geometry() {
        Some(Geometry::MultiPoint(built)) => {
            assert_eq!(built.coord_scalar(0, 0), 1.0f64.to_bits());
            assert_eq!(built.coord_scalar(0, 1), 2.0f64.to_bits());
            assert_eq!(built.coord_scalar(0, 2), 0.0f64.to_bits());
        }
        _ => panic!("MultiPoint is expected"),
    }
}

#[test]
fn empty_containers_round_trip() {
    // A polygon with zero rings is legal and survives a round trip, as do
    // an empty multi point and an empty line string.
    let poly = Polygon2::new();
    match poly.to_flatgeom() {
        Ok(Geometry::Polygon(p)) => assert_eq!(p.len(), 0),
        _ => panic!("Polygon is expected"),
    }
    let mp = MultiPoint2::new();
    match mp.to_flatgeom() {
        Ok(Geometry::MultiPoint(m)) => assert_eq!(m.len(), 0),
        _ => panic!("MultiPoint is expected"),
    }
    let ls = LineString2::new();
    match ls.to_flatgeom() {
        Ok(Geometry::LineString(l)) => assert_eq!(l.len(), 0),
        _ => panic!("LineString is expected"),
    }
}

#[test]
fn multipolygon_ring_counts_preserved() {
    // Three polygons with ring counts 3, 2, 1: counts survive the trip.
    let mut mpoly = MultiPolygon2::new();
    mpoly.add_exterior(&c2(&[[0., 0.], [5., 0.], [5., 5.], [0., 5.]]));
    mpoly.add_interior(&c2(&[[1., 1.], [2., 1.], [2., 2.], [1., 2.]]));
    mpoly.add_interior(&c2(&[[3., 3.], [4., 3.], [4., 4.], [3., 4.]]));
    mpoly.add_exterior(&c2(&[[4., 0.], [7., 0.], [7., 3.], [4., 3.]]));
    mpoly.add_interior(&c2(&[[5., 1.], [6., 1.], [6., 2.], [5., 2.]]));
    mpoly.add_exterior(&c2(&[[4., 0.], [7., 0.], [7., 3.], [4., 3.]]));
    assert_eq!(mpoly.len(), 3);
    assert_eq!(mpoly.num_rings(0), 3);
    assert_eq!(mpoly.num_rings(1), 2);
    assert_eq!(mpoly.num_rings(2), 1);

    let Ok(flat) = mpoly.to_flatgeom() else {
        panic!("Conversion failed");
    };
    match &flat {
        Geometry::MultiPolygon(built) => {
            assert_eq!(built.len(), 3);
            assert_eq!(built.num_rings(0), 3);
            assert_eq!(built.num_rings(1), 2);
            assert_eq!(built.num_rings(2), 1);
            // Rings come back closed: one more coordinate than stored.
            assert_eq!(built.ring_len(0, 0), 5);
            assert_eq!(built.ring_scalar(0, 0, 4, 0), 0.0f64.to_bits());
        }
        _ => panic!("MultiPolygon is expected"),
    }
}

#[test]
fn nested_collections_round_trip() {
    // A collection containing a collection reconstructs with the nesting
    // intact.
    let mut inner_mp = MultiPoint2::new();
    inner_mp.extend(&c2(&[[1., 1.]]));
    let inner = Geometry2::GeometryCollection(vec![Geometry::MultiPoint(inner_mp)]);
    let mut outer_mp = MultiPoint2::new();
    outer_mp.extend(&c2(&[[2., 2.], [3., 3.]]));
    let outer = Geometry2::GeometryCollection(vec![
        inner,
        Geometry::MultiPoint(outer_mp),
    ]);

    let Ok(flat) = outer.to_flatgeom() else {
        panic!("Conversion failed");
    };
    match &flat {
        Geometry::GeometryCollection(members) => {
            assert_eq!(members.len(), 2);
            match &members[0] {
                Geometry::GeometryCollection(inner_members) => {
                    assert_eq!(inner_members.len(), 1);
                    assert!(matches!(inner_members[0], Geometry::MultiPoint(_)));
                }
                _ => panic!("GeometryCollection is expected"),
            }
            match &members[1] {
                Geometry::MultiPoint(m) => assert_eq!(m.len(), 2),
                _ => panic!("MultiPoint is expected"),
            }
        }
        _ => panic!("GeometryCollection is expected"),
    }
}

#[test]
fn process_geom_matches_free_function() {
    // The method form and the free function emit the same events.
    let mut mp = MultiPoint2::new();
    mp.extend(&c2(&[[1., 2.], [3., 4.]]));

    let mut by_method = EventLog::new(false);
    mp.process_geom(&mut by_method).unwrap();
    let mut by_function = EventLog::new(false);
    process_multipoint(&mp, &mut by_function, 0).unwrap();
    assert_eq!(by_method.events(), by_function.events());

    let geom = Geometry2::MultiPoint(mp);
    let mut whole = EventLog::new(false);
    geom.process_geom(&mut whole).unwrap();
    assert_eq!(whole.events(), by_function.events());
}
