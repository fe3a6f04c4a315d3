//! The protocol reader: walks a geometry value and emits the ordered
//! begin / coordinate / end calls that describe it against a processor.
//!
//! The emission of each shape is pinned down by the `..._events` spec
//! functions; every `process_*` function promises that, on success, the
//! processor's history grew by exactly that event sequence. Whether a
//! coordinate goes out as a compact 2D call or as a full call depends on the
//! processor declaring itself multi-dimensional and on `D >= 3`.

use vstd::prelude::*;
use crate::geometry::GeomView;
use crate::geometry::Geometry;
use crate::geometry::LineString;
use crate::geometry::MultiLineString;
use crate::geometry::MultiPoint;
use crate::geometry::MultiPolygon;
use crate::geometry::Polygon;
use crate::geometry::coords_wf;
use crate::geometry::geom_wf;
use crate::geometry::geoms_view;
use crate::geometry::lemma_geom_view_unfold;
use crate::geometry::lemma_geoms_view;
use crate::protocol::GeomEvent;
use crate::protocol::GeomProcessor;
use crate::protocol::ProcessorError;

verus! {

broadcast use vstd::std_specs::vec::group_vec_axioms;

/// The event for one coordinate: the full call carrying `z` when the
/// emission is multi-dimensional, the compact 2D call otherwise.
pub open spec fn coord_event(c: Seq<u64>, md: bool, idx: int) -> GeomEvent {
    if md {
        GeomEvent::Coordinate {
            x: c[0],
            y: c[1],
            z: Some(c[2]),
            m: None,
            t: None,
            tm: None,
            idx: idx as usize,
        }
    } else {
        GeomEvent::Xy { x: c[0], y: c[1], idx: idx as usize }
    }
}

/// The events for a run of coordinates, positions counted from 0.
pub open spec fn coord_events(cs: Seq<Seq<u64>>, md: bool) -> Seq<GeomEvent> {
    Seq::new(cs.len(), |i: int| coord_event(cs[i], md, i))
}

/// A ring as presented to the protocol: its stored coordinates followed by a
/// repeat of the first one. This is the sole place the closing duplicate is
/// materialized; an empty ring stays empty.
pub open spec fn closed_coords(ring: Seq<Seq<u64>>) -> Seq<Seq<u64>> {
    if ring.len() == 0 {
        ring
    } else {
        ring.push(ring[0])
    }
}

/// The bracketed emission of one line of coordinates. `size` is the count
/// announced in the begin call (for a ring: the stored length, one less than
/// the closed run that follows).
pub open spec fn linestring_events(
    cs: Seq<Seq<u64>>,
    md: bool,
    tagged: bool,
    size: int,
    idx: int,
) -> Seq<GeomEvent> {
    seq![GeomEvent::LineStringBegin { tagged, size: size as usize, idx: idx as usize }]
        + coord_events(cs, md)
        + seq![GeomEvent::LineStringEnd { tagged, idx: idx as usize }]
}

/// The emission of the parts of a multi line string, in order, each as an
/// untagged line string at its position.
pub open spec fn parts_events(parts: Seq<Seq<Seq<u64>>>, md: bool) -> Seq<GeomEvent>
    decreases parts.len(),
{
    if parts.len() == 0 {
        Seq::empty()
    } else {
        parts_events(parts.drop_last(), md) + linestring_events(
            parts.last(),
            md,
            false,
            parts.last().len() as int,
            parts.len() - 1,
        )
    }
}

/// The emission of the rings of one polygon, in order, each as an untagged
/// closed line string at its position (restarting from 0 per polygon).
pub open spec fn rings_events(rings: Seq<Seq<Seq<u64>>>, md: bool) -> Seq<GeomEvent>
    decreases rings.len(),
{
    if rings.len() == 0 {
        Seq::empty()
    } else {
        rings_events(rings.drop_last(), md) + linestring_events(
            closed_coords(rings.last()),
            md,
            false,
            rings.last().len() as int,
            rings.len() - 1,
        )
    }
}

/// The bracketed emission of one polygon, announcing its ring count.
pub open spec fn polygon_events(
    rings: Seq<Seq<Seq<u64>>>,
    md: bool,
    tagged: bool,
    idx: int,
) -> Seq<GeomEvent> {
    seq![GeomEvent::PolygonBegin { tagged, size: rings.len() as usize, idx: idx as usize }]
        + rings_events(rings, md)
        + seq![GeomEvent::PolygonEnd { tagged, idx: idx as usize }]
}

/// The emission of the polygons of a multi polygon, in order, each untagged
/// at its position.
pub open spec fn polys_events(polys: Seq<Seq<Seq<Seq<u64>>>>, md: bool) -> Seq<GeomEvent>
    decreases polys.len(),
{
    if polys.len() == 0 {
        Seq::empty()
    } else {
        polys_events(polys.drop_last(), md) + polygon_events(
            polys.last(),
            md,
            false,
            polys.len() - 1,
        )
    }
}

/// The emission of the members of a collection, in order, each at its
/// position.
pub open spec fn members_events(ms: Seq<GeomView>, md: bool) -> Seq<GeomEvent>
    decreases ms,
{
    if ms.len() == 0 {
        Seq::empty()
    } else {
        members_events(ms.drop_last(), md) + geometry_events(ms.last(), md, ms.len() - 1)
    }
}

/// The full emission of one geometry at position `idx`, as the reader
/// produces it.
pub open spec fn geometry_events(g: GeomView, md: bool, idx: int) -> Seq<GeomEvent>
    decreases g,
{
    match g {
        GeomView::MultiPoint(cs) => seq![
            GeomEvent::MultiPointBegin { size: cs.len() as usize, idx: idx as usize },
        ] + coord_events(cs, md) + seq![GeomEvent::MultiPointEnd { idx: idx as usize }],
        GeomView::LineString(cs) => linestring_events(cs, md, true, cs.len() as int, idx),
        GeomView::MultiLineString(parts) => seq![
            GeomEvent::MultiLineStringBegin { size: parts.len() as usize, idx: idx as usize },
        ] + parts_events(parts, md) + seq![
            GeomEvent::MultiLineStringEnd { idx: idx as usize },
        ],
        GeomView::Polygon(rings) => polygon_events(rings, md, true, idx),
        GeomView::MultiPolygon(polys) => seq![
            GeomEvent::MultiPolygonBegin { size: polys.len() as usize, idx: idx as usize },
        ] + polys_events(polys, md) + seq![GeomEvent::MultiPolygonEnd { idx: idx as usize }],
        GeomView::GeometryCollection(ms) => seq![
            GeomEvent::GeometryCollectionBegin { size: ms.len() as usize, idx: idx as usize },
        ] + members_events(ms, md) + seq![
            GeomEvent::GeometryCollectionEnd { idx: idx as usize },
        ],
    }
}

/// Sends one coordinate: the full call when the emission is
/// multi-dimensional, the compact 2D call otherwise.
fn emit_coord<P: GeomProcessor>(
    p: &mut P,
    Ghost(c): Ghost<Seq<u64>>,
    x: u64,
    y: u64,
    z: u64,
    md: bool,
    cidx: usize,
) -> (r: Result<(), ProcessorError>)
    requires
        old(p).inv(),
        c.len() >= 2,
        x == c[0],
        y == c[1],
        md ==> c.len() >= 3 && z == c[2],
    ensures
        final(p).inv(),
        final(p).multi_dim_spec() == old(p).multi_dim_spec(),
        old(p).infallible() ==> r is Ok && final(p).infallible(),
        r is Ok ==> final(p).history() == old(p).history().push(
            coord_event(c, md, cidx as int),
        ),
{
    if md {
        p.coordinate(x, y, Some(z), None, None, None, cidx)
    } else {
        p.xy(x, y, cidx)
    }
}

/// Serializes a multi point: begin, its coordinates in order, end.
pub fn process_multipoint<const D: usize, P: GeomProcessor>(
    geom: &MultiPoint<D>,
    processor: &mut P,
    idx: usize,
) -> (r: Result<(), ProcessorError>)
    requires
        D >= 2,
        geom.wf(),
        old(processor).inv(),
    ensures
        final(processor).inv(),
        final(processor).multi_dim_spec() == old(processor).multi_dim_spec(),
        old(processor).infallible() ==> r is Ok && final(processor).infallible(),
        r is Ok ==> final(processor).history() == old(processor).history() + geometry_events(
            GeomView::MultiPoint(geom@),
            old(processor).multi_dim_spec() && D >= 3,
            idx as int,
        ),
{
    let ghost md_spec = old(processor).multi_dim_spec() && D >= 3;
    proof {
        geom.lemma_wf_view();
    }
    let md = processor.multi_dim() && D >= 3;
    let n = geom.len();
    match processor.multipoint_begin(n, idx) {
        Ok(()) => {},
        Err(e) => {
            return Err(e);
        },
    }
    let ghost pre = old(processor).history().push(
        GeomEvent::MultiPointBegin { size: n, idx },
    );
    let mut i: usize = 0;
    while i < n
        invariant
            D >= 2,
            geom.wf(),
            coords_wf(geom@, D as nat),
            processor.inv(),
            processor.multi_dim_spec() == old(processor).multi_dim_spec(),
            old(processor).infallible() ==> processor.infallible(),
            md == md_spec,
            md ==> D >= 3,
            n == geom@.len(),
            i <= n,
            processor.history() == pre + coord_events(geom@.subrange(0, i as int), md),
        decreases n - i,
    {
        let x = geom.coord_scalar(i, 0);
        let y = geom.coord_scalar(i, 1);
        let z = if md {
            geom.coord_scalar(i, 2)
        } else {
            0
        };
        match emit_coord(processor, Ghost(geom@[i as int]), x, y, z, md, i) {
            Ok(()) => {},
            Err(e) => {
                return Err(e);
            },
        }
        proof {
            assert(coord_events(geom@.subrange(0, i as int), md).push(
                coord_event(geom@[i as int], md, i as int),
            ) =~= coord_events(geom@.subrange(0, i + 1), md));
        }
        i = i + 1;
    }
    match processor.multipoint_end(idx) {
        Ok(()) => {},
        Err(e) => {
            return Err(e);
        },
    }
    proof {
        assert(geom@.subrange(0, n as int) =~= geom@);
        assert(processor.history() =~= old(processor).history() + geometry_events(
            GeomView::MultiPoint(geom@),
            md_spec,
            idx as int,
        ));
    }
    Ok(())
}

/// Serializes a line string as a standalone (tagged) geometry: begin, its
/// coordinates in order, end.
pub fn process_linestring<const D: usize, P: GeomProcessor>(
    geom: &LineString<D>,
    processor: &mut P,
    idx: usize,
) -> (r: Result<(), ProcessorError>)
    requires
        D >= 2,
        geom.wf(),
        old(processor).inv(),
    ensures
        final(processor).inv(),
        final(processor).multi_dim_spec() == old(processor).multi_dim_spec(),
        old(processor).infallible() ==> r is Ok && final(processor).infallible(),
        r is Ok ==> final(processor).history() == old(processor).history() + geometry_events(
            GeomView::LineString(geom@),
            old(processor).multi_dim_spec() && D >= 3,
            idx as int,
        ),
{
    let ghost md_spec = old(processor).multi_dim_spec() && D >= 3;
    proof {
        geom.lemma_wf_view();
    }
    let md = processor.multi_dim() && D >= 3;
    let n = geom.len();
    match processor.linestring_begin(true, n, idx) {
        Ok(()) => {},
        Err(e) => {
            return Err(e);
        },
    }
    let ghost pre = old(processor).history().push(
        GeomEvent::LineStringBegin { tagged: true, size: n, idx },
    );
    let mut i: usize = 0;
    while i < n
        invariant
            D >= 2,
            geom.wf(),
            coords_wf(geom@, D as nat),
            processor.inv(),
            processor.multi_dim_spec() == old(processor).multi_dim_spec(),
            old(processor).infallible() ==> processor.infallible(),
            md == md_spec,
            md ==> D >= 3,
            n == geom@.len(),
            i <= n,
            processor.history() == pre + coord_events(geom@.subrange(0, i as int), md),
        decreases n - i,
    {
        let x = geom.coord_scalar(i, 0);
        let y = geom.coord_scalar(i, 1);
        let z = if md {
            geom.coord_scalar(i, 2)
        } else {
            0
        };
        match emit_coord(processor, Ghost(geom@[i as int]), x, y, z, md, i) {
            Ok(()) => {},
            Err(e) => {
                return Err(e);
            },
        }
        proof {
            assert(coord_events(geom@.subrange(0, i as int), md).push(
                coord_event(geom@[i as int], md, i as int),
            ) =~= coord_events(geom@.subrange(0, i + 1), md));
        }
        i = i + 1;
    }
    match processor.linestring_end(true, idx) {
        Ok(()) => {},
        Err(e) => {
            return Err(e);
        },
    }
    proof {
        assert(geom@.subrange(0, n as int) =~= geom@);
        assert(processor.history() =~= old(processor).history() + geometry_events(
            GeomView::LineString(geom@),
            md_spec,
            idx as int,
        ));
    }
    Ok(())
}

/// Serializes a multi line string: begin, each part as an untagged line
/// string at its position, end.
pub fn process_multilinestring<const D: usize, P: GeomProcessor>(
    geom: &MultiLineString<D>,
    processor: &mut P,
    idx: usize,
) -> (r: Result<(), ProcessorError>)
    requires
        D >= 2,
        geom.wf(),
        old(processor).inv(),
    ensures
        final(processor).inv(),
        final(processor).multi_dim_spec() == old(processor).multi_dim_spec(),
        old(processor).infallible() ==> r is Ok && final(processor).infallible(),
        r is Ok ==> final(processor).history() == old(processor).history() + geometry_events(
            GeomView::MultiLineString(geom@),
            old(processor).multi_dim_spec() && D >= 3,
            idx as int,
        ),
{
    let ghost md_spec = old(processor).multi_dim_spec() && D >= 3;
    proof {
        geom.lemma_wf_view();
    }
    let md = processor.multi_dim() && D >= 3;
    let n = geom.len();
    match processor.multilinestring_begin(n, idx) {
        Ok(()) => {},
        Err(e) => {
            return Err(e);
        },
    }
    let ghost pre = old(processor).history().push(
        GeomEvent::MultiLineStringBegin { size: n, idx },
    );
    let mut i: usize = 0;
    while i < n
        invariant
            D >= 2,
            geom.wf(),
            crate::geometry::blocks_wf(geom@, D as nat),
            processor.inv(),
            processor.multi_dim_spec() == old(processor).multi_dim_spec(),
            old(processor).infallible() ==> processor.infallible(),
            md == md_spec,
            md ==> D >= 3,
            n == geom@.len(),
            i <= n,
            processor.history() == pre + parts_events(geom@.subrange(0, i as int), md),
        decreases n - i,
    {
        let pn = geom.part_len(i);
        match processor.linestring_begin(false, pn, i) {
            Ok(()) => {},
            Err(e) => {
                return Err(e);
            },
        }
        let ghost part = geom@[i as int];
        let ghost pre2 = pre + parts_events(geom@.subrange(0, i as int), md) + seq![
            GeomEvent::LineStringBegin { tagged: false, size: pn, idx: i },
        ];
        proof {
            assert(processor.history() =~= pre2 + coord_events(part.subrange(0, 0), md));
        }
        let mut j: usize = 0;
        while j < pn
            invariant
                D >= 2,
                geom.wf(),
                crate::geometry::blocks_wf(geom@, D as nat),
                processor.inv(),
                processor.multi_dim_spec() == old(processor).multi_dim_spec(),
            old(processor).infallible() ==> processor.infallible(),
                md == md_spec,
                md ==> D >= 3,
                i < geom@.len(),
                part == geom@[i as int],
                pn == part.len(),
                j <= pn,
                processor.history() == pre2 + coord_events(part.subrange(0, j as int), md),
            decreases pn - j,
        {
            let x = geom.part_scalar(i, j, 0);
            let y = geom.part_scalar(i, j, 1);
            let z = if md {
                geom.part_scalar(i, j, 2)
            } else {
                0
            };
            match emit_coord(processor, Ghost(part[j as int]), x, y, z, md, j) {
                Ok(()) => {},
                Err(e) => {
                    return Err(e);
                },
            }
            proof {
                assert(coord_events(part.subrange(0, j as int), md).push(
                    coord_event(part[j as int], md, j as int),
                ) =~= coord_events(part.subrange(0, j + 1), md));
            }
            j = j + 1;
        }
        match processor.linestring_end(false, i) {
            Ok(()) => {},
            Err(e) => {
                return Err(e);
            },
        }
        proof {
            assert(part.subrange(0, pn as int) =~= part);
            assert(geom@.subrange(0, i + 1).drop_last() =~= geom@.subrange(0, i as int));
            assert(geom@.subrange(0, i + 1).last() == part);
            assert(processor.history() =~= pre + parts_events(geom@.subrange(0, i + 1), md));
        }
        i = i + 1;
    }
    match processor.multilinestring_end(idx) {
        Ok(()) => {},
        Err(e) => {
            return Err(e);
        },
    }
    proof {
        assert(geom@.subrange(0, n as int) =~= geom@);
        assert(processor.history() =~= old(processor).history() + geometry_events(
            GeomView::MultiLineString(geom@),
            md_spec,
            idx as int,
        ));
    }
    Ok(())
}

/// Serializes a polygon as a standalone (tagged) geometry: begin with the
/// ring count, each ring as an untagged closed line string (exterior first),
/// end. A ring of N stored coordinates goes out as N + 1 coordinate events.
pub fn process_polygon<const D: usize, P: GeomProcessor>(
    geom: &Polygon<D>,
    processor: &mut P,
    idx: usize,
) -> (r: Result<(), ProcessorError>)
    requires
        D >= 2,
        geom.wf(),
        old(processor).inv(),
    ensures
        final(processor).inv(),
        final(processor).multi_dim_spec() == old(processor).multi_dim_spec(),
        old(processor).infallible() ==> r is Ok && final(processor).infallible(),
        r is Ok ==> final(processor).history() == old(processor).history() + geometry_events(
            GeomView::Polygon(geom@),
            old(processor).multi_dim_spec() && D >= 3,
            idx as int,
        ),
{
    let ghost md_spec = old(processor).multi_dim_spec() && D >= 3;
    proof {
        geom.lemma_wf_view();
    }
    let md = processor.multi_dim() && D >= 3;
    let n = geom.len();
    match processor.polygon_begin(true, n, idx) {
        Ok(()) => {},
        Err(e) => {
            return Err(e);
        },
    }
    let ghost pre = old(processor).history().push(
        GeomEvent::PolygonBegin { tagged: true, size: n, idx },
    );
    let mut i: usize = 0;
    while i < n
        invariant
            D >= 2,
            geom.wf(),
            crate::geometry::blocks_wf(geom@, D as nat),
            processor.inv(),
            processor.multi_dim_spec() == old(processor).multi_dim_spec(),
            old(processor).infallible() ==> processor.infallible(),
            md == md_spec,
            md ==> D >= 3,
            n == geom@.len(),
            i <= n,
            md == (old(processor).multi_dim_spec() && D >= 3),
            processor.history() == pre + rings_events(geom@.subrange(0, i as int), md),
        decreases n - i,
    {
        let ghost pre_ring = pre + rings_events(geom@.subrange(0, i as int), md);
        match emit_ring_polygon(geom, processor, i, md) {
            Ok(()) => {},
            Err(e) => {
                return Err(e);
            },
        }
        proof {
            assert(geom@.subrange(0, i + 1).drop_last() =~= geom@.subrange(0, i as int));
            assert(geom@.subrange(0, i + 1).last() == geom@[i as int]);
            assert(processor.history() =~= pre + rings_events(geom@.subrange(0, i + 1), md));
        }
        i = i + 1;
    }
    match processor.polygon_end(true, idx) {
        Ok(()) => {},
        Err(e) => {
            return Err(e);
        },
    }
    proof {
        assert(geom@.subrange(0, n as int) =~= geom@);
        assert(processor.history() =~= old(processor).history() + geometry_events(
            GeomView::Polygon(geom@),
            md_spec,
            idx as int,
        ));
    }
    Ok(())
}

/// Sends ring `i` of a polygon as an untagged closed line string.
fn emit_ring_polygon<const D: usize, P: GeomProcessor>(
    geom: &Polygon<D>,
    processor: &mut P,
    i: usize,
    md: bool,
) -> (r: Result<(), ProcessorError>)
    requires
        D >= 2,
        geom.wf(),
        i < geom@.len(),
        crate::geometry::blocks_wf(geom@, D as nat),
        old(processor).inv(),
        md == (old(processor).multi_dim_spec() && D >= 3),
    ensures
        final(processor).inv(),
        final(processor).multi_dim_spec() == old(processor).multi_dim_spec(),
        old(processor).infallible() ==> r is Ok && final(processor).infallible(),
        r is Ok ==> final(processor).history() == old(processor).history()
            + linestring_events(
            closed_coords(geom@[i as int]),
            md,
            false,
            geom@[i as int].len() as int,
            i as int,
        ),
{
    let ghost ring = geom@[i as int];
    let ghost closed = closed_coords(ring);
    let rn = geom.ring_len(i);
    match processor.linestring_begin(false, rn, i) {
        Ok(()) => {},
        Err(e) => {
            return Err(e);
        },
    }
    let ghost pre = old(processor).history().push(
        GeomEvent::LineStringBegin { tagged: false, size: rn, idx: i },
    );
    proof {
        assert(processor.history() =~= pre + coord_events(closed.subrange(0, 0), md));
    }
    let mut j: usize = 0;
    while j < rn
        invariant
            D >= 2,
            geom.wf(),
            crate::geometry::blocks_wf(geom@, D as nat),
            processor.inv(),
            processor.multi_dim_spec() == old(processor).multi_dim_spec(),
            old(processor).infallible() ==> processor.infallible(),
            md == (old(processor).multi_dim_spec() && D >= 3),
            i < geom@.len(),
            ring == geom@[i as int],
            closed == closed_coords(ring),
            rn == ring.len(),
            j <= rn,
            processor.history() == pre + coord_events(closed.subrange(0, j as int), md),
        decreases rn - j,
    {
        let x = geom.ring_scalar(i, j, 0);
        let y = geom.ring_scalar(i, j, 1);
        let z = if md {
            geom.ring_scalar(i, j, 2)
        } else {
            0
        };
        match emit_coord(processor, Ghost(ring[j as int]), x, y, z, md, j) {
            Ok(()) => {},
            Err(e) => {
                return Err(e);
            },
        }
        proof {
            assert(closed[j as int] == ring[j as int]);
            assert(coord_events(closed.subrange(0, j as int), md).push(
                coord_event(closed[j as int], md, j as int),
            ) =~= coord_events(closed.subrange(0, j + 1), md));
        }
        j = j + 1;
    }
    if rn > 0 {
        let x = geom.ring_scalar(i, 0, 0);
        let y = geom.ring_scalar(i, 0, 1);
        let z = if md {
            geom.ring_scalar(i, 0, 2)
        } else {
            0
        };
        match emit_coord(processor, Ghost(ring[0]), x, y, z, md, rn) {
            Ok(()) => {},
            Err(e) => {
                return Err(e);
            },
        }
        proof {
            assert(closed[rn as int] == ring[0]);
            assert(coord_events(closed.subrange(0, rn as int), md).push(
                coord_event(closed[rn as int], md, rn as int),
            ) =~= coord_events(closed, md));
        }
    } else {
        proof {
            assert(closed.subrange(0, 0) =~= closed);
        }
    }
    match processor.linestring_end(false, i) {
        Ok(()) => {},
        Err(e) => {
            return Err(e);
        },
    }
    proof {
        assert(processor.history() =~= old(processor).history() + linestring_events(
            closed,
            md,
            false,
            rn as int,
            i as int,
        ));
    }
    Ok(())
}

/// Serializes a multi polygon: begin with the polygon count, each polygon
/// untagged at its position with its closed rings, end.
pub fn process_multipolygon<const D: usize, P: GeomProcessor>(
    geom: &MultiPolygon<D>,
    processor: &mut P,
    idx: usize,
) -> (r: Result<(), ProcessorError>)
    requires
        D >= 2,
        geom.wf(),
        old(processor).inv(),
    ensures
        final(processor).inv(),
        final(processor).multi_dim_spec() == old(processor).multi_dim_spec(),
        old(processor).infallible() ==> r is Ok && final(processor).infallible(),
        r is Ok ==> final(processor).history() == old(processor).history() + geometry_events(
            GeomView::MultiPolygon(geom@),
            old(processor).multi_dim_spec() && D >= 3,
            idx as int,
        ),
{
    let ghost md_spec = old(processor).multi_dim_spec() && D >= 3;
    proof {
        geom.lemma_wf_view();
    }
    let md = processor.multi_dim() && D >= 3;
    let n = geom.len();
    match processor.multipolygon_begin(n, idx) {
        Ok(()) => {},
        Err(e) => {
            return Err(e);
        },
    }
    let ghost pre = old(processor).history().push(
        GeomEvent::MultiPolygonBegin { size: n, idx },
    );
    let mut p: usize = 0;
    while p < n
        invariant
            D >= 2,
            geom.wf(),
            crate::geometry::polys_wf(geom@, D as nat),
            processor.inv(),
            processor.multi_dim_spec() == old(processor).multi_dim_spec(),
            old(processor).infallible() ==> processor.infallible(),
            md == (old(processor).multi_dim_spec() && D >= 3),
            n == geom@.len(),
            p <= n,
            processor.history() == pre + polys_events(geom@.subrange(0, p as int), md),
        decreases n - p,
    {
        match emit_polygon_of_multi(geom, processor, p, md) {
            Ok(()) => {},
            Err(e) => {
                return Err(e);
            },
        }
        proof {
            assert(geom@.subrange(0, p + 1).drop_last() =~= geom@.subrange(0, p as int));
            assert(geom@.subrange(0, p + 1).last() == geom@[p as int]);
            assert(processor.history() =~= pre + polys_events(geom@.subrange(0, p + 1), md));
        }
        p = p + 1;
    }
    match processor.multipolygon_end(idx) {
        Ok(()) => {},
        Err(e) => {
            return Err(e);
        },
    }
    proof {
        assert(geom@.subrange(0, n as int) =~= geom@);
        assert(processor.history() =~= old(processor).history() + geometry_events(
            GeomView::MultiPolygon(geom@),
            md_spec,
            idx as int,
        ));
    }
    Ok(())
}

/// Sends polygon `p` of a multi polygon: untagged begin with its ring
/// count, its closed rings (ring positions restarting from 0), untagged end.
fn emit_polygon_of_multi<const D: usize, P: GeomProcessor>(
    geom: &MultiPolygon<D>,
    processor: &mut P,
    p: usize,
    md: bool,
) -> (r: Result<(), ProcessorError>)
    requires
        D >= 2,
        geom.wf(),
        p < geom@.len(),
        crate::geometry::polys_wf(geom@, D as nat),
        old(processor).inv(),
        md == (old(processor).multi_dim_spec() && D >= 3),
    ensures
        final(processor).inv(),
        final(processor).multi_dim_spec() == old(processor).multi_dim_spec(),
        old(processor).infallible() ==> r is Ok && final(processor).infallible(),
        r is Ok ==> final(processor).history() == old(processor).history() + polygon_events(
            geom@[p as int],
            md,
            false,
            p as int,
        ),
{
    let ghost poly = geom@[p as int];
    let nr = geom.num_rings(p);
    match processor.polygon_begin(false, nr, p) {
        Ok(()) => {},
        Err(e) => {
            return Err(e);
        },
    }
    let ghost pre = old(processor).history().push(
        GeomEvent::PolygonBegin { tagged: false, size: nr, idx: p },
    );
    let mut i: usize = 0;
    while i < nr
        invariant
            D >= 2,
            geom.wf(),
            crate::geometry::polys_wf(geom@, D as nat),
            processor.inv(),
            processor.multi_dim_spec() == old(processor).multi_dim_spec(),
            old(processor).infallible() ==> processor.infallible(),
            md == (old(processor).multi_dim_spec() && D >= 3),
            p < geom@.len(),
            poly == geom@[p as int],
            nr == poly.len(),
            i <= nr,
            processor.history() == pre + rings_events(poly.subrange(0, i as int), md),
        decreases nr - i,
    {
        match emit_ring_of_multi(geom, processor, p, i, md) {
            Ok(()) => {},
            Err(e) => {
                return Err(e);
            },
        }
        proof {
            assert(poly.subrange(0, i + 1).drop_last() =~= poly.subrange(0, i as int));
            assert(poly.subrange(0, i + 1).last() == poly[i as int]);
            assert(processor.history() =~= pre + rings_events(poly.subrange(0, i + 1), md));
        }
        i = i + 1;
    }
    match processor.polygon_end(false, p) {
        Ok(()) => {},
        Err(e) => {
            return Err(e);
        },
    }
    proof {
        assert(poly.subrange(0, nr as int) =~= poly);
        assert(processor.history() =~= old(processor).history() + polygon_events(
            poly,
            md,
            false,
            p as int,
        ));
    }
    Ok(())
}

/// Sends ring `i` of polygon `p` of a multi polygon as an untagged closed
/// line string.
fn emit_ring_of_multi<const D: usize, P: GeomProcessor>(
    geom: &MultiPolygon<D>,
    processor: &mut P,
    p: usize,
    i: usize,
    md: bool,
) -> (r: Result<(), ProcessorError>)
    requires
        D >= 2,
        geom.wf(),
        p < geom@.len(),
        i < geom@[p as int].len(),
        crate::geometry::polys_wf(geom@, D as nat),
        old(processor).inv(),
        md == (old(processor).multi_dim_spec() && D >= 3),
    ensures
        final(processor).inv(),
        final(processor).multi_dim_spec() == old(processor).multi_dim_spec(),
        old(processor).infallible() ==> r is Ok && final(processor).infallible(),
        r is Ok ==> final(processor).history() == old(processor).history()
            + linestring_events(
            closed_coords(geom@[p as int][i as int]),
            md,
            false,
            geom@[p as int][i as int].len() as int,
            i as int,
        ),
{
    let ghost ring = geom@[p as int][i as int];
    let ghost closed = closed_coords(ring);
    let rn = geom.ring_len(p, i);
    match processor.linestring_begin(false, rn, i) {
        Ok(()) => {},
        Err(e) => {
            return Err(e);
        },
    }
    let ghost pre = old(processor).history().push(
        GeomEvent::LineStringBegin { tagged: false, size: rn, idx: i },
    );
    proof {
        assert(processor.history() =~= pre + coord_events(closed.subrange(0, 0), md));
    }
    let mut j: usize = 0;
    while j < rn
        invariant
            D >= 2,
            geom.wf(),
            crate::geometry::polys_wf(geom@, D as nat),
            processor.inv(),
            processor.multi_dim_spec() == old(processor).multi_dim_spec(),
            old(processor).infallible() ==> processor.infallible(),
            md == (old(processor).multi_dim_spec() && D >= 3),
            p < geom@.len(),
            i < geom@[p as int].len(),
            ring == geom@[p as int][i as int],
            closed == closed_coords(ring),
            rn == ring.len(),
            j <= rn,
            processor.history() == pre + coord_events(closed.subrange(0, j as int), md),
        decreases rn - j,
    {
        let x = geom.ring_scalar(p, i, j, 0);
        let y = geom.ring_scalar(p, i, j, 1);
        let z = if md {
            geom.ring_scalar(p, i, j, 2)
        } else {
            0
        };
        match emit_coord(processor, Ghost(ring[j as int]), x, y, z, md, j) {
            Ok(()) => {},
            Err(e) => {
                return Err(e);
            },
        }
        proof {
            assert(closed[j as int] == ring[j as int]);
            assert(coord_events(closed.subrange(0, j as int), md).push(
                coord_event(closed[j as int], md, j as int),
            ) =~= coord_events(closed.subrange(0, j + 1), md));
        }
        j = j + 1;
    }
    if rn > 0 {
        let x = geom.ring_scalar(p, i, 0, 0);
        let y = geom.ring_scalar(p, i, 0, 1);
        let z = if md {
            geom.ring_scalar(p, i, 0, 2)
        } else {
            0
        };
        match emit_coord(processor, Ghost(ring[0]), x, y, z, md, rn) {
            Ok(()) => {},
            Err(e) => {
                return Err(e);
            },
        }
        proof {
            assert(closed[rn as int] == ring[0]);
            assert(coord_events(closed.subrange(0, rn as int), md).push(
                coord_event(closed[rn as int], md, rn as int),
            ) =~= coord_events(closed, md));
        }
    } else {
        proof {
            assert(closed.subrange(0, 0) =~= closed);
        }
    }
    match processor.linestring_end(false, i) {
        Ok(()) => {},
        Err(e) => {
            return Err(e);
        },
    }
    proof {
        assert(processor.history() =~= old(processor).history() + linestring_events(
            closed,
            md,
            false,
            rn as int,
            i as int,
        ));
    }
    Ok(())
}

/// Serializes one geometry of any kind at position `idx`, recursing through
/// collections: collection members are emitted in order, each at its
/// position within the collection.
pub fn process_geometry<const D: usize, P: GeomProcessor>(
    geom: &Geometry<D>,
    processor: &mut P,
    idx: usize,
) -> (r: Result<(), ProcessorError>)
    requires
        D >= 2,
        geom_wf(*geom),
        old(processor).inv(),
    ensures
        final(processor).inv(),
        final(processor).multi_dim_spec() == old(processor).multi_dim_spec(),
        old(processor).infallible() ==> r is Ok && final(processor).infallible(),
        r is Ok ==> final(processor).history() == old(processor).history() + geometry_events(
            geom@,
            old(processor).multi_dim_spec() && D >= 3,
            idx as int,
        ),
    decreases *geom,
{
    proof {
        lemma_geom_view_unfold(*geom);
    }
    match geom {
        Geometry::MultiPoint(g) => process_multipoint(g, processor, idx),
        Geometry::LineString(g) => process_linestring(g, processor, idx),
        Geometry::MultiLineString(g) => process_multilinestring(g, processor, idx),
        Geometry::Polygon(g) => process_polygon(g, processor, idx),
        Geometry::MultiPolygon(g) => process_multipolygon(g, processor, idx),
        Geometry::GeometryCollection(gs) => {
            let ghost md_spec = old(processor).multi_dim_spec() && D >= 3;
            let ghost mvs = geoms_view(gs@);
            proof {
                lemma_geoms_view(gs@);
            }
            let n = gs.len();
            match processor.geometrycollection_begin(n, idx) {
                Ok(()) => {},
                Err(e) => {
                    return Err(e);
                },
            }
            let ghost pre = old(processor).history().push(
                GeomEvent::GeometryCollectionBegin { size: n, idx },
            );
            let mut i: usize = 0;
            while i < n
                invariant
                    D >= 2,
                    geom_wf(*geom),
                    *geom == Geometry::<D>::GeometryCollection(*gs),
                    mvs == geoms_view(gs@),
                    mvs.len() == gs@.len(),
                    forall|k: int| 0 <= k < gs@.len()
                        ==> mvs[k] == crate::geometry::geom_view(#[trigger] gs@[k]),
                    processor.inv(),
                    processor.multi_dim_spec() == old(processor).multi_dim_spec(),
            old(processor).infallible() ==> processor.infallible(),
                    md_spec == (old(processor).multi_dim_spec() && D >= 3),
                    n == gs@.len(),
                    i <= n,
                    processor.history() == pre + members_events(
                        mvs.subrange(0, i as int),
                        md_spec,
                    ),
                decreases n - i,
            {
                proof {
                    lemma_geom_view_unfold(*geom);
                    assert(geom_wf(gs@[i as int]));
                }
                match process_geometry(&gs[i], processor, i) {
                    Ok(()) => {},
                    Err(e) => {
                        return Err(e);
                    },
                }
                proof {
                    assert(mvs.subrange(0, i + 1).drop_last() =~= mvs.subrange(0, i as int));
                    assert(mvs.subrange(0, i + 1).last() == mvs[i as int]);
                    assert(gs@[i as int]@ == mvs[i as int]);
                    assert(processor.history() =~= pre + members_events(
                        mvs.subrange(0, i + 1),
                        md_spec,
                    ));
                }
                i = i + 1;
            }
            match processor.geometrycollection_end(idx) {
                Ok(()) => {},
                Err(e) => {
                    return Err(e);
                },
            }
            proof {
                assert(mvs.subrange(0, n as int) =~= mvs);
                assert(processor.history() =~= old(processor).history() + geometry_events(
                    geom@,
                    md_spec,
                    idx as int,
                ));
            }
            Ok(())
        },
    }
}

impl<const D: usize> Geometry<D> {
    /// Serializes this geometry as a standalone value at position 0.
    pub fn process_geom<P: GeomProcessor>(&self, processor: &mut P) -> (r: Result<
        (),
        ProcessorError,
    >)
        requires
            D >= 2,
            geom_wf(*self),
            old(processor).inv(),
        ensures
            final(processor).inv(),
            final(processor).multi_dim_spec() == old(processor).multi_dim_spec(),
            old(processor).infallible() ==> r is Ok && final(processor).infallible(),
            r is Ok ==> final(processor).history() == old(processor).history()
                + geometry_events(
                self@,
                old(processor).multi_dim_spec() && D >= 3,
                0,
            ),
    {
        process_geometry(self, processor, 0)
    }
}

impl<const D: usize> MultiPoint<D> {
    /// Serializes this multi point as a standalone value at position 0.
    pub fn process_geom<P: GeomProcessor>(&self, processor: &mut P) -> (r: Result<
        (),
        ProcessorError,
    >)
        requires
            D >= 2,
            self.wf(),
            old(processor).inv(),
        ensures
            final(processor).inv(),
            final(processor).multi_dim_spec() == old(processor).multi_dim_spec(),
            old(processor).infallible() ==> r is Ok && final(processor).infallible(),
            r is Ok ==> final(processor).history() == old(processor).history()
                + geometry_events(
                GeomView::MultiPoint(self@),
                old(processor).multi_dim_spec() && D >= 3,
                0,
            ),
    {
        process_multipoint(self, processor, 0)
    }
}

impl<const D: usize> LineString<D> {
    /// Serializes this line string as a standalone value at position 0.
    pub fn process_geom<P: GeomProcessor>(&self, processor: &mut P) -> (r: Result<
        (),
        ProcessorError,
    >)
        requires
            D >= 2,
            self.wf(),
            old(processor).inv(),
        ensures
            final(processor).inv(),
            final(processor).multi_dim_spec() == old(processor).multi_dim_spec(),
            old(processor).infallible() ==> r is Ok && final(processor).infallible(),
            r is Ok ==> final(processor).history() == old(processor).history()
                + geometry_events(
                GeomView::LineString(self@),
                old(processor).multi_dim_spec() && D >= 3,
                0,
            ),
    {
        process_linestring(self, processor, 0)
    }
}

impl<const D: usize> MultiLineString<D> {
    /// Serializes this multi line string as a standalone value at position 0.
    pub fn process_geom<P: GeomProcessor>(&self, processor: &mut P) -> (r: Result<
        (),
        ProcessorError,
    >)
        requires
            D >= 2,
            self.wf(),
            old(processor).inv(),
        ensures
            final(processor).inv(),
            final(processor).multi_dim_spec() == old(processor).multi_dim_spec(),
            old(processor).infallible() ==> r is Ok && final(processor).infallible(),
            r is Ok ==> final(processor).history() == old(processor).history()
                + geometry_events(
                GeomView::MultiLineString(self@),
                old(processor).multi_dim_spec() && D >= 3,
                0,
            ),
    {
        process_multilinestring(self, processor, 0)
    }
}

impl<const D: usize> Polygon<D> {
    /// Serializes this polygon as a standalone value at position 0.
    pub fn process_geom<P: GeomProcessor>(&self, processor: &mut P) -> (r: Result<
        (),
        ProcessorError,
    >)
        requires
            D >= 2,
            self.wf(),
            old(processor).inv(),
        ensures
            final(processor).inv(),
            final(processor).multi_dim_spec() == old(processor).multi_dim_spec(),
            old(processor).infallible() ==> r is Ok && final(processor).infallible(),
            r is Ok ==> final(processor).history() == old(processor).history()
                + geometry_events(
                GeomView::Polygon(self@),
                old(processor).multi_dim_spec() && D >= 3,
                0,
            ),
    {
        process_polygon(self, processor, 0)
    }
}

impl<const D: usize> MultiPolygon<D> {
    /// Serializes this multi polygon as a standalone value at position 0.
    pub fn process_geom<P: GeomProcessor>(&self, processor: &mut P) -> (r: Result<
        (),
        ProcessorError,
    >)
        requires
            D >= 2,
            self.wf(),
            old(processor).inv(),
        ensures
            final(processor).inv(),
            final(processor).multi_dim_spec() == old(processor).multi_dim_spec(),
            old(processor).infallible() ==> r is Ok && final(processor).infallible(),
            r is Ok ==> final(processor).history() == old(processor).history()
                + geometry_events(
                GeomView::MultiPolygon(self@),
                old(processor).multi_dim_spec() && D >= 3,
                0,
            ),
    {
        process_multipolygon(self, processor, 0)
    }
}

} // verus!
