//! The round trip: feeding the reader's emission of a geometry into the
//! builder reconstructs the geometry, up to two documented effects — every
//! ring gains its closing duplicate, and each coordinate is rebuilt from the
//! scalars that crossed the protocol (`x`, `y`, and `z` when both sides are
//! multi-dimensional; remaining axes are zero scalars).
//!
//! The reconstruction is pinned down by the `rebuilt` transform, and the
//! laws at the end of this module state what a run of the builder over an
//! emission yields.

use vstd::prelude::*;
use crate::geometry::GeomView;
use crate::geometry::coords_wf;
use crate::geometry::blocks_wf;
use crate::geometry::polys_wf;
use crate::geometry::view_wf;
use crate::protocol::GeomEvent;
use crate::reader::closed_coords;
use crate::reader::coord_event;
use crate::reader::coord_events;
use crate::reader::geometry_events;
use crate::reader::linestring_events;
use crate::reader::members_events;
use crate::reader::parts_events;
use crate::reader::polygon_events;
use crate::reader::polys_events;
use crate::reader::rings_events;
use crate::writer::BuilderState;
use crate::writer::builder_coord;
use crate::writer::builder_finish_collection;
use crate::writer::builder_finish_coords;
use crate::writer::builder_finish_geometry;
use crate::writer::builder_init;
use crate::writer::builder_run;
use crate::writer::builder_step;
use crate::writer::lemma_run_concat;

verus! {

/// The coordinate the builder stores for an emitted coordinate: `x` and `y`
/// always cross; `z` crosses exactly when the emission is
/// multi-dimensional; every remaining slot holds the zero scalar.
pub open spec fn rebuilt_coord(c: Seq<u64>, md: bool, dim: nat) -> Seq<u64> {
    builder_coord(c[0], c[1], if md { Some(c[2]) } else { None }, dim)
}

/// `rebuilt_coord` applied to a run of coordinates.
pub open spec fn rebuilt_coords(cs: Seq<Seq<u64>>, md: bool, dim: nat) -> Seq<Seq<u64>> {
    Seq::new(cs.len(), |i: int| rebuilt_coord(cs[i], md, dim))
}

/// The parts of a multi line string after a round trip.
pub open spec fn rebuilt_blocks(bs: Seq<Seq<Seq<u64>>>, md: bool, dim: nat) -> Seq<
    Seq<Seq<u64>>,
> {
    Seq::new(bs.len(), |i: int| rebuilt_coords(bs[i], md, dim))
}

/// The rings of one polygon after a round trip: each ring comes back
/// closed, with its first coordinate repeated at the end.
pub open spec fn rebuilt_closed_blocks(bs: Seq<Seq<Seq<u64>>>, md: bool, dim: nat) -> Seq<
    Seq<Seq<u64>>,
> {
    Seq::new(bs.len(), |i: int| rebuilt_coords(closed_coords(bs[i]), md, dim))
}

/// The polygons of a multi polygon after a round trip.
pub open spec fn rebuilt_polys(ps: Seq<Seq<Seq<Seq<u64>>>>, md: bool, dim: nat) -> Seq<
    Seq<Seq<Seq<u64>>>,
> {
    Seq::new(ps.len(), |p: int| rebuilt_closed_blocks(ps[p], md, dim))
}

/// What the builder reconstructs from the reader's emission of a shape:
/// the same structure — counts at every level and ring roles by position
/// preserved — with every ring closed and every coordinate rebuilt.
pub open spec fn rebuilt(g: GeomView, md: bool, dim: nat) -> GeomView
    decreases g,
{
    match g {
        GeomView::MultiPoint(cs) => GeomView::MultiPoint(rebuilt_coords(cs, md, dim)),
        GeomView::LineString(cs) => GeomView::LineString(rebuilt_coords(cs, md, dim)),
        GeomView::MultiLineString(ps) => GeomView::MultiLineString(
            rebuilt_blocks(ps, md, dim),
        ),
        GeomView::Polygon(rs) => GeomView::Polygon(rebuilt_closed_blocks(rs, md, dim)),
        GeomView::MultiPolygon(ps) => GeomView::MultiPolygon(rebuilt_polys(ps, md, dim)),
        GeomView::GeometryCollection(ms) => GeomView::GeometryCollection(
            rebuilt_members(ms, md, dim),
        ),
    }
}

/// `rebuilt` applied to a run of shapes, in order.
pub open spec fn rebuilt_members(ms: Seq<GeomView>, md: bool, dim: nat) -> Seq<GeomView>
    decreases ms,
{
    if ms.len() == 0 {
        Seq::empty()
    } else {
        rebuilt_members(ms.drop_last(), md, dim).push(rebuilt(ms.last(), md, dim))
    }
}

/// No coordinate run that the builder must flush is empty: every part of a
/// multi line string and every ring of a polygon or multi polygon holds at
/// least one coordinate, and every polygon of a multi polygon at least one
/// ring. An empty such piece is dropped by the builder (an empty flush is a
/// no-op), so the round trip preserves structure only without them.
pub open spec fn nondegenerate(g: GeomView) -> bool
    decreases g,
{
    match g {
        GeomView::MultiPoint(_) => true,
        GeomView::LineString(_) => true,
        GeomView::MultiLineString(ps) => forall|i: int|
            0 <= i < ps.len() ==> (#[trigger] ps[i]).len() > 0,
        GeomView::Polygon(rs) => forall|i: int|
            0 <= i < rs.len() ==> (#[trigger] rs[i]).len() > 0,
        GeomView::MultiPolygon(ps) => forall|p: int|
            0 <= p < ps.len() ==> ((#[trigger] ps[p]).len() > 0 && forall|r: int|
                0 <= r < ps[p].len() ==> (#[trigger] ps[p][r]).len() > 0),
        GeomView::GeometryCollection(ms) => forall|i: int|
            0 <= i < ms.len() ==> nondegenerate(#[trigger] ms[i]),
    }
}

/// Every position that the emission hands the protocol as an index fits the
/// protocol's index type: part, ring and member counts are machine-sized.
pub open spec fn view_sized(g: GeomView) -> bool
    decreases g,
{
    match g {
        GeomView::MultiPoint(_) => true,
        GeomView::LineString(_) => true,
        GeomView::MultiLineString(ps) => ps.len() <= usize::MAX,
        GeomView::Polygon(rs) => rs.len() <= usize::MAX,
        GeomView::MultiPolygon(ps) => forall|p: int|
            0 <= p < ps.len() ==> (#[trigger] ps[p]).len() <= usize::MAX,
        GeomView::GeometryCollection(ms) => forall|i: int|
            0 <= i < ms.len() ==> view_sized(#[trigger] ms[i]),
    }
}

/// Where a finished shape lands: in the innermost open collection if one is
/// open, else among the finished shapes.
pub open spec fn deliver_all(s: BuilderState, gs: Seq<GeomView>) -> BuilderState {
    if s.collections.len() > 0 {
        BuilderState {
            collections: s.collections.update(
                s.collections.len() - 1,
                s.collections.last() + gs,
            ),
            ..s
        }
    } else {
        BuilderState { geoms: s.geoms + gs, ..s }
    }
}

/// Running the builder over a run of coordinate events appends the rebuilt
/// coordinates to its buffer and changes nothing else.
proof fn lemma_run_coord_events(s: BuilderState, cs: Seq<Seq<u64>>, md: bool, dim: nat)
    requires
        dim >= 2,
        md ==> dim >= 3,
        coords_wf(cs, dim),
    ensures
        builder_run(s, coord_events(cs, md), dim) == (BuilderState {
            coords: s.coords + rebuilt_coords(cs, md, dim),
            ..s
        }),
    decreases cs.len(),
{
    if cs.len() == 0 {
        assert(coord_events(cs, md) =~= Seq::<GeomEvent>::empty());
        assert(s.coords + rebuilt_coords(cs, md, dim) =~= s.coords);
        assert(builder_run(s, coord_events(cs, md), dim) =~= BuilderState {
            coords: s.coords + rebuilt_coords(cs, md, dim),
            ..s
        });
    } else {
        let cs0 = cs.drop_last();
        let c = cs.last();
        lemma_run_coord_events(s, cs0, md, dim);
        assert(coord_events(cs, md).drop_last() =~= coord_events(cs0, md));
        assert(coord_events(cs, md).last() == coord_event(c, md, cs.len() - 1));
        assert(builder_run(s, coord_events(cs, md), dim) == builder_step(
            builder_run(s, coord_events(cs0, md), dim),
            coord_event(c, md, cs.len() - 1),
            dim,
        ));
        assert(builder_coord(c[0], c[1], if md { Some(c[2]) } else { None }, dim)
            == rebuilt_coord(c, md, dim));
        assert(s.coords + rebuilt_coords(cs0, md, dim) + seq![rebuilt_coord(c, md, dim)]
            =~= s.coords + rebuilt_coords(cs, md, dim));
        assert(builder_run(s, coord_events(cs, md), dim) =~= BuilderState {
            coords: s.coords + rebuilt_coords(cs, md, dim),
            ..s
        });
    }
}

/// Running one event steps the state.
proof fn lemma_run_one(s: BuilderState, e: GeomEvent, dim: nat)
    ensures
        builder_run(s, seq![e], dim) == builder_step(s, e, dim),
{
    assert(seq![e].len() == 1);
    assert(seq![e].drop_last() =~= Seq::<GeomEvent>::empty());
    assert(builder_run(s, seq![e].drop_last(), dim) == s);
    assert(seq![e].last() == e);
}

/// Running an untagged line emission loads the rebuilt coordinates into the
/// buffer and flushes them.
proof fn lemma_run_untagged_line(
    s: BuilderState,
    cs: Seq<Seq<u64>>,
    size: int,
    idx: int,
    md: bool,
    dim: nat,
)
    requires
        dim >= 2,
        md ==> dim >= 3,
        coords_wf(cs, dim),
        s.coords.len() == 0,
        0 <= idx <= usize::MAX,
    ensures
        builder_run(s, linestring_events(cs, md, false, size, idx), dim)
            == builder_finish_coords(
            (BuilderState { coords: rebuilt_coords(cs, md, dim), ..s }),
            idx,
        ),
{
    let b = seq![GeomEvent::LineStringBegin { tagged: false, size: size as usize, idx: idx as usize }];
    let ce = coord_events(cs, md);
    let e = seq![GeomEvent::LineStringEnd { tagged: false, idx: idx as usize }];
    lemma_run_concat(s, b + ce, e, dim);
    lemma_run_concat(s, b, ce, dim);
    lemma_run_one(s, b[0], dim);
    assert(b =~= seq![b[0]]);
    assert(builder_step(s, b[0], dim) == s);
    lemma_run_coord_events(s, cs, md, dim);
    let s2 = BuilderState { coords: s.coords + rebuilt_coords(cs, md, dim), ..s };
    lemma_run_one(s2, e[0], dim);
    assert(e =~= seq![e[0]]);
    assert(s.coords + rebuilt_coords(cs, md, dim) =~= rebuilt_coords(cs, md, dim));
    assert(s2 =~= (BuilderState { coords: rebuilt_coords(cs, md, dim), ..s }));
}

/// A closed ring still holds coordinates of exactly `dim` scalars.
proof fn lemma_closed_wf(r: Seq<Seq<u64>>, dim: nat)
    requires
        coords_wf(r, dim),
    ensures
        coords_wf(closed_coords(r), dim),
        r.len() > 0 ==> closed_coords(r).len() == r.len() + 1,
{
    let c = closed_coords(r);
    assert forall|i: int| 0 <= i < c.len() implies (#[trigger] c[i]).len() == dim by {
        if r.len() > 0 && i == r.len() {
            assert(c[i] == r[0]);
        } else {
            assert(c[i] == r[i]);
        }
    }
}

/// Running the emission of the parts of a multi line string appends each
/// rebuilt part to the open multi line string.
proof fn lemma_run_parts(
    s: BuilderState,
    acc: Seq<Seq<Seq<u64>>>,
    ps: Seq<Seq<Seq<u64>>>,
    md: bool,
    dim: nat,
)
    requires
        dim >= 2,
        md ==> dim >= 3,
        blocks_wf(ps, dim),
        ps.len() <= usize::MAX,
        forall|i: int| 0 <= i < ps.len() ==> (#[trigger] ps[i]).len() > 0,
        s.current == Some(GeomView::MultiLineString(acc)),
        s.coords.len() == 0,
    ensures
        builder_run(s, parts_events(ps, md), dim) == (BuilderState {
            current: Some(GeomView::MultiLineString(acc + rebuilt_blocks(ps, md, dim))),
            ..s
        }),
    decreases ps.len(),
{
    if ps.len() == 0 {
        assert(acc + rebuilt_blocks(ps, md, dim) =~= acc);
        assert(builder_run(s, parts_events(ps, md), dim) =~= (BuilderState {
            current: Some(GeomView::MultiLineString(acc + rebuilt_blocks(ps, md, dim))),
            ..s
        }));
    } else {
        let ps0 = ps.drop_last();
        let p = ps.last();
        lemma_run_parts(s, acc, ps0, md, dim);
        let line = linestring_events(p, md, false, p.len() as int, ps.len() - 1);
        lemma_run_concat(s, parts_events(ps0, md), line, dim);
        let s1 = BuilderState {
            current: Some(GeomView::MultiLineString(acc + rebuilt_blocks(ps0, md, dim))),
            ..s
        };
        lemma_run_untagged_line(s1, p, p.len() as int, ps.len() - 1, md, dim);
        assert(rebuilt_coords(p, md, dim).len() > 0);
        assert((acc + rebuilt_blocks(ps0, md, dim)).push(rebuilt_coords(p, md, dim))
            =~= acc + rebuilt_blocks(ps, md, dim));
        assert(builder_run(s, parts_events(ps, md), dim) =~= (BuilderState {
            current: Some(GeomView::MultiLineString(acc + rebuilt_blocks(ps, md, dim))),
            ..s
        }));
    }
}

/// Running the emission of the rings of a standalone polygon appends each
/// rebuilt closed ring to the open polygon.
proof fn lemma_run_rings(
    s: BuilderState,
    acc: Seq<Seq<Seq<u64>>>,
    rs: Seq<Seq<Seq<u64>>>,
    md: bool,
    dim: nat,
)
    requires
        dim >= 2,
        md ==> dim >= 3,
        blocks_wf(rs, dim),
        rs.len() <= usize::MAX,
        forall|i: int| 0 <= i < rs.len() ==> (#[trigger] rs[i]).len() > 0,
        s.current == Some(GeomView::Polygon(acc)),
        s.coords.len() == 0,
    ensures
        builder_run(s, rings_events(rs, md), dim) == (BuilderState {
            current: Some(GeomView::Polygon(acc + rebuilt_closed_blocks(rs, md, dim))),
            ..s
        }),
    decreases rs.len(),
{
    if rs.len() == 0 {
        assert(acc + rebuilt_closed_blocks(rs, md, dim) =~= acc);
        assert(builder_run(s, rings_events(rs, md), dim) =~= (BuilderState {
            current: Some(GeomView::Polygon(acc + rebuilt_closed_blocks(rs, md, dim))),
            ..s
        }));
    } else {
        let rs0 = rs.drop_last();
        let r = rs.last();
        lemma_run_rings(s, acc, rs0, md, dim);
        let closed = closed_coords(r);
        lemma_closed_wf(r, dim);
        let line = linestring_events(closed, md, false, r.len() as int, rs.len() - 1);
        lemma_run_concat(s, rings_events(rs0, md), line, dim);
        let s1 = BuilderState {
            current: Some(GeomView::Polygon(acc + rebuilt_closed_blocks(rs0, md, dim))),
            ..s
        };
        lemma_run_untagged_line(s1, closed, r.len() as int, rs.len() - 1, md, dim);
        assert(rebuilt_coords(closed, md, dim).len() > 0);
        assert((acc + rebuilt_closed_blocks(rs0, md, dim)).push(
            rebuilt_coords(closed, md, dim),
        ) =~= acc + rebuilt_closed_blocks(rs, md, dim));
        assert(builder_run(s, rings_events(rs, md), dim) =~= (BuilderState {
            current: Some(GeomView::Polygon(acc + rebuilt_closed_blocks(rs, md, dim))),
            ..s
        }));
    }
}

/// Running the ring emissions of one polygon of a multi polygon starts a
/// new polygon at ring position 0 and appends the remaining rings to it.
proof fn lemma_run_mpoly_rings(
    s: BuilderState,
    acc: Seq<Seq<Seq<Seq<u64>>>>,
    rs: Seq<Seq<Seq<u64>>>,
    md: bool,
    dim: nat,
)
    requires
        dim >= 2,
        md ==> dim >= 3,
        blocks_wf(rs, dim),
        rs.len() <= usize::MAX,
        forall|i: int| 0 <= i < rs.len() ==> (#[trigger] rs[i]).len() > 0,
        rs.len() > 0,
        s.current == Some(GeomView::MultiPolygon(acc)),
        s.coords.len() == 0,
    ensures
        builder_run(s, rings_events(rs, md), dim) == (BuilderState {
            current: Some(GeomView::MultiPolygon(
                acc.push(rebuilt_closed_blocks(rs, md, dim)),
            )),
            ..s
        }),
    decreases rs.len(),
{
    let rs0 = rs.drop_last();
    let r = rs.last();
    let closed = closed_coords(r);
    lemma_closed_wf(r, dim);
    let line = linestring_events(closed, md, false, r.len() as int, rs.len() - 1);
    lemma_run_concat(s, rings_events(rs0, md), line, dim);
    if rs.len() == 1 {
        assert(builder_run(s, rings_events(rs0, md), dim) == s);
        lemma_run_untagged_line(s, closed, r.len() as int, 0, md, dim);
        assert(rebuilt_coords(closed, md, dim).len() > 0);
        assert(seq![rebuilt_coords(closed, md, dim)]
            =~= rebuilt_closed_blocks(rs, md, dim));
        assert(builder_run(s, rings_events(rs, md), dim) =~= (BuilderState {
            current: Some(GeomView::MultiPolygon(
                acc.push(rebuilt_closed_blocks(rs, md, dim)),
            )),
            ..s
        }));
    } else {
        lemma_run_mpoly_rings(s, acc, rs0, md, dim);
        let mid = acc.push(rebuilt_closed_blocks(rs0, md, dim));
        let s1 = BuilderState {
            current: Some(GeomView::MultiPolygon(mid)),
            ..s
        };
        lemma_run_untagged_line(s1, closed, r.len() as int, rs.len() - 1, md, dim);
        assert(rebuilt_coords(closed, md, dim).len() > 0);
        assert(mid.len() > 0);
        assert forall|i: int| 0 <= i < rs0.len() implies
            rebuilt_closed_blocks(rs, md, dim)[i]
                == rebuilt_closed_blocks(rs0, md, dim)[i] by {
            assert(rs0[i] == rs[i]);
        }
        assert(rebuilt_closed_blocks(rs0, md, dim).push(rebuilt_coords(closed, md, dim))
            =~= rebuilt_closed_blocks(rs, md, dim));
        assert(mid.update(mid.len() - 1, mid.last().push(rebuilt_coords(closed, md, dim)))
            =~= acc.push(rebuilt_closed_blocks(rs, md, dim)));
        assert(builder_run(s, rings_events(rs, md), dim) =~= (BuilderState {
            current: Some(GeomView::MultiPolygon(
                acc.push(rebuilt_closed_blocks(rs, md, dim)),
            )),
            ..s
        }));
    }
}

/// Running the emission of the polygons of a multi polygon appends each
/// rebuilt polygon to the open multi polygon.
proof fn lemma_run_polys(
    s: BuilderState,
    acc: Seq<Seq<Seq<Seq<u64>>>>,
    ps: Seq<Seq<Seq<Seq<u64>>>>,
    md: bool,
    dim: nat,
)
    requires
        dim >= 2,
        md ==> dim >= 3,
        polys_wf(ps, dim),
        forall|p: int| 0 <= p < ps.len() ==> (#[trigger] ps[p]).len() <= usize::MAX,
        forall|p: int| 0 <= p < ps.len() ==> ((#[trigger] ps[p]).len() > 0 && forall|r: int|
            0 <= r < ps[p].len() ==> (#[trigger] ps[p][r]).len() > 0),
        s.current == Some(GeomView::MultiPolygon(acc)),
        s.coords.len() == 0,
    ensures
        builder_run(s, polys_events(ps, md), dim) == (BuilderState {
            current: Some(GeomView::MultiPolygon(acc + rebuilt_polys(ps, md, dim))),
            ..s
        }),
    decreases ps.len(),
{
    if ps.len() == 0 {
        assert(acc + rebuilt_polys(ps, md, dim) =~= acc);
        assert(builder_run(s, polys_events(ps, md), dim) =~= (BuilderState {
            current: Some(GeomView::MultiPolygon(acc + rebuilt_polys(ps, md, dim))),
            ..s
        }));
    } else {
        let ps0 = ps.drop_last();
        let p = ps.last();
        lemma_run_polys(s, acc, ps0, md, dim);
        let pe = polygon_events(p, md, false, ps.len() - 1);
        lemma_run_concat(s, polys_events(ps0, md), pe, dim);
        let s1 = BuilderState {
            current: Some(GeomView::MultiPolygon(acc + rebuilt_polys(ps0, md, dim))),
            ..s
        };
        let b = seq![GeomEvent::PolygonBegin {
            tagged: false,
            size: p.len() as usize,
            idx: (ps.len() - 1) as usize,
        }];
        let e = seq![GeomEvent::PolygonEnd { tagged: false, idx: (ps.len() - 1) as usize }];
        lemma_run_concat(s1, b + rings_events(p, md), e, dim);
        lemma_run_concat(s1, b, rings_events(p, md), dim);
        lemma_run_one(s1, b[0], dim);
        assert(b =~= seq![b[0]]);
        assert(builder_step(s1, b[0], dim) == s1);
        lemma_run_mpoly_rings(s1, acc + rebuilt_polys(ps0, md, dim), p, md, dim);
        let s2 = BuilderState {
            current: Some(GeomView::MultiPolygon(
                (acc + rebuilt_polys(ps0, md, dim)).push(
                    rebuilt_closed_blocks(p, md, dim),
                ),
            )),
            ..s1
        };
        lemma_run_one(s2, e[0], dim);
        assert(e =~= seq![e[0]]);
        assert(builder_step(s2, e[0], dim) == s2);
        assert((acc + rebuilt_polys(ps0, md, dim)).push(rebuilt_closed_blocks(p, md, dim))
            =~= acc + rebuilt_polys(ps, md, dim));
        assert(builder_run(s, polys_events(ps, md), dim) =~= (BuilderState {
            current: Some(GeomView::MultiPolygon(acc + rebuilt_polys(ps, md, dim))),
            ..s
        }));
    }
}

/// Finishing a geometry delivers it: into the innermost open collection if
/// one is open, else among the finished shapes.
proof fn lemma_deliver_one(s: BuilderState, g: GeomView)
    requires
        s.current is None,
    ensures
        builder_finish_geometry((BuilderState { current: Some(g), ..s }))
            == deliver_all(s, seq![g]),
{
    if s.collections.len() > 0 {
        assert(s.collections.last().push(g) =~= s.collections.last() + seq![g]);
        assert(builder_finish_geometry((BuilderState { current: Some(g), ..s }))
            =~= deliver_all(s, seq![g]));
    } else {
        assert(s.geoms.push(g) =~= s.geoms + seq![g]);
        assert(builder_finish_geometry((BuilderState { current: Some(g), ..s }))
            =~= deliver_all(s, seq![g]));
    }
}

/// Closing a collection whose frame holds `frame` wraps the frame and
/// delivers it one level down.
proof fn lemma_finish_collection_deliver(s: BuilderState, frame: Seq<GeomView>)
    ensures
        builder_finish_collection(
            (BuilderState { collections: s.collections.push(frame), ..s }),
        ) == deliver_all(s, seq![GeomView::GeometryCollection(frame)]),
{
    let g = GeomView::GeometryCollection(frame);
    assert(s.collections.push(frame).last() == frame);
    assert(s.collections.push(frame).drop_last() =~= s.collections);
    if s.collections.len() > 0 {
        assert(s.collections.last().push(g) =~= s.collections.last() + seq![g]);
        assert(builder_finish_collection(
            (BuilderState { collections: s.collections.push(frame), ..s }),
        ) =~= deliver_all(s, seq![g]));
    } else {
        assert(s.geoms.push(g) =~= s.geoms + seq![g]);
        assert(builder_finish_collection(
            (BuilderState { collections: s.collections.push(frame), ..s }),
        ) =~= deliver_all(s, seq![g]));
    }
}

/// Delivering a run and then one more shape delivers the run extended by
/// that shape.
proof fn lemma_deliver_compose(s: BuilderState, a: Seq<GeomView>, g: GeomView)
    ensures
        deliver_all(deliver_all(s, a), seq![g]) == deliver_all(s, a.push(g)),
{
    if s.collections.len() > 0 {
        assert(deliver_all(s, a).collections.last() == s.collections.last() + a);
        assert((s.collections.last() + a) + seq![g] =~= s.collections.last() + a.push(g));
        assert(deliver_all(deliver_all(s, a), seq![g]).collections
            =~= deliver_all(s, a.push(g)).collections);
        assert(deliver_all(deliver_all(s, a), seq![g]) =~= deliver_all(s, a.push(g)));
    } else {
        assert((s.geoms + a) + seq![g] =~= s.geoms + a.push(g));
        assert(deliver_all(deliver_all(s, a), seq![g]) =~= deliver_all(s, a.push(g)));
    }
}

/// The heart of the round trip: with no shape open and an empty buffer,
/// running the full emission of one well-formed, nondegenerate shape
/// delivers exactly its rebuilt form and changes nothing else.
pub proof fn lemma_builder_rebuilds(
    s: BuilderState,
    g: GeomView,
    md: bool,
    dim: nat,
    idx: int,
)
    requires
        dim >= 2,
        md ==> dim >= 3,
        view_wf(g, dim),
        view_sized(g),
        nondegenerate(g),
        s.current is None,
        s.coords.len() == 0,
    ensures
        builder_run(s, geometry_events(g, md, idx), dim)
            == deliver_all(s, seq![rebuilt(g, md, dim)]),
    decreases g,
{
    match g {
        GeomView::MultiPoint(cs) => {
            let b = seq![GeomEvent::MultiPointBegin { size: cs.len() as usize, idx: idx as usize }];
            let e = seq![GeomEvent::MultiPointEnd { idx: idx as usize }];
            lemma_run_concat(s, b + coord_events(cs, md), e, dim);
            lemma_run_concat(s, b, coord_events(cs, md), dim);
            lemma_run_one(s, b[0], dim);
            assert(b =~= seq![b[0]]);
            let s1 = BuilderState { current: Some(GeomView::MultiPoint(Seq::empty())), ..s };
            assert(builder_step(s, b[0], dim) == s1);
            lemma_run_coord_events(s1, cs, md, dim);
            let s2 = BuilderState { coords: s1.coords + rebuilt_coords(cs, md, dim), ..s1 };
            lemma_run_one(s2, e[0], dim);
            assert(e =~= seq![e[0]]);
            let flushed = BuilderState {
                current: Some(GeomView::MultiPoint(rebuilt_coords(cs, md, dim))),
                coords: Seq::empty(),
                ..s
            };
            assert(builder_finish_coords(s2, idx) =~= flushed);
            lemma_deliver_one(s, GeomView::MultiPoint(rebuilt_coords(cs, md, dim)));
            assert(builder_finish_geometry(flushed)
                == deliver_all(s, seq![rebuilt(g, md, dim)]));
        },
        GeomView::LineString(cs) => {
            let b = seq![GeomEvent::LineStringBegin {
                tagged: true,
                size: cs.len() as usize,
                idx: idx as usize,
            }];
            let e = seq![GeomEvent::LineStringEnd { tagged: true, idx: idx as usize }];
            lemma_run_concat(s, b + coord_events(cs, md), e, dim);
            lemma_run_concat(s, b, coord_events(cs, md), dim);
            lemma_run_one(s, b[0], dim);
            assert(b =~= seq![b[0]]);
            let s1 = BuilderState { current: Some(GeomView::LineString(Seq::empty())), ..s };
            assert(builder_step(s, b[0], dim) == s1);
            lemma_run_coord_events(s1, cs, md, dim);
            let s2 = BuilderState { coords: s1.coords + rebuilt_coords(cs, md, dim), ..s1 };
            lemma_run_one(s2, e[0], dim);
            assert(e =~= seq![e[0]]);
            let flushed = BuilderState {
                current: Some(GeomView::LineString(rebuilt_coords(cs, md, dim))),
                coords: Seq::empty(),
                ..s
            };
            assert(builder_finish_coords(s2, idx) =~= flushed);
            lemma_deliver_one(s, GeomView::LineString(rebuilt_coords(cs, md, dim)));
            assert(builder_finish_geometry(flushed)
                == deliver_all(s, seq![rebuilt(g, md, dim)]));
        },
        GeomView::MultiLineString(ps) => {
            let b = seq![GeomEvent::MultiLineStringBegin {
                size: ps.len() as usize,
                idx: idx as usize,
            }];
            let e = seq![GeomEvent::MultiLineStringEnd { idx: idx as usize }];
            lemma_run_concat(s, b + parts_events(ps, md), e, dim);
            lemma_run_concat(s, b, parts_events(ps, md), dim);
            lemma_run_one(s, b[0], dim);
            assert(b =~= seq![b[0]]);
            let s1 = BuilderState {
                current: Some(GeomView::MultiLineString(Seq::empty())),
                ..s
            };
            assert(builder_step(s, b[0], dim) == s1);
            lemma_run_parts(s1, Seq::empty(), ps, md, dim);
            assert(Seq::empty() + rebuilt_blocks(ps, md, dim) =~= rebuilt_blocks(ps, md, dim));
            let s2 = BuilderState {
                current: Some(GeomView::MultiLineString(rebuilt_blocks(ps, md, dim))),
                ..s
            };
            assert(builder_run(s1, parts_events(ps, md), dim) =~= s2);
            lemma_run_one(s2, e[0], dim);
            assert(e =~= seq![e[0]]);
            lemma_deliver_one(s, GeomView::MultiLineString(rebuilt_blocks(ps, md, dim)));
            assert(builder_step(s2, e[0], dim) == deliver_all(s, seq![rebuilt(g, md, dim)]));
        },
        GeomView::Polygon(rs) => {
            let b = seq![GeomEvent::PolygonBegin {
                tagged: true,
                size: rs.len() as usize,
                idx: idx as usize,
            }];
            let e = seq![GeomEvent::PolygonEnd { tagged: true, idx: idx as usize }];
            lemma_run_concat(s, b + rings_events(rs, md), e, dim);
            lemma_run_concat(s, b, rings_events(rs, md), dim);
            lemma_run_one(s, b[0], dim);
            assert(b =~= seq![b[0]]);
            let s1 = BuilderState { current: Some(GeomView::Polygon(Seq::empty())), ..s };
            assert(builder_step(s, b[0], dim) == s1);
            lemma_run_rings(s1, Seq::empty(), rs, md, dim);
            assert(Seq::empty() + rebuilt_closed_blocks(rs, md, dim)
                =~= rebuilt_closed_blocks(rs, md, dim));
            let s2 = BuilderState {
                current: Some(GeomView::Polygon(rebuilt_closed_blocks(rs, md, dim))),
                ..s
            };
            assert(builder_run(s1, rings_events(rs, md), dim) =~= s2);
            lemma_run_one(s2, e[0], dim);
            assert(e =~= seq![e[0]]);
            lemma_deliver_one(s, GeomView::Polygon(rebuilt_closed_blocks(rs, md, dim)));
            assert(builder_step(s2, e[0], dim) == deliver_all(s, seq![rebuilt(g, md, dim)]));
        },
        GeomView::MultiPolygon(ps) => {
            let b = seq![GeomEvent::MultiPolygonBegin {
                size: ps.len() as usize,
                idx: idx as usize,
            }];
            let e = seq![GeomEvent::MultiPolygonEnd { idx: idx as usize }];
            lemma_run_concat(s, b + polys_events(ps, md), e, dim);
            lemma_run_concat(s, b, polys_events(ps, md), dim);
            lemma_run_one(s, b[0], dim);
            assert(b =~= seq![b[0]]);
            let s1 = BuilderState {
                current: Some(GeomView::MultiPolygon(Seq::empty())),
                ..s
            };
            assert(builder_step(s, b[0], dim) == s1);
            lemma_run_polys(s1, Seq::empty(), ps, md, dim);
            assert(Seq::empty() + rebuilt_polys(ps, md, dim) =~= rebuilt_polys(ps, md, dim));
            let s2 = BuilderState {
                current: Some(GeomView::MultiPolygon(rebuilt_polys(ps, md, dim))),
                ..s
            };
            assert(builder_run(s1, polys_events(ps, md), dim) =~= s2);
            lemma_run_one(s2, e[0], dim);
            assert(e =~= seq![e[0]]);
            lemma_deliver_one(s, GeomView::MultiPolygon(rebuilt_polys(ps, md, dim)));
            assert(builder_step(s2, e[0], dim) == deliver_all(s, seq![rebuilt(g, md, dim)]));
        },
        GeomView::GeometryCollection(ms) => {
            let b = seq![GeomEvent::GeometryCollectionBegin {
                size: ms.len() as usize,
                idx: idx as usize,
            }];
            let e = seq![GeomEvent::GeometryCollectionEnd { idx: idx as usize }];
            lemma_run_concat(s, b + members_events(ms, md), e, dim);
            lemma_run_concat(s, b, members_events(ms, md), dim);
            lemma_run_one(s, b[0], dim);
            assert(b =~= seq![b[0]]);
            let s1 = BuilderState { collections: s.collections.push(Seq::empty()), ..s };
            assert(builder_step(s, b[0], dim) == s1);
            lemma_run_members(s1, ms, md, dim);
            let rm = rebuilt_members(ms, md, dim);
            assert(s1.collections.len() > 0);
            assert(deliver_all(s1, rm).collections
                =~= s.collections.push(Seq::empty() + rm));
            assert(Seq::empty() + rm =~= rm);
            let s2 = BuilderState { collections: s.collections.push(rm), ..s };
            assert(deliver_all(s1, rm) =~= s2);
            lemma_run_one(s2, e[0], dim);
            assert(e =~= seq![e[0]]);
            lemma_finish_collection_deliver(s, rm);
            assert(builder_step(s2, e[0], dim) == deliver_all(s, seq![rebuilt(g, md, dim)]));
        },
    }
}

/// Running the emissions of a run of shapes, each at its position,
/// delivers their rebuilt forms in order.
pub proof fn lemma_run_members(s: BuilderState, ms: Seq<GeomView>, md: bool, dim: nat)
    requires
        dim >= 2,
        md ==> dim >= 3,
        forall|i: int| 0 <= i < ms.len() ==> view_wf(#[trigger] ms[i], dim),
        forall|i: int| 0 <= i < ms.len() ==> view_sized(#[trigger] ms[i]),
        forall|i: int| 0 <= i < ms.len() ==> nondegenerate(#[trigger] ms[i]),
        s.current is None,
        s.coords.len() == 0,
    ensures
        builder_run(s, members_events(ms, md), dim)
            == deliver_all(s, rebuilt_members(ms, md, dim)),
    decreases ms,
{
    if ms.len() == 0 {
        if s.collections.len() > 0 {
            assert(s.collections.last() + rebuilt_members(ms, md, dim)
                =~= s.collections.last());
            assert(deliver_all(s, rebuilt_members(ms, md, dim)).collections
                =~= s.collections);
            assert(deliver_all(s, rebuilt_members(ms, md, dim)) =~= s);
        } else {
            assert(s.geoms + rebuilt_members(ms, md, dim) =~= s.geoms);
            assert(deliver_all(s, rebuilt_members(ms, md, dim)) =~= s);
        }
    } else {
        let ms0 = ms.drop_last();
        let m = ms.last();
        lemma_run_members(s, ms0, md, dim);
        lemma_run_concat(s, members_events(ms0, md), geometry_events(m, md, ms.len() - 1), dim);
        let s1 = deliver_all(s, rebuilt_members(ms0, md, dim));
        assert(s1.current is None && s1.coords.len() == 0);
        lemma_builder_rebuilds(s1, m, md, dim, ms.len() - 1);
        lemma_deliver_compose(s, rebuilt_members(ms0, md, dim), rebuilt(m, md, dim));
    }
}

/// Law — round-trip identity: building from the reader's full emission of
/// one well-formed, nondegenerate geometry completes exactly one geometry,
/// its rebuilt form: the same structure with every ring closed and every
/// coordinate carried through the protocol. Counts at every level and the
/// exterior/interior role of every ring follow from `rebuilt`'s shape (see
/// `lemma_rebuilt_shape`).
pub proof fn lemma_round_trip(g: GeomView, md: bool, dim: nat, idx: int)
    requires
        dim >= 2,
        md ==> dim >= 3,
        view_wf(g, dim),
        view_sized(g),
        nondegenerate(g),
    ensures
        builder_run(builder_init(), geometry_events(g, md, idx), dim) == (BuilderState {
            geoms: seq![rebuilt(g, md, dim)],
            ..builder_init()
        }),
{
    lemma_builder_rebuilds(builder_init(), g, md, dim, idx);
    assert(builder_init().geoms + seq![rebuilt(g, md, dim)]
        =~= seq![rebuilt(g, md, dim)]);
    assert(deliver_all(builder_init(), seq![rebuilt(g, md, dim)]) =~= (BuilderState {
        geoms: seq![rebuilt(g, md, dim)],
        ..builder_init()
    }));
}

/// Law — the rebuilt form preserves structure: element counts at every
/// level are kept, ring roles are kept by position, and a stored ring of N
/// coordinates comes back with N + 1.
pub proof fn lemma_rebuilt_shape(g: GeomView, md: bool, dim: nat)
    ensures
        match g {
            GeomView::MultiPoint(cs) => rebuilt(g, md, dim) == GeomView::MultiPoint(
                rebuilt_coords(cs, md, dim),
            ) && rebuilt_coords(cs, md, dim).len() == cs.len(),
            GeomView::LineString(cs) => rebuilt(g, md, dim) == GeomView::LineString(
                rebuilt_coords(cs, md, dim),
            ) && rebuilt_coords(cs, md, dim).len() == cs.len(),
            GeomView::MultiLineString(ps) => rebuilt(g, md, dim)
                == GeomView::MultiLineString(rebuilt_blocks(ps, md, dim))
                && rebuilt_blocks(ps, md, dim).len() == ps.len()
                && forall|i: int| 0 <= i < ps.len()
                    ==> (#[trigger] rebuilt_blocks(ps, md, dim)[i]).len() == ps[i].len(),
            GeomView::Polygon(rs) => rebuilt(g, md, dim) == GeomView::Polygon(
                rebuilt_closed_blocks(rs, md, dim),
            ) && rebuilt_closed_blocks(rs, md, dim).len() == rs.len()
                && forall|i: int| 0 <= i < rs.len() && rs[i].len() > 0
                    ==> (#[trigger] rebuilt_closed_blocks(rs, md, dim)[i]).len()
                        == rs[i].len() + 1,
            GeomView::MultiPolygon(ps) => rebuilt(g, md, dim) == GeomView::MultiPolygon(
                rebuilt_polys(ps, md, dim),
            ) && rebuilt_polys(ps, md, dim).len() == ps.len()
                && forall|p: int| 0 <= p < ps.len()
                    ==> (#[trigger] rebuilt_polys(ps, md, dim)[p]).len() == ps[p].len(),
            GeomView::GeometryCollection(ms) => rebuilt(g, md, dim)
                == GeomView::GeometryCollection(rebuilt_members(ms, md, dim))
                && rebuilt_members(ms, md, dim).len() == ms.len()
                && forall|i: int| 0 <= i < ms.len()
                    ==> rebuilt_members(ms, md, dim)[i] == rebuilt(
                        #[trigger] ms[i],
                        md,
                        dim,
                    ),
        },
{
    if let GeomView::GeometryCollection(ms) = g {
        lemma_rebuilt_members(ms, md, dim);
    }
}

/// `rebuilt_members` maps `rebuilt` over its input, element by element.
pub proof fn lemma_rebuilt_members(ms: Seq<GeomView>, md: bool, dim: nat)
    ensures
        rebuilt_members(ms, md, dim).len() == ms.len(),
        forall|i: int| 0 <= i < ms.len()
            ==> rebuilt_members(ms, md, dim)[i] == rebuilt(#[trigger] ms[i], md, dim),
    decreases ms.len(),
{
    if ms.len() > 0 {
        lemma_rebuilt_members(ms.drop_last(), md, dim);
        assert forall|i: int| 0 <= i < ms.len() implies
            rebuilt_members(ms, md, dim)[i] == rebuilt(#[trigger] ms[i], md, dim) by {
            if i < ms.len() - 1 {
                assert(ms.drop_last()[i] == ms[i]);
            }
        }
    }
}

/// Law — ring closing is presentation-only: a ring of N stored coordinates
/// goes out as N + 1 coordinate events (its first coordinate repeated at
/// the end, carrying position N), while its begin call announces the
/// stored count N; an empty ring emits no coordinate event. The stored
/// ring itself is unchanged by emission.
pub proof fn lemma_ring_closing(rings: Seq<Seq<Seq<u64>>>, md: bool, i: int)
    requires
        0 <= i < rings.len(),
    ensures
        rings_events(rings.subrange(0, i + 1), md) == rings_events(
            rings.subrange(0, i),
            md,
        ) + linestring_events(
            closed_coords(rings[i]),
            md,
            false,
            rings[i].len() as int,
            i,
        ),
        rings[i].len() > 0 ==> coord_events(closed_coords(rings[i]), md).len()
            == rings[i].len() + 1,
        rings[i].len() > 0 ==> closed_coords(rings[i]).last() == rings[i][0],
        rings[i].len() == 0 ==> coord_events(closed_coords(rings[i]), md).len() == 0,
{
    assert(rings.subrange(0, i + 1).drop_last() =~= rings.subrange(0, i));
    assert(rings.subrange(0, i + 1).last() == rings[i]);
}

/// Law — the collapsing rule, builder side: from a fresh builder, a stream
/// of k top-level geometries completes exactly k geometries, each the
/// rebuilt form of its input, in arrival order. `take_geometry` then hands
/// back nothing for k = 0, the single geometry unwrapped for k = 1, and a
/// collection of all k in order otherwise.
pub proof fn lemma_collapsing(gs: Seq<GeomView>, md: bool, dim: nat)
    requires
        dim >= 2,
        md ==> dim >= 3,
        forall|i: int| 0 <= i < gs.len() ==> view_wf(#[trigger] gs[i], dim),
        forall|i: int| 0 <= i < gs.len() ==> view_sized(#[trigger] gs[i]),
        forall|i: int| 0 <= i < gs.len() ==> nondegenerate(#[trigger] gs[i]),
    ensures
        builder_run(builder_init(), members_events(gs, md), dim) == (BuilderState {
            geoms: rebuilt_members(gs, md, dim),
            ..builder_init()
        }),
        rebuilt_members(gs, md, dim).len() == gs.len(),
{
    lemma_run_members(builder_init(), gs, md, dim);
    lemma_rebuilt_members(gs, md, dim);
    assert(builder_init().geoms + rebuilt_members(gs, md, dim)
        =~= rebuilt_members(gs, md, dim));
    assert(deliver_all(builder_init(), rebuilt_members(gs, md, dim)) =~= (BuilderState {
        geoms: rebuilt_members(gs, md, dim),
        ..builder_init()
    }));
}

/// One event respects the dimension gate: with a 2D emission every
/// coordinate goes out as the compact 2D call, and with a
/// multi-dimensional emission every coordinate goes out as the full call
/// carrying a defined `z`.
pub open spec fn gated(e: GeomEvent, md: bool) -> bool {
    match e {
        GeomEvent::Xy { .. } => !md,
        GeomEvent::Coordinate { z, .. } => md && z is Some,
        _ => true,
    }
}

/// Every event of the run respects the dimension gate.
pub open spec fn all_gated(es: Seq<GeomEvent>, md: bool) -> bool {
    forall|k: int| 0 <= k < es.len() ==> gated(#[trigger] es[k], md)
}

proof fn lemma_gated_concat(a: Seq<GeomEvent>, b: Seq<GeomEvent>, md: bool)
    requires
        all_gated(a, md),
        all_gated(b, md),
    ensures
        all_gated(a + b, md),
{
    assert forall|k: int| 0 <= k < (a + b).len() implies gated(#[trigger] (a + b)[k], md) by {
        if k < a.len() {
            assert((a + b)[k] == a[k]);
        } else {
            assert((a + b)[k] == b[k - a.len()]);
        }
    }
}

proof fn lemma_gated_coord_events(cs: Seq<Seq<u64>>, md: bool)
    ensures
        all_gated(coord_events(cs, md), md),
{
}

proof fn lemma_gated_line(cs: Seq<Seq<u64>>, md: bool, tagged: bool, size: int, idx: int)
    ensures
        all_gated(linestring_events(cs, md, tagged, size, idx), md),
{
    lemma_gated_coord_events(cs, md);
    let b = seq![GeomEvent::LineStringBegin { tagged, size: size as usize, idx: idx as usize }];
    let e = seq![GeomEvent::LineStringEnd { tagged, idx: idx as usize }];
    lemma_gated_concat(b, coord_events(cs, md), md);
    lemma_gated_concat(b + coord_events(cs, md), e, md);
}

proof fn lemma_gated_parts(ps: Seq<Seq<Seq<u64>>>, md: bool)
    ensures
        all_gated(parts_events(ps, md), md),
    decreases ps.len(),
{
    if ps.len() > 0 {
        lemma_gated_parts(ps.drop_last(), md);
        lemma_gated_line(ps.last(), md, false, ps.last().len() as int, ps.len() - 1);
        lemma_gated_concat(
            parts_events(ps.drop_last(), md),
            linestring_events(ps.last(), md, false, ps.last().len() as int, ps.len() - 1),
            md,
        );
    }
}

proof fn lemma_gated_rings(rs: Seq<Seq<Seq<u64>>>, md: bool)
    ensures
        all_gated(rings_events(rs, md), md),
    decreases rs.len(),
{
    if rs.len() > 0 {
        lemma_gated_rings(rs.drop_last(), md);
        lemma_gated_line(
            closed_coords(rs.last()),
            md,
            false,
            rs.last().len() as int,
            rs.len() - 1,
        );
        lemma_gated_concat(
            rings_events(rs.drop_last(), md),
            linestring_events(
                closed_coords(rs.last()),
                md,
                false,
                rs.last().len() as int,
                rs.len() - 1,
            ),
            md,
        );
    }
}

proof fn lemma_gated_polys(ps: Seq<Seq<Seq<Seq<u64>>>>, md: bool)
    ensures
        all_gated(polys_events(ps, md), md),
    decreases ps.len(),
{
    if ps.len() > 0 {
        lemma_gated_polys(ps.drop_last(), md);
        let p = ps.last();
        let idx = ps.len() - 1;
        lemma_gated_rings(p, md);
        let b = seq![GeomEvent::PolygonBegin {
            tagged: false,
            size: p.len() as usize,
            idx: idx as usize,
        }];
        let e = seq![GeomEvent::PolygonEnd { tagged: false, idx: idx as usize }];
        lemma_gated_concat(b, rings_events(p, md), md);
        lemma_gated_concat(b + rings_events(p, md), e, md);
        lemma_gated_concat(polys_events(ps.drop_last(), md), polygon_events(p, md, false, idx), md);
    }
}

proof fn lemma_gated_members(ms: Seq<GeomView>, md: bool)
    ensures
        all_gated(members_events(ms, md), md),
    decreases ms,
{
    if ms.len() > 0 {
        lemma_gated_members(ms.drop_last(), md);
        lemma_dimension_gating(ms.last(), md, ms.len() - 1);
        lemma_gated_concat(
            members_events(ms.drop_last(), md),
            geometry_events(ms.last(), md, ms.len() - 1),
            md,
        );
    }
}

/// Law — dimension gating: in the full emission of any shape, a 2D
/// emission uses the compact 2D call for every coordinate, and a
/// multi-dimensional emission uses the full call, carrying a defined `z`,
/// for every coordinate.
pub proof fn lemma_dimension_gating(g: GeomView, md: bool, idx: int)
    ensures
        all_gated(geometry_events(g, md, idx), md),
    decreases g,
{
    match g {
        GeomView::MultiPoint(cs) => {
            let b = seq![GeomEvent::MultiPointBegin { size: cs.len() as usize, idx: idx as usize }];
            let e = seq![GeomEvent::MultiPointEnd { idx: idx as usize }];
            lemma_gated_coord_events(cs, md);
            lemma_gated_concat(b, coord_events(cs, md), md);
            lemma_gated_concat(b + coord_events(cs, md), e, md);
        },
        GeomView::LineString(cs) => {
            lemma_gated_line(cs, md, true, cs.len() as int, idx);
        },
        GeomView::MultiLineString(ps) => {
            let b = seq![GeomEvent::MultiLineStringBegin {
                size: ps.len() as usize,
                idx: idx as usize,
            }];
            let e = seq![GeomEvent::MultiLineStringEnd { idx: idx as usize }];
            lemma_gated_parts(ps, md);
            lemma_gated_concat(b, parts_events(ps, md), md);
            lemma_gated_concat(b + parts_events(ps, md), e, md);
        },
        GeomView::Polygon(rs) => {
            let b = seq![GeomEvent::PolygonBegin {
                tagged: true,
                size: rs.len() as usize,
                idx: idx as usize,
            }];
            let e = seq![GeomEvent::PolygonEnd { tagged: true, idx: idx as usize }];
            lemma_gated_rings(rs, md);
            lemma_gated_concat(b, rings_events(rs, md), md);
            lemma_gated_concat(b + rings_events(rs, md), e, md);
        },
        GeomView::MultiPolygon(ps) => {
            let b = seq![GeomEvent::MultiPolygonBegin {
                size: ps.len() as usize,
                idx: idx as usize,
            }];
            let e = seq![GeomEvent::MultiPolygonEnd { idx: idx as usize }];
            lemma_gated_polys(ps, md);
            lemma_gated_concat(b, polys_events(ps, md), md);
            lemma_gated_concat(b + polys_events(ps, md), e, md);
        },
        GeomView::GeometryCollection(ms) => {
            let b = seq![GeomEvent::GeometryCollectionBegin {
                size: ms.len() as usize,
                idx: idx as usize,
            }];
            let e = seq![GeomEvent::GeometryCollectionEnd { idx: idx as usize }];
            lemma_gated_members(ms, md);
            lemma_gated_concat(b, members_events(ms, md), md);
            lemma_gated_concat(b + members_events(ms, md), e, md);
        },
    }
}

/// A shape with every ring of its polygons closed (first coordinate
/// repeated at the end), all else unchanged.
pub open spec fn with_closed_rings(g: GeomView) -> GeomView
    decreases g,
{
    match g {
        GeomView::MultiPoint(_) => g,
        GeomView::LineString(_) => g,
        GeomView::MultiLineString(_) => g,
        GeomView::Polygon(rs) => GeomView::Polygon(
            Seq::new(rs.len(), |i: int| closed_coords(rs[i])),
        ),
        GeomView::MultiPolygon(ps) => GeomView::MultiPolygon(
            Seq::new(
                ps.len(),
                |p: int| Seq::new(ps[p].len(), |r: int| closed_coords(ps[p][r])),
            ),
        ),
        GeomView::GeometryCollection(ms) => GeomView::GeometryCollection(
            with_closed_rings_members(ms),
        ),
    }
}

/// `with_closed_rings` applied to a run of shapes, in order.
pub open spec fn with_closed_rings_members(ms: Seq<GeomView>) -> Seq<GeomView>
    decreases ms,
{
    if ms.len() == 0 {
        Seq::empty()
    } else {
        with_closed_rings_members(ms.drop_last()).push(with_closed_rings(ms.last()))
    }
}

/// When the wire width matches the stored width — two axes with a 2D
/// emission, or three with a multi-dimensional one — a coordinate crosses
/// the protocol unchanged.
pub proof fn lemma_rebuilt_coords_identity(cs: Seq<Seq<u64>>, md: bool, dim: nat)
    requires
        coords_wf(cs, dim),
        (!md && dim == 2) || (md && dim == 3),
    ensures
        rebuilt_coords(cs, md, dim) == cs,
{
    assert forall|i: int| 0 <= i < cs.len() implies
        rebuilt_coords(cs, md, dim)[i] == cs[i] by {
        assert(cs[i].len() == dim);
        assert(rebuilt_coord(cs[i], md, dim) =~= cs[i]);
    }
    assert(rebuilt_coords(cs, md, dim) =~= cs);
}

/// Law — round-trip identity, exact form: when the wire width matches the
/// stored width, the builder reconstructs the emitted shape exactly, up to
/// closing every polygon ring. Together with `lemma_round_trip` this pins
/// the whole conversion down to the identity on nondegenerate input.
pub proof fn lemma_rebuilt_identity(g: GeomView, md: bool, dim: nat)
    requires
        view_wf(g, dim),
        (!md && dim == 2) || (md && dim == 3),
    ensures
        rebuilt(g, md, dim) == with_closed_rings(g),
    decreases g,
{
    match g {
        GeomView::MultiPoint(cs) => {
            lemma_rebuilt_coords_identity(cs, md, dim);
        },
        GeomView::LineString(cs) => {
            lemma_rebuilt_coords_identity(cs, md, dim);
        },
        GeomView::MultiLineString(ps) => {
            assert forall|i: int| 0 <= i < ps.len() implies
                rebuilt_blocks(ps, md, dim)[i] == ps[i] by {
                lemma_rebuilt_coords_identity(ps[i], md, dim);
            }
            assert(rebuilt_blocks(ps, md, dim) =~= ps);
        },
        GeomView::Polygon(rs) => {
            assert forall|i: int| 0 <= i < rs.len() implies
                rebuilt_closed_blocks(rs, md, dim)[i] == closed_coords(rs[i]) by {
                lemma_closed_wf(rs[i], dim);
                lemma_rebuilt_coords_identity(closed_coords(rs[i]), md, dim);
            }
            assert(rebuilt_closed_blocks(rs, md, dim)
                =~= Seq::new(rs.len(), |i: int| closed_coords(rs[i])));
        },
        GeomView::MultiPolygon(ps) => {
            assert forall|p: int| 0 <= p < ps.len() implies
                rebuilt_polys(ps, md, dim)[p] == Seq::new(
                    ps[p].len(),
                    |r: int| closed_coords(ps[p][r]),
                ) by {
                assert forall|r: int| 0 <= r < ps[p].len() implies
                    rebuilt_closed_blocks(ps[p], md, dim)[r]
                        == closed_coords(ps[p][r]) by {
                    lemma_closed_wf(ps[p][r], dim);
                    lemma_rebuilt_coords_identity(closed_coords(ps[p][r]), md, dim);
                }
                assert(rebuilt_closed_blocks(ps[p], md, dim)
                    =~= Seq::new(ps[p].len(), |r: int| closed_coords(ps[p][r])));
            }
            assert(rebuilt_polys(ps, md, dim) =~= Seq::new(
                ps.len(),
                |p: int| Seq::new(ps[p].len(), |r: int| closed_coords(ps[p][r])),
            ));
        },
        GeomView::GeometryCollection(ms) => {
            lemma_rebuilt_identity_members(ms, md, dim);
        },
    }
}

proof fn lemma_rebuilt_identity_members(ms: Seq<GeomView>, md: bool, dim: nat)
    requires
        forall|i: int| 0 <= i < ms.len() ==> view_wf(#[trigger] ms[i], dim),
        (!md && dim == 2) || (md && dim == 3),
    ensures
        rebuilt_members(ms, md, dim) == with_closed_rings_members(ms),
    decreases ms,
{
    if ms.len() > 0 {
        lemma_rebuilt_identity_members(ms.drop_last(), md, dim);
        lemma_rebuilt_identity(ms.last(), md, dim);
    }
}

} // verus!
