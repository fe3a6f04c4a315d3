//! The protocol builder: a processor that consumes the event stream and
//! reconstructs a geometry, keeping a stack of open collections, the one
//! non-collection geometry currently being filled, and a buffer of the
//! coordinates received since the last begin.
//!
//! The builder's behavior is pinned down by the `builder_step` transition
//! function: after any accepted event its abstract state equals
//! `builder_step` applied to the state before. On a malformed stream — an
//! end without a matching begin — the offending event is accepted and
//! ignored rather than failing; well-formed streams never reach those cases.
//!
//! A ring arrives closed (its first coordinate repeated at the end) and is
//! stored exactly as received: the builder never de-duplicates, so a ring
//! gains its closing coordinate across a round trip.

use vstd::prelude::*;
use crate::geometry::GeomView;
use crate::geometry::Geometry;
use crate::geometry::LineString;
use crate::geometry::MultiLineString;
use crate::geometry::MultiPoint;
use crate::geometry::MultiPolygon;
use crate::geometry::Polygon;
use crate::geometry::coords_view;
use crate::geometry::geom_view;
use crate::geometry::geom_wf;
use crate::geometry::geoms_view;
use crate::geometry::lemma_coords_view_concat;
use crate::geometry::lemma_coords_view_single;
use crate::geometry::lemma_geom_view_unfold;
use crate::geometry::lemma_geoms_view;
use crate::geometry::lemma_geoms_view_push;
use crate::geometry::lemma_mod_sum_zero;
use crate::protocol::GeomEvent;
use crate::protocol::GeomProcessor;
use crate::protocol::ProcessorError;

verus! {

broadcast use vstd::std_specs::vec::group_vec_axioms;

/// The abstract state of a builder: finished top-level shapes in arrival
/// order, one frame of members per open collection, the shape being filled,
/// and the coordinates buffered since the last begin.
#[verifier::ext_equal]
pub struct BuilderState {
    pub geoms: Seq<GeomView>,
    pub collections: Seq<Seq<GeomView>>,
    pub current: Option<GeomView>,
    pub coords: Seq<Seq<u64>>,
}

/// The state of a fresh builder.
pub open spec fn builder_init() -> BuilderState {
    BuilderState {
        geoms: Seq::empty(),
        collections: Seq::empty(),
        current: None,
        coords: Seq::empty(),
    }
}

/// The coordinate a builder of dimension `dim` stores for a coordinate
/// event: `x`, `y`, then `z` in slot 2 when there is one, zero scalars in
/// every remaining slot.
pub open spec fn builder_coord(x: u64, y: u64, z: Option<u64>, dim: nat) -> Seq<u64> {
    Seq::new(
        dim,
        |k: int| if k == 0 {
            x
        } else if k == 1 {
            y
        } else if k == 2 {
            match z {
                Some(v) => v,
                None => 0,
            }
        } else {
            0
        },
    )
}

/// Opening a non-collection container makes it the shape being filled.
pub open spec fn builder_start(s: BuilderState, g: GeomView) -> BuilderState {
    BuilderState { current: Some(g), ..s }
}

/// Flushes the coordinate buffer into the shape being filled and clears it.
/// An empty buffer only clears. For a multi polygon, a run at position 0
/// (or arriving before any polygon exists) starts a new polygon as its
/// exterior ring; any other position appends an interior ring to the last
/// polygon.
pub open spec fn builder_finish_coords(s: BuilderState, idx: int) -> BuilderState {
    let cleared = BuilderState { coords: Seq::empty(), ..s };
    if s.coords.len() == 0 {
        cleared
    } else {
        match s.current {
            Some(GeomView::MultiPoint(cs)) => BuilderState {
                current: Some(GeomView::MultiPoint(cs + s.coords)),
                ..cleared
            },
            Some(GeomView::LineString(cs)) => BuilderState {
                current: Some(GeomView::LineString(cs + s.coords)),
                ..cleared
            },
            Some(GeomView::MultiLineString(ps)) => BuilderState {
                current: Some(GeomView::MultiLineString(ps.push(s.coords))),
                ..cleared
            },
            Some(GeomView::Polygon(rs)) => BuilderState {
                current: Some(GeomView::Polygon(rs.push(s.coords))),
                ..cleared
            },
            Some(GeomView::MultiPolygon(ps)) => if idx == 0 || ps.len() == 0 {
                BuilderState {
                    current: Some(GeomView::MultiPolygon(ps.push(seq![s.coords]))),
                    ..cleared
                }
            } else {
                BuilderState {
                    current: Some(GeomView::MultiPolygon(
                        ps.update(ps.len() - 1, ps.last().push(s.coords)),
                    )),
                    ..cleared
                }
            },
            _ => cleared,
        }
    }
}

/// Moves the shape being filled into the innermost open collection, or,
/// with none open, into the finished shapes. With no shape being filled
/// nothing moves.
pub open spec fn builder_finish_geometry(s: BuilderState) -> BuilderState {
    match s.current {
        Some(g) => if s.collections.len() > 0 {
            BuilderState {
                collections: s.collections.update(
                    s.collections.len() - 1,
                    s.collections.last().push(g),
                ),
                current: None,
                ..s
            }
        } else {
            BuilderState { geoms: s.geoms.push(g), current: None, ..s }
        },
        None => s,
    }
}

/// Closes the innermost open collection: its frame, wrapped as a collection
/// shape, moves into the enclosing open collection, or, with none left,
/// into the finished shapes. With no collection open nothing moves.
pub open spec fn builder_finish_collection(s: BuilderState) -> BuilderState {
    if s.collections.len() == 0 {
        s
    } else {
        let g = GeomView::GeometryCollection(s.collections.last());
        let popped = s.collections.drop_last();
        if popped.len() > 0 {
            BuilderState {
                collections: popped.update(popped.len() - 1, popped.last().push(g)),
                ..s
            }
        } else {
            BuilderState { geoms: s.geoms.push(g), collections: popped, ..s }
        }
    }
}

/// The builder's transition on one accepted event.
pub open spec fn builder_step(s: BuilderState, e: GeomEvent, dim: nat) -> BuilderState {
    match e {
        GeomEvent::Xy { x, y, idx } => BuilderState {
            coords: s.coords.push(builder_coord(x, y, None, dim)),
            ..s
        },
        GeomEvent::Coordinate { x, y, z, .. } => BuilderState {
            coords: s.coords.push(builder_coord(x, y, z, dim)),
            ..s
        },
        GeomEvent::MultiPointBegin { .. } => builder_start(
            s,
            GeomView::MultiPoint(Seq::empty()),
        ),
        GeomEvent::LineStringBegin { tagged, .. } => if tagged {
            builder_start(s, GeomView::LineString(Seq::empty()))
        } else {
            s
        },
        GeomEvent::MultiLineStringBegin { .. } => builder_start(
            s,
            GeomView::MultiLineString(Seq::empty()),
        ),
        GeomEvent::PolygonBegin { tagged, .. } => if tagged {
            builder_start(s, GeomView::Polygon(Seq::empty()))
        } else {
            s
        },
        GeomEvent::MultiPolygonBegin { .. } => builder_start(
            s,
            GeomView::MultiPolygon(Seq::empty()),
        ),
        GeomEvent::GeometryCollectionBegin { .. } => BuilderState {
            collections: s.collections.push(Seq::empty()),
            ..s
        },
        GeomEvent::MultiPointEnd { idx } => builder_finish_geometry(
            builder_finish_coords(s, idx as int),
        ),
        GeomEvent::LineStringEnd { tagged, idx } => if tagged {
            builder_finish_geometry(builder_finish_coords(s, idx as int))
        } else {
            builder_finish_coords(s, idx as int)
        },
        GeomEvent::MultiLineStringEnd { .. } => builder_finish_geometry(s),
        GeomEvent::PolygonEnd { tagged, .. } => if tagged {
            builder_finish_geometry(s)
        } else {
            s
        },
        GeomEvent::MultiPolygonEnd { .. } => builder_finish_geometry(s),
        GeomEvent::GeometryCollectionEnd { .. } => builder_finish_collection(s),
    }
}

/// The state a builder of dimension `dim` reaches from `s` after accepting
/// `es`, oldest event first.
pub open spec fn builder_run(s: BuilderState, es: Seq<GeomEvent>, dim: nat) -> BuilderState
    decreases es.len(),
{
    if es.len() == 0 {
        s
    } else {
        builder_step(builder_run(s, es.drop_last(), dim), es.last(), dim)
    }
}

/// Accepting one more event steps the state reached so far.
pub proof fn lemma_run_push(s: BuilderState, h: Seq<GeomEvent>, e: GeomEvent, dim: nat)
    ensures
        builder_run(s, h.push(e), dim) == builder_step(builder_run(s, h, dim), e, dim),
{
    assert(h.push(e).drop_last() =~= h);
    assert(h.push(e).last() == e);
}

/// A run over a concatenation is the run over the first part continued over
/// the second.
pub proof fn lemma_run_concat(s: BuilderState, a: Seq<GeomEvent>, b: Seq<GeomEvent>, dim: nat)
    ensures
        builder_run(s, a + b, dim) == builder_run(builder_run(s, a, dim), b, dim),
    decreases b.len(),
{
    if b.len() == 0 {
        assert(a + b =~= a);
    } else {
        lemma_run_concat(s, a, b.drop_last(), dim);
        assert((a + b).drop_last() =~= a + b.drop_last());
        assert((a + b).last() == b.last());
    }
}

/// A builder over the flat geometry model: feed it protocol events, then
/// take the reconstructed geometry.
///
/// Its abstract state always equals `builder_run` over the events accepted
/// so far, so the exact outcome of any event sequence follows from the
/// transition function alone.
pub struct FlatgeomWriter<const D: usize> {
    geoms: Vec<Geometry<D>>,
    collections: Vec<Vec<Geometry<D>>>,
    current: Option<Geometry<D>>,
    coords: Vec<u64>,
    history: Ghost<Seq<GeomEvent>>,
}

impl<const D: usize> FlatgeomWriter<D> {
    /// The writer's concrete fields read as a builder state.
    pub closed spec fn state(&self) -> BuilderState {
        BuilderState {
            geoms: geoms_view(self.geoms@),
            collections: Seq::new(
                self.collections@.len(),
                |i: int| geoms_view(self.collections@[i]@),
            ),
            current: match self.current {
                Some(g) => Some(geom_view(g)),
                None => None,
            },
            coords: coords_view(self.coords@, D as nat),
        }
    }

    /// Every stored container is well-formed and the coordinate buffer
    /// holds whole coordinates.
    pub closed spec fn wf_parts(&self) -> bool {
        &&& D >= 2
        &&& forall|i: int| 0 <= i < self.geoms@.len() ==> geom_wf(#[trigger] self.geoms@[i])
        &&& forall|i: int, j: int|
            0 <= i < self.collections@.len() && 0 <= j < self.collections@[i]@.len()
                ==> geom_wf(#[trigger] self.collections@[i]@[j])
        &&& match self.current {
            Some(g) => geom_wf(g),
            None => true,
        }
        &&& self.coords@.len() % (D as nat) == 0
    }

    /// A fresh builder with nothing seen. The dimension must be at least 2.
    pub fn new() -> (r: Self)
        requires
            D >= 2,
        ensures
            r.inv(),
            r.infallible(),
            r.multi_dim_spec() == (D >= 3),
            r.history() == Seq::<GeomEvent>::empty(),
    {
        let r = FlatgeomWriter {
            geoms: Vec::new(),
            collections: Vec::new(),
            current: None,
            coords: Vec::new(),
            history: Ghost(Seq::empty()),
        };
        proof {
            lemma_geoms_view(r.geoms@);
            assert(r.state().geoms =~= Seq::<GeomView>::empty());
            assert(coords_view(r.coords@, D as nat) =~= Seq::<Seq<u64>>::empty());
            assert(r.state().collections =~= Seq::<Seq<GeomView>>::empty());
            assert(r.state() =~= builder_init());
        }
        r
    }

    /// The finished geometry: none if nothing completed, the single
    /// geometry if exactly one did, and otherwise a collection of all of
    /// them in arrival order — a single geometry is never spuriously
    /// wrapped.
    pub fn take_geometry(self) -> (r: Option<Geometry<D>>)
        requires
            self.inv(),
        ensures
            ({
                let finished = builder_run(builder_init(), self.history(), D as nat).geoms;
                match r {
                    None => finished.len() == 0,
                    Some(g) => geom_wf(g) && finished.len() > 0 && g@ == (
                    if finished.len() == 1 {
                        finished[0]
                    } else {
                        GeomView::GeometryCollection(finished)
                    }),
                }
            }),
    {
        proof {
            lemma_geoms_view(self.geoms@);
        }
        let FlatgeomWriter { mut geoms, .. } = self;
        if geoms.len() == 0 {
            None
        } else if geoms.len() == 1 {
            match geoms.pop() {
                Some(g) => Some(g),
                None => None,
            }
        } else {
            let g = Geometry::GeometryCollection(geoms);
            proof {
                lemma_geom_view_unfold(g);
            }
            Some(g)
        }
    }
}

impl<const D: usize> GeomProcessor for FlatgeomWriter<D> {
    /// The concrete fields track the run of the accepted events exactly.
    closed spec fn inv(&self) -> bool {
        &&& self.wf_parts()
        &&& self.state() == builder_run(builder_init(), self.history@, D as nat)
    }

    /// The builder wants full coordinates exactly when it stores a third
    /// axis.
    closed spec fn multi_dim_spec(&self) -> bool {
        D >= 3
    }

    /// The builder accepts every event.
    closed spec fn infallible(&self) -> bool {
        true
    }

    closed spec fn history(&self) -> Seq<GeomEvent> {
        self.history@
    }

    fn multi_dim(&self) -> (r: bool) {
        D >= 3
    }

    fn xy(&mut self, x: u64, y: u64, idx: usize) -> (r: Result<(), ProcessorError>) {
        let ghost e = GeomEvent::Xy { x, y, idx };
        push_coord::<D>(&mut self.coords, x, y, None);
        proof {
            lemma_push_coord_state(old(self).coords@, x, y, None, D as nat);
        }
        self.history = Ghost(self.history@.push(e));
        proof {
            lemma_run_push(builder_init(), old(self).history@, e, D as nat);
            assert(self.state() =~= builder_step(old(self).state(), e, D as nat));
        }
        Ok(())
    }

    fn coordinate(
        &mut self,
        x: u64,
        y: u64,
        z: Option<u64>,
        m: Option<u64>,
        t: Option<u64>,
        tm: Option<u64>,
        idx: usize,
    ) -> (r: Result<(), ProcessorError>) {
        let ghost e = GeomEvent::Coordinate { x, y, z, m, t, tm, idx };
        push_coord::<D>(&mut self.coords, x, y, z);
        proof {
            lemma_push_coord_state(old(self).coords@, x, y, z, D as nat);
        }
        self.history = Ghost(self.history@.push(e));
        proof {
            lemma_run_push(builder_init(), old(self).history@, e, D as nat);
            assert(self.state() =~= builder_step(old(self).state(), e, D as nat));
        }
        Ok(())
    }

    fn multipoint_begin(&mut self, size: usize, idx: usize) -> (r: Result<(), ProcessorError>) {
        let ghost e = GeomEvent::MultiPointBegin { size, idx };
        let g = Geometry::MultiPoint(MultiPoint::new());
        proof {
            lemma_geom_view_unfold(g);
        }
        self.current = Some(g);
        self.history = Ghost(self.history@.push(e));
        proof {
            lemma_run_push(builder_init(), old(self).history@, e, D as nat);
            assert(self.state() =~= builder_step(old(self).state(), e, D as nat));
        }
        Ok(())
    }

    fn multipoint_end(&mut self, idx: usize) -> (r: Result<(), ProcessorError>) {
        let ghost e = GeomEvent::MultiPointEnd { idx };
        self.finish_coords_impl(idx);
        self.finish_geometry_impl();
        self.history = Ghost(self.history@.push(e));
        proof {
            lemma_run_push(builder_init(), old(self).history@, e, D as nat);
        }
        Ok(())
    }

    fn linestring_begin(&mut self, tagged: bool, size: usize, idx: usize) -> (r: Result<
        (),
        ProcessorError,
    >) {
        let ghost e = GeomEvent::LineStringBegin { tagged, size, idx };
        if tagged {
            let g = Geometry::LineString(LineString::new());
            proof {
                lemma_geom_view_unfold(g);
            }
            self.current = Some(g);
        }
        self.history = Ghost(self.history@.push(e));
        proof {
            lemma_run_push(builder_init(), old(self).history@, e, D as nat);
            assert(self.state() =~= builder_step(old(self).state(), e, D as nat));
        }
        Ok(())
    }

    fn linestring_end(&mut self, tagged: bool, idx: usize) -> (r: Result<(), ProcessorError>) {
        let ghost e = GeomEvent::LineStringEnd { tagged, idx };
        self.finish_coords_impl(idx);
        if tagged {
            self.finish_geometry_impl();
        }
        self.history = Ghost(self.history@.push(e));
        proof {
            lemma_run_push(builder_init(), old(self).history@, e, D as nat);
        }
        Ok(())
    }

    fn multilinestring_begin(&mut self, size: usize, idx: usize) -> (r: Result<
        (),
        ProcessorError,
    >) {
        let ghost e = GeomEvent::MultiLineStringBegin { size, idx };
        let g = Geometry::MultiLineString(MultiLineString::new());
        proof {
            lemma_geom_view_unfold(g);
        }
        self.current = Some(g);
        self.history = Ghost(self.history@.push(e));
        proof {
            lemma_run_push(builder_init(), old(self).history@, e, D as nat);
            assert(self.state() =~= builder_step(old(self).state(), e, D as nat));
        }
        Ok(())
    }

    fn multilinestring_end(&mut self, idx: usize) -> (r: Result<(), ProcessorError>) {
        let ghost e = GeomEvent::MultiLineStringEnd { idx };
        self.finish_geometry_impl();
        self.history = Ghost(self.history@.push(e));
        proof {
            lemma_run_push(builder_init(), old(self).history@, e, D as nat);
        }
        Ok(())
    }

    fn polygon_begin(&mut self, tagged: bool, size: usize, idx: usize) -> (r: Result<
        (),
        ProcessorError,
    >) {
        let ghost e = GeomEvent::PolygonBegin { tagged, size, idx };
        if tagged {
            let g = Geometry::Polygon(Polygon::new());
            proof {
                lemma_geom_view_unfold(g);
            }
            self.current = Some(g);
        }
        self.history = Ghost(self.history@.push(e));
        proof {
            lemma_run_push(builder_init(), old(self).history@, e, D as nat);
            assert(self.state() =~= builder_step(old(self).state(), e, D as nat));
        }
        Ok(())
    }

    fn polygon_end(&mut self, tagged: bool, idx: usize) -> (r: Result<(), ProcessorError>) {
        let ghost e = GeomEvent::PolygonEnd { tagged, idx };
        if tagged {
            self.finish_geometry_impl();
        }
        self.history = Ghost(self.history@.push(e));
        proof {
            lemma_run_push(builder_init(), old(self).history@, e, D as nat);
        }
        Ok(())
    }

    fn multipolygon_begin(&mut self, size: usize, idx: usize) -> (r: Result<(), ProcessorError>) {
        let ghost e = GeomEvent::MultiPolygonBegin { size, idx };
        let g = Geometry::MultiPolygon(MultiPolygon::new());
        proof {
            lemma_geom_view_unfold(g);
        }
        self.current = Some(g);
        self.history = Ghost(self.history@.push(e));
        proof {
            lemma_run_push(builder_init(), old(self).history@, e, D as nat);
            assert(self.state() =~= builder_step(old(self).state(), e, D as nat));
        }
        Ok(())
    }

    fn multipolygon_end(&mut self, idx: usize) -> (r: Result<(), ProcessorError>) {
        let ghost e = GeomEvent::MultiPolygonEnd { idx };
        self.finish_geometry_impl();
        self.history = Ghost(self.history@.push(e));
        proof {
            lemma_run_push(builder_init(), old(self).history@, e, D as nat);
        }
        Ok(())
    }

    fn geometrycollection_begin(&mut self, size: usize, idx: usize) -> (r: Result<
        (),
        ProcessorError,
    >) {
        let ghost e = GeomEvent::GeometryCollectionBegin { size, idx };
        self.collections.push(Vec::new());
        self.history = Ghost(self.history@.push(e));
        proof {
            lemma_run_push(builder_init(), old(self).history@, e, D as nat);
            lemma_geoms_view(Seq::<Geometry<D>>::empty());
            assert(geoms_view(Seq::<Geometry<D>>::empty()) =~= Seq::<GeomView>::empty());
            assert(self.state().collections =~= old(self).state().collections.push(
                Seq::empty(),
            ));
            assert(self.state() =~= builder_step(old(self).state(), e, D as nat));
        }
        Ok(())
    }

    fn geometrycollection_end(&mut self, idx: usize) -> (r: Result<(), ProcessorError>) {
        let ghost e = GeomEvent::GeometryCollectionEnd { idx };
        self.finish_collection_impl();
        self.history = Ghost(self.history@.push(e));
        proof {
            lemma_run_push(builder_init(), old(self).history@, e, D as nat);
        }
        Ok(())
    }
}

/// Appends one whole coordinate — `x`, `y`, `z` in slot 2 when present,
/// zeros elsewhere — to the flat buffer.
fn push_coord<const D: usize>(dst: &mut Vec<u64>, x: u64, y: u64, z: Option<u64>)
    requires
        D >= 2,
    ensures
        final(dst)@ == old(dst)@ + builder_coord(x, y, z, D as nat),
{
    let ghost c = builder_coord(x, y, z, D as nat);
    dst.push(x);
    dst.push(y);
    proof {
        assert(dst@ =~= old(dst)@ + c.subrange(0, 2));
    }
    let mut k: usize = 2;
    while k < D
        invariant
            D >= 2,
            2 <= k <= D,
            c == builder_coord(x, y, z, D as nat),
            dst@ == old(dst)@ + c.subrange(0, k as int),
        decreases D - k,
    {
        let v: u64 = if k == 2 {
            match z {
                Some(zv) => zv,
                None => 0,
            }
        } else {
            0
        };
        dst.push(v);
        proof {
            assert(c[k as int] == v);
            assert(old(dst)@ + c.subrange(0, k as int) + seq![c[k as int]]
                =~= old(dst)@ + c.subrange(0, k + 1));
        }
        k = k + 1;
    }
    proof {
        assert(c.subrange(0, c.len() as int) =~= c);
        assert(dst@ =~= old(dst)@ + c);
    }
}

/// Appending one whole coordinate to the flat buffer appends it to the
/// buffer's coordinate view.
proof fn lemma_push_coord_state(buf: Seq<u64>, x: u64, y: u64, z: Option<u64>, dim: nat)
    requires
        dim >= 1,
        buf.len() % dim == 0,
    ensures
        (buf + builder_coord(x, y, z, dim)).len() % dim == 0,
        coords_view(buf + builder_coord(x, y, z, dim), dim) == coords_view(buf, dim).push(
            builder_coord(x, y, z, dim),
        ),
{
    let c = builder_coord(x, y, z, dim);
    assert(dim as int % dim as int == 0) by (nonlinear_arith)
        requires dim >= 1;
    lemma_mod_sum_zero(buf.len() as int, c.len() as int, dim as int);
    lemma_coords_view_concat(buf, c, dim);
    lemma_coords_view_single(c, dim);
    assert(coords_view(buf, dim) + seq![c] =~= coords_view(buf, dim).push(c));
}

impl<const D: usize> FlatgeomWriter<D> {
    /// Flushes the coordinate buffer into the geometry being filled — see
    /// `builder_finish_coords` — and clears the buffer.
    fn finish_coords_impl(&mut self, idx: usize)
        requires
            old(self).wf_parts(),
        ensures
            final(self).wf_parts(),
            final(self).state() == builder_finish_coords(old(self).state(), idx as int),
            final(self).history@ == old(self).history@,
    {
        proof {
            if let Some(g) = old(self).current {
                lemma_geom_view_unfold(g);
            }
        }
        if self.coords.len() == 0 {
            proof {
                assert(coords_view(self.coords@, D as nat) =~= Seq::<Seq<u64>>::empty());
                assert(self.state() =~= builder_finish_coords(
                    old(self).state(),
                    idx as int,
                ));
            }
            return;
        }
        let ghost flushed = coords_view(old(self).coords@, D as nat);
        proof {
            crate::geometry::lemma_coord_count(self.coords@, D as nat);
            assert(coords_view(self.coords@, D as nat).len() > 0) by (nonlinear_arith)
                requires
                    coords_view(self.coords@, D as nat).len() * (D as int)
                        == self.coords@.len(),
                    self.coords@.len() > 0,
            ;
            assert(old(self).state().coords.len() > 0);
        }
        let cur = self.current.take();
        match cur {
            Some(Geometry::MultiPoint(mut mp)) => {
                mp.extend(&self.coords);
                let g = Geometry::MultiPoint(mp);
                proof {
                    lemma_geom_view_unfold(g);
                }
                self.current = Some(g);
                proof {
                    assert(self.state().current == builder_finish_coords(
                        old(self).state(),
                        idx as int,
                    ).current);
                }
            },
            Some(Geometry::LineString(mut ls)) => {
                ls.extend(&self.coords);
                let g = Geometry::LineString(ls);
                proof {
                    lemma_geom_view_unfold(g);
                }
                self.current = Some(g);
                proof {
                    assert(self.state().current == builder_finish_coords(
                        old(self).state(),
                        idx as int,
                    ).current);
                }
            },
            Some(Geometry::MultiLineString(mut mls)) => {
                mls.add_linestring(&self.coords);
                let g = Geometry::MultiLineString(mls);
                proof {
                    lemma_geom_view_unfold(g);
                }
                self.current = Some(g);
                proof {
                    assert(self.state().current == builder_finish_coords(
                        old(self).state(),
                        idx as int,
                    ).current);
                }
            },
            Some(Geometry::Polygon(mut poly)) => {
                poly.add_ring(&self.coords);
                let g = Geometry::Polygon(poly);
                proof {
                    lemma_geom_view_unfold(g);
                }
                self.current = Some(g);
                proof {
                    assert(self.state().current == builder_finish_coords(
                        old(self).state(),
                        idx as int,
                    ).current);
                }
            },
            Some(Geometry::MultiPolygon(mut mpoly)) => {
                if idx == 0 || mpoly.len() == 0 {
                    mpoly.add_exterior(&self.coords);
                } else {
                    mpoly.add_interior(&self.coords);
                }
                let g = Geometry::MultiPolygon(mpoly);
                proof {
                    lemma_geom_view_unfold(g);
                }
                self.current = Some(g);
                proof {
                    assert(self.state().current == builder_finish_coords(
                        old(self).state(),
                        idx as int,
                    ).current);
                }
            },
            other => {
                self.current = other;
                proof {
                    assert(self.state().current == builder_finish_coords(
                        old(self).state(),
                        idx as int,
                    ).current);
                }
            },
        }
        self.coords.clear();
        proof {
            assert(coords_view(self.coords@, D as nat) =~= Seq::<Seq<u64>>::empty());
            assert(self.state().collections =~= old(self).state().collections);
            assert(self.state() =~= builder_finish_coords(old(self).state(), idx as int));
        }
    }

    /// Moves the geometry being filled into the innermost open collection
    /// or, with none open, into the finished geometries — see
    /// `builder_finish_geometry`.
    fn finish_geometry_impl(&mut self)
        requires
            old(self).wf_parts(),
        ensures
            final(self).wf_parts(),
            final(self).state() == builder_finish_geometry(old(self).state()),
            final(self).history@ == old(self).history@,
    {
        let cur = self.current.take();
        match cur {
            Some(g) => {
                if self.collections.len() > 0 {
                    let mut frame = match self.collections.pop() {
                        Some(f) => f,
                        None => Vec::new(),
                    };
                    let ghost frame0 = frame@;
                    frame.push(g);
                    self.collections.push(frame);
                    proof {
                        lemma_geoms_view_push(frame0, g);
                        let n = old(self).collections@.len() as int;
                        assert forall|i: int| 0 <= i < n implies
                            self.state().collections[i]
                                == builder_finish_geometry(old(self).state()).collections[i]
                        by {
                            if i < n - 1 {
                                assert(self.collections@[i] == old(self).collections@[i]);
                            }
                        }
                        assert(self.state().collections =~= builder_finish_geometry(
                            old(self).state(),
                        ).collections);
                        assert(self.state() =~= builder_finish_geometry(old(self).state()));
                    }
                } else {
                    let ghost geoms0 = self.geoms@;
                    self.geoms.push(g);
                    proof {
                        lemma_geoms_view_push(geoms0, g);
                        assert(self.state() =~= builder_finish_geometry(old(self).state()));
                    }
                }
            },
            None => {
                proof {
                    assert(self.state() =~= builder_finish_geometry(old(self).state()));
                }
            },
        }
    }

    /// Closes the innermost open collection, wrapping its frame as a
    /// collection geometry — see `builder_finish_collection`.
    fn finish_collection_impl(&mut self)
        requires
            old(self).wf_parts(),
        ensures
            final(self).wf_parts(),
            final(self).state() == builder_finish_collection(old(self).state()),
            final(self).history@ == old(self).history@,
    {
        match self.collections.pop() {
            Some(frame) => {
                let g = Geometry::GeometryCollection(frame);
                proof {
                    lemma_geom_view_unfold(g);
                }
                if self.collections.len() > 0 {
                    let mut parent = match self.collections.pop() {
                        Some(f) => f,
                        None => Vec::new(),
                    };
                    let ghost parent0 = parent@;
                    parent.push(g);
                    self.collections.push(parent);
                    proof {
                        lemma_geoms_view_push(parent0, g);
                        let m = self.collections@.len() as int;
                        assert forall|i: int| 0 <= i < m implies
                            self.state().collections[i]
                                == builder_finish_collection(old(self).state()).collections[i]
                        by {
                            if i < m - 1 {
                                assert(self.collections@[i] == old(self).collections@[i]);
                            }
                        }
                        assert(self.state().collections =~= builder_finish_collection(
                            old(self).state(),
                        ).collections);
                        assert(self.state() =~= builder_finish_collection(old(self).state()));
                    }
                } else {
                    let ghost geoms0 = self.geoms@;
                    self.geoms.push(g);
                    proof {
                        lemma_geoms_view_push(geoms0, g);
                        assert(self.state().collections =~= builder_finish_collection(
                            old(self).state(),
                        ).collections);
                        assert(self.state() =~= builder_finish_collection(old(self).state()));
                    }
                }
            },
            None => {
                proof {
                    assert(self.state() =~= builder_finish_collection(old(self).state()));
                }
            },
        }
    }
}

} // verus!
