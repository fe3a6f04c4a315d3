//! Conversion into the flat geometry model: drive the protocol reader over
//! a value and collect the result with a builder.

use vstd::prelude::*;
use crate::geometry::GeomView;
use crate::geometry::Geometry;
use crate::geometry::LineString;
use crate::geometry::MultiLineString;
use crate::geometry::MultiPoint;
use crate::geometry::MultiPolygon;
use crate::geometry::Polygon;
use crate::geometry::geom_view;
use crate::geometry::geom_wf;
use crate::geometry::lemma_geom_view_unfold;
use crate::geometry::lemma_geom_wf_view;
use crate::geometry::lemma_geoms_view;
use crate::protocol::ProcessorError;
use crate::reader::process_geometry;
use crate::roundtrip::lemma_round_trip;
use crate::roundtrip::nondegenerate;
use crate::roundtrip::rebuilt;
use crate::roundtrip::view_sized;
use crate::writer::FlatgeomWriter;

verus! {

broadcast use vstd::std_specs::vec::group_vec_axioms;

/// Why a conversion ended without a geometry.
#[derive(Clone, Copy, PartialEq, Eq, Debug)]
pub enum FlatgeomError {
    /// A protocol call failed; the underlying failure, unchanged.
    Processor(ProcessorError),
    /// The event stream completed no geometry at all.
    MissingGeometry,
}

/// A well-formed geometry's shape has machine-sized part, ring and member
/// counts throughout.
pub proof fn lemma_geom_view_sized<const D: usize>(g: Geometry<D>)
    requires
        geom_wf(g),
    ensures
        view_sized(geom_view(g)),
    decreases g,
{
    lemma_geom_view_unfold(g);
    match g {
        Geometry::MultiPoint(_) => {},
        Geometry::LineString(_) => {},
        Geometry::MultiLineString(m) => m.lemma_len_sized(),
        Geometry::Polygon(p) => p.lemma_len_sized(),
        Geometry::MultiPolygon(m) => m.lemma_len_sized(),
        Geometry::GeometryCollection(gs) => {
            lemma_geoms_view(gs@);
            assert forall|i: int| 0 <= i < gs@.len() implies
                view_sized(#[trigger] crate::geometry::geoms_view(gs@)[i]) by {
                lemma_geom_view_sized(gs@[i]);
            }
        },
    }
}

/// Conversion into the flat model by a full pass through the protocol.
pub trait ToFlatgeom<const D: usize>: Sized {
    /// The shape this value describes.
    spec fn shape(&self) -> GeomView;

    /// The well-formedness this value brings to the conversion.
    spec fn shape_wf(&self) -> bool;

    /// Emits `self` through the protocol reader into a fresh builder and
    /// hands back what the builder completed. On any nondegenerate shape
    /// the conversion is owed success, and the result is exactly the
    /// rebuilt form of the shape: structure preserved, rings closed,
    /// coordinates carried through (`z` crossing exactly when `D >= 3`).
    fn to_flatgeom(&self) -> (r: Result<Geometry<D>, FlatgeomError>)
        requires
            self.shape_wf(),
        ensures
            r matches Ok(g) ==> geom_wf(g),
            nondegenerate(self.shape()) ==> (r matches Ok(g) && g@ == rebuilt(
                self.shape(),
                D >= 3,
                D as nat,
            )),
    ;
}

impl<const D: usize> ToFlatgeom<D> for Geometry<D> {
    open spec fn shape(&self) -> GeomView {
        geom_view(*self)
    }

    open spec fn shape_wf(&self) -> bool {
        D >= 2 && geom_wf(*self)
    }

    fn to_flatgeom(&self) -> (r: Result<Geometry<D>, FlatgeomError>) {
        let mut writer = FlatgeomWriter::<D>::new();
        let res = process_geometry(self, &mut writer, 0);
        proof {
            if nondegenerate(self.shape()) {
                lemma_geom_wf_view(*self);
                lemma_geom_view_sized(*self);
                lemma_round_trip(self.shape(), D >= 3, D as nat, 0);
                let evs = crate::reader::geometry_events(self.shape(), D >= 3, 0);
                assert(Seq::<crate::protocol::GeomEvent>::empty() + evs =~= evs);
            }
        }
        match res {
            Err(e) => Err(FlatgeomError::Processor(e)),
            Ok(()) => match writer.take_geometry() {
                Some(g) => Ok(g),
                None => Err(FlatgeomError::MissingGeometry),
            },
        }
    }
}

impl<const D: usize> ToFlatgeom<D> for MultiPoint<D> {
    open spec fn shape(&self) -> GeomView {
        GeomView::MultiPoint(self@)
    }

    open spec fn shape_wf(&self) -> bool {
        D >= 2 && self.wf()
    }

    fn to_flatgeom(&self) -> (r: Result<Geometry<D>, FlatgeomError>) {
        let mut writer = FlatgeomWriter::<D>::new();
        let res = crate::reader::process_multipoint(self, &mut writer, 0);
        proof {
            if nondegenerate(self.shape()) {
                self.lemma_wf_view();
                lemma_round_trip(self.shape(), D >= 3, D as nat, 0);
                let evs = crate::reader::geometry_events(self.shape(), D >= 3, 0);
                assert(Seq::<crate::protocol::GeomEvent>::empty() + evs =~= evs);
            }
        }
        match res {
            Err(e) => Err(FlatgeomError::Processor(e)),
            Ok(()) => match writer.take_geometry() {
                Some(g) => Ok(g),
                None => Err(FlatgeomError::MissingGeometry),
            },
        }
    }
}

impl<const D: usize> ToFlatgeom<D> for LineString<D> {
    open spec fn shape(&self) -> GeomView {
        GeomView::LineString(self@)
    }

    open spec fn shape_wf(&self) -> bool {
        D >= 2 && self.wf()
    }

    fn to_flatgeom(&self) -> (r: Result<Geometry<D>, FlatgeomError>) {
        let mut writer = FlatgeomWriter::<D>::new();
        let res = crate::reader::process_linestring(self, &mut writer, 0);
        proof {
            if nondegenerate(self.shape()) {
                self.lemma_wf_view();
                lemma_round_trip(self.shape(), D >= 3, D as nat, 0);
                let evs = crate::reader::geometry_events(self.shape(), D >= 3, 0);
                assert(Seq::<crate::protocol::GeomEvent>::empty() + evs =~= evs);
            }
        }
        match res {
            Err(e) => Err(FlatgeomError::Processor(e)),
            Ok(()) => match writer.take_geometry() {
                Some(g) => Ok(g),
                None => Err(FlatgeomError::MissingGeometry),
            },
        }
    }
}

impl<const D: usize> ToFlatgeom<D> for MultiLineString<D> {
    open spec fn shape(&self) -> GeomView {
        GeomView::MultiLineString(self@)
    }

    open spec fn shape_wf(&self) -> bool {
        D >= 2 && self.wf()
    }

    fn to_flatgeom(&self) -> (r: Result<Geometry<D>, FlatgeomError>) {
        let mut writer = FlatgeomWriter::<D>::new();
        let res = crate::reader::process_multilinestring(self, &mut writer, 0);
        proof {
            if nondegenerate(self.shape()) {
                self.lemma_wf_view();
                self.lemma_len_sized();
                lemma_round_trip(self.shape(), D >= 3, D as nat, 0);
                let evs = crate::reader::geometry_events(self.shape(), D >= 3, 0);
                assert(Seq::<crate::protocol::GeomEvent>::empty() + evs =~= evs);
            }
        }
        match res {
            Err(e) => Err(FlatgeomError::Processor(e)),
            Ok(()) => match writer.take_geometry() {
                Some(g) => Ok(g),
                None => Err(FlatgeomError::MissingGeometry),
            },
        }
    }
}

impl<const D: usize> ToFlatgeom<D> for Polygon<D> {
    open spec fn shape(&self) -> GeomView {
        GeomView::Polygon(self@)
    }

    open spec fn shape_wf(&self) -> bool {
        D >= 2 && self.wf()
    }

    fn to_flatgeom(&self) -> (r: Result<Geometry<D>, FlatgeomError>) {
        let mut writer = FlatgeomWriter::<D>::new();
        let res = crate::reader::process_polygon(self, &mut writer, 0);
        proof {
            if nondegenerate(self.shape()) {
                self.lemma_wf_view();
                self.lemma_len_sized();
                lemma_round_trip(self.shape(), D >= 3, D as nat, 0);
                let evs = crate::reader::geometry_events(self.shape(), D >= 3, 0);
                assert(Seq::<crate::protocol::GeomEvent>::empty() + evs =~= evs);
            }
        }
        match res {
            Err(e) => Err(FlatgeomError::Processor(e)),
            Ok(()) => match writer.take_geometry() {
                Some(g) => Ok(g),
                None => Err(FlatgeomError::MissingGeometry),
            },
        }
    }
}

impl<const D: usize> ToFlatgeom<D> for MultiPolygon<D> {
    open spec fn shape(&self) -> GeomView {
        GeomView::MultiPolygon(self@)
    }

    open spec fn shape_wf(&self) -> bool {
        D >= 2 && self.wf()
    }

    fn to_flatgeom(&self) -> (r: Result<Geometry<D>, FlatgeomError>) {
        let mut writer = FlatgeomWriter::<D>::new();
        let res = crate::reader::process_multipolygon(self, &mut writer, 0);
        proof {
            if nondegenerate(self.shape()) {
                self.lemma_wf_view();
                self.lemma_len_sized();
                lemma_round_trip(self.shape(), D >= 3, D as nat, 0);
                let evs = crate::reader::geometry_events(self.shape(), D >= 3, 0);
                assert(Seq::<crate::protocol::GeomEvent>::empty() + evs =~= evs);
            }
        }
        match res {
            Err(e) => Err(FlatgeomError::Processor(e)),
            Ok(()) => match writer.take_geometry() {
                Some(g) => Ok(g),
                None => Err(FlatgeomError::MissingGeometry),
            },
        }
    }
}

} // verus!
