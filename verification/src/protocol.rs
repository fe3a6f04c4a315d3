//! The geometry stream protocol: the event vocabulary, the processor
//! interface that consumes it, a recording processor, and a dispatcher that
//! replays recorded events into any processor.
//!
//! Scalar values (`x`, `y`, `z`, ...) are opaque `u64` bit patterns; `idx` is
//! always the position of an element within its immediately enclosing
//! sequence, restarting at 0 for each new enclosing container.

use vstd::prelude::*;

verus! {

/// One call of the geometry stream protocol, as data.
#[derive(Clone, Copy, PartialEq, Eq, Debug)]
pub enum GeomEvent {
    /// 2D-only coordinate event.
    Xy { x: u64, y: u64, idx: usize },
    /// Full coordinate event; only `x`, `y` and `z` are honored here.
    Coordinate {
        x: u64,
        y: u64,
        z: Option<u64>,
        m: Option<u64>,
        t: Option<u64>,
        tm: Option<u64>,
        idx: usize,
    },
    MultiPointBegin { size: usize, idx: usize },
    MultiPointEnd { idx: usize },
    /// `tagged` marks a standalone line string, as opposed to one part of a
    /// multi-part container or one ring of a polygon.
    LineStringBegin { tagged: bool, size: usize, idx: usize },
    LineStringEnd { tagged: bool, idx: usize },
    MultiLineStringBegin { size: usize, idx: usize },
    MultiLineStringEnd { idx: usize },
    /// `tagged` marks a standalone polygon, as opposed to one polygon of a
    /// multi-polygon.
    PolygonBegin { tagged: bool, size: usize, idx: usize },
    PolygonEnd { tagged: bool, idx: usize },
    MultiPolygonBegin { size: usize, idx: usize },
    MultiPolygonEnd { idx: usize },
    GeometryCollectionBegin { size: usize, idx: usize },
    GeometryCollectionEnd { idx: usize },
}

/// A failure signalled by a processor; the emitting side aborts at once and
/// surfaces it unchanged.
#[derive(Clone, Copy, PartialEq, Eq, Debug)]
pub struct ProcessorError {
    pub code: u64,
}

/// A consumer of the geometry stream protocol.
///
/// `history()` is the processor's abstract record of the events it has
/// accepted, oldest first; every accepting call appends exactly the event it
/// was handed. `inv()` is a processor-chosen well-formedness condition that
/// every call preserves, and `multi_dim_spec()` — the processor's declared
/// wish for full multi-dimensional coordinates — never changes.
pub trait GeomProcessor: Sized {
    spec fn inv(&self) -> bool;

    spec fn multi_dim_spec(&self) -> bool;

    spec fn history(&self) -> Seq<GeomEvent>;

    /// Whether this processor accepts every call: one that does promises
    /// `Ok` from every method, so an emitting side is then owed success.
    spec fn infallible(&self) -> bool;

    /// Whether the processor wants full multi-dimensional coordinates.
    fn multi_dim(&self) -> (r: bool)
        requires
            self.inv(),
        ensures
            r == self.multi_dim_spec(),
    ;

    fn xy(&mut self, x: u64, y: u64, idx: usize) -> (r: Result<(), ProcessorError>)
        requires
            old(self).inv(),
        ensures
            final(self).inv(),
            final(self).multi_dim_spec() == old(self).multi_dim_spec(),
            r is Ok ==> final(self).history() == old(self).history().push(
                GeomEvent::Xy { x, y, idx },
            ),
            old(self).infallible() ==> r is Ok && final(self).infallible(),
    ;

    fn coordinate(
        &mut self,
        x: u64,
        y: u64,
        z: Option<u64>,
        m: Option<u64>,
        t: Option<u64>,
        tm: Option<u64>,
        idx: usize,
    ) -> (r: Result<(), ProcessorError>)
        requires
            old(self).inv(),
        ensures
            final(self).inv(),
            final(self).multi_dim_spec() == old(self).multi_dim_spec(),
            r is Ok ==> final(self).history() == old(self).history().push(
                GeomEvent::Coordinate { x, y, z, m, t, tm, idx },
            ),
            old(self).infallible() ==> r is Ok && final(self).infallible(),
    ;

    fn multipoint_begin(&mut self, size: usize, idx: usize) -> (r: Result<(), ProcessorError>)
        requires
            old(self).inv(),
        ensures
            final(self).inv(),
            final(self).multi_dim_spec() == old(self).multi_dim_spec(),
            r is Ok ==> final(self).history() == old(self).history().push(
                GeomEvent::MultiPointBegin { size, idx },
            ),
            old(self).infallible() ==> r is Ok && final(self).infallible(),
    ;

    fn multipoint_end(&mut self, idx: usize) -> (r: Result<(), ProcessorError>)
        requires
            old(self).inv(),
        ensures
            final(self).inv(),
            final(self).multi_dim_spec() == old(self).multi_dim_spec(),
            r is Ok ==> final(self).history() == old(self).history().push(
                GeomEvent::MultiPointEnd { idx },
            ),
            old(self).infallible() ==> r is Ok && final(self).infallible(),
    ;

    fn linestring_begin(&mut self, tagged: bool, size: usize, idx: usize) -> (r: Result<
        (),
        ProcessorError,
    >)
        requires
            old(self).inv(),
        ensures
            final(self).inv(),
            final(self).multi_dim_spec() == old(self).multi_dim_spec(),
            r is Ok ==> final(self).history() == old(self).history().push(
                GeomEvent::LineStringBegin { tagged, size, idx },
            ),
            old(self).infallible() ==> r is Ok && final(self).infallible(),
    ;

    fn linestring_end(&mut self, tagged: bool, idx: usize) -> (r: Result<(), ProcessorError>)
        requires
            old(self).inv(),
        ensures
            final(self).inv(),
            final(self).multi_dim_spec() == old(self).multi_dim_spec(),
            r is Ok ==> final(self).history() == old(self).history().push(
                GeomEvent::LineStringEnd { tagged, idx },
            ),
            old(self).infallible() ==> r is Ok && final(self).infallible(),
    ;

    fn multilinestring_begin(&mut self, size: usize, idx: usize) -> (r: Result<
        (),
        ProcessorError,
    >)
        requires
            old(self).inv(),
        ensures
            final(self).inv(),
            final(self).multi_dim_spec() == old(self).multi_dim_spec(),
            r is Ok ==> final(self).history() == old(self).history().push(
                GeomEvent::MultiLineStringBegin { size, idx },
            ),
            old(self).infallible() ==> r is Ok && final(self).infallible(),
    ;

    fn multilinestring_end(&mut self, idx: usize) -> (r: Result<(), ProcessorError>)
        requires
            old(self).inv(),
        ensures
            final(self).inv(),
            final(self).multi_dim_spec() == old(self).multi_dim_spec(),
            r is Ok ==> final(self).history() == old(self).history().push(
                GeomEvent::MultiLineStringEnd { idx },
            ),
            old(self).infallible() ==> r is Ok && final(self).infallible(),
    ;

    fn polygon_begin(&mut self, tagged: bool, size: usize, idx: usize) -> (r: Result<
        (),
        ProcessorError,
    >)
        requires
            old(self).inv(),
        ensures
            final(self).inv(),
            final(self).multi_dim_spec() == old(self).multi_dim_spec(),
            r is Ok ==> final(self).history() == old(self).history().push(
                GeomEvent::PolygonBegin { tagged, size, idx },
            ),
            old(self).infallible() ==> r is Ok && final(self).infallible(),
    ;

    fn polygon_end(&mut self, tagged: bool, idx: usize) -> (r: Result<(), ProcessorError>)
        requires
            old(self).inv(),
        ensures
            final(self).inv(),
            final(self).multi_dim_spec() == old(self).multi_dim_spec(),
            r is Ok ==> final(self).history() == old(self).history().push(
                GeomEvent::PolygonEnd { tagged, idx },
            ),
            old(self).infallible() ==> r is Ok && final(self).infallible(),
    ;

    fn multipolygon_begin(&mut self, size: usize, idx: usize) -> (r: Result<(), ProcessorError>)
        requires
            old(self).inv(),
        ensures
            final(self).inv(),
            final(self).multi_dim_spec() == old(self).multi_dim_spec(),
            r is Ok ==> final(self).history() == old(self).history().push(
                GeomEvent::MultiPolygonBegin { size, idx },
            ),
            old(self).infallible() ==> r is Ok && final(self).infallible(),
    ;

    fn multipolygon_end(&mut self, idx: usize) -> (r: Result<(), ProcessorError>)
        requires
            old(self).inv(),
        ensures
            final(self).inv(),
            final(self).multi_dim_spec() == old(self).multi_dim_spec(),
            r is Ok ==> final(self).history() == old(self).history().push(
                GeomEvent::MultiPolygonEnd { idx },
            ),
            old(self).infallible() ==> r is Ok && final(self).infallible(),
    ;

    fn geometrycollection_begin(&mut self, size: usize, idx: usize) -> (r: Result<
        (),
        ProcessorError,
    >)
        requires
            old(self).inv(),
        ensures
            final(self).inv(),
            final(self).multi_dim_spec() == old(self).multi_dim_spec(),
            r is Ok ==> final(self).history() == old(self).history().push(
                GeomEvent::GeometryCollectionBegin { size, idx },
            ),
            old(self).infallible() ==> r is Ok && final(self).infallible(),
    ;

    fn geometrycollection_end(&mut self, idx: usize) -> (r: Result<(), ProcessorError>)
        requires
            old(self).inv(),
        ensures
            final(self).inv(),
            final(self).multi_dim_spec() == old(self).multi_dim_spec(),
            r is Ok ==> final(self).history() == old(self).history().push(
                GeomEvent::GeometryCollectionEnd { idx },
            ),
            old(self).infallible() ==> r is Ok && final(self).infallible(),
    ;
}

/// A processor that records every event it is handed, in order, and never
/// fails. It lets a caller capture an emission and replay or inspect it.
pub struct EventLog {
    events: Vec<GeomEvent>,
    wants_multi_dim: bool,
}

impl EventLog {
    pub fn new(multi_dim: bool) -> (r: Self)
        ensures
            r.inv(),
            r.history() == Seq::<GeomEvent>::empty(),
            r.multi_dim_spec() == multi_dim,
    {
        EventLog { events: Vec::new(), wants_multi_dim: multi_dim }
    }

    /// The recorded events, oldest first.
    pub fn events(&self) -> (r: &Vec<GeomEvent>)
        ensures
            r@ == self.history(),
    {
        &self.events
    }
}

impl GeomProcessor for EventLog {
    closed spec fn inv(&self) -> bool {
        true
    }

    closed spec fn infallible(&self) -> bool {
        true
    }

    closed spec fn multi_dim_spec(&self) -> bool {
        self.wants_multi_dim
    }

    closed spec fn history(&self) -> Seq<GeomEvent> {
        self.events@
    }

    fn multi_dim(&self) -> (r: bool) {
        self.wants_multi_dim
    }

    fn xy(&mut self, x: u64, y: u64, idx: usize) -> (r: Result<(), ProcessorError>) {
        self.events.push(GeomEvent::Xy { x, y, idx });
        Ok(())
    }

    fn coordinate(
        &mut self,
        x: u64,
        y: u64,
        z: Option<u64>,
        m: Option<u64>,
        t: Option<u64>,
        tm: Option<u64>,
        idx: usize,
    ) -> (r: Result<(), ProcessorError>) {
        self.events.push(GeomEvent::Coordinate { x, y, z, m, t, tm, idx });
        Ok(())
    }

    fn multipoint_begin(&mut self, size: usize, idx: usize) -> (r: Result<(), ProcessorError>) {
        self.events.push(GeomEvent::MultiPointBegin { size, idx });
        Ok(())
    }

    fn multipoint_end(&mut self, idx: usize) -> (r: Result<(), ProcessorError>) {
        self.events.push(GeomEvent::MultiPointEnd { idx });
        Ok(())
    }

    fn linestring_begin(&mut self, tagged: bool, size: usize, idx: usize) -> (r: Result<
        (),
        ProcessorError,
    >) {
        self.events.push(GeomEvent::LineStringBegin { tagged, size, idx });
        Ok(())
    }

    fn linestring_end(&mut self, tagged: bool, idx: usize) -> (r: Result<(), ProcessorError>) {
        self.events.push(GeomEvent::LineStringEnd { tagged, idx });
        Ok(())
    }

    fn multilinestring_begin(&mut self, size: usize, idx: usize) -> (r: Result<
        (),
        ProcessorError,
    >) {
        self.events.push(GeomEvent::MultiLineStringBegin { size, idx });
        Ok(())
    }

    fn multilinestring_end(&mut self, idx: usize) -> (r: Result<(), ProcessorError>) {
        self.events.push(GeomEvent::MultiLineStringEnd { idx });
        Ok(())
    }

    fn polygon_begin(&mut self, tagged: bool, size: usize, idx: usize) -> (r: Result<
        (),
        ProcessorError,
    >) {
        self.events.push(GeomEvent::PolygonBegin { tagged, size, idx });
        Ok(())
    }

    fn polygon_end(&mut self, tagged: bool, idx: usize) -> (r: Result<(), ProcessorError>) {
        self.events.push(GeomEvent::PolygonEnd { tagged, idx });
        Ok(())
    }

    fn multipolygon_begin(&mut self, size: usize, idx: usize) -> (r: Result<(), ProcessorError>) {
        self.events.push(GeomEvent::MultiPolygonBegin { size, idx });
        Ok(())
    }

    fn multipolygon_end(&mut self, idx: usize) -> (r: Result<(), ProcessorError>) {
        self.events.push(GeomEvent::MultiPolygonEnd { idx });
        Ok(())
    }

    fn geometrycollection_begin(&mut self, size: usize, idx: usize) -> (r: Result<
        (),
        ProcessorError,
    >) {
        self.events.push(GeomEvent::GeometryCollectionBegin { size, idx });
        Ok(())
    }

    fn geometrycollection_end(&mut self, idx: usize) -> (r: Result<(), ProcessorError>) {
        self.events.push(GeomEvent::GeometryCollectionEnd { idx });
        Ok(())
    }
}

/// Replays recorded events, oldest first, into `p`. On the first refusal the
/// replay stops and surfaces that failure unchanged; `p` then holds the
/// events it accepted so far.
pub fn play<P: GeomProcessor>(events: &Vec<GeomEvent>, p: &mut P) -> (r: Result<
    (),
    ProcessorError,
>)
    requires
        old(p).inv(),
    ensures
        final(p).inv(),
        final(p).multi_dim_spec() == old(p).multi_dim_spec(),
        old(p).infallible() ==> r is Ok && final(p).infallible(),
        r is Ok ==> final(p).history() == old(p).history() + events@,
{
    let n = events.len();
    let mut i: usize = 0;
    while i < n
        invariant
            p.inv(),
            n == events@.len(),
            i <= n,
            p.multi_dim_spec() == old(p).multi_dim_spec(),
            old(p).infallible() ==> p.infallible(),
            p.history() == old(p).history() + events@.subrange(0, i as int),
        decreases n - i,
    {
        let res = match events[i] {
            GeomEvent::Xy { x, y, idx } => p.xy(x, y, idx),
            GeomEvent::Coordinate { x, y, z, m, t, tm, idx } => p.coordinate(
                x,
                y,
                z,
                m,
                t,
                tm,
                idx,
            ),
            GeomEvent::MultiPointBegin { size, idx } => p.multipoint_begin(size, idx),
            GeomEvent::MultiPointEnd { idx } => p.multipoint_end(idx),
            GeomEvent::LineStringBegin { tagged, size, idx } => p.linestring_begin(
                tagged,
                size,
                idx,
            ),
            GeomEvent::LineStringEnd { tagged, idx } => p.linestring_end(tagged, idx),
            GeomEvent::MultiLineStringBegin { size, idx } => p.multilinestring_begin(size, idx),
            GeomEvent::MultiLineStringEnd { idx } => p.multilinestring_end(idx),
            GeomEvent::PolygonBegin { tagged, size, idx } => p.polygon_begin(tagged, size, idx),
            GeomEvent::PolygonEnd { tagged, idx } => p.polygon_end(tagged, idx),
            GeomEvent::MultiPolygonBegin { size, idx } => p.multipolygon_begin(size, idx),
            GeomEvent::MultiPolygonEnd { idx } => p.multipolygon_end(idx),
            GeomEvent::GeometryCollectionBegin { size, idx } => p.geometrycollection_begin(
                size,
                idx,
            ),
            GeomEvent::GeometryCollectionEnd { idx } => p.geometrycollection_end(idx),
        };
        match res {
            Ok(()) => {},
            Err(e) => {
                return Err(e);
            },
        }
        proof {
            assert(old(p).history() + events@.subrange(0, i as int)
                + seq![events@[i as int]]
                =~= old(p).history() + events@.subrange(0, i + 1));
        }
        i = i + 1;
    }
    proof {
        assert(old(p).history() + events@.subrange(0, n as int)
            =~= old(p).history() + events@);
    }
    Ok(())
}

} // verus!
