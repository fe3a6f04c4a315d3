//! The flat geometry model: container kinds that pack a variable number of
//! coordinates, parts, rings and polygons into contiguous scalar buffers with
//! offset tables, plus the recursive `Geometry` union over all of them.
//!
//! A coordinate of dimension `D` occupies `D` consecutive scalars of a flat
//! `u64` buffer. Offset tables are measured in whole coordinates: consecutive
//! entries delimit a half-open coordinate range, the first entry is zero, and
//! the last entry marks the end of the buffer.

use vstd::prelude::*;
use vstd::arithmetic::div_mod::lemma_fundamental_div_mod;
use vstd::arithmetic::div_mod::lemma_div_multiples_vanish_fancy;
use vstd::arithmetic::div_mod::group_mod_properties;
use vstd::arithmetic::div_mod::lemma_add_mod_noop;

verus! {

broadcast use vstd::std_specs::vec::group_vec_axioms;

/// The scalar buffer `buf`, holding whole coordinates of dimension `dim`,
/// read as the sequence of those coordinates.
pub open spec fn coords_view(buf: Seq<u64>, dim: nat) -> Seq<Seq<u64>> {
    Seq::new(
        (buf.len() / dim) as nat,
        |i: int| buf.subrange(i * dim, i * dim + dim),
    )
}

/// A buffer holding whole coordinates splits, coordinate by coordinate,
/// around any whole-coordinate boundary.
pub proof fn lemma_coords_view_concat(a: Seq<u64>, b: Seq<u64>, dim: nat)
    requires
        dim > 0,
        a.len() % dim == 0,
    ensures
        coords_view(a + b, dim) == coords_view(a, dim) + coords_view(b, dim),
{
    let d = dim as int;
    let la = a.len() as int;
    let lb = b.len() as int;
    let na = la / d;
    let nb = lb / d;
    lemma_split_div(la, lb, d);
    lemma_fundamental_div_mod(la, d);
    lemma_fundamental_div_mod(lb, d);
    assert forall|i: int| 0 <= i < na + nb implies
        coords_view(a + b, dim)[i] == (coords_view(a, dim) + coords_view(b, dim))[i]
    by {
        if i < na {
            assert(i * d + d <= na * d) by (nonlinear_arith)
                requires 0 <= i, i < na, d > 0;
            assert(na * d == d * na) by (nonlinear_arith);
            assert((a + b).subrange(i * d, i * d + d) =~= a.subrange(i * d, i * d + d));
        } else {
            let j = i - na;
            assert(i * d == j * d + na * d) by (nonlinear_arith)
                requires i == j + na;
            assert(na * d == d * na && nb * d == d * nb) by (nonlinear_arith);
            assert(j * d + d <= nb * d) by (nonlinear_arith)
                requires 0 <= j, j < nb, d > 0;
            assert((a + b).subrange(i * d, i * d + d) =~= b.subrange(j * d, j * d + d));
        }
    }
    assert(coords_view(a + b, dim) =~= coords_view(a, dim) + coords_view(b, dim));
}

/// When `d` divides `la`, a sum splits under division: `(la + lb) / d ==
/// la / d + lb / d`.
pub proof fn lemma_split_div(la: int, lb: int, d: int)
    requires
        d > 0,
        0 <= la,
        0 <= lb,
        la % d == 0,
    ensures
        (la + lb) / d == la / d + lb / d,
{
    lemma_fundamental_div_mod(la, d);
    lemma_fundamental_div_mod(lb, d);
    assert(0 <= lb % d < d) by {
        broadcast use group_mod_properties;
    }
    lemma_div_multiples_vanish_fancy(la / d + lb / d, lb % d, d);
    assert(d * (la / d + lb / d) + lb % d == la + lb) by (nonlinear_arith)
        requires la == d * (la / d), lb == d * (lb / d) + lb % d;
}

/// Copies every scalar of `src` onto the end of `dst`.
fn append_scalars(dst: &mut Vec<u64>, src: &Vec<u64>)
    ensures
        final(dst)@ == old(dst)@ + src@,
{
    let mut k: usize = 0;
    while k < src.len()
        invariant
            k <= src@.len(),
            dst@ == old(dst)@ + src@.subrange(0, k as int),
        decreases src@.len() - k,
    {
        dst.push(src[k]);
        proof {
            assert(old(dst)@ + src@.subrange(0, k as int) + seq![src@[k as int]]
                =~= old(dst)@ + src@.subrange(0, k + 1));
        }
        k = k + 1;
    }
    proof {
        assert(old(dst)@ + src@.subrange(0, src@.len() as int) =~= old(dst)@ + src@);
    }
}

/// The sum of two buffer lengths that each hold whole coordinates again
/// holds whole coordinates.
pub proof fn lemma_mod_sum_zero(la: int, lb: int, d: int)
    requires
        d > 0,
        0 <= la,
        0 <= lb,
        la % d == 0,
        lb % d == 0,
    ensures
        (la + lb) % d == 0,
{
    lemma_add_mod_noop(la, lb, d);
    assert(0int % d == 0) by (nonlinear_arith)
        requires d > 0;
}

/// An ordered sequence of coordinates backed by one flat scalar buffer.
pub struct MultiPoint<const D: usize> {
    coords: Vec<u64>,
}

impl<const D: usize> View for MultiPoint<D> {
    type V = Seq<Seq<u64>>;

    closed spec fn view(&self) -> Seq<Seq<u64>> {
        coords_view(self.coords@, D as nat)
    }
}

impl<const D: usize> MultiPoint<D> {
    /// The buffer holds a whole number of `D`-scalar coordinates.
    pub closed spec fn wf(&self) -> bool {
        &&& D >= 1
        &&& self.coords@.len() % (D as nat) == 0
    }

    pub fn new() -> (r: Self)
        requires
            D >= 1,
        ensures
            r.wf(),
            r@ == Seq::<Seq<u64>>::empty(),
    {
        let r = MultiPoint { coords: Vec::new() };
        proof {
            assert(r@ =~= Seq::<Seq<u64>>::empty());
        }
        r
    }

    /// Appends the whole coordinates held by the flat buffer `pts`.
    pub fn extend(&mut self, pts: &Vec<u64>)
        requires
            old(self).wf(),
            pts@.len() % (D as nat) == 0,
        ensures
            final(self).wf(),
            final(self)@ == old(self)@ + coords_view(pts@, D as nat),
    {
        append_scalars(&mut self.coords, pts);
        proof {
            lemma_mod_sum_zero(old(self).coords@.len() as int, pts@.len() as int, D as int);
            lemma_coords_view_concat(old(self).coords@, pts@, D as nat);
        }
    }

    /// The number of coordinates stored.
    pub fn len(&self) -> (r: usize)
        requires
            self.wf(),
        ensures
            r == self@.len(),
    {
        proof {
            lemma_coord_count(self.coords@, D as nat);
        }
        self.coords.len() / D
    }

    /// Scalar `k` of coordinate `i`.
    pub fn coord_scalar(&self, i: usize, k: usize) -> (r: u64)
        requires
            self.wf(),
            i < self@.len(),
            k < D,
        ensures
            r == self@[i as int][k as int],
    {
        let total = self.coords.len();
        proof {
            lemma_coord_index(self.coords@, D as nat, i as int);
            assert(i as int * (D as int) + (k as int) < total);
        }
        self.coords[i * D + k]
    }
}

/// A whole-coordinate buffer holds `len / dim` coordinates, and they tile it.
pub proof fn lemma_coord_count(buf: Seq<u64>, dim: nat)
    requires
        dim > 0,
        buf.len() % dim == 0,
    ensures
        coords_view(buf, dim).len() * dim == buf.len(),
        coords_view(buf, dim).len() == buf.len() / dim,
{
    let d = dim as int;
    let q = buf.len() as int / d;
    lemma_fundamental_div_mod(buf.len() as int, d);
    assert(q * d == d * q) by (nonlinear_arith);
}

/// Coordinate `i` of a buffer starts at scalar `i * dim`, within bounds.
pub proof fn lemma_coord_index(buf: Seq<u64>, dim: nat, i: int)
    requires
        dim > 0,
        buf.len() % dim == 0,
        0 <= i < coords_view(buf, dim).len(),
    ensures
        i * dim + dim <= buf.len(),
        coords_view(buf, dim)[i] == buf.subrange(i * dim, i * dim + dim),
        forall|k: int| 0 <= k < dim ==> coords_view(buf, dim)[i][k] == buf[i * dim + k],
{
    let d = dim as int;
    let n = buf.len() as int / d;
    lemma_fundamental_div_mod(buf.len() as int, d);
    assert(i * d + d <= n * d) by (nonlinear_arith)
        requires 0 <= i, i < n, d > 0;
    assert(n * d == d * n) by (nonlinear_arith);
    assert(i * d + d <= buf.len());
}

/// A prefix of a concatenation reads as a prefix of its first part.
pub proof fn lemma_subrange_prefix<T>(x: Seq<T>, y: Seq<T>, a: int, b: int)
    requires
        0 <= a <= b <= x.len(),
    ensures
        (x + y).subrange(a, b) == x.subrange(a, b),
{
    assert((x + y).subrange(a, b) =~= x.subrange(a, b));
}

/// The tail of a concatenation reads as its second part.
pub proof fn lemma_subrange_suffix<T>(x: Seq<T>, y: Seq<T>)
    ensures
        (x + y).subrange(x.len() as int, (x.len() + y.len()) as int) == y,
{
    assert((x + y).subrange(x.len() as int, (x.len() + y.len()) as int) =~= y);
}

/// One flat scalar buffer partitioned into consecutive blocks of whole
/// coordinates by an offset table. Offsets count coordinates; entry 0 is 0,
/// the table is non-decreasing, and its last entry is the coordinate count of
/// the whole buffer, so consecutive entries delimit one block each.
struct Blocks<const D: usize> {
    coords: Vec<u64>,
    offsets: Vec<usize>,
}

impl<const D: usize> View for Blocks<D> {
    type V = Seq<Seq<Seq<u64>>>;

    closed spec fn view(&self) -> Seq<Seq<Seq<u64>>> {
        Seq::new(
            (self.offsets@.len() - 1) as nat,
            |i: int| coords_view(self.coords@, D as nat).subrange(
                self.offsets@[i] as int,
                self.offsets@[i + 1] as int,
            ),
        )
    }
}

impl<const D: usize> Blocks<D> {
    closed spec fn wf(&self) -> bool {
        &&& D >= 1
        &&& self.coords@.len() % (D as nat) == 0
        &&& self.offsets@.len() >= 1
        &&& self.offsets@[0] == 0
        &&& forall|i: int, j: int|
            0 <= i <= j < self.offsets@.len() ==> self.offsets@[i] <= self.offsets@[j]
        &&& self.offsets@[self.offsets@.len() - 1] ==
            coords_view(self.coords@, D as nat).len()
    }

    fn new() -> (r: Self)
        requires
            D >= 1,
        ensures
            r.wf(),
            r@ == Seq::<Seq<Seq<u64>>>::empty(),
    {
        let mut offsets: Vec<usize> = Vec::new();
        offsets.push(0);
        let r = Blocks { coords: Vec::new(), offsets };
        proof {
            assert(coords_view(r.coords@, D as nat).len() == 0);
            assert(r@ =~= Seq::<Seq<Seq<u64>>>::empty());
        }
        r
    }

    /// Appends the whole coordinates of the flat buffer `block` as one new
    /// block.
    fn add_block(&mut self, block: &Vec<u64>)
        requires
            old(self).wf(),
            block@.len() % (D as nat) == 0,
        ensures
            final(self).wf(),
            final(self)@ == old(self)@.push(coords_view(block@, D as nat)),
    {
        let ghost old_all = coords_view(old(self).coords@, D as nat);
        let ghost block_view = coords_view(block@, D as nat);
        append_scalars(&mut self.coords, block);
        let added = block.len() / D;
        let last = self.offsets[self.offsets.len() - 1];
        proof {
            lemma_mod_sum_zero(old(self).coords@.len() as int, block@.len() as int, D as int);
            lemma_coords_view_concat(old(self).coords@, block@, D as nat);
            lemma_coord_count(block@, D as nat);
            lemma_coord_count(self.coords@, D as nat);
            lemma_split_div(
                old(self).coords@.len() as int,
                block@.len() as int,
                D as int,
            );
            assert(last + added == coords_view(self.coords@, D as nat).len());
            assert(coords_view(self.coords@, D as nat).len() * (D as int)
                == self.coords@.len());
            assert(coords_view(self.coords@, D as nat).len() <= self.coords@.len())
                by (nonlinear_arith)
                requires
                    D >= 1,
                    coords_view(self.coords@, D as nat).len() * (D as int)
                        == self.coords@.len(),
            ;
        }
        let total = self.coords.len();
        let end = last + added;
        self.offsets.push(end);
        proof {
            let all = coords_view(self.coords@, D as nat);
            let n = old(self)@.len() as int;
            assert(all == old_all + block_view);
            assert forall|i: int| 0 <= i < n implies final(self)@[i] == old(self)@[i] by {
                lemma_subrange_prefix(
                    old_all,
                    block_view,
                    old(self).offsets@[i] as int,
                    old(self).offsets@[i + 1] as int,
                );
            }
            lemma_subrange_suffix(old_all, block_view);
            assert(final(self)@[n] == block_view);
            assert(final(self)@ =~= old(self)@.push(block_view));
        }
    }

    /// The number of blocks.
    fn len(&self) -> (r: usize)
        requires
            self.wf(),
        ensures
            r == self@.len(),
    {
        self.offsets.len() - 1
    }

    /// The number of coordinates in block `i`.
    fn block_len(&self, i: usize) -> (r: usize)
        requires
            self.wf(),
            i < self@.len(),
        ensures
            r == self@[i as int].len(),
    {
        let m = self.offsets.len();
        proof {
            assert(i + 1 < m);
        }
        self.offsets[i + 1] - self.offsets[i]
    }

    /// Scalar `k` of coordinate `j` of block `i`.
    fn block_scalar(&self, i: usize, j: usize, k: usize) -> (r: u64)
        requires
            self.wf(),
            i < self@.len(),
            j < self@[i as int].len(),
            k < D,
        ensures
            r == self@[i as int][j as int][k as int],
    {
        let c = self.offsets[i] + j;
        let total = self.coords.len();
        proof {
            lemma_coord_index(self.coords@, D as nat, c as int);
            assert(c as int * (D as int) + (k as int) < total);
        }
        self.coords[c * D + k]
    }

    /// A fresh flat copy of the scalars of block `i`.
    fn block_flat(&self, i: usize) -> (r: Vec<u64>)
        requires
            self.wf(),
            i < self@.len(),
        ensures
            r@.len() % (D as nat) == 0,
            coords_view(r@, D as nat) == self@[i as int],
    {
        let n = self.block_len(i);
        let mut r: Vec<u64> = Vec::new();
        let mut j: usize = 0;
        while j < n
            invariant
                self.wf(),
                i < self@.len(),
                n == self@[i as int].len(),
                j <= n,
                r@.len() == j * (D as int),
                coords_view(r@, D as nat) == self@[i as int].subrange(0, j as int),
                r@.len() % (D as nat) == 0,
            decreases n - j,
        {
            let ghost r_old = r@;
            proof {
                lemma_block_coord_len(*self, i as int, j as int);
            }
            let mut k: usize = 0;
            while k < D
                invariant
                    self.wf(),
                    i < self@.len(),
                    j < self@[i as int].len(),
                    self@[i as int][j as int].len() == D,
                    k <= D,
                    r@ == r_old + self@[i as int][j as int].subrange(0, k as int),
                decreases D - k,
            {
                let s = self.block_scalar(i, j, k);
                r.push(s);
                proof {
                    assert(r_old + self@[i as int][j as int].subrange(0, k as int)
                        + seq![self@[i as int][j as int][k as int]]
                        =~= r_old + self@[i as int][j as int].subrange(0, k + 1));
                }
                k = k + 1;
            }
            proof {
                let coord = self@[i as int][j as int];
                assert(coord.subrange(0, coord.len() as int) =~= coord);
                assert(coord.len() == D) by {
                    lemma_block_coord_len(*self, i as int, j as int);
                }
                assert(r@ == r_old + coord);
                lemma_mod_sum_zero(r_old.len() as int, D as int, D as int);
                lemma_coords_view_concat(r_old, coord, D as nat);
                assert(coords_view(coord, D as nat) =~= seq![coord]) by {
                    lemma_coord_count(coord, D as nat);
                    assert(coord.len() / (D as nat) == 1) by (nonlinear_arith)
                        requires coord.len() == D as nat, D >= 1;
                    assert(coords_view(coord, D as nat)[0] =~= coord);
                }
                assert(self@[i as int].subrange(0, j as int).push(coord)
                    =~= self@[i as int].subrange(0, j + 1));
                assert((j + 1) * (D as int) == j * (D as int) + D) by (nonlinear_arith);
            }
            j = j + 1;
        }
        proof {
            assert(self@[i as int].subrange(0, n as int) =~= self@[i as int]);
        }
        r
    }
}

/// Every coordinate of a block of a well-formed `Blocks` has exactly `D`
/// scalars.
proof fn lemma_block_coord_len<const D: usize>(b: Blocks<D>, i: int, j: int)
    requires
        b.wf(),
        0 <= i < b@.len(),
        0 <= j < b@[i].len(),
    ensures
        b@[i][j].len() == D,
{
    let all = coords_view(b.coords@, D as nat);
    lemma_coord_index(b.coords@, D as nat, b.offsets@[i] + j);
}

/// An ordered sequence of coordinates forming one open path, backed by one
/// flat scalar buffer.
pub struct LineString<const D: usize> {
    coords: Vec<u64>,
}

impl<const D: usize> View for LineString<D> {
    type V = Seq<Seq<u64>>;

    closed spec fn view(&self) -> Seq<Seq<u64>> {
        coords_view(self.coords@, D as nat)
    }
}

impl<const D: usize> LineString<D> {
    /// The buffer holds a whole number of `D`-scalar coordinates.
    pub closed spec fn wf(&self) -> bool {
        &&& D >= 1
        &&& self.coords@.len() % (D as nat) == 0
    }

    pub fn new() -> (r: Self)
        requires
            D >= 1,
        ensures
            r.wf(),
            r@ == Seq::<Seq<u64>>::empty(),
    {
        let r = LineString { coords: Vec::new() };
        proof {
            assert(r@ =~= Seq::<Seq<u64>>::empty());
        }
        r
    }

    /// Builds a path directly from a flat scalar buffer.
    pub fn from_raw(coords: Vec<u64>) -> (r: Self)
        requires
            D >= 1,
            coords@.len() % (D as nat) == 0,
        ensures
            r.wf(),
            r@ == coords_view(coords@, D as nat),
    {
        LineString { coords }
    }

    /// Appends the whole coordinates held by the flat buffer `pts`.
    pub fn extend(&mut self, pts: &Vec<u64>)
        requires
            old(self).wf(),
            pts@.len() % (D as nat) == 0,
        ensures
            final(self).wf(),
            final(self)@ == old(self)@ + coords_view(pts@, D as nat),
    {
        append_scalars(&mut self.coords, pts);
        proof {
            lemma_mod_sum_zero(old(self).coords@.len() as int, pts@.len() as int, D as int);
            lemma_coords_view_concat(old(self).coords@, pts@, D as nat);
        }
    }

    /// The number of coordinates stored.
    pub fn len(&self) -> (r: usize)
        requires
            self.wf(),
        ensures
            r == self@.len(),
    {
        proof {
            lemma_coord_count(self.coords@, D as nat);
        }
        self.coords.len() / D
    }

    /// Scalar `k` of coordinate `i`.
    pub fn coord_scalar(&self, i: usize, k: usize) -> (r: u64)
        requires
            self.wf(),
            i < self@.len(),
            k < D,
        ensures
            r == self@[i as int][k as int],
    {
        let total = self.coords.len();
        proof {
            lemma_coord_index(self.coords@, D as nat, i as int);
            assert(i as int * (D as int) + (k as int) < total);
        }
        self.coords[i * D + k]
    }
}

/// An ordered sequence of independent paths ("parts") sharing one flat
/// scalar buffer, with a per-part offset table.
pub struct MultiLineString<const D: usize> {
    parts: Blocks<D>,
}

impl<const D: usize> View for MultiLineString<D> {
    type V = Seq<Seq<Seq<u64>>>;

    closed spec fn view(&self) -> Seq<Seq<Seq<u64>>> {
        self.parts@
    }
}

impl<const D: usize> MultiLineString<D> {
    pub closed spec fn wf(&self) -> bool {
        self.parts.wf()
    }

    pub fn new() -> (r: Self)
        requires
            D >= 1,
        ensures
            r.wf(),
            r@ == Seq::<Seq<Seq<u64>>>::empty(),
    {
        MultiLineString { parts: Blocks::new() }
    }

    /// Appends the whole coordinates of the flat buffer `part` as one new
    /// part.
    pub fn add_linestring(&mut self, part: &Vec<u64>)
        requires
            old(self).wf(),
            part@.len() % (D as nat) == 0,
        ensures
            final(self).wf(),
            final(self)@ == old(self)@.push(coords_view(part@, D as nat)),
    {
        self.parts.add_block(part);
    }

    /// The number of parts.
    pub fn len(&self) -> (r: usize)
        requires
            self.wf(),
        ensures
            r == self@.len(),
    {
        self.parts.len()
    }

    /// The number of coordinates of part `i`.
    pub fn part_len(&self, i: usize) -> (r: usize)
        requires
            self.wf(),
            i < self@.len(),
        ensures
            r == self@[i as int].len(),
    {
        self.parts.block_len(i)
    }

    /// Scalar `k` of coordinate `j` of part `i`.
    pub fn part_scalar(&self, i: usize, j: usize, k: usize) -> (r: u64)
        requires
            self.wf(),
            i < self@.len(),
            j < self@[i as int].len(),
            k < D,
        ensures
            r == self@[i as int][j as int][k as int],
    {
        self.parts.block_scalar(i, j, k)
    }
}

/// An ordered sequence of rings sharing one flat scalar buffer, with a
/// per-ring offset table. Ring 0 is the exterior boundary, later rings are
/// interior holes. A ring is stored without a duplicated closing coordinate:
/// closing is a presentation-time property produced only on protocol
/// emission.
pub struct Polygon<const D: usize> {
    rings: Blocks<D>,
}

impl<const D: usize> View for Polygon<D> {
    type V = Seq<Seq<Seq<u64>>>;

    closed spec fn view(&self) -> Seq<Seq<Seq<u64>>> {
        self.rings@
    }
}

impl<const D: usize> Polygon<D> {
    pub closed spec fn wf(&self) -> bool {
        self.rings.wf()
    }

    pub fn new() -> (r: Self)
        requires
            D >= 1,
        ensures
            r.wf(),
            r@ == Seq::<Seq<Seq<u64>>>::empty(),
    {
        Polygon { rings: Blocks::new() }
    }

    /// Appends the whole coordinates of the flat buffer `ring` as one new
    /// ring; the first ring added is the exterior.
    pub fn add_ring(&mut self, ring: &Vec<u64>)
        requires
            old(self).wf(),
            ring@.len() % (D as nat) == 0,
        ensures
            final(self).wf(),
            final(self)@ == old(self)@.push(coords_view(ring@, D as nat)),
    {
        self.rings.add_block(ring);
    }

    /// The number of rings.
    pub fn len(&self) -> (r: usize)
        requires
            self.wf(),
        ensures
            r == self@.len(),
    {
        self.rings.len()
    }

    /// The number of stored coordinates of ring `i` (without the closing
    /// duplicate).
    pub fn ring_len(&self, i: usize) -> (r: usize)
        requires
            self.wf(),
            i < self@.len(),
        ensures
            r == self@[i as int].len(),
    {
        self.rings.block_len(i)
    }

    /// Scalar `k` of stored coordinate `j` of ring `i`.
    pub fn ring_scalar(&self, i: usize, j: usize, k: usize) -> (r: u64)
        requires
            self.wf(),
            i < self@.len(),
            j < self@[i as int].len(),
            k < D,
        ensures
            r == self@[i as int][j as int][k as int],
    {
        self.rings.block_scalar(i, j, k)
    }

    /// A fresh flat copy of the scalars of ring `i`.
    pub fn ring_flat(&self, i: usize) -> (r: Vec<u64>)
        requires
            self.wf(),
            i < self@.len(),
        ensures
            r@.len() % (D as nat) == 0,
            coords_view(r@, D as nat) == self@[i as int],
    {
        self.rings.block_flat(i)
    }
}

/// An ordered sequence of polygons, each a sequence of rings (ring 0
/// exterior, the rest interior), stored as a two-level offset structure over
/// one shared flat scalar buffer.
pub struct MultiPolygon<const D: usize> {
    rings: Blocks<D>,
    poly_offsets: Vec<usize>,
}

impl<const D: usize> View for MultiPolygon<D> {
    type V = Seq<Seq<Seq<Seq<u64>>>>;

    closed spec fn view(&self) -> Seq<Seq<Seq<Seq<u64>>>> {
        Seq::new(
            (self.poly_offsets@.len() - 1) as nat,
            |p: int| self.rings@.subrange(
                self.poly_offsets@[p] as int,
                self.poly_offsets@[p + 1] as int,
            ),
        )
    }
}

impl<const D: usize> MultiPolygon<D> {
    pub closed spec fn wf(&self) -> bool {
        &&& self.rings.wf()
        &&& self.poly_offsets@.len() >= 1
        &&& self.poly_offsets@[0] == 0
        &&& forall|i: int, j: int|
            0 <= i <= j < self.poly_offsets@.len()
                ==> self.poly_offsets@[i] <= self.poly_offsets@[j]
        &&& self.poly_offsets@[self.poly_offsets@.len() - 1] == self.rings@.len()
    }

    pub fn new() -> (r: Self)
        requires
            D >= 1,
        ensures
            r.wf(),
            r@ == Seq::<Seq<Seq<Seq<u64>>>>::empty(),
    {
        let mut poly_offsets: Vec<usize> = Vec::new();
        poly_offsets.push(0);
        let r = MultiPolygon { rings: Blocks::new(), poly_offsets };
        proof {
            assert(r@ =~= Seq::<Seq<Seq<Seq<u64>>>>::empty());
        }
        r
    }

    /// Starts a new polygon whose exterior ring holds the whole coordinates
    /// of the flat buffer `ring`.
    pub fn add_exterior(&mut self, ring: &Vec<u64>)
        requires
            old(self).wf(),
            ring@.len() % (D as nat) == 0,
        ensures
            final(self).wf(),
            final(self)@ == old(self)@.push(seq![coords_view(ring@, D as nat)]),
    {
        let ghost rv = coords_view(ring@, D as nat);
        self.rings.add_block(ring);
        let end = self.rings.len();
        self.poly_offsets.push(end);
        proof {
            let n = old(self)@.len() as int;
            assert forall|p: int| 0 <= p < n implies final(self)@[p] == old(self)@[p] by {
                lemma_subrange_prefix(
                    old(self).rings@,
                    seq![rv],
                    old(self).poly_offsets@[p] as int,
                    old(self).poly_offsets@[p + 1] as int,
                );
                assert(old(self).rings@.push(rv) =~= old(self).rings@ + seq![rv]);
            }
            assert(final(self)@[n] =~= seq![rv]);
            assert(final(self)@ =~= old(self)@.push(seq![rv]));
        }
    }

    /// Appends one interior ring, holding the whole coordinates of the flat
    /// buffer `ring`, to the polygon most recently started.
    pub fn add_interior(&mut self, ring: &Vec<u64>)
        requires
            old(self).wf(),
            old(self)@.len() > 0,
            ring@.len() % (D as nat) == 0,
        ensures
            final(self).wf(),
            final(self)@ == old(self)@.update(
                old(self)@.len() - 1,
                old(self)@.last().push(coords_view(ring@, D as nat)),
            ),
    {
        let ghost rv = coords_view(ring@, D as nat);
        self.rings.add_block(ring);
        let m = self.poly_offsets.len();
        let bumped = self.rings.len();
        self.poly_offsets.set(m - 1, bumped);
        proof {
            let n = old(self)@.len() as int;
            assert forall|p: int| 0 <= p < n - 1 implies final(self)@[p] == old(self)@[p] by {
                lemma_subrange_prefix(
                    old(self).rings@,
                    seq![rv],
                    old(self).poly_offsets@[p] as int,
                    old(self).poly_offsets@[p + 1] as int,
                );
                assert(old(self).rings@.push(rv) =~= old(self).rings@ + seq![rv]);
            }
            assert(final(self)@[n - 1] =~= old(self)@.last().push(rv));
            assert(final(self)@ =~= old(self)@.update(n - 1, old(self)@.last().push(rv)));
        }
    }

    /// Appends a copy of `poly`, rings in order, as one new polygon.
    pub fn push(&mut self, poly: &Polygon<D>)
        requires
            old(self).wf(),
            poly.wf(),
        ensures
            final(self).wf(),
            final(self)@ == old(self)@.push(poly@),
    {
        let n = poly.len();
        let last = self.rings.len();
        let mut i: usize = 0;
        while i < n
            invariant
                old(self).wf(),
                poly.wf(),
                n == poly@.len(),
                i <= n,
                self.poly_offsets == old(self).poly_offsets,
                self.rings.wf(),
                self.rings@ == old(self).rings@ + poly@.subrange(0, i as int),
            decreases n - i,
        {
            let ring = poly.ring_flat(i);
            self.rings.add_block(&ring);
            proof {
                assert(old(self).rings@ + poly@.subrange(0, i as int)
                    + seq![poly@[i as int]]
                    =~= old(self).rings@ + poly@.subrange(0, i + 1));
            }
            i = i + 1;
        }
        let end = self.rings.len();
        self.poly_offsets.push(end);
        proof {
            assert(poly@.subrange(0, poly@.len() as int) =~= poly@);
            assert(end == last + n);
            let np = old(self)@.len() as int;
            assert forall|p: int| 0 <= p < np implies final(self)@[p] == old(self)@[p] by {
                lemma_subrange_prefix(
                    old(self).rings@,
                    poly@,
                    old(self).poly_offsets@[p] as int,
                    old(self).poly_offsets@[p + 1] as int,
                );
            }
            lemma_subrange_suffix(old(self).rings@, poly@);
            assert(final(self)@[np] == poly@);
            assert(final(self)@ =~= old(self)@.push(poly@));
        }
    }

    /// The number of polygons.
    pub fn len(&self) -> (r: usize)
        requires
            self.wf(),
        ensures
            r == self@.len(),
    {
        self.poly_offsets.len() - 1
    }

    /// The number of rings of polygon `p`.
    pub fn num_rings(&self, p: usize) -> (r: usize)
        requires
            self.wf(),
            p < self@.len(),
        ensures
            r == self@[p as int].len(),
    {
        let m = self.poly_offsets.len();
        proof {
            assert(p + 1 < m);
        }
        self.poly_offsets[p + 1] - self.poly_offsets[p]
    }

    /// The number of stored coordinates of ring `r` of polygon `p` (without
    /// the closing duplicate).
    pub fn ring_len(&self, p: usize, r: usize) -> (res: usize)
        requires
            self.wf(),
            p < self@.len(),
            r < self@[p as int].len(),
        ensures
            res == self@[p as int][r as int].len(),
    {
        self.rings.block_len(self.poly_offsets[p] + r)
    }

    /// Scalar `k` of stored coordinate `j` of ring `r` of polygon `p`.
    pub fn ring_scalar(&self, p: usize, r: usize, j: usize, k: usize) -> (res: u64)
        requires
            self.wf(),
            p < self@.len(),
            r < self@[p as int].len(),
            j < self@[p as int][r as int].len(),
            k < D,
        ensures
            res == self@[p as int][r as int][j as int][k as int],
    {
        self.rings.block_scalar(self.poly_offsets[p] + r, j, k)
    }
}

/// The mathematical shape of a geometry: every container kind reduced to
/// nested sequences of coordinates, with collections fully recursive.
#[verifier::ext_equal]
pub enum GeomView {
    MultiPoint(Seq<Seq<u64>>),
    LineString(Seq<Seq<u64>>),
    MultiLineString(Seq<Seq<Seq<u64>>>),
    Polygon(Seq<Seq<Seq<u64>>>),
    MultiPolygon(Seq<Seq<Seq<Seq<u64>>>>),
    GeometryCollection(Seq<GeomView>),
}

/// A tagged union over the six container kinds. Exactly one variant is
/// active; a collection owns its members exclusively.
pub enum Geometry<const D: usize> {
    MultiPoint(MultiPoint<D>),
    LineString(LineString<D>),
    MultiLineString(MultiLineString<D>),
    Polygon(Polygon<D>),
    MultiPolygon(MultiPolygon<D>),
    GeometryCollection(Vec<Geometry<D>>),
}

impl<const D: usize> View for Geometry<D> {
    type V = GeomView;

    open spec fn view(&self) -> GeomView {
        geom_view(*self)
    }
}

/// The shape of a geometry value.
pub closed spec fn geom_view<const D: usize>(g: Geometry<D>) -> GeomView
    decreases g,
{
    match g {
        Geometry::MultiPoint(m) => GeomView::MultiPoint(m@),
        Geometry::LineString(l) => GeomView::LineString(l@),
        Geometry::MultiLineString(m) => GeomView::MultiLineString(m@),
        Geometry::Polygon(p) => GeomView::Polygon(p@),
        Geometry::MultiPolygon(m) => GeomView::MultiPolygon(m@),
        Geometry::GeometryCollection(gs) => GeomView::GeometryCollection(
            geoms_view(gs@),
        ),
    }
}

/// The shapes of a sequence of geometry values, in order.
pub closed spec fn geoms_view<const D: usize>(gs: Seq<Geometry<D>>) -> Seq<GeomView>
    decreases gs,
{
    if gs.len() == 0 {
        Seq::empty()
    } else {
        seq![geom_view(gs[0])] + geoms_view(gs.drop_first())
    }
}

/// `geoms_view` maps `geom_view` over its input, element by element.
pub proof fn lemma_geoms_view<const D: usize>(gs: Seq<Geometry<D>>)
    ensures
        geoms_view(gs).len() == gs.len(),
        forall|i: int| 0 <= i < gs.len()
            ==> geoms_view(gs)[i] == geom_view(#[trigger] gs[i]),
    decreases gs.len(),
{
    if gs.len() > 0 {
        lemma_geoms_view(gs.drop_first());
        assert forall|i: int| 0 <= i < gs.len() implies
            geoms_view(gs)[i] == geom_view(#[trigger] gs[i]) by {
            if i > 0 {
                assert(gs.drop_first()[i - 1] == gs[i]);
            }
        }
    }
}

/// Well-formedness of a geometry value: each container in it is
/// well-formed, recursively through collections.
pub closed spec fn geom_wf<const D: usize>(g: Geometry<D>) -> bool
    decreases g,
{
    match g {
        Geometry::MultiPoint(m) => m.wf(),
        Geometry::LineString(l) => l.wf(),
        Geometry::MultiLineString(m) => m.wf(),
        Geometry::Polygon(p) => p.wf(),
        Geometry::MultiPolygon(m) => m.wf(),
        Geometry::GeometryCollection(gs) =>
            forall|i: int| 0 <= i < gs@.len() ==> geom_wf(#[trigger] gs@[i]),
    }
}

/// What `geom_view` and `geom_wf` say on each variant, stated once so that
/// callers outside this module can unfold them.
pub proof fn lemma_geom_view_unfold<const D: usize>(g: Geometry<D>)
    ensures
        match g {
            Geometry::MultiPoint(m) =>
                g@ == GeomView::MultiPoint(m@) && (geom_wf(g) <==> m.wf()),
            Geometry::LineString(l) =>
                g@ == GeomView::LineString(l@) && (geom_wf(g) <==> l.wf()),
            Geometry::MultiLineString(m) =>
                g@ == GeomView::MultiLineString(m@) && (geom_wf(g) <==> m.wf()),
            Geometry::Polygon(p) =>
                g@ == GeomView::Polygon(p@) && (geom_wf(g) <==> p.wf()),
            Geometry::MultiPolygon(m) =>
                g@ == GeomView::MultiPolygon(m@) && (geom_wf(g) <==> m.wf()),
            Geometry::GeometryCollection(gs) =>
                g@ == GeomView::GeometryCollection(geoms_view(gs@))
                    && (geom_wf(g) <==> forall|i: int|
                        0 <= i < gs@.len() ==> geom_wf(#[trigger] gs@[i])),
        },
{
}

/// Every coordinate of `cs` has exactly `dim` scalars.
pub open spec fn coords_wf(cs: Seq<Seq<u64>>, dim: nat) -> bool {
    forall|i: int| 0 <= i < cs.len() ==> (#[trigger] cs[i]).len() == dim
}

/// Every coordinate of every block of `bs` has exactly `dim` scalars.
pub open spec fn blocks_wf(bs: Seq<Seq<Seq<u64>>>, dim: nat) -> bool {
    forall|i: int| 0 <= i < bs.len() ==> coords_wf(#[trigger] bs[i], dim)
}

/// Every coordinate of every ring of every polygon of `ps` has exactly
/// `dim` scalars.
pub open spec fn polys_wf(ps: Seq<Seq<Seq<Seq<u64>>>>, dim: nat) -> bool {
    forall|p: int| 0 <= p < ps.len() ==> blocks_wf(#[trigger] ps[p], dim)
}

/// Every coordinate of a shape has exactly `dim` scalars, recursively
/// through collections.
pub open spec fn view_wf(g: GeomView, dim: nat) -> bool
    decreases g,
{
    match g {
        GeomView::MultiPoint(cs) => coords_wf(cs, dim),
        GeomView::LineString(cs) => coords_wf(cs, dim),
        GeomView::MultiLineString(parts) => blocks_wf(parts, dim),
        GeomView::Polygon(rings) => blocks_wf(rings, dim),
        GeomView::MultiPolygon(polys) => polys_wf(polys, dim),
        GeomView::GeometryCollection(ms) =>
            forall|i: int| 0 <= i < ms.len() ==> view_wf(#[trigger] ms[i], dim),
    }
}

/// A whole-coordinate buffer reads as coordinates of exactly `dim` scalars.
pub proof fn lemma_coords_view_wf(buf: Seq<u64>, dim: nat)
    requires
        dim > 0,
        buf.len() % dim == 0,
    ensures
        coords_wf(coords_view(buf, dim), dim),
{
    assert forall|i: int| 0 <= i < coords_view(buf, dim).len() implies
        (#[trigger] coords_view(buf, dim)[i]).len() == dim by {
        lemma_coord_index(buf, dim, i);
    }
}

impl<const D: usize> MultiPoint<D> {
    /// A well-formed container holds coordinates of exactly `D` scalars.
    pub proof fn lemma_wf_view(&self)
        requires
            self.wf(),
        ensures
            coords_wf(self@, D as nat),
    {
        lemma_coords_view_wf(self.coords@, D as nat);
    }
}

impl<const D: usize> LineString<D> {
    /// A well-formed container holds coordinates of exactly `D` scalars.
    pub proof fn lemma_wf_view(&self)
        requires
            self.wf(),
        ensures
            coords_wf(self@, D as nat),
    {
        lemma_coords_view_wf(self.coords@, D as nat);
    }
}

impl<const D: usize> Blocks<D> {
    proof fn lemma_wf_view(&self)
        requires
            self.wf(),
        ensures
            blocks_wf(self@, D as nat),
    {
        assert forall|i: int| 0 <= i < self@.len() implies
            coords_wf(#[trigger] self@[i], D as nat) by {
            assert forall|j: int| 0 <= j < self@[i].len() implies
                (#[trigger] self@[i][j]).len() == D by {
                lemma_block_coord_len(*self, i, j);
            }
        }
    }
}

impl<const D: usize> MultiLineString<D> {
    /// A well-formed container holds coordinates of exactly `D` scalars.
    pub proof fn lemma_wf_view(&self)
        requires
            self.wf(),
        ensures
            blocks_wf(self@, D as nat),
    {
        self.parts.lemma_wf_view();
    }
}

impl<const D: usize> Polygon<D> {
    /// A well-formed container holds coordinates of exactly `D` scalars.
    pub proof fn lemma_wf_view(&self)
        requires
            self.wf(),
        ensures
            blocks_wf(self@, D as nat),
    {
        self.rings.lemma_wf_view();
    }
}

impl<const D: usize> MultiPolygon<D> {
    /// A well-formed container holds coordinates of exactly `D` scalars.
    pub proof fn lemma_wf_view(&self)
        requires
            self.wf(),
        ensures
            polys_wf(self@, D as nat),
    {
        self.rings.lemma_wf_view();
        assert forall|p: int| 0 <= p < self@.len() implies
            blocks_wf(#[trigger] self@[p], D as nat) by {
            assert forall|r: int| 0 <= r < self@[p].len() implies
                coords_wf(#[trigger] self@[p][r], D as nat) by {
                assert(self@[p][r] == self.rings@[self.poly_offsets@[p] + r]);
            }
        }
    }
}

/// A well-formed geometry's shape holds coordinates of exactly `D` scalars
/// throughout.
pub proof fn lemma_geom_wf_view<const D: usize>(g: Geometry<D>)
    requires
        geom_wf(g),
    ensures
        view_wf(geom_view(g), D as nat),
    decreases g,
{
    match g {
        Geometry::MultiPoint(m) => m.lemma_wf_view(),
        Geometry::LineString(l) => l.lemma_wf_view(),
        Geometry::MultiLineString(m) => m.lemma_wf_view(),
        Geometry::Polygon(p) => p.lemma_wf_view(),
        Geometry::MultiPolygon(m) => m.lemma_wf_view(),
        Geometry::GeometryCollection(gs) => {
            lemma_geoms_view(gs@);
            assert forall|i: int| 0 <= i < geoms_view(gs@).len() implies
                view_wf(#[trigger] geoms_view(gs@)[i], D as nat) by {
                lemma_geom_wf_view(gs@[i]);
            }
        },
    }
}

/// A buffer of exactly one coordinate reads as that single coordinate.
pub proof fn lemma_coords_view_single(c: Seq<u64>, dim: nat)
    requires
        dim > 0,
        c.len() == dim,
    ensures
        coords_view(c, dim) == seq![c],
{
    assert(c.len() / dim == 1) by (nonlinear_arith)
        requires c.len() == dim, dim > 0;
    assert(coords_view(c, dim)[0] =~= c);
    assert(coords_view(c, dim) =~= seq![c]);
}

/// Appending one geometry appends its shape to the sequence view.
pub proof fn lemma_geoms_view_push<const D: usize>(gs: Seq<Geometry<D>>, g: Geometry<D>)
    ensures
        geoms_view(gs.push(g)) == geoms_view(gs).push(geom_view(g)),
{
    lemma_geoms_view(gs);
    lemma_geoms_view(gs.push(g));
    assert forall|i: int| 0 <= i < gs.len() + 1 implies
        geoms_view(gs.push(g))[i] == geoms_view(gs).push(geom_view(g))[i] by {
        if i < gs.len() {
            assert(gs.push(g)[i] == gs[i]);
        } else {
            assert(gs.push(g)[i] == g);
        }
    }
    assert(geoms_view(gs.push(g)) =~= geoms_view(gs).push(geom_view(g)));
}

impl<const D: usize> MultiLineString<D> {
    /// The part count is machine-sized.
    pub proof fn lemma_len_sized(&self)
        requires
            self.wf(),
        ensures
            self@.len() <= usize::MAX,
    {
        assert(vstd::std_specs::vec::spec_vec_len(&self.parts.offsets)
            == self.parts.offsets@.len());
    }
}

impl<const D: usize> Polygon<D> {
    /// The ring count is machine-sized.
    pub proof fn lemma_len_sized(&self)
        requires
            self.wf(),
        ensures
            self@.len() <= usize::MAX,
    {
        assert(vstd::std_specs::vec::spec_vec_len(&self.rings.offsets)
            == self.rings.offsets@.len());
    }
}

impl<const D: usize> MultiPolygon<D> {
    /// The polygon count and every per-polygon ring count are
    /// machine-sized.
    pub proof fn lemma_len_sized(&self)
        requires
            self.wf(),
        ensures
            self@.len() <= usize::MAX,
            forall|p: int| 0 <= p < self@.len() ==> (#[trigger] self@[p]).len() <= usize::MAX,
    {
        assert(vstd::std_specs::vec::spec_vec_len(&self.poly_offsets)
            == self.poly_offsets@.len());
        assert forall|p: int| 0 <= p < self@.len() implies
            (#[trigger] self@[p]).len() <= usize::MAX by {
            assert(self.poly_offsets@[p] <= usize::MAX);
            assert(self@[p].len() == self.poly_offsets@[p + 1] - self.poly_offsets@[p]);
        }
    }
}

/// The container kinds specialized to two axes.
pub type MultiPoint2 = MultiPoint<2>;

pub type LineString2 = LineString<2>;

pub type MultiLineString2 = MultiLineString<2>;

pub type Polygon2 = Polygon<2>;

pub type MultiPolygon2 = MultiPolygon<2>;

pub type Geometry2 = Geometry<2>;

/// The container kinds specialized to three axes.
pub type MultiPoint3 = MultiPoint<3>;

pub type LineString3 = LineString<3>;

pub type MultiLineString3 = MultiLineString<3>;

pub type Polygon3 = Polygon<3>;

pub type MultiPolygon3 = MultiPolygon<3>;

pub type Geometry3 = Geometry<3>;

} // verus!
