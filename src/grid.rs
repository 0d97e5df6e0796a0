//! A uniform grid of square buckets over point-like entities.
use vstd::multiset::Multiset;
use vstd::prelude::*;

use crate::model::{
    all_empty, at, bucket_bag, bucket_count, cells_bag, clamp_index, dist_sqr, every,
    lemma_cells_bag_agree, lemma_cells_bag_empty, lemma_cells_bag_len, lemma_cells_bag_pop,
    lemma_cells_bag_pop_bucket,
    lemma_cells_bag_push, lemma_cells_bag_push_bucket, lemma_cells_bag_push_row,
    lemma_every_set_bucket, raw_index, row_bag, tag, valid_loc, Relabel,
};
use vstd::arithmetic::div_mod::{
    lemma_div_is_ordered, lemma_div_multiples_vanish_fancy, lemma_fundamental_div_mod, lemma_small_mod,
};

verus! {

/// An entity with a position on the plane, in the grid's integer units.
pub trait Positioned: Sized {
    spec fn spec_x(&self) -> i32;

    spec fn spec_y(&self) -> i32;

    /// The same entity placed at `(x, y)`, all else kept.
    spec fn spec_moved(&self, x: i32, y: i32) -> Self;

    proof fn lemma_moved(p: Self, x: i32, y: i32)
        ensures
            p.spec_moved(x, y).spec_x() == x,
            p.spec_moved(x, y).spec_y() == y,
            p.spec_moved(p.spec_x(), p.spec_y()) == p,
    ;

    proof fn lemma_moved_twice(p: Self, a: i32, b: i32, x: i32, y: i32)
        ensures
            p.spec_moved(a, b).spec_moved(x, y) == p.spec_moved(x, y),
    ;

    fn x(&self) -> (r: i32)
        ensures
            r == self.spec_x(),
    ;

    fn y(&self) -> (r: i32)
        ensures
            r == self.spec_y(),
    ;

    fn set_x(&mut self, x: i32)
        ensures
            *final(self) == old(self).spec_moved(x, old(self).spec_y()),
    ;

    fn set_y(&mut self, y: i32)
        ensures
            *final(self) == old(self).spec_moved(old(self).spec_x(), y),
    ;
}

/// Bucket index of a coordinate along one axis with `n` buckets: clamped into range.
pub open spec fn axis_index(coord: int, offset: int, chunk: int, n: int) -> int {
    clamp_index(raw_index(coord, offset, chunk), n)
}

/// A coordinate lies in bucket `i` without clamping at the far edge: its raw
/// index is `i`, or it is below zero and `i` is the first bucket.
pub open spec fn exact_at(coord: int, offset: int, chunk: int, i: int) -> bool {
    let raw = raw_index(coord, offset, chunk);
    if raw < 0 {
        i == 0
    } else {
        raw == i
    }
}

/// Squared distance between two entities.
pub open spec fn ent_dist<P: Positioned>(a: P, b: P) -> int {
    dist_sqr(a.spec_x() as int, a.spec_y() as int, b.spec_x() as int, b.spec_y() as int)
}

/// Squared distance from an entity to `(cx, cy)`.
pub open spec fn center_dist<P: Positioned>(e: P, cx: int, cy: int) -> int {
    dist_sqr(e.spec_x() as int, e.spec_y() as int, cx, cy)
}

/// The bucket of `a` comes before bucket `(r, c)` in row-major order.
spec fn bucket_before(a: (int, int, int), r: int, c: int) -> bool {
    a.0 < r || (a.0 == r && a.1 < c)
}

/// The entities of `outs`, each tagged with the bucket that its position
/// implies in a grid of that offset, bucket side and bucket counts.
pub open spec fn implied_tags<P: Positioned>(
    outs: Seq<P>,
    offset: int,
    chunk: int,
    rows: int,
    cols: int,
) -> Multiset<(int, int, P)> {
    outs.map_values(implied_tag(offset, chunk, rows, cols)).to_multiset()
}

/// Tags an entity with the bucket that its position implies.
pub open spec fn implied_tag<P: Positioned>(offset: int, chunk: int, rows: int, cols: int) -> spec_fn(
    P,
) -> (int, int, P) {
    |e: P|
        (
            axis_index(e.spec_y() as int, offset, chunk, rows),
            axis_index(e.spec_x() as int, offset, chunk, cols),
            e,
        )
}

/// Buckets of `a` and `b` are the same or adjacent (diagonals included).
pub open spec fn near(a: (int, int, int), b: (int, int, int)) -> bool {
    -1 <= a.0 - b.0 <= 1 && -1 <= a.1 - b.1 <= 1
}

/// `l` is the pair `p` in either order.
pub open spec fn same_pair(
    l: ((int, int, int), (int, int, int)),
    p: ((int, int, int), (int, int, int)),
) -> bool {
    l == p || (l.0 == p.1 && l.1 == p.0)
}

/// The pair `(a, b)` is examined when `a` is visited: `b` came earlier in
/// the same bucket, or lies in the bucket to the right, below, below-right
/// or below-left.
spec fn owns(a: (int, int, int), b: (int, int, int)) -> bool {
    (b.0 == a.0 && b.1 == a.1 && b.2 < a.2) || ahead(a, b)
}

/// `b` lies in the bucket right of `a`'s, or in one of the three below it.
spec fn ahead(a: (int, int, int), b: (int, int, int)) -> bool {
    ||| (b.0 == a.0 && b.1 == a.1 + 1)
    ||| (b.0 == a.0 + 1 && -1 <= b.1 - a.1 <= 1)
}

/// `cov` together with bucket `(br, bc)`.
spec fn extend_cover(cov: spec_fn((int, int, int)) -> bool, br: int, bc: int) -> spec_fn(
    (int, int, int),
) -> bool {
    |b: (int, int, int)| cov(b) || (b.0 == br && b.1 == bc)
}

proof fn lemma_dist_symmetric<P: Positioned>(a: P, b: P)
    ensures
        ent_dist(a, b) == ent_dist(b, a),
{
    let dx = a.spec_x() as int - b.spec_x() as int;
    let dy = a.spec_y() as int - b.spec_y() as int;
    assert(dx * dx == (-dx) * (-dx)) by (nonlinear_arith);
    assert(dy * dy == (-dy) * (-dy)) by (nonlinear_arith);
}

/// `a` comes before `(r, c, k)` in row-major order.
spec fn before(a: (int, int, int), r: int, c: int, k: int) -> bool {
    ||| a.0 < r
    ||| (a.0 == r && a.1 < c)
    ||| (a.0 == r && a.1 == c && a.2 < k)
}

/// Where resizing to `xn` columns and `yn` rows sends an entity of bucket
/// `(r, c)`: to bucket `(r % yn, c % xn)`, moved back by the extent of the
/// buckets that were folded away before it on each axis.
pub open spec fn relocation<P: Positioned>(xn: int, yn: int, chunk: int) -> Relabel<P> {
    |r: int, c: int, e: P|
        (
            r % yn,
            c % xn,
            e.spec_moved(
                (e.spec_x() - (c - c % xn) * chunk) as i32,
                (e.spec_y() - (r - r % yn) * chunk) as i32,
            ),
        )
}

proof fn lemma_div_shift(v: int, k: int, m: int)
    requires
        m > 0,
    ensures
        (v - k * m) / m == v / m - k,
{
    lemma_fundamental_div_mod(v, m);
    let q = v / m;
    let rm = v % m;
    assert(v - k * m == m * (q - k) + rm) by (nonlinear_arith)
        requires
            v == m * q + rm,
    ;
    lemma_div_multiples_vanish_fancy(q - k, rm, m);
}

/// Moving `e` from `(r, c)` to `(tr, tc)`, congruent modulo the new bucket
/// counts, and shifting it back by the extent between them, does not change
/// where the relocation sends it.
proof fn lemma_reloc_move<P: Positioned>(
    e: P,
    r: int,
    c: int,
    tr: int,
    tc: int,
    x2: i32,
    y2: i32,
    xn: int,
    yn: int,
    chunk: int,
)
    requires
        xn > 0,
        yn > 0,
        tc % xn == c % xn,
        tr % yn == r % yn,
        x2 == e.spec_x() - (c - tc) * chunk,
        y2 == e.spec_y() - (r - tr) * chunk,
    ensures
        relocation::<P>(xn, yn, chunk)(tr, tc, e.spec_moved(x2, y2)) == relocation::<P>(
            xn,
            yn,
            chunk,
        )(r, c, e),
{
    let e2 = e.spec_moved(x2, y2);
    P::lemma_moved(e, x2, y2);
    let nx = (e.spec_x() - (c - c % xn) * chunk) as i32;
    let ny = (e.spec_y() - (r - r % yn) * chunk) as i32;
    assert(e2.spec_x() - (tc - tc % xn) * chunk == e.spec_x() - (c - c % xn) * chunk) by (
    nonlinear_arith)
        requires
            e2.spec_x() == e.spec_x() - (c - tc) * chunk,
            tc % xn == c % xn,
    ;
    assert(e2.spec_y() - (tr - tr % yn) * chunk == e.spec_y() - (r - r % yn) * chunk) by (
    nonlinear_arith)
        requires
            e2.spec_y() == e.spec_y() - (r - tr) * chunk,
            tr % yn == r % yn,
    ;
    P::lemma_moved_twice(e, x2, y2, nx, ny);
}

proof fn lemma_every_set_row_push<P>(
    cells: Seq<Seq<Seq<P>>>,
    r: int,
    ok: spec_fn(P, int, int) -> bool,
)
    requires
        every(cells, ok),
        0 <= r < cells.len(),
    ensures
        every(cells.update(r, cells[r].push(Seq::empty())), ok),
{
    let cells2 = cells.update(r, cells[r].push(Seq::empty()));
    assert forall|r2: int, c2: int, k: int|
        0 <= r2 < cells2.len() && 0 <= c2 < cells2[r2].len() && 0 <= k < cells2[r2][c2].len()
            implies ok(#[trigger] cells2[r2][c2][k], r2, c2) by {
        assert(cells2[r2][c2][k] == cells[r2][c2][k]);
    }
}

proof fn lemma_every_set_row_pop<P>(
    cells: Seq<Seq<Seq<P>>>,
    r: int,
    ok: spec_fn(P, int, int) -> bool,
)
    requires
        every(cells, ok),
        0 <= r < cells.len(),
        cells[r].len() > 0,
    ensures
        every(cells.update(r, cells[r].drop_last()), ok),
{
    let cells2 = cells.update(r, cells[r].drop_last());
    assert forall|r2: int, c2: int, k: int|
        0 <= r2 < cells2.len() && 0 <= c2 < cells2[r2].len() && 0 <= k < cells2[r2][c2].len()
            implies ok(#[trigger] cells2[r2][c2][k], r2, c2) by {
        assert(cells2[r2][c2][k] == cells[r2][c2][k]);
    }
}

/// A uniform grid of square buckets of side `chunk_size`, indexed `[row][col]`.
/// Coordinates are translated by `position_offset` before bucketing.
pub struct Grid<P: Positioned + Copy> {
    position_offset: i32,
    chunk_size: i32,
    chunks: Vec<Vec<Vec<P>>>,
    tmp: Vec<P>,
}

impl<P: Positioned + Copy> Grid<P> {
    /// The buckets, `[row][col]`, each a sequence of entities.
    pub closed spec fn cells(&self) -> Seq<Seq<Seq<P>>> {
        self.chunks@.map_values(|row: Vec<Vec<P>>| row@.map_values(|b: Vec<P>| b@))
    }

    pub closed spec fn offset(&self) -> int {
        self.position_offset as int
    }

    pub closed spec fn chunk(&self) -> int {
        self.chunk_size as int
    }

    pub open spec fn rows(&self) -> int {
        self.cells().len() as int
    }

    pub open spec fn cols(&self) -> int {
        self.cells()[0].len() as int
    }

    /// Column of the bucket that `e`'s position implies.
    pub open spec fn col_of(&self, e: P) -> int {
        axis_index(e.spec_x() as int, self.offset(), self.chunk(), self.cols())
    }

    /// Row of the bucket that `e`'s position implies.
    pub open spec fn row_of(&self, e: P) -> int {
        axis_index(e.spec_y() as int, self.offset(), self.chunk(), self.rows())
    }

    /// `e` lies at or past the near edge of bucket `(r, c)` on both axes.
    pub open spec fn anchored(&self, e: P, r: int, c: int) -> bool {
        &&& (c == 0 || c * self.chunk() <= e.spec_x() + self.offset())
        &&& (r == 0 || r * self.chunk() <= e.spec_y() + self.offset())
    }

    /// The buckets form a non-empty rectangle, and no entity lies before
    /// the near edge of its bucket.
    pub open spec fn wf(&self) -> bool {
        &&& 0 < self.offset() <= i32::MAX
        &&& 0 < self.chunk() <= i32::MAX
        &&& 1 <= self.rows() <= u32::MAX
        &&& 1 <= self.cols() <= u32::MAX
        &&& forall|r: int| 0 <= r < self.rows() ==> (#[trigger] self.cells()[r]).len() == self.cols()
        &&& every(self.cells(), |e: P, r: int, c: int| self.anchored(e, r, c))
    }

    /// Every entity is in the bucket that its position implies.
    pub open spec fn placed(&self) -> bool {
        every(self.cells(), |e: P, r: int, c: int| self.row_of(e) == r && self.col_of(e) == c)
    }

    /// Every entity is in the bucket that its position implies, and no
    /// position lies beyond the far edge of the grid.
    pub open spec fn exact(&self) -> bool {
        every(self.cells(), |e: P, r: int, c: int| self.exact_in(e, r, c))
    }

    /// `e` lies in bucket `(r, c)` without clamping at the far edge.
    pub open spec fn exact_in(&self, e: P, r: int, c: int) -> bool {
        exact_at(e.spec_x() as int, self.offset(), self.chunk(), c) && exact_at(
            e.spec_y() as int,
            self.offset(),
            self.chunk(),
            r,
        )
    }

    /// `e`'s position does not lie beyond the far edge of the grid.
    pub open spec fn in_span(&self, e: P) -> bool {
        &&& raw_index(e.spec_x() as int, self.offset(), self.chunk()) < self.cols()
        &&& raw_index(e.spec_y() as int, self.offset(), self.chunk()) < self.rows()
    }

    /// All entities, each tagged with the row and column of its bucket.
    pub open spec fn tagged(&self) -> Multiset<(int, int, P)> {
        cells_bag(self.cells(), tag())
    }

    /// Number of entities in the grid.
    pub open spec fn size(&self) -> nat {
        self.tagged().len()
    }

    pub open spec fn valid(&self, l: (int, int, int)) -> bool {
        valid_loc(self.cells(), l)
    }

    pub open spec fn at(&self, l: (int, int, int)) -> P {
        at(self.cells(), l)
    }

    /// Same geometry: offset, bucket side and bucket counts.
    pub open spec fn same_frame(&self, other: &Self) -> bool {
        &&& self.offset() == other.offset()
        &&& self.chunk() == other.chunk()
        &&& self.rows() == other.rows()
        &&& self.cols() == other.cols()
    }

    /// Number of bucket rows.
    pub fn row_count(&self) -> (n: usize)
        ensures
            n == self.rows(),
    {
        self.chunks.len()
    }

    /// Number of bucket columns.
    pub fn col_count(&self) -> (n: usize)
        requires
            self.wf(),
        ensures
            n == self.cols(),
    {
        self.chunks[0].len()
    }

    /// Number of entities in bucket `(r, c)`.
    pub fn bucket_len(&self, r: usize, c: usize) -> (n: usize)
        requires
            self.wf(),
            r < self.rows(),
            c < self.cols(),
        ensures
            n == self.cells()[r as int][c as int].len(),
    {
        proof {
            assert(self.cells()[r as int].len() == self.cols());
        }
        self.chunks[r][c].len()
    }

    /// An empty grid covering `width` by `height` with buckets of side `chunk_size`.
    pub fn new(position_offset: i32, chunk_size: i32, width: u32, height: u32) -> (g: Grid<P>)
        requires
            position_offset > 0,
            chunk_size > 0,
            width > 0,
            height > 0,
        ensures
            g.wf(),
            g.offset() == position_offset,
            g.chunk() == chunk_size,
            g.rows() == bucket_count(height as int, chunk_size as int),
            g.cols() == bucket_count(width as int, chunk_size as int),
            all_empty(g.cells()),
            g.size() == 0,
            g.exact(),
            g.placed(),
    {
        let x_chunks = count_buckets(width, chunk_size);
        let y_chunks = count_buckets(height, chunk_size);
        let mut chunks: Vec<Vec<Vec<P>>> = Vec::new();
        let mut y: usize = 0;
        while y < y_chunks
            invariant
                y <= y_chunks,
                chunks@.len() == y,
                forall|r: int|
                    0 <= r < y ==> (#[trigger] chunks@[r])@.len() == x_chunks && forall|c: int|
                        0 <= c < x_chunks ==> (#[trigger] chunks@[r]@[c])@.len() == 0,
            decreases y_chunks - y,
        {
            let strip = empty_strip(x_chunks);
            chunks.push(strip);
            y += 1;
        }
        let g = Grid { position_offset, chunk_size, chunks, tmp: Vec::new() };
        proof {
            assert(g.cells()[0].len() == x_chunks);
            assert forall|r: int| 0 <= r < g.rows() implies (#[trigger] g.cells()[r]).len()
                == g.cols() by {
                assert(g.chunks@[r]@.len() == x_chunks);
            }
            assert forall|r: int, c: int|
                0 <= r < g.cells().len() && 0 <= c < g.cells()[r].len() implies (
                #[trigger] g.cells()[r][c]).len() == 0 by {
                assert(g.chunks@[r]@[c]@.len() == 0);
            }
            lemma_cells_bag_empty(g.cells(), tag());
        }
        g
    }

    /// Computes the clamped bucket index of `coord` along an axis of `n` buckets.
    fn index_of(&self, coord: i32, n: usize) -> (i: usize)
        requires
            0 < self.chunk(),
            0 < self.offset() <= i32::MAX,
            1 <= n <= u32::MAX,
        ensures
            i == axis_index(coord as int, self.offset(), self.chunk(), n as int),
            i < n,
    {
        self.index_of_wide(coord as i64, n)
    }

    /// Computes the clamped bucket index of a coordinate given in `i64`.
    fn index_of_wide(&self, coord: i64, n: usize) -> (i: usize)
        requires
            0 < self.chunk(),
            0 < self.offset() <= i32::MAX,
            1 <= n <= u32::MAX,
            -0x1_0000_0000_0000 <= coord <= 0x1_0000_0000_0000,
        ensures
            i == axis_index(coord as int, self.offset(), self.chunk(), n as int),
            i < n,
    {
        let v: i64 = coord + self.position_offset as i64;
        let chunk = self.chunk_size as i64;
        if v < 0 {
            proof {
                let cv = v as int;
                let ch = chunk as int;
                assert(cv / ch < 0) by (nonlinear_arith)
                    requires
                        cv < 0,
                        ch > 0,
                ;
            }
            0
        } else {
            let q: i64 = v / chunk;
            if q >= n as i64 {
                n - 1
            } else {
                q as usize
            }
        }
    }

    /// Appends `p` to bucket `(r, c)`.
    fn push_at(&mut self, r: usize, c: usize, p: P)
        requires
            r < old(self).rows(),
            c < old(self).cells()[r as int].len(),
        ensures
            final(self).cells() == old(self).cells().update(
                r as int,
                old(self).cells()[r as int].update(
                    c as int,
                    old(self).cells()[r as int][c as int].push(p),
                ),
            ),
            final(self).offset() == old(self).offset(),
            final(self).chunk() == old(self).chunk(),
    {
        self.chunks[r][c].push(p);
        proof {
            let old_cells = old(self).cells();
            let want = old_cells.update(
                r as int,
                old_cells[r as int].update(c as int, old_cells[r as int][c as int].push(p)),
            );
            assert(self.cells()[r as int] =~= want[r as int]);
            assert(self.cells() =~= want);
        }
    }

    /// Replaces bucket `(r, c)` by an empty one.
    fn clear_at(&mut self, r: usize, c: usize)
        requires
            r < old(self).rows(),
            c < old(self).cells()[r as int].len(),
        ensures
            final(self).cells() == old(self).cells().update(
                r as int,
                old(self).cells()[r as int].update(c as int, Seq::empty()),
            ),
            final(self).offset() == old(self).offset(),
            final(self).chunk() == old(self).chunk(),
    {
        self.chunks[r][c].clear();
        proof {
            let old_cells = old(self).cells();
            let want = old_cells.update(
                r as int,
                old_cells[r as int].update(c as int, Seq::empty()),
            );
            assert(self.cells()[r as int][c as int] =~= want[r as int][c as int]);
            assert(self.cells()[r as int] =~= want[r as int]);
            assert(self.cells() =~= want);
        }
    }

    /// Stores `p` in the bucket that its position implies (clamped at the borders).
    pub fn insert(&mut self, p: P)
        requires
            old(self).wf(),
        ensures
            final(self).wf(),
            final(self).same_frame(old(self)),
            final(self).cells() == old(self).cells().update(
                old(self).row_of(p),
                old(self).cells()[old(self).row_of(p)].update(
                    old(self).col_of(p),
                    old(self).cells()[old(self).row_of(p)][old(self).col_of(p)].push(p),
                ),
            ),
            final(self).tagged() == old(self).tagged().insert(
                (old(self).row_of(p), old(self).col_of(p), p),
            ),
            final(self).size() == old(self).size() + 1,
            old(self).placed() ==> final(self).placed(),
            old(self).exact() && old(self).in_span(p) ==> final(self).exact(),
    {
        let cols = self.chunks[0].len();
        let rows = self.chunks.len();
        let c = self.index_of(p.x(), cols);
        let r = self.index_of(p.y(), rows);
        proof {
            assert(self.cells()[0].len() == cols);
            assert(self.cells()[r as int].len() == cols);
            lemma_anchor(p.spec_x() + self.offset(), self.chunk(), c as int);
            lemma_anchor(p.spec_y() + self.offset(), self.chunk(), r as int);
        }
        let ghost before = *self;
        self.push_at(r, c, p);
        proof {
            let cells = before.cells();
            let b = cells[r as int][c as int].push(p);
            assert forall|k: int| 0 <= k < b.len() implies before.anchored(
                #[trigger] b[k],
                r as int,
                c as int,
            ) by {
                if k < b.len() - 1 {
                    assert(b[k] == cells[r as int][c as int][k]);
                }
            }
            lemma_every_set_bucket(
                cells,
                r as int,
                c as int,
                b,
                |e: P, r: int, c: int| before.anchored(e, r, c),
            );
            lemma_cells_bag_push(cells, r as int, c as int, p, tag());
            assert(self.cells()[0].len() == cols);
            assert forall|r2: int| 0 <= r2 < self.rows() implies (
            #[trigger] self.cells()[r2]).len() == self.cols() by {
                assert(cells[r2].len() == cols);
            }
            if before.placed() {
                assert forall|k: int| 0 <= k < b.len() implies before.row_of(#[trigger] b[k])
                    == r && before.col_of(b[k]) == c by {
                    if k < b.len() - 1 {
                        assert(b[k] == cells[r as int][c as int][k]);
                    }
                }
                lemma_every_set_bucket(
                    cells,
                    r as int,
                    c as int,
                    b,
                    |e: P, r: int, c: int| before.row_of(e) == r && before.col_of(e) == c,
                );
            }
            if before.exact() && before.in_span(p) {
                let ok = |e: P, r: int, c: int| before.exact_in(e, r, c);
                assert forall|k: int| 0 <= k < b.len() implies #[trigger] ok(
                    b[k],
                    r as int,
                    c as int,
                ) by {
                    if k < b.len() - 1 {
                        assert(b[k] == cells[r as int][c as int][k]);
                    }
                }
                lemma_every_set_bucket(cells, r as int, c as int, b, ok);
            }
        }
    }

    /// Empties every bucket; the bucket counts stay.
    pub fn clear(&mut self)
        requires
            old(self).wf(),
        ensures
            final(self).wf(),
            final(self).same_frame(old(self)),
            all_empty(final(self).cells()),
            final(self).size() == 0,
            final(self).exact(),
            final(self).placed(),
    {
        let rows = self.chunks.len();
        let mut r: usize = 0;
        while r < rows
            invariant
                self.wf(),
                self.same_frame(old(self)),
                rows == self.rows(),
                r <= rows,
                forall|r2: int, c: int|
                    0 <= r2 < r && 0 <= c < self.cols() ==> (#[trigger] self.cells()[r2][c]).len()
                        == 0,
            decreases rows - r,
        {
            let cols = self.chunks[r].len();
            let mut c: usize = 0;
            proof {
                assert(self.cells()[r as int].len() == cols);
            }
            while c < cols
                invariant
                    self.wf(),
                    self.same_frame(old(self)),
                    rows == self.rows(),
                    r < rows,
                    c <= cols,
                    cols == self.cols(),
                    forall|r2: int, c2: int|
                        0 <= r2 < r && 0 <= c2 < self.cols() ==> (
                        #[trigger] self.cells()[r2][c2]).len() == 0,
                    forall|c2: int| 0 <= c2 < c ==> (#[trigger] self.cells()[r as int][c2]).len() == 0,
                decreases cols - c,
            {
                let ghost before = *self;
                self.clear_at(r, c);
                proof {
                    let cells = before.cells();
                    lemma_every_set_bucket(
                        cells,
                        r as int,
                        c as int,
                        Seq::empty(),
                        |e: P, r: int, c: int| before.anchored(e, r, c),
                    );
                    assert(self.cells()[0].len() == cols);
                    assert forall|r2: int| 0 <= r2 < self.rows() implies (
                    #[trigger] self.cells()[r2]).len() == self.cols() by {
                        assert(cells[r2].len() == cols);
                    }
                    assert forall|r2: int, c2: int|
                        0 <= r2 < r && 0 <= c2 < self.cols() implies (
                        #[trigger] self.cells()[r2][c2]).len() == 0 by {
                        assert(cells[r2][c2].len() == 0);
                    }
                    assert forall|c2: int| 0 <= c2 < c + 1 implies (
                    #[trigger] self.cells()[r as int][c2]).len() == 0 by {
                        if c2 < c {
                            assert(cells[r as int][c2].len() == 0);
                        }
                    }
                }
                c += 1;
            }
            r += 1;
        }
        proof {
            assert forall|r2: int, c: int|
                0 <= r2 < self.cells().len() && 0 <= c < self.cells()[r2].len() implies (
                #[trigger] self.cells()[r2][c]).len() == 0 by {
                assert(self.cells()[r2].len() == self.cols());
            }
            lemma_cells_bag_empty(self.cells(), tag());
        }
    }

    /// Appends an empty bucket to row `r`.
    fn push_empty_bucket(&mut self, r: usize)
        requires
            r < old(self).rows(),
        ensures
            final(self).cells() == old(self).cells().update(
                r as int,
                old(self).cells()[r as int].push(Seq::empty()),
            ),
            final(self).offset() == old(self).offset(),
            final(self).chunk() == old(self).chunk(),
    {
        self.chunks[r].push(Vec::new());
        proof {
            let old_cells = old(self).cells();
            let want = old_cells.update(r as int, old_cells[r as int].push(Seq::empty()));
            assert(self.cells()[r as int] =~= want[r as int]);
            assert(self.cells() =~= want);
        }
    }

    /// Removes and returns the last bucket of row `r`.
    fn pop_bucket(&mut self, r: usize) -> (b: Vec<P>)
        requires
            r < old(self).rows(),
            old(self).cells()[r as int].len() > 0,
        ensures
            b@ == old(self).cells()[r as int].last(),
            final(self).cells() == old(self).cells().update(
                r as int,
                old(self).cells()[r as int].drop_last(),
            ),
            final(self).offset() == old(self).offset(),
            final(self).chunk() == old(self).chunk(),
    {
        let b = self.chunks[r].pop().unwrap();
        proof {
            let old_cells = old(self).cells();
            let want = old_cells.update(r as int, old_cells[r as int].drop_last());
            assert(self.cells()[r as int] =~= want[r as int]);
            assert(self.cells() =~= want);
        }
        b
    }

    /// Appends a row.
    fn push_row(&mut self, strip: Vec<Vec<P>>)
        ensures
            final(self).cells() == old(self).cells().push(strip@.map_values(|b: Vec<P>| b@)),
            final(self).offset() == old(self).offset(),
            final(self).chunk() == old(self).chunk(),
    {
        self.chunks.push(strip);
        proof {
            assert(self.cells() =~= old(self).cells().push(strip@.map_values(|b: Vec<P>| b@)));
        }
    }

    /// Removes and returns the last row.
    fn pop_row(&mut self) -> (strip: Vec<Vec<P>>)
        requires
            old(self).rows() > 0,
        ensures
            strip@.map_values(|b: Vec<P>| b@) == old(self).cells().last(),
            final(self).cells() == old(self).cells().drop_last(),
            final(self).offset() == old(self).offset(),
            final(self).chunk() == old(self).chunk(),
    {
        let strip = self.chunks.pop().unwrap();
        proof {
            assert(self.cells() =~= old(self).cells().drop_last());
            assert(strip@.map_values(|b: Vec<P>| b@) =~= old(self).cells().last());
        }
        strip
    }

    /// Moves every entity of `b`, taken from bucket `(r, c)`, into bucket
    /// `(tr, tc)`, moving it back by the extent between the two buckets.
    fn spill(
        &mut self,
        b: Vec<P>,
        r: usize,
        c: usize,
        tr: usize,
        tc: usize,
        xn: Ghost<int>,
        yn: Ghost<int>,
        ex: Ghost<bool>,
    )
        requires
            0 < old(self).chunk() <= i32::MAX,
            0 < old(self).offset() <= i32::MAX,
            tr < old(self).cells().len(),
            tc < old(self).cells()[tr as int].len(),
            tr <= r <= u32::MAX,
            tc <= c <= u32::MAX,
            xn@ > 0,
            yn@ > 0,
            tc as int % xn@ == c as int % xn@,
            tr as int % yn@ == r as int % yn@,
            every(old(self).cells(), |e: P, i: int, j: int| old(self).anchored(e, i, j)),
            forall|k: int| 0 <= k < b@.len() ==> old(self).anchored(#[trigger] b@[k], r as int, c as int),
            ex@ ==> every(old(self).cells(), |e: P, i: int, j: int| old(self).exact_in(e, i, j)),
            ex@ ==> forall|k: int|
                0 <= k < b@.len() ==> old(self).exact_in(#[trigger] b@[k], r as int, c as int),
        ensures
            final(self).offset() == old(self).offset(),
            final(self).chunk() == old(self).chunk(),
            final(self).cells().len() == old(self).cells().len(),
            forall|i: int|
                0 <= i < old(self).cells().len() ==> (#[trigger] final(self).cells()[i]).len()
                    == old(self).cells()[i].len(),
            forall|i: int|
                0 <= i < old(self).cells().len() && i != tr ==> #[trigger] final(self).cells()[i]
                    == old(self).cells()[i],
            every(final(self).cells(), |e: P, i: int, j: int| old(self).anchored(e, i, j)),
            ex@ ==> every(final(self).cells(), |e: P, i: int, j: int| old(self).exact_in(e, i, j)),
            cells_bag(final(self).cells(), relocation(xn@, yn@, old(self).chunk())) == cells_bag(
                old(self).cells(),
                relocation(xn@, yn@, old(self).chunk()),
            ).add(bucket_bag(b@, r as int, c as int, relocation(xn@, yn@, old(self).chunk()))),
    {
        let ghost reloc = relocation::<P>(xn@, yn@, self.chunk());
        let ghost start = *self;
        let ghost b0 = b@;
        let mut b = b;
        let chunk = self.chunk_size as i64;
        proof {
            let dc = (c - tc) as int;
            let dr = (r - tr) as int;
            assert(dc * chunk <= 4294967295 * 2147483647) by (nonlinear_arith)
                requires
                    0 <= dc <= 4294967295,
                    0 < chunk <= 2147483647,
            ;
            assert(dr * chunk <= 4294967295 * 2147483647) by (nonlinear_arith)
                requires
                    0 <= dr <= 4294967295,
                    0 < chunk <= 2147483647,
            ;
            assert(0 <= dc * chunk) by (nonlinear_arith)
                requires
                    0 <= dc,
                    0 < chunk,
            ;
            assert(0 <= dr * chunk) by (nonlinear_arith)
                requires
                    0 <= dr,
                    0 < chunk,
            ;
        }
        let shift_x: i64 = (c - tc) as i64 * chunk;
        let shift_y: i64 = (r - tr) as i64 * chunk;
        while b.len() > 0
            invariant
                self.offset() == start.offset(),
                self.chunk() == start.chunk(),
                reloc == relocation::<P>(xn@, yn@, start.chunk()),
                shift_x == (c - tc) * start.chunk(),
                shift_y == (r - tr) * start.chunk(),
                0 <= shift_x <= 4294967295 * 2147483647,
                0 <= shift_y <= 4294967295 * 2147483647,
                chunk == start.chunk(),
                0 < start.chunk() <= i32::MAX,
                0 < start.offset() <= i32::MAX,
                tr < start.cells().len(),
                tc < start.cells()[tr as int].len(),
                tr <= r,
                tc <= c,
                xn@ > 0,
                yn@ > 0,
                tc as int % xn@ == c as int % xn@,
                tr as int % yn@ == r as int % yn@,
                self.cells().len() == start.cells().len(),
                forall|i: int|
                    0 <= i < start.cells().len() ==> (#[trigger] self.cells()[i]).len()
                        == start.cells()[i].len(),
                forall|i: int|
                    0 <= i < start.cells().len() && i != tr ==> #[trigger] self.cells()[i]
                        == start.cells()[i],
                every(self.cells(), |e: P, i: int, j: int| start.anchored(e, i, j)),
                forall|k: int|
                    0 <= k < b@.len() ==> start.anchored(#[trigger] b@[k], r as int, c as int),
                ex@ ==> every(self.cells(), |e: P, i: int, j: int| start.exact_in(e, i, j)),
                ex@ ==> forall|k: int|
                    0 <= k < b@.len() ==> start.exact_in(#[trigger] b@[k], r as int, c as int),
                cells_bag(self.cells(), reloc).add(bucket_bag(b@, r as int, c as int, reloc))
                    == cells_bag(start.cells(), reloc).add(
                    bucket_bag(b0, r as int, c as int, reloc),
                ),
            decreases b@.len(),
        {
            let ghost b_before = b@;
            let mut e = b.pop().unwrap();
            let ghost e0 = e;
            proof {
                assert(e0 == b_before[b_before.len() - 1]);
                assert(start.anchored(e0, r as int, c as int));
                let x = e0.spec_x() as int;
                let y = e0.spec_y() as int;
                let off = start.offset();
                let ch = start.chunk();
                if c > 0 {
                    assert(tc * ch + (c - tc) * ch == c * ch) by (nonlinear_arith);
                    assert(0 <= tc * ch) by (nonlinear_arith)
                        requires
                            0 <= tc,
                            0 < ch,
                    ;
                }
                if r > 0 {
                    assert(tr * ch + (r - tr) * ch == r * ch) by (nonlinear_arith);
                    assert(0 <= tr * ch) by (nonlinear_arith)
                        requires
                            0 <= tr,
                            0 < ch,
                    ;
                }
            }
            let x2 = (e.x() as i64 - shift_x) as i32;
            let y2 = (e.y() as i64 - shift_y) as i32;
            e.set_x(x2);
            e.set_y(y2);
            let ghost cells_before = self.cells();
            proof {
                P::lemma_moved(e0, x2, e0.spec_y());
                P::lemma_moved_twice(e0, x2, e0.spec_y(), x2, y2);
                P::lemma_moved(e0, x2, y2);
                assert(e == e0.spec_moved(x2, y2));
                lemma_reloc_move(
                    e0,
                    r as int,
                    c as int,
                    tr as int,
                    tc as int,
                    x2,
                    y2,
                    xn@,
                    yn@,
                    start.chunk(),
                );
                assert(cells_before[tr as int].len() == start.cells()[tr as int].len());
            }
            self.push_at(tr, tc, e);
            proof {
                let bucket = cells_before[tr as int][tc as int].push(e);
                let off = start.offset();
                let ch = start.chunk();
                assert(start.anchored(e, tr as int, tc as int));
                assert forall|k: int| 0 <= k < bucket.len() implies start.anchored(
                    #[trigger] bucket[k],
                    tr as int,
                    tc as int,
                ) by {
                    if k < bucket.len() - 1 {
                        assert(bucket[k] == cells_before[tr as int][tc as int][k]);
                    }
                }
                lemma_every_set_bucket(
                    cells_before,
                    tr as int,
                    tc as int,
                    bucket,
                    |e: P, i: int, j: int| start.anchored(e, i, j),
                );
                if ex@ {
                    assert(start.exact_in(e0, r as int, c as int));
                    if c > 0 {
                        lemma_div_shift(e0.spec_x() + off, (c - tc) as int, ch);
                    }
                    if r > 0 {
                        lemma_div_shift(e0.spec_y() + off, (r - tr) as int, ch);
                    }
                    assert(start.exact_in(e, tr as int, tc as int));
                    assert forall|k: int| 0 <= k < bucket.len() implies start.exact_in(
                        #[trigger] bucket[k],
                        tr as int,
                        tc as int,
                    ) by {
                        if k < bucket.len() - 1 {
                            assert(bucket[k] == cells_before[tr as int][tc as int][k]);
                        }
                    }
                    lemma_every_set_bucket(
                        cells_before,
                        tr as int,
                        tc as int,
                        bucket,
                        |e: P, i: int, j: int| start.exact_in(e, i, j),
                    );
                }
                lemma_cells_bag_push(cells_before, tr as int, tc as int, e, reloc);
                let a0 = cells_bag(cells_before, reloc);
                let a1 = cells_bag(self.cells(), reloc);
                let v = reloc(r as int, c as int, e0);
                let rest = bucket_bag(b@, r as int, c as int, reloc);
                assert(b@ =~= b_before.drop_last());
                assert(bucket_bag(b_before, r as int, c as int, reloc) == rest.insert(v));
                assert(a1 == a0.insert(v));
                assert(a1.add(rest) =~= a0.add(rest.insert(v)));
            }
        }
    }

    /// Grows or shrinks row `r` to `xn` buckets; buckets past the new end
    /// fold onto column `c % xn`.
    fn fit_row(&mut self, r: usize, xn: usize, yn: Ghost<int>, ex: Ghost<bool>)
        requires
            0 < old(self).chunk() <= i32::MAX,
            0 < old(self).offset() <= i32::MAX,
            r < old(self).cells().len(),
            r <= u32::MAX,
            1 <= xn <= u32::MAX,
            yn@ > 0,
            old(self).cells()[r as int].len() <= u32::MAX,
            every(old(self).cells(), |e: P, i: int, j: int| old(self).anchored(e, i, j)),
            ex@ ==> every(old(self).cells(), |e: P, i: int, j: int| old(self).exact_in(e, i, j)),
        ensures
            final(self).offset() == old(self).offset(),
            final(self).chunk() == old(self).chunk(),
            final(self).cells().len() == old(self).cells().len(),
            final(self).cells()[r as int].len() == xn,
            forall|i: int|
                0 <= i < old(self).cells().len() && i != r ==> #[trigger] final(self).cells()[i]
                    == old(self).cells()[i],
            every(final(self).cells(), |e: P, i: int, j: int| old(self).anchored(e, i, j)),
            ex@ ==> every(final(self).cells(), |e: P, i: int, j: int| old(self).exact_in(e, i, j)),
            cells_bag(final(self).cells(), relocation(xn as int, yn@, old(self).chunk()))
                == cells_bag(old(self).cells(), relocation(xn as int, yn@, old(self).chunk())),
    {
        let ghost start = *self;
        let ghost reloc = relocation::<P>(xn as int, yn@, self.chunk());
        while self.chunks[r].len() < xn
            invariant
                self.offset() == start.offset(),
                self.chunk() == start.chunk(),
                r < start.cells().len(),
                self.cells().len() == start.cells().len(),
                self.cells()[r as int].len() <= xn || self.cells()[r as int].len()
                    == start.cells()[r as int].len(),
                self.cells()[r as int].len() <= u32::MAX,
                1 <= xn <= u32::MAX,
                forall|i: int|
                    0 <= i < start.cells().len() && i != r ==> #[trigger] self.cells()[i]
                        == start.cells()[i],
                every(self.cells(), |e: P, i: int, j: int| start.anchored(e, i, j)),
                ex@ ==> every(self.cells(), |e: P, i: int, j: int| start.exact_in(e, i, j)),
                cells_bag(self.cells(), reloc) == cells_bag(start.cells(), reloc),
            decreases xn - self.cells()[r as int].len(),
        {
            proof {
                assert(self.chunks@[r as int]@.len() == self.cells()[r as int].len());
            }
            let ghost cells_before = self.cells();
            self.push_empty_bucket(r);
            proof {
                lemma_cells_bag_push_bucket(cells_before, r as int, reloc);
                let row = cells_before[r as int];
                lemma_every_set_row_push(
                    cells_before,
                    r as int,
                    |e: P, i: int, j: int| start.anchored(e, i, j),
                );
                if ex@ {
                    lemma_every_set_row_push(
                        cells_before,
                        r as int,
                        |e: P, i: int, j: int| start.exact_in(e, i, j),
                    );
                }
            }
        }
        while self.chunks[r].len() > xn
            invariant
                self.offset() == start.offset(),
                self.chunk() == start.chunk(),
                0 < start.chunk() <= i32::MAX,
                0 < start.offset() <= i32::MAX,
                r < start.cells().len(),
                r <= u32::MAX,
                1 <= xn <= u32::MAX,
                yn@ > 0,
                reloc == relocation::<P>(xn as int, yn@, start.chunk()),
                self.cells().len() == start.cells().len(),
                xn <= self.cells()[r as int].len() <= u32::MAX,
                forall|i: int|
                    0 <= i < start.cells().len() && i != r ==> #[trigger] self.cells()[i]
                        == start.cells()[i],
                every(self.cells(), |e: P, i: int, j: int| start.anchored(e, i, j)),
                ex@ ==> every(self.cells(), |e: P, i: int, j: int| start.exact_in(e, i, j)),
                cells_bag(self.cells(), reloc) == cells_bag(start.cells(), reloc),
            decreases self.cells()[r as int].len(),
        {
            proof {
                assert(self.chunks@[r as int]@.len() == self.cells()[r as int].len());
            }
            let ghost cells_before = self.cells();
            let b = self.pop_bucket(r);
            proof {
                assert(self.chunks@.len() == self.cells().len());
                assert(self.chunks@[r as int]@.len() == self.cells()[r as int].len());
            }
            let c = self.chunks[r].len();
            let t = c % xn;
            proof {
                lemma_cells_bag_pop_bucket(cells_before, r as int, reloc);
                let row = cells_before[r as int];
                assert forall|k: int| 0 <= k < b@.len() implies start.anchored(
                    #[trigger] b@[k],
                    r as int,
                    c as int,
                ) by {
                    assert(b@[k] == cells_before[r as int][c as int][k]);
                }
                if ex@ {
                    assert forall|k: int| 0 <= k < b@.len() implies start.exact_in(
                        #[trigger] b@[k],
                        r as int,
                        c as int,
                    ) by {
                        assert(b@[k] == cells_before[r as int][c as int][k]);
                    }
                }
                lemma_every_set_row_pop(
                    cells_before,
                    r as int,
                    |e: P, i: int, j: int| start.anchored(e, i, j),
                );
                if ex@ {
                    lemma_every_set_row_pop(
                        cells_before,
                        r as int,
                        |e: P, i: int, j: int| start.exact_in(e, i, j),
                    );
                }
                lemma_small_mod(t as nat, xn as nat);
            }
            self.spill(b, r, c, r, t, Ghost(xn as int), yn, ex);
        }
    }

    /// Resizes the grid to cover `width` by `height`. Growing appends empty
    /// buckets. Shrinking folds each bucket past the new end of an axis onto
    /// the bucket of the same index modulo the new count, and moves its
    /// entities back along that axis by the extent between the two buckets:
    /// no entity is dropped.
    pub fn set_size(&mut self, width: u32, height: u32)
        requires
            old(self).wf(),
            width > 0,
            height > 0,
        ensures
            final(self).wf(),
            final(self).offset() == old(self).offset(),
            final(self).chunk() == old(self).chunk(),
            final(self).rows() == bucket_count(height as int, old(self).chunk()),
            final(self).cols() == bucket_count(width as int, old(self).chunk()),
            final(self).tagged() == cells_bag(
                old(self).cells(),
                relocation(final(self).cols(), final(self).rows(), old(self).chunk()),
            ),
            final(self).size() == old(self).size(),
            old(self).exact() ==> final(self).exact(),
    {
        let xn = count_buckets(width, self.chunk_size);
        let yn = count_buckets(height, self.chunk_size);
        let ghost start = *self;
        let ghost ex = start.exact();
        let ghost reloc = relocation::<P>(xn as int, yn as int, self.chunk());
        let rows = self.chunks.len();
        proof {
            assert(rows == start.rows());
        }
        let mut r: usize = 0;
        while r < rows
            invariant
                self.offset() == start.offset(),
                self.chunk() == start.chunk(),
                start.wf(),
                1 <= xn <= u32::MAX,
                1 <= yn <= u32::MAX,
                reloc == relocation::<P>(xn as int, yn as int, start.chunk()),
                rows == start.cells().len(),
                self.cells().len() == rows,
                r <= rows,
                forall|i: int| 0 <= i < r ==> (#[trigger] self.cells()[i]).len() == xn,
                forall|i: int| r <= i < rows ==> #[trigger] self.cells()[i] == start.cells()[i],
                every(self.cells(), |e: P, i: int, j: int| start.anchored(e, i, j)),
                ex ==> every(self.cells(), |e: P, i: int, j: int| start.exact_in(e, i, j)),
                cells_bag(self.cells(), reloc) == cells_bag(start.cells(), reloc),
            decreases rows - r,
        {
            proof {
                assert(self.cells()[r as int] == start.cells()[r as int]);
                assert(start.cells()[r as int].len() == start.cols());
            }
            let ghost mid = *self;
            self.fit_row(r, xn, Ghost(yn as int), Ghost(ex));
            proof {
                assert forall|i: int| 0 <= i < r + 1 implies (#[trigger] self.cells()[i]).len()
                    == xn by {
                    if i < r {
                        assert(self.cells()[i] == mid.cells()[i]);
                    }
                }
                assert forall|i: int| r + 1 <= i < rows implies #[trigger] self.cells()[i]
                    == start.cells()[i] by {
                    assert(self.cells()[i] == mid.cells()[i]);
                }
            }
            r += 1;
        }
        while self.chunks.len() < yn
            invariant
                self.offset() == start.offset(),
                self.chunk() == start.chunk(),
                start.wf(),
                1 <= xn <= u32::MAX,
                1 <= yn <= u32::MAX,
                reloc == relocation::<P>(xn as int, yn as int, start.chunk()),
                1 <= self.cells().len(),
                self.cells().len() <= yn || self.cells().len() == start.cells().len(),
                self.cells().len() <= u32::MAX,
                forall|i: int| 0 <= i < self.cells().len() ==> (#[trigger] self.cells()[i]).len() == xn,
                every(self.cells(), |e: P, i: int, j: int| start.anchored(e, i, j)),
                ex ==> every(self.cells(), |e: P, i: int, j: int| start.exact_in(e, i, j)),
                cells_bag(self.cells(), reloc) == cells_bag(start.cells(), reloc),
            decreases yn - self.cells().len(),
        {
            proof {
                assert(self.chunks@.len() == self.cells().len());
            }
            let strip = empty_strip(xn);
            let ghost cells_before = self.cells();
            let ghost row = strip@.map_values(|b: Vec<P>| b@);
            self.push_row(strip);
            proof {
                assert forall|c: int| 0 <= c < row.len() implies (#[trigger] row[c]).len() == 0 by {
                    assert(strip@[c]@.len() == 0);
                }
                lemma_cells_bag_push_row(cells_before, row, reloc);
                assert forall|i: int| 0 <= i < self.cells().len() implies (
                #[trigger] self.cells()[i]).len() == xn by {
                    if i < cells_before.len() {
                        assert(self.cells()[i] == cells_before[i]);
                    }
                }
                let cells = self.cells();
                assert forall|i: int, j: int, k: int|
                    0 <= i < cells.len() && 0 <= j < cells[i].len() && 0 <= k < cells[i][j].len()
                        implies start.anchored(#[trigger] cells[i][j][k], i, j) && (ex
                        ==> start.exact_in(cells[i][j][k], i, j)) by {
                    assert(i < cells_before.len());
                    assert(cells[i][j][k] == cells_before[i][j][k]);
                }
            }
        }
        proof {
            assert(self.chunks@.len() == self.cells().len());
        }
        while self.chunks.len() > yn
            invariant
                self.offset() == start.offset(),
                self.chunk() == start.chunk(),
                start.wf(),
                1 <= xn <= u32::MAX,
                1 <= yn <= u32::MAX,
                reloc == relocation::<P>(xn as int, yn as int, start.chunk()),
                yn <= self.cells().len() <= u32::MAX,
                self.chunks@.len() == self.cells().len(),
                forall|i: int| 0 <= i < self.cells().len() ==> (#[trigger] self.cells()[i]).len() == xn,
                every(self.cells(), |e: P, i: int, j: int| start.anchored(e, i, j)),
                ex ==> every(self.cells(), |e: P, i: int, j: int| start.exact_in(e, i, j)),
                cells_bag(self.cells(), reloc) == cells_bag(start.cells(), reloc),
            decreases self.cells().len(),
        {
            let ghost cells_before = self.cells();
            let mut strip = self.pop_row();
            proof {
                assert(self.chunks@.len() == self.cells().len());
            }
            let r = self.chunks.len();
            let t = r % yn;
            proof {
                lemma_small_mod(t as nat, yn as nat);
                assert(cells_bag(cells_before, reloc) == cells_bag(self.cells(), reloc).add(
                    row_bag(cells_before.last(), r as int, reloc),
                ));
                assert(cells_before.last().len() == xn);
                assert forall|c: int, k: int|
                    0 <= c < strip@.len() && 0 <= k < strip@[c]@.len() implies start.anchored(
                    #[trigger] strip@[c]@[k],
                    r as int,
                    c,
                ) && (ex ==> start.exact_in(strip@[c]@[k], r as int, c)) by {
                    assert(strip@.map_values(|b: Vec<P>| b@)[c] == strip@[c]@);
                    assert(strip@[c]@[k] == cells_before[r as int][c][k]);
                }
            }
            while strip.len() > 0
                invariant
                    self.offset() == start.offset(),
                    self.chunk() == start.chunk(),
                    start.wf(),
                    1 <= xn <= u32::MAX,
                    1 <= yn <= u32::MAX,
                    reloc == relocation::<P>(xn as int, yn as int, start.chunk()),
                    r == self.cells().len(),
                    yn <= r < u32::MAX,
                    t == r % yn,
                    (t as int) % (yn as int) == (r as int) % (yn as int),
                    self.chunks@.len() == self.cells().len(),
                    strip@.len() <= xn,
                    forall|i: int|
                        0 <= i < self.cells().len() ==> (#[trigger] self.cells()[i]).len() == xn,
                    every(self.cells(), |e: P, i: int, j: int| start.anchored(e, i, j)),
                    ex ==> every(self.cells(), |e: P, i: int, j: int| start.exact_in(e, i, j)),
                    forall|c: int, k: int|
                        0 <= c < strip@.len() && 0 <= k < strip@[c]@.len() ==> start.anchored(
                            #[trigger] strip@[c]@[k],
                            r as int,
                            c,
                        ) && (ex ==> start.exact_in(strip@[c]@[k], r as int, c)),
                    cells_bag(self.cells(), reloc).add(
                        row_bag(strip@.map_values(|b: Vec<P>| b@), r as int, reloc),
                    ) == cells_bag(start.cells(), reloc),
                decreases strip@.len(),
            {
                let ghost strip_before = strip@.map_values(|b: Vec<P>| b@);
                let b = strip.pop().unwrap();
                let c = strip.len();
                let ghost cells_mid = self.cells();
                proof {
                    assert(strip@.map_values(|b: Vec<P>| b@) =~= strip_before.drop_last());
                    assert(b@ == strip_before.last());
                    assert(row_bag(strip_before, r as int, reloc) == row_bag(
                        strip_before.drop_last(),
                        r as int,
                        reloc,
                    ).add(bucket_bag(b@, r as int, c as int, reloc)));
                    assert(self.cells()[t as int].len() == xn);
                    assert forall|k: int| 0 <= k < b@.len() implies start.anchored(
                        #[trigger] b@[k],
                        r as int,
                        c as int,
                    ) && (ex ==> start.exact_in(b@[k], r as int, c as int)) by {
                        assert(b@[k] == strip_before[c as int][k]);
                    }
                }
                self.spill(b, r, c, t, c, Ghost(xn as int), Ghost(yn as int), Ghost(ex));
                proof {
                    assert forall|i: int| 0 <= i < self.cells().len() implies (
                    #[trigger] self.cells()[i]).len() == xn by {
                        assert(cells_mid[i].len() == xn);
                    }
                    let rest = row_bag(strip@.map_values(|b: Vec<P>| b@), r as int, reloc);
                    let bb = bucket_bag(b@, r as int, c as int, reloc);
                    let a0 = cells_bag(cells_mid, reloc);
                    let a1 = cells_bag(self.cells(), reloc);
                    assert(a1 == a0.add(bb));
                    assert(a1.add(rest) =~= a0.add(rest.add(bb)));
                }
            }
            proof {
                assert(strip@.map_values(|b: Vec<P>| b@) =~= Seq::<Seq<P>>::empty());
                assert(cells_bag(self.cells(), reloc).add(Multiset::empty()) =~= cells_bag(
                    self.cells(),
                    reloc,
                ));
            }
        }
        proof {
            let cells = self.cells();
            assert(cells[0].len() == xn);
            assert forall|i: int, j: int, k: int|
                0 <= i < cells.len() && 0 <= j < cells[i].len() && 0 <= k < cells[i][j].len()
                    implies (|e: P, r: int, c: int| reloc(r, c, e) == tag::<P>()(r, c, e))(
                #[trigger] cells[i][j][k],
                i,
                j,
            ) by {
                let e = cells[i][j][k];
                assert(cells[i].len() == xn);
                lemma_small_mod(i as nat, yn as nat);
                lemma_small_mod(j as nat, xn as nat);
                P::lemma_moved(e, e.spec_x(), e.spec_y());
            }
            lemma_cells_bag_agree(cells, reloc, tag::<P>());
            lemma_cells_bag_len(start.cells(), reloc, tag::<P>());
        }
    }

    /// `moves` pairs each tagged entity of `before` with a result of `f` on
    /// it, and this grid holds exactly those results, each in the bucket
    /// that its position implies.
    pub open spec fn results_of<F: Fn(P) -> P>(
        &self,
        before: &Self,
        f: F,
        moves: Seq<((int, int, P), P)>,
    ) -> bool {
        &&& moves.map_values(|m: ((int, int, P), P)| m.0).to_multiset() == before.tagged()
        &&& forall|i: int|
            0 <= i < moves.len() ==> call_ensures(f, (moves[i].0.2,), #[trigger] moves[i].1)
        &&& self.tagged() == implied_tags(
            moves.map_values(|m: ((int, int, P), P)| m.1),
            self.offset(),
            self.chunk(),
            self.rows(),
            self.cols(),
        )
    }

    /// Removes and returns the last entity of bucket `(r, c)`.
    fn pop_at(&mut self, r: usize, c: usize) -> (e: P)
        requires
            r < old(self).rows(),
            c < old(self).cells()[r as int].len(),
            old(self).cells()[r as int][c as int].len() > 0,
        ensures
            e == old(self).cells()[r as int][c as int].last(),
            final(self).cells() == old(self).cells().update(
                r as int,
                old(self).cells()[r as int].update(
                    c as int,
                    old(self).cells()[r as int][c as int].drop_last(),
                ),
            ),
            final(self).offset() == old(self).offset(),
            final(self).chunk() == old(self).chunk(),
            final(self).tmp@ == old(self).tmp@,
    {
        let e = self.chunks[r][c].pop().unwrap();
        proof {
            let old_cells = old(self).cells();
            let want = old_cells.update(
                r as int,
                old_cells[r as int].update(c as int, old_cells[r as int][c as int].drop_last()),
            );
            assert(self.cells()[r as int][c as int] =~= want[r as int][c as int]);
            assert(self.cells()[r as int] =~= want[r as int]);
            assert(self.cells() =~= want);
        }
        e
    }

    /// Takes every entity out of the grid, applies `f` to it, and stores the
    /// result in the bucket that its new position implies. All entities are
    /// drained first, so no bucket is changed while it is being read.
    pub fn all_mut<F: Fn(P) -> P>(&mut self, f: F)
        requires
            old(self).wf(),
            forall|p: P| call_requires(f, (p,)),
        ensures
            final(self).wf(),
            final(self).same_frame(old(self)),
            final(self).placed(),
            final(self).size() == old(self).size(),
            exists|moves: Seq<((int, int, P), P)>| #[trigger]
                final(self).results_of(old(self), f, moves),
    {
        broadcast use vstd::seq_lib::group_to_multiset_ensures;

        let ghost start = *self;
        self.tmp.clear();
        let ghost mut src: Seq<(int, int, P)> = Seq::empty();
        let rows = self.chunks.len();
        let cols = self.chunks[0].len();
        let mut r: usize = 0;
        while r < rows
            invariant
                self.wf(),
                self.same_frame(&start),
                start.cells() == old(self).cells(),
                rows == self.rows(),
                cols == self.cols(),
                r <= rows,
                self.tmp@ == src.map_values(|t: (int, int, P)| t.2),
                src.to_multiset().add(self.tagged()) == start.tagged(),
                forall|r2: int, c2: int|
                    0 <= r2 < r && 0 <= c2 < cols ==> (#[trigger] self.cells()[r2][c2]).len() == 0,
            decreases rows - r,
        {
            let mut c: usize = 0;
            while c < cols
                invariant
                    self.wf(),
                    self.same_frame(&start),
                    start.cells() == old(self).cells(),
                    rows == self.rows(),
                    cols == self.cols(),
                    r < rows,
                    c <= cols,
                    self.tmp@ == src.map_values(|t: (int, int, P)| t.2),
                    src.to_multiset().add(self.tagged()) == start.tagged(),
                    forall|r2: int, c2: int|
                        0 <= r2 < r && 0 <= c2 < cols ==> (#[trigger] self.cells()[r2][c2]).len()
                            == 0,
                    forall|c2: int| 0 <= c2 < c ==> (#[trigger] self.cells()[r as int][c2]).len() == 0,
                decreases cols - c,
            {
                proof {
                    assert(self.cells()[r as int].len() == cols);
                    assert(self.chunks@.len() == rows);
                    assert(self.chunks@[r as int]@.len() == cols);
                }
                let mut left = self.chunks[r][c].len();
                while left > 0
                    invariant
                        left == self.cells()[r as int][c as int].len(),
                        self.wf(),
                        self.same_frame(&start),
                        start.cells() == old(self).cells(),
                        rows == self.rows(),
                        cols == self.cols(),
                        r < rows,
                        c < cols,
                        self.tmp@ == src.map_values(|t: (int, int, P)| t.2),
                        src.to_multiset().add(self.tagged()) == start.tagged(),
                        forall|r2: int, c2: int|
                            0 <= r2 < r && 0 <= c2 < cols ==> (
                            #[trigger] self.cells()[r2][c2]).len() == 0,
                        forall|c2: int|
                            0 <= c2 < c ==> (#[trigger] self.cells()[r as int][c2]).len() == 0,
                    decreases self.cells()[r as int][c as int].len(),
                {
                    proof {
                        assert(self.cells()[r as int].len() == cols);
                        assert(self.chunks@[r as int]@[c as int]@ == self.cells()[r as int][c as int]);
                    }
                    let ghost before = *self;
                    let e = self.pop_at(r, c);
                    self.tmp.push(e);
                    left -= 1;
                    proof {
                        let cells = before.cells();
                        let b = cells[r as int][c as int].drop_last();
                        lemma_cells_bag_pop(cells, r as int, c as int, tag());
                        assert forall|k: int| 0 <= k < b.len() implies before.anchored(
                            #[trigger] b[k],
                            r as int,
                            c as int,
                        ) by {
                            assert(b[k] == cells[r as int][c as int][k]);
                        }
                        lemma_every_set_bucket(
                            cells,
                            r as int,
                            c as int,
                            b,
                            |e: P, i: int, j: int| before.anchored(e, i, j),
                        );
                        assert(self.cells()[0].len() == cols);
                        assert forall|i: int| 0 <= i < self.rows() implies (
                        #[trigger] self.cells()[i]).len() == self.cols() by {
                            assert(cells[i].len() == cols);
                        }
                        let old_src = src;
                        src = src.push((r as int, c as int, e));
                        assert(self.tmp@ =~= src.map_values(|t: (int, int, P)| t.2));
                        let m0 = old_src.to_multiset();
                        old_src.to_multiset_ensures();
                        let t1 = self.tagged();
                        assert(before.tagged() == t1.insert((r as int, c as int, e)));
                        assert(src.to_multiset() == m0.insert((r as int, c as int, e)));
                        assert(src.to_multiset().add(t1) =~= m0.add(t1.insert((r as int, c as int, e))));
                        assert forall|r2: int, c2: int|
                            0 <= r2 < r && 0 <= c2 < cols implies (
                            #[trigger] self.cells()[r2][c2]).len() == 0 by {
                            assert(cells[r2][c2].len() == 0);
                        }
                        assert forall|c2: int| 0 <= c2 < c implies (
                        #[trigger] self.cells()[r as int][c2]).len() == 0 by {
                            assert(cells[r as int][c2].len() == 0);
                        }
                    }
                }
                proof {
                    assert(self.chunks@[r as int]@[c as int]@ == self.cells()[r as int][c as int]);
                }
                c += 1;
            }
            r += 1;
        }
        proof {
            assert forall|r2: int, c2: int|
                0 <= r2 < self.cells().len() && 0 <= c2 < self.cells()[r2].len() implies (
                #[trigger] self.cells()[r2][c2]).len() == 0 by {
                assert(self.cells()[r2].len() == cols);
            }
            lemma_cells_bag_empty(self.cells(), tag());
            assert(src.to_multiset() =~= start.tagged());
        }
        let mut items: Vec<P> = Vec::new();
        std::mem::swap(&mut items, &mut self.tmp);
        let n = items.len();
        let ghost mut moves: Seq<((int, int, P), P)> = Seq::empty();
        let ghost off = start.offset();
        let ghost ch = start.chunk();
        let ghost nr = start.rows();
        let ghost nc = start.cols();
        let mut i: usize = 0;
        while i < n
            invariant
                self.wf(),
                self.same_frame(&start),
                start.cells() == old(self).cells(),
                off == start.offset(),
                ch == start.chunk(),
                nr == start.rows(),
                nc == start.cols(),
                forall|p: P| call_requires(f, (p,)),
                self.placed(),
                n == src.len(),
                items@ == src.map_values(|t: (int, int, P)| t.2),
                src.to_multiset() == start.tagged(),
                i <= n,
                moves.len() == i,
                forall|k: int| 0 <= k < i ==> (#[trigger] moves[k]).0 == src[k],
                forall|k: int|
                    0 <= k < i ==> call_ensures(f, (moves[k].0.2,), #[trigger] moves[k].1),
                self.tagged() == implied_tags(
                    moves.map_values(|m: ((int, int, P), P)| m.1),
                    off,
                    ch,
                    nr,
                    nc,
                ),
            decreases n - i,
        {
            let p = items[i];
            let q = f(p);
            let ghost before = *self;
            self.insert(q);
            proof {
                lemma_cells_bag_push(before.cells(), before.row_of(q), before.col_of(q), q, tag());
                let old_moves = moves;
                moves = moves.push((src[i as int], q));
                let outs0 = old_moves.map_values(|m: ((int, int, P), P)| m.1);
                let outs = moves.map_values(|m: ((int, int, P), P)| m.1);
                assert(outs =~= outs0.push(q));
                let g = implied_tag::<P>(off, ch, nr, nc);
                assert(outs.map_values(g) =~= outs0.map_values(g).push(g(q)));
                outs0.map_values(g).to_multiset_ensures();
                assert(self.tagged() == before.tagged().insert(g(q)));
                assert forall|k: int| 0 <= k < i + 1 implies (#[trigger] moves[k]).0 == src[k] by {
                    if k < i {
                        assert(moves[k] == old_moves[k]);
                    }
                }
                assert forall|k: int| 0 <= k < i + 1 implies call_ensures(
                    f,
                    (moves[k].0.2,),
                    #[trigger] moves[k].1,
                ) by {
                    if k < i {
                        assert(moves[k] == old_moves[k]);
                    } else {
                        assert(p == src[k].2);
                    }
                }
            }
            i += 1;
        }
        items.clear();
        std::mem::swap(&mut items, &mut self.tmp);
        proof {
            assert(moves.map_values(|m: ((int, int, P), P)| m.0) =~= src);
            assert(self.results_of(&start, f, moves));
            let outs = moves.map_values(|m: ((int, int, P), P)| m.1);
            outs.map_values(implied_tag::<P>(off, ch, nr, nc)).to_multiset_ensures();
            src.to_multiset_ensures();
        }
    }

    /// First bucket index along an axis scanned for a query around `center`.
    pub open spec fn window_lo(&self, center: int, radius: int, n: int) -> int {
        axis_index(center - radius - 1, self.offset(), self.chunk(), n)
    }

    /// Last bucket index along an axis scanned for a query around `center`.
    pub open spec fn window_hi(&self, center: int, radius: int, n: int) -> int {
        axis_index(center + radius + 1, self.offset(), self.chunk(), n)
    }

    /// Location `l` lies in a bucket that a query around `(cx, cy)` scans.
    pub open spec fn in_window(&self, cx: int, cy: int, radius: int, l: (int, int, int)) -> bool {
        &&& self.window_lo(cy, radius, self.rows()) <= l.0 <= self.window_hi(cy, radius, self.rows())
        &&& self.window_lo(cx, radius, self.cols()) <= l.1 <= self.window_hi(cx, radius, self.cols())
    }

    /// `out` lists, each once, the entities in the scanned buckets that are
    /// closer than `radius` to `(cx, cy)`, with their squared distance; `locs`
    /// gives where each one is.
    pub open spec fn within_listed(
        &self,
        cx: int,
        cy: int,
        radius: int,
        out: Seq<(P, u64)>,
        locs: Seq<(int, int, int)>,
    ) -> bool {
        &&& out.len() == locs.len()
        &&& forall|i: int|
            0 <= i < locs.len() ==> self.valid(#[trigger] locs[i]) && self.in_window(
                cx,
                cy,
                radius,
                locs[i],
            ) && out[i] == (self.at(locs[i]), center_dist(self.at(locs[i]), cx, cy) as u64)
                && center_dist(self.at(locs[i]), cx, cy) < radius * radius
        &&& forall|i: int, j: int| 0 <= i < j < locs.len() ==> locs[i] != locs[j]
        &&& forall|a: (int, int, int)|
            self.valid(a) && self.in_window(cx, cy, radius, a) && center_dist(
                #[trigger] self.at(a),
                cx,
                cy,
            ) < radius * radius ==> exists|i: int| 0 <= i < locs.len() && locs[i] == a
    }

    /// Lists the entities closer than `radius` to `(x, y)`, each with its
    /// squared distance. Only the buckets that can hold such an entity are
    /// scanned: on each axis, from the bucket of `center - radius - 1` to the
    /// bucket of `center + radius + 1`, clamped.
    pub fn all_within(&self, x: i32, y: i32, distance: u32) -> (out: Vec<(P, u64)>)
        requires
            self.wf(),
        ensures
            exists|locs: Seq<(int, int, int)>|
                self.within_listed(x as int, y as int, distance as int, out@, locs),
    {
        let d = distance as u64;
        proof {
            assert(d * d <= 4294967295 * 4294967295) by (nonlinear_arith)
                requires
                    d <= 4294967295,
            ;
        }
        let limit: u64 = d * d;
        let rows = self.chunks.len();
        let cols = self.chunks[0].len();
        let min_x = self.index_of_wide(x as i64 - distance as i64 - 1, cols);
        let max_x = self.index_of_wide(x as i64 + distance as i64 + 1, cols);
        let min_y = self.index_of_wide(y as i64 - distance as i64 - 1, rows);
        let max_y = self.index_of_wide(y as i64 + distance as i64 + 1, rows);
        let ghost cx = x as int;
        let ghost cy = y as int;
        let ghost rad = distance as int;
        proof {
            let off = self.offset();
            let ch = self.chunk();
            lemma_div_is_ordered(cx - rad - 1 + off, cx + rad + 1 + off, ch);
            lemma_div_is_ordered(cy - rad - 1 + off, cy + rad + 1 + off, ch);
        }
        let mut out: Vec<(P, u64)> = Vec::new();
        let ghost mut locs: Seq<(int, int, int)> = Seq::empty();
        let mut r = min_y;
        while r <= max_y
            invariant
                self.wf(),
                rows == self.rows(),
                cols == self.cols(),
                limit == rad * rad,
                cx == x as int,
                cy == y as int,
                rad == distance as int,
                min_x == self.window_lo(cx, rad, cols as int),
                max_x == self.window_hi(cx, rad, cols as int),
                min_y == self.window_lo(cy, rad, rows as int),
                max_y == self.window_hi(cy, rad, rows as int),
                max_y < rows,
                max_x < cols,
                min_x <= max_x,
                min_y <= r <= max_y + 1,
                self.within_upto(cx, cy, rad, out@, locs, r as int, 0),
            decreases max_y + 1 - r,
        {
            let mut c = min_x;
            while c <= max_x
                invariant
                    self.wf(),
                    rows == self.rows(),
                    cols == self.cols(),
                    limit == rad * rad,
                    cx == x as int,
                    cy == y as int,
                    rad == distance as int,
                    min_x == self.window_lo(cx, rad, cols as int),
                    max_x == self.window_hi(cx, rad, cols as int),
                    min_y == self.window_lo(cy, rad, rows as int),
                    max_y == self.window_hi(cy, rad, rows as int),
                    max_y < rows,
                    max_x < cols,
                    min_x <= max_x,
                    min_y <= r <= max_y,
                    min_x <= c <= max_x + 1,
                    self.within_upto(cx, cy, rad, out@, locs, r as int, c as int),
                decreases max_x + 1 - c,
            {
                proof {
                    assert(self.cells()[r as int].len() == cols);
                }
                let ghost out0 = out@;
                let idx = scan_within(x, y, &self.chunks[r][c], limit, &mut out);
                proof {
                    assert(self.chunks@[r as int]@[c as int]@ == self.cells()[r as int][c as int]);
                    self.lemma_within_step(
                        cx,
                        cy,
                        rad,
                        out0,
                        out@,
                        locs,
                        idx@,
                        r as int,
                        c as int,
                    );
                    locs = locs + idx@.map_values(|j: int| (r as int, c as int, j));
                }
                c += 1;
            }
            proof {
                assert forall|a: (int, int, int)|
                    self.valid(a) && self.in_window(cx, cy, rad, a) && bucket_before(
                        a,
                        r as int + 1,
                        0,
                    ) && center_dist(#[trigger] self.at(a), cx, cy) < rad * rad implies exists|
                    i: int,
                | 0 <= i < locs.len() && locs[i] == a by {
                    assert(bucket_before(a, r as int, c as int));
                }
                assert forall|i: int| 0 <= i < locs.len() implies bucket_before(
                    #[trigger] locs[i],
                    r as int + 1,
                    0,
                ) by {}
            }
            r += 1;
        }
        proof {
            assert forall|a: (int, int, int)|
                self.valid(a) && self.in_window(cx, cy, rad, a) && center_dist(
                    #[trigger] self.at(a),
                    cx,
                    cy,
                ) < rad * rad implies exists|i: int| 0 <= i < locs.len() && locs[i] == a by {
                assert(bucket_before(a, r as int, 0));
            }
            assert(self.within_listed(cx, cy, rad, out@, locs));
        }
        out
    }

    proof fn lemma_within_step(
        &self,
        cx: int,
        cy: int,
        rad: int,
        out0: Seq<(P, u64)>,
        out1: Seq<(P, u64)>,
        locs: Seq<(int, int, int)>,
        idx: Seq<int>,
        r: int,
        c: int,
    )
        requires
            self.wf(),
            0 <= r < self.rows(),
            0 <= c < self.cols(),
            self.window_lo(cy, rad, self.rows()) <= r <= self.window_hi(cy, rad, self.rows()),
            self.window_lo(cx, rad, self.cols()) <= c <= self.window_hi(cx, rad, self.cols()),
            self.within_upto(cx, cy, rad, out0, locs, r, c),
            out1.len() == out0.len() + idx.len(),
            forall|i: int| 0 <= i < out0.len() ==> out1[i] == out0[i],
            forall|i: int|
                0 <= i < idx.len() ==> 0 <= #[trigger] idx[i] < self.cells()[r][c].len() && out1[out0.len()
                    + i] == (
                    self.cells()[r][c][idx[i]],
                    center_dist(self.cells()[r][c][idx[i]], cx, cy) as u64,
                ) && center_dist(self.cells()[r][c][idx[i]], cx, cy) < rad * rad,
            forall|i: int, j: int| 0 <= i < j < idx.len() ==> idx[i] < idx[j],
            forall|j: int|
                0 <= j < self.cells()[r][c].len() && center_dist(
                    #[trigger] self.cells()[r][c][j],
                    cx,
                    cy,
                ) < rad * rad ==> exists|i: int| 0 <= i < idx.len() && idx[i] == j,
        ensures
            self.within_upto(
                cx,
                cy,
                rad,
                out1,
                locs + idx.map_values(|j: int| (r, c, j)),
                r,
                c + 1,
            ),
    {
        let bucket = self.cells()[r][c];
        let new = idx.map_values(|j: int| (r, c, j));
        let all = locs + new;
        assert(self.cells()[r].len() == self.cols());
        assert forall|i: int| 0 <= i < all.len() implies self.valid(#[trigger] all[i])
            && self.in_window(cx, cy, rad, all[i]) && out1[i] == (
            self.at(all[i]),
            center_dist(self.at(all[i]), cx, cy) as u64,
        ) && center_dist(self.at(all[i]), cx, cy) < rad * rad && bucket_before(all[i], r, c + 1) by {
            if i >= locs.len() {
                let k = i - locs.len();
                assert(all[i] == new[k]);
                assert(new[k] == (r, c, idx[k]));
                assert(0 <= idx[k] < bucket.len());
            } else {
                assert(all[i] == locs[i]);
                assert(out1[i] == out0[i]);
            }
        }
        assert forall|i: int, j: int| 0 <= i < j < all.len() implies all[i] != all[j] by {
            if j >= locs.len() && i >= locs.len() {
                assert(idx[i - locs.len()] < idx[j - locs.len()]);
            } else if j >= locs.len() {
                assert(bucket_before(all[i], r, c));
            }
        }
        assert forall|a: (int, int, int)|
            self.valid(a) && self.in_window(cx, cy, rad, a) && bucket_before(a, r, c + 1)
                && center_dist(#[trigger] self.at(a), cx, cy) < rad * rad implies exists|i: int|
            0 <= i < all.len() && all[i] == a by {
            if a.0 == r && a.1 == c {
                assert(bucket[a.2] == self.at(a));
                let i = choose|i: int| 0 <= i < idx.len() && idx[i] == a.2;
                assert(all[locs.len() + i] == new[i]);
                assert(all[locs.len() + i] == a);
            } else {
                let i = choose|i: int| 0 <= i < locs.len() && locs[i] == a;
                assert(all[i] == a);
            }
        }
    }

    /// State of a radius query before bucket `(r, c)`: what is listed lies in
    /// buckets already scanned, and each close entity there is listed once.
    spec fn within_upto(
        &self,
        cx: int,
        cy: int,
        radius: int,
        out: Seq<(P, u64)>,
        locs: Seq<(int, int, int)>,
        r: int,
        c: int,
    ) -> bool {
        &&& out.len() == locs.len()
        &&& forall|i: int|
            0 <= i < locs.len() ==> self.valid(#[trigger] locs[i]) && self.in_window(
                cx,
                cy,
                radius,
                locs[i],
            ) && out[i] == (self.at(locs[i]), center_dist(self.at(locs[i]), cx, cy) as u64)
                && center_dist(self.at(locs[i]), cx, cy) < radius * radius && bucket_before(
                locs[i],
                r,
                c,
            )
        &&& forall|i: int, j: int| 0 <= i < j < locs.len() ==> locs[i] != locs[j]
        &&& forall|a: (int, int, int)|
            self.valid(a) && self.in_window(cx, cy, radius, a) && bucket_before(a, r, c)
                && center_dist(#[trigger] self.at(a), cx, cy) < radius * radius ==> exists|i: int|
                0 <= i < locs.len() && locs[i] == a
    }

    /// Squared distance between the entities at `a` and `b`.
    pub open spec fn loc_dist(&self, a: (int, int, int), b: (int, int, int)) -> int {
        ent_dist(self.at(a), self.at(b))
    }

    /// The entities at `a` and `b` are closer than one bucket side.
    pub open spec fn close(&self, a: (int, int, int), b: (int, int, int)) -> bool {
        self.loc_dist(a, b) < self.chunk() * self.chunk()
    }

    /// `o` reports the pair of entities at `l`, with their squared distance,
    /// and they are close.
    pub open spec fn pair_entry(&self, o: (P, P, u64), l: ((int, int, int), (int, int, int))) -> bool {
        &&& self.valid(l.0)
        &&& self.valid(l.1)
        &&& o == (self.at(l.0), self.at(l.1), self.loc_dist(l.0, l.1) as u64)
        &&& self.close(l.0, l.1)
    }

    /// `out` lists each unordered pair of distinct entities that lie in the
    /// same or in adjacent buckets and are closer than one bucket side, exactly
    /// once; `locs` gives where each listed entity is.
    pub open spec fn pairs_listed(
        &self,
        out: Seq<(P, P, u64)>,
        locs: Seq<((int, int, int), (int, int, int))>,
    ) -> bool {
        &&& out.len() == locs.len()
        &&& forall|i: int|
            0 <= i < locs.len() ==> self.pair_entry(out[i], #[trigger] locs[i]) && locs[i].0
                != locs[i].1
        &&& forall|i: int, j: int|
            0 <= i < j < locs.len() ==> !same_pair(#[trigger] locs[i], #[trigger] locs[j])
        &&& forall|a: (int, int, int), b: (int, int, int)|
            #![trigger self.close(a, b)]
            self.valid(a) && self.valid(b) && a != b ==> ((exists|i: int|
                0 <= i < locs.len() && #[trigger] same_pair(locs[i], (a, b))) <==> (near(a, b)
                && self.close(a, b)))
    }

    /// State of the pair enumeration before entity `(r, c, k)`: every listed
    /// pair is owned by an entity already visited, and every close pair owned
    /// by such an entity is listed.
    spec fn pairs_upto(
        &self,
        out: Seq<(P, P, u64)>,
        locs: Seq<((int, int, int), (int, int, int))>,
        r: int,
        c: int,
        k: int,
    ) -> bool {
        &&& out.len() == locs.len()
        &&& forall|i: int|
            0 <= i < locs.len() ==> self.pair_entry(out[i], #[trigger] locs[i]) && owns(
                locs[i].0,
                locs[i].1,
            ) && before(locs[i].0, r, c, k)
        &&& forall|i: int, j: int| 0 <= i < j < locs.len() ==> #[trigger] locs[i] != #[trigger] locs[j]
        &&& forall|a: (int, int, int), b: (int, int, int)|
            self.valid(a) && self.valid(b) && #[trigger] owns(a, b) && before(a, r, c, k)
                && self.close(a, b) ==> exists|i: int| 0 <= i < locs.len() && locs[i] == (a, b)
    }

    /// Lists the pairs of the entity `p` at `a` with the close entities of bucket `(br, bc)`.
    fn scan_bucket(
        &self,
        a: Ghost<(int, int, int)>,
        p: P,
        br: usize,
        bc: usize,
        limit: u64,
        out: &mut Vec<(P, P, u64)>,
    ) -> (new: Ghost<Seq<((int, int, int), (int, int, int))>>)
        requires
            self.valid(a@),
            p == self.at(a@),
            br < self.rows(),
            bc < self.cells()[br as int].len(),
            limit == self.chunk() * self.chunk(),
        ensures
            final(out)@.len() == old(out)@.len() + new@.len(),
            forall|i: int| 0 <= i < old(out)@.len() ==> final(out)@[i] == old(out)@[i],
            forall|i: int|
                0 <= i < new@.len() ==> self.pair_entry(
                    final(out)@[old(out)@.len() + i],
                    #[trigger] new@[i],
                ) && new@[i].0 == a@ && new@[i].1.0 == br && new@[i].1.1 == bc,
            forall|i: int, j: int| 0 <= i < j < new@.len() ==> new@[i] != new@[j],
            forall|b: (int, int, int)|
                self.valid(b) && b.0 == br && b.1 == bc && self.close(a@, b) ==> exists|i: int|
                    0 <= i < new@.len() && new@[i] == (a@, b),
    {
        let ghost start: int = out@.len() as int;
        let idx = scan_pairs(p, &self.chunks[br][bc], limit, out);
        let ghost others = self.cells()[br as int][bc as int];
        let ghost new = idx@.map_values(|j: int| (a@, (br as int, bc as int, j)));
        proof {
            assert(self.chunks@[br as int]@[bc as int]@ == others);
            assert forall|i: int| 0 <= i < new.len() implies self.pair_entry(
                out@[start + i],
                #[trigger] new[i],
            ) && new[i].0 == a@ && new[i].1.0 == br && new[i].1.1 == bc by {
                let j = idx@[i];
                assert(0 <= j < others.len());
                assert(self.at(new[i].1) == others[j]);
            }
            assert forall|i: int, j: int| 0 <= i < j < new.len() implies new[i] != new[j] by {
                assert(idx@[i] < idx@[j]);
            }
            assert forall|b: (int, int, int)|
                self.valid(b) && b.0 == br && b.1 == bc && self.close(a@, b) implies exists|i: int|
                0 <= i < new.len() && new[i] == (a@, b) by {
                assert(others[b.2] == self.at(b));
                let i = choose|i: int| 0 <= i < idx@.len() && idx@[i] == b.2;
                assert(new[i] == (a@, b));
            }
        }
        Ghost(new)
    }

    /// `new` lists, after position `start` of `out`, the pairs of the entity
    /// at `a` with the close entities ahead of it in the buckets that `cov`
    /// marks, each once.
    spec fn scan_state(
        &self,
        a: (int, int, int),
        out: Seq<(P, P, u64)>,
        start: int,
        new: Seq<((int, int, int), (int, int, int))>,
        cov: spec_fn((int, int, int)) -> bool,
    ) -> bool {
        &&& 0 <= start
        &&& out.len() == start + new.len()
        &&& forall|i: int|
            0 <= i < new.len() ==> self.pair_entry(out[start + i], #[trigger] new[i]) && new[i].0
                == a && ahead(a, new[i].1) && cov(new[i].1)
        &&& forall|i: int, j: int| 0 <= i < j < new.len() ==> new[i] != new[j]
        &&& forall|b: (int, int, int)|
            self.valid(b) && cov(b) && self.close(a, b) ==> exists|i: int|
                0 <= i < new.len() && new[i] == (a, b)
    }

    proof fn lemma_scan_extend(
        &self,
        a: (int, int, int),
        out1: Seq<(P, P, u64)>,
        out2: Seq<(P, P, u64)>,
        start: int,
        new: Seq<((int, int, int), (int, int, int))>,
        got: Seq<((int, int, int), (int, int, int))>,
        cov: spec_fn((int, int, int)) -> bool,
        br: int,
        bc: int,
    )
        requires
            self.scan_state(a, out1, start, new, cov),
            ahead(a, (br, bc, 0)),
            forall|b: (int, int, int)| #[trigger] cov(b) ==> !(b.0 == br && b.1 == bc),
            out2.len() == out1.len() + got.len(),
            forall|i: int| 0 <= i < out1.len() ==> out2[i] == out1[i],
            forall|i: int|
                0 <= i < got.len() ==> self.pair_entry(out2[out1.len() + i], #[trigger] got[i])
                    && got[i].0 == a && got[i].1.0 == br && got[i].1.1 == bc,
            forall|i: int, j: int| 0 <= i < j < got.len() ==> got[i] != got[j],
            forall|b: (int, int, int)|
                self.valid(b) && b.0 == br && b.1 == bc && self.close(a, b) ==> exists|i: int|
                    0 <= i < got.len() && got[i] == (a, b),
        ensures
            self.scan_state(a, out2, start, new + got, extend_cover(cov, br, bc)),
    {
        let all = new + got;
        let cov2 = extend_cover(cov, br, bc);
        assert forall|i: int| 0 <= i < all.len() implies self.pair_entry(
            out2[start + i],
            #[trigger] all[i],
        ) && all[i].0 == a && ahead(a, all[i].1) && cov2(all[i].1) by {
            if i < new.len() {
                assert(all[i] == new[i]);
                assert(out2[start + i] == out1[start + i]);
            } else {
                assert(all[i] == got[i - new.len()]);
            }
        }
        assert forall|i: int, j: int| 0 <= i < j < all.len() implies all[i] != all[j] by {
            if j >= new.len() && i < new.len() {
                assert(all[j] == got[j - new.len()]);
                assert(all[i] == new[i]);
                assert(cov(new[i].1));
            } else if i >= new.len() {
                assert(all[j] == got[j - new.len()]);
                assert(all[i] == got[i - new.len()]);
            }
        }
        assert forall|b: (int, int, int)|
            self.valid(b) && cov2(b) && self.close(a, b) implies exists|i: int|
            0 <= i < all.len() && all[i] == (a, b) by {
            if b.0 == br && b.1 == bc {
                let i = choose|i: int| 0 <= i < got.len() && got[i] == (a, b);
                assert(all[new.len() + i] == (a, b));
            } else {
                let i = choose|i: int| 0 <= i < new.len() && new[i] == (a, b);
                assert(all[i] == (a, b));
            }
        }
    }

    /// Lists the pairs of the entity `p` at `(r, c, k)` with the close entities
    /// of the buckets ahead of its own.
    fn scan_ahead(&self, p: P, r: usize, c: usize, k: Ghost<int>, limit: u64, out: &mut Vec<(P, P, u64)>) -> (new:
        Ghost<Seq<((int, int, int), (int, int, int))>>)
        requires
            self.wf(),
            self.valid((r as int, c as int, k@)),
            p == self.at((r as int, c as int, k@)),
            limit == self.chunk() * self.chunk(),
        ensures
            final(out)@.len() == old(out)@.len() + new@.len(),
            forall|i: int| 0 <= i < old(out)@.len() ==> final(out)@[i] == old(out)@[i],
            forall|i: int|
                0 <= i < new@.len() ==> self.pair_entry(
                    final(out)@[old(out)@.len() + i],
                    #[trigger] new@[i],
                ) && new@[i].0 == (r as int, c as int, k@) && ahead(new@[i].0, new@[i].1),
            forall|i: int, j: int| 0 <= i < j < new@.len() ==> new@[i] != new@[j],
            forall|b: (int, int, int)|
                self.valid(b) && ahead((r as int, c as int, k@), b) && self.close(
                    (r as int, c as int, k@),
                    b,
                ) ==> exists|i: int| 0 <= i < new@.len() && new@[i] == ((r as int, c as int, k@), b),
    {
        let ghost a = (r as int, c as int, k@);
        let ghost start: int = out@.len() as int;
        let rows = self.chunks.len();
        let cols = self.chunks[r].len();
        proof {
            assert(self.cells()[r as int].len() == self.cols());
        }
        let ghost mut new: Seq<((int, int, int), (int, int, int))> = Seq::empty();
        let ghost mut cov: spec_fn((int, int, int)) -> bool = |b: (int, int, int)| false;
        if c + 1 < cols {
            let ghost before_out = out@;
            let got = self.scan_bucket(Ghost(a), p, r, c + 1, limit, out);
            proof {
                self.lemma_scan_extend(a, before_out, out@, start, new, got@, cov, r as int, c as int + 1);
                new = new + got@;
                cov = extend_cover(cov, r as int, c as int + 1);
            }
        }
        if r + 1 < rows {
            proof {
                assert(self.cells()[r + 1].len() == self.cols());
            }
            let ghost before_out = out@;
            let got = self.scan_bucket(Ghost(a), p, r + 1, c, limit, out);
            proof {
                self.lemma_scan_extend(a, before_out, out@, start, new, got@, cov, r as int + 1, c as int);
                new = new + got@;
                cov = extend_cover(cov, r as int + 1, c as int);
            }
            if c + 1 < cols {
                let ghost before_out = out@;
                let got = self.scan_bucket(Ghost(a), p, r + 1, c + 1, limit, out);
                proof {
                    self.lemma_scan_extend(a, before_out, out@, start, new, got@, cov, r as int + 1, c as int + 1);
                    new = new + got@;
                    cov = extend_cover(cov, r as int + 1, c as int + 1);
                }
            }
            if c > 0 {
                let ghost before_out = out@;
                let got = self.scan_bucket(Ghost(a), p, r + 1, c - 1, limit, out);
                proof {
                    self.lemma_scan_extend(a, before_out, out@, start, new, got@, cov, r as int + 1, c as int - 1);
                    new = new + got@;
                    cov = extend_cover(cov, r as int + 1, c as int - 1);
                }
            }
        }
        proof {
            assert forall|b: (int, int, int)|
                self.valid(b) && ahead(a, b) && self.close(a, b) implies exists|i: int|
                0 <= i < new.len() && new[i] == (a, b) by {
                assert(cov(b));
            }
        }
        Ghost(new)
    }

    proof fn lemma_pairs_step(
        &self,
        out0: Seq<(P, P, u64)>,
        out1: Seq<(P, P, u64)>,
        out2: Seq<(P, P, u64)>,
        locs: Seq<((int, int, int), (int, int, int))>,
        same: Seq<((int, int, int), (int, int, int))>,
        fwd: Seq<((int, int, int), (int, int, int))>,
        a: (int, int, int),
    )
        requires
            self.valid(a),
            self.pairs_upto(out0, locs, a.0, a.1, a.2),
            out1.len() == out0.len() + same.len(),
            forall|i: int| 0 <= i < out0.len() ==> out1[i] == out0[i],
            forall|i: int|
                0 <= i < same.len() ==> self.pair_entry(out1[out0.len() + i], #[trigger] same[i])
                    && same[i].0 == a && same[i].1.0 == a.0 && same[i].1.1 == a.1 && same[i].1.2
                    < a.2,
            forall|i: int, j: int| 0 <= i < j < same.len() ==> same[i] != same[j],
            forall|b: (int, int, int)|
                self.valid(b) && b.0 == a.0 && b.1 == a.1 && b.2 < a.2 && self.close(a, b)
                    ==> exists|i: int| 0 <= i < same.len() && same[i] == (a, b),
            out2.len() == out1.len() + fwd.len(),
            forall|i: int| 0 <= i < out1.len() ==> out2[i] == out1[i],
            forall|i: int|
                0 <= i < fwd.len() ==> self.pair_entry(out2[out1.len() + i], #[trigger] fwd[i])
                    && fwd[i].0 == a && ahead(fwd[i].0, fwd[i].1),
            forall|i: int, j: int| 0 <= i < j < fwd.len() ==> fwd[i] != fwd[j],
            forall|b: (int, int, int)|
                self.valid(b) && ahead(a, b) && self.close(a, b) ==> exists|i: int|
                    0 <= i < fwd.len() && fwd[i] == (a, b),
        ensures
            self.pairs_upto(out2, locs + same + fwd, a.0, a.1, a.2 + 1),
    {
        let all = locs + same + fwd;
        let n0 = locs.len();
        let n1 = n0 + same.len();
        assert forall|i: int| 0 <= i < all.len() implies self.pair_entry(
            out2[i],
            #[trigger] all[i],
        ) && owns(all[i].0, all[i].1) && before(all[i].0, a.0, a.1, a.2 + 1) by {
            if i < n0 {
                assert(all[i] == locs[i]);
                assert(out2[i] == out0[i]);
            } else if i < n1 {
                assert(all[i] == same[i - n0]);
                assert(out2[i] == out1[i]);
            } else {
                assert(all[i] == fwd[i - n1]);
            }
        }
        assert forall|i: int, j: int| 0 <= i < j < all.len() implies #[trigger] all[i]
            != #[trigger] all[j] by {
            if j < n0 {
                assert(all[i] == locs[i] && all[j] == locs[j]);
            } else if i < n0 {
                assert(all[i] == locs[i]);
                assert(before(locs[i].0, a.0, a.1, a.2));
                if j < n1 {
                    assert(all[j] == same[j - n0]);
                } else {
                    assert(all[j] == fwd[j - n1]);
                }
            } else if j < n1 {
                assert(all[i] == same[i - n0] && all[j] == same[j - n0]);
            } else if i < n1 {
                assert(all[i] == same[i - n0] && all[j] == fwd[j - n1]);
            } else {
                assert(all[i] == fwd[i - n1] && all[j] == fwd[j - n1]);
            }
        }
        assert forall|x: (int, int, int), b: (int, int, int)|
            self.valid(x) && self.valid(b) && #[trigger] owns(x, b) && before(x, a.0, a.1, a.2 + 1)
                && self.close(x, b) implies exists|i: int| 0 <= i < all.len() && all[i] == (x, b) by {
            if before(x, a.0, a.1, a.2) {
                let i = choose|i: int| 0 <= i < locs.len() && locs[i] == (x, b);
                assert(all[i] == (x, b));
            } else if ahead(x, b) {
                let i = choose|i: int| 0 <= i < fwd.len() && fwd[i] == (x, b);
                assert(all[n1 + i] == (x, b));
            } else {
                let i = choose|i: int| 0 <= i < same.len() && same[i] == (x, b);
                assert(all[n0 + i] == (x, b));
            }
        }
    }

    /// Visits each entity in row-major order; tests it against the entities
    /// before it in its own bucket and those of the buckets ahead of it.
    /// Returns each close pair once, with its squared distance.
    pub fn pairs(&mut self) -> (out: Vec<(P, P, u64)>)
        requires
            old(self).wf(),
        ensures
            final(self).wf(),
            final(self).cells() == old(self).cells(),
            final(self).same_frame(old(self)),
            exists|locs: Seq<((int, int, int), (int, int, int))>|
                final(self).pairs_listed(out@, locs),
    {
        let chunk = self.chunk_size as u64;
        proof {
            assert(chunk * chunk <= 2147483647 * 2147483647) by (nonlinear_arith)
                requires
                    chunk <= 2147483647,
            ;
        }
        let limit: u64 = chunk * chunk;
        let mut out: Vec<(P, P, u64)> = Vec::new();
        let ghost mut locs: Seq<((int, int, int), (int, int, int))> = Seq::empty();
        let rows = self.chunks.len();
        let cols = self.chunks[0].len();
        self.tmp.clear();
        let mut r: usize = 0;
        while r < rows
            invariant
                self.wf(),
                self.cells() == old(self).cells(),
                self.same_frame(old(self)),
                rows == self.rows(),
                cols == self.cols(),
                r <= rows,
                limit == self.chunk() * self.chunk(),
                self.tmp@.len() == 0,
                self.pairs_upto(out@, locs, r as int, 0, 0),
            decreases rows - r,
        {
            let mut c: usize = 0;
            while c < cols
                invariant
                    self.wf(),
                    self.cells() == old(self).cells(),
                    self.same_frame(old(self)),
                    rows == self.rows(),
                    cols == self.cols(),
                    r < rows,
                    c <= cols,
                    limit == self.chunk() * self.chunk(),
                    self.tmp@.len() == 0,
                    self.pairs_upto(out@, locs, r as int, c as int, 0),
                decreases cols - c,
            {
                proof {
                    assert(self.cells()[r as int].len() == cols);
                }
                let n = self.chunks[r][c].len();
                let mut k: usize = 0;
                while k < n
                    invariant
                        self.wf(),
                        self.cells() == old(self).cells(),
                        self.same_frame(old(self)),
                        rows == self.rows(),
                        cols == self.cols(),
                        r < rows,
                        c < cols,
                        k <= n,
                        n == self.cells()[r as int][c as int].len(),
                        limit == self.chunk() * self.chunk(),
                        self.tmp@ == self.cells()[r as int][c as int].take(k as int),
                        self.pairs_upto(out@, locs, r as int, c as int, k as int),
                    decreases n - k,
                {
                    let ghost a = (r as int, c as int, k as int);
                    let p = self.chunks[r][c][k];
                    let ghost out0 = out@;
                    let idx = scan_pairs(p, &self.tmp, limit, &mut out);
                    let ghost out1 = out@;
                    let ghost same = idx@.map_values(|j: int| (a, (r as int, c as int, j)));
                    let ghost tmp_before = self.tmp@;
                    self.tmp.push(p);
                    let fwd = self.scan_ahead(p, r, c, Ghost(k as int), limit, &mut out);
                    proof {
                        let bucket = self.cells()[r as int][c as int];
                        assert(p == self.at(a));
                        assert forall|i: int| 0 <= i < same.len() implies self.pair_entry(
                            out1[out0.len() + i],
                            #[trigger] same[i],
                        ) && same[i].0 == a && same[i].1.0 == a.0 && same[i].1.1 == a.1
                            && same[i].1.2 < a.2 by {
                            let j = idx@[i];
                            assert(tmp_before[j] == bucket[j]);
                        }
                        assert forall|i: int, j: int| 0 <= i < j < same.len() implies same[i]
                            != same[j] by {
                            assert(idx@[i] < idx@[j]);
                        }
                        assert forall|b: (int, int, int)|
                            self.valid(b) && b.0 == a.0 && b.1 == a.1 && b.2 < a.2 && self.close(
                                a,
                                b,
                            ) implies exists|i: int| 0 <= i < same.len() && same[i] == (a, b) by {
                            assert(tmp_before[b.2] == bucket[b.2]);
                            let i = choose|i: int| 0 <= i < idx@.len() && idx@[i] == b.2;
                            assert(same[i] == (a, b));
                        }
                    }
                    proof {
                        self.lemma_pairs_step(out0, out1, out@, locs, same, fwd@, a);
                        locs = locs + same + fwd@;
                        assert(self.tmp@ =~= self.cells()[r as int][c as int].take(k + 1));
                    }
                    k += 1;
                }
                self.tmp.clear();
                proof {
                    self.lemma_pairs_next_bucket(out@, locs, r as int, c as int);
                }
                c += 1;
            }
            proof {
                self.lemma_pairs_next_row(out@, locs, r as int);
            }
            r += 1;
        }
        proof {
            self.lemma_pairs_done(out@, locs);
        }
        out
    }

    proof fn lemma_pairs_next_bucket(
        &self,
        out: Seq<(P, P, u64)>,
        locs: Seq<((int, int, int), (int, int, int))>,
        r: int,
        c: int,
    )
        requires
            0 <= r < self.cells().len(),
            0 <= c < self.cells()[r].len(),
            self.pairs_upto(out, locs, r, c, self.cells()[r][c].len() as int),
        ensures
            self.pairs_upto(out, locs, r, c + 1, 0),
    {
        let n = self.cells()[r][c].len() as int;
        assert forall|x: (int, int, int), b: (int, int, int)|
            self.valid(x) && self.valid(b) && #[trigger] owns(x, b) && before(x, r, c + 1, 0)
                && self.close(x, b) implies exists|i: int| 0 <= i < locs.len() && locs[i] == (x, b) by {
            assert(before(x, r, c, n));
        }
    }

    proof fn lemma_pairs_next_row(
        &self,
        out: Seq<(P, P, u64)>,
        locs: Seq<((int, int, int), (int, int, int))>,
        r: int,
    )
        requires
            self.wf(),
            0 <= r < self.rows(),
            self.pairs_upto(out, locs, r, self.cols(), 0),
        ensures
            self.pairs_upto(out, locs, r + 1, 0, 0),
    {
        assert forall|x: (int, int, int), b: (int, int, int)|
            self.valid(x) && self.valid(b) && #[trigger] owns(x, b) && before(x, r + 1, 0, 0)
                && self.close(x, b) implies exists|i: int| 0 <= i < locs.len() && locs[i] == (x, b) by {
            assert(self.cells()[x.0].len() == self.cols());
            assert(before(x, r, self.cols(), 0));
        }
    }

    proof fn lemma_pairs_done(&self, out: Seq<(P, P, u64)>, locs: Seq<((int, int, int), (int, int, int))>)
        requires
            self.wf(),
            self.pairs_upto(out, locs, self.rows(), 0, 0),
        ensures
            self.pairs_listed(out, locs),
    {
        assert forall|i: int| 0 <= i < locs.len() implies self.pair_entry(out[i], #[trigger] locs[i])
            && locs[i].0 != locs[i].1 by {
            assert(owns(locs[i].0, locs[i].1));
        }
        assert forall|i: int, j: int| 0 <= i < j < locs.len() implies !same_pair(
            #[trigger] locs[i],
            #[trigger] locs[j],
        ) by {
            assert(locs[i] != locs[j]);
            assert(owns(locs[i].0, locs[i].1));
            assert(owns(locs[j].0, locs[j].1));
        }
        assert forall|a: (int, int, int), b: (int, int, int)|
            self.valid(a) && self.valid(b) && a != b implies ((exists|i: int|
            0 <= i < locs.len() && #[trigger] same_pair(locs[i], (a, b))) <==> (near(a, b)
            && self.close(a, b))) by {
            lemma_dist_symmetric(self.at(a), self.at(b));
            if exists|i: int| 0 <= i < locs.len() && #[trigger] same_pair(locs[i], (a, b)) {
                let i = choose|i: int| 0 <= i < locs.len() && #[trigger] same_pair(locs[i], (a, b));
                assert(self.pair_entry(out[i], locs[i]));
                assert(owns(locs[i].0, locs[i].1));
            }
            if near(a, b) && self.close(a, b) {
                assert(before(a, self.rows(), 0, 0));
                assert(before(b, self.rows(), 0, 0));
                if owns(a, b) {
                    let i = choose|i: int| 0 <= i < locs.len() && locs[i] == (a, b);
                    assert(same_pair(locs[i], (a, b)));
                } else {
                    assert(owns(b, a));
                    let i = choose|i: int| 0 <= i < locs.len() && locs[i] == (b, a);
                    assert(same_pair(locs[i], (a, b)));
                }
            }
        }
    }
}

/// Squared distance between `(ax, ay)` and `(bx, by)` when it is below `limit`.
fn dist_below(ax: i32, ay: i32, bx: i32, by: i32, limit: u64) -> (d: Option<u64>)
    ensures
        d == (if dist_sqr(ax as int, ay as int, bx as int, by as int) < limit {
            Some(dist_sqr(ax as int, ay as int, bx as int, by as int) as u64)
        } else {
            None::<u64>
        }),
{
    let dx2 = square_diff(ax, bx);
    if dx2 >= limit {
        proof {
            let dy = ay as int - by as int;
            assert(dy * dy >= 0) by (nonlinear_arith);
        }
        return None;
    }
    let dy2 = square_diff(ay, by);
    if dy2 >= limit - dx2 {
        None
    } else {
        Some(dx2 + dy2)
    }
}

/// Computes `(a - b)^2`.
fn square_diff(a: i32, b: i32) -> (s: u64)
    ensures
        s == (a as int - b as int) * (a as int - b as int),
{
    let d: i64 = a as i64 - b as i64;
    let m: u64 = if d < 0 {
        (0i64 - d) as u64
    } else {
        d as u64
    };
    proof {
        let di = d as int;
        let mi = m as int;
        assert(mi * mi == di * di) by (nonlinear_arith)
            requires
                mi == di || mi == -di,
        ;
        assert(mi * mi <= 4294967295 * 4294967295) by (nonlinear_arith)
            requires
                0 <= mi <= 4294967295,
        ;
    }
    m * m
}

/// Appends `(p, q, d)` to `out` for each `q` of `others` whose squared
/// distance `d` to `p` is below `limit`, in order; `idx` lists their indices.
fn scan_pairs<P: Positioned + Copy>(p: P, others: &Vec<P>, limit: u64, out: &mut Vec<(P, P, u64)>) -> (idx:
    Ghost<Seq<int>>)
    ensures
        final(out)@.len() == old(out)@.len() + idx@.len(),
        forall|i: int| 0 <= i < old(out)@.len() ==> final(out)@[i] == old(out)@[i],
        forall|i: int|
            0 <= i < idx@.len() ==> 0 <= #[trigger] idx@[i] < others@.len() && final(out)@[old(
                out,
            )@.len() + i] == (p, others@[idx@[i]], ent_dist(p, others@[idx@[i]]) as u64) && ent_dist(
                p,
                others@[idx@[i]],
            ) < limit,
        forall|i: int, j: int| 0 <= i < j < idx@.len() ==> idx@[i] < idx@[j],
        forall|j: int|
            0 <= j < others@.len() && ent_dist(p, #[trigger] others@[j]) < limit ==> exists|i: int|
                0 <= i < idx@.len() && idx@[i] == j,
{
    let ghost start: int = out@.len() as int;
    let ghost mut idx: Seq<int> = Seq::empty();
    let px = p.x();
    let py = p.y();
    let n = others.len();
    let mut j: usize = 0;
    while j < n
        invariant
            n == others@.len(),
            j <= n,
            px == p.spec_x(),
            py == p.spec_y(),
            start == old(out)@.len(),
            out@.len() == start + idx.len(),
            forall|i: int| 0 <= i < start ==> out@[i] == old(out)@[i],
            forall|i: int|
                0 <= i < idx.len() ==> 0 <= #[trigger] idx[i] < j && out@[start + i] == (
                    p,
                    others@[idx[i]],
                    ent_dist(p, others@[idx[i]]) as u64,
                ) && ent_dist(p, others@[idx[i]]) < limit,
            forall|i: int, i2: int| 0 <= i < i2 < idx.len() ==> idx[i] < idx[i2],
            forall|j2: int|
                0 <= j2 < j && ent_dist(p, #[trigger] others@[j2]) < limit ==> exists|i: int|
                    0 <= i < idx.len() && idx[i] == j2,
        decreases n - j,
    {
        let q = others[j];
        match dist_below(px, py, q.x(), q.y(), limit) {
            Some(d) => {
                out.push((p, q, d));
                proof {
                    let old_idx = idx;
                    idx = idx.push(j as int);
                    assert forall|j2: int|
                        0 <= j2 < j + 1 && ent_dist(p, #[trigger] others@[j2]) < limit implies exists|
                        i: int,
                    | 0 <= i < idx.len() && idx[i] == j2 by {
                        if j2 < j {
                            let i = choose|i: int| 0 <= i < old_idx.len() && old_idx[i] == j2;
                            assert(idx[i] == j2);
                        } else {
                            assert(idx[idx.len() - 1] == j2);
                        }
                    }
                }
            },
            None => {},
        }
        j += 1;
    }
    Ghost(idx)
}

/// Appends `(q, d)` to `out` for each `q` of `others` whose squared distance
/// `d` to `(cx, cy)` is below `limit`, in order; `idx` lists their indices.
fn scan_within<P: Positioned + Copy>(cx: i32, cy: i32, others: &Vec<P>, limit: u64, out: &mut Vec<(P, u64)>) -> (idx:
    Ghost<Seq<int>>)
    ensures
        final(out)@.len() == old(out)@.len() + idx@.len(),
        forall|i: int| 0 <= i < old(out)@.len() ==> final(out)@[i] == old(out)@[i],
        forall|i: int|
            0 <= i < idx@.len() ==> 0 <= #[trigger] idx@[i] < others@.len() && final(out)@[old(
                out,
            )@.len() + i] == (others@[idx@[i]], center_dist(others@[idx@[i]], cx as int, cy as int) as u64)
                && center_dist(others@[idx@[i]], cx as int, cy as int) < limit,
        forall|i: int, j: int| 0 <= i < j < idx@.len() ==> idx@[i] < idx@[j],
        forall|j: int|
            0 <= j < others@.len() && center_dist(#[trigger] others@[j], cx as int, cy as int) < limit
                ==> exists|i: int| 0 <= i < idx@.len() && idx@[i] == j,
{
    let ghost start = out@.len();
    let ghost mut idx: Seq<int> = Seq::empty();
    let n = others.len();
    let mut j: usize = 0;
    while j < n
        invariant
            n == others@.len(),
            j <= n,
            start == old(out)@.len(),
            out@.len() == start + idx.len(),
            forall|i: int| 0 <= i < start ==> out@[i] == old(out)@[i],
            forall|i: int|
                0 <= i < idx.len() ==> 0 <= #[trigger] idx[i] < j && out@[start + i] == (
                    others@[idx[i]],
                    center_dist(others@[idx[i]], cx as int, cy as int) as u64,
                ) && center_dist(others@[idx[i]], cx as int, cy as int) < limit,
            forall|i: int, i2: int| 0 <= i < i2 < idx.len() ==> idx[i] < idx[i2],
            forall|j2: int|
                0 <= j2 < j && center_dist(#[trigger] others@[j2], cx as int, cy as int) < limit
                    ==> exists|i: int| 0 <= i < idx.len() && idx[i] == j2,
        decreases n - j,
    {
        let q = others[j];
        match dist_below(q.x(), q.y(), cx, cy, limit) {
            Some(d) => {
                out.push((q, d));
                proof {
                    let old_idx = idx;
                    idx = idx.push(j as int);
                    assert forall|j2: int|
                        0 <= j2 < j + 1 && center_dist(#[trigger] others@[j2], cx as int, cy as int)
                            < limit implies exists|i: int| 0 <= i < idx.len() && idx[i] == j2 by {
                        if j2 < j {
                            let i = choose|i: int| 0 <= i < old_idx.len() && old_idx[i] == j2;
                            assert(idx[i] == j2);
                        } else {
                            assert(idx[idx.len() - 1] == j2);
                        }
                    }
                }
            },
            None => {},
        }
        j += 1;
    }
    Ghost(idx)
}

/// A bucket index `c` reached by flooring `v / chunk` lies at or below `v` in units.
proof fn lemma_anchor(v: int, chunk: int, c: int)
    requires
        chunk > 0,
        c == 0 || (0 <= c <= v / chunk),
    ensures
        c == 0 || c * chunk <= v,
{
    if c != 0 {
        assert(c * chunk <= v) by (nonlinear_arith)
            requires
                chunk > 0,
                0 <= c <= v / chunk,
        ;
    }
}

/// Computes `ceil(len / chunk)`.
fn count_buckets(len: u32, chunk: i32) -> (n: usize)
    requires
        len > 0,
        chunk > 0,
    ensures
        n == bucket_count(len as int, chunk as int),
        1 <= n <= len,
{
    let l = len as u64;
    let c = chunk as u64;
    let q = (l + c - 1) / c;
    proof {
        let li = l as int;
        let ci = c as int;
        assert((li + ci - 1) / ci <= li) by (nonlinear_arith)
            requires
                li >= 1,
                ci >= 1,
        ;
        assert((li + ci - 1) / ci >= 1) by (nonlinear_arith)
            requires
                li >= 1,
                ci >= 1,
        ;
    }
    q as usize
}

/// A row of `n` empty buckets.
fn empty_strip<P>(n: usize) -> (strip: Vec<Vec<P>>)
    ensures
        strip@.len() == n,
        forall|c: int| 0 <= c < n ==> (#[trigger] strip@[c])@.len() == 0,
{
    let mut strip: Vec<Vec<P>> = Vec::new();
    let mut x: usize = 0;
    while x < n
        invariant
            x <= n,
            strip@.len() == x,
            forall|c: int| 0 <= c < x ==> (#[trigger] strip@[c])@.len() == 0,
        decreases n - x,
    {
        strip.push(Vec::new());
        x += 1;
    }
    strip
}

} // verus!
