//! Mathematical model of a bucket grid: buckets as nested sequences,
//! the multiset of bucket-tagged entities, and the lemmas that relate
//! edits of one bucket or one row to that multiset.
use vstd::multiset::Multiset;
use vstd::prelude::*;

verus! {

/// A function that relabels an entity found in bucket `(row, col)`.
pub type Relabel<P> = spec_fn(int, int, P) -> (int, int, P);

/// The relabelling that keeps each entity where it is.
pub open spec fn tag<P>() -> Relabel<P> {
    |r: int, c: int, e: P| (r, c, e)
}

/// Index along one axis of the bucket that holds `coord`, before clamping.
pub open spec fn raw_index(coord: int, offset: int, chunk: int) -> int {
    (coord + offset) / chunk
}

/// `i` clamped into `[0, n - 1]`.
pub open spec fn clamp_index(i: int, n: int) -> int {
    if i < 0 {
        0
    } else if i >= n {
        n - 1
    } else {
        i
    }
}

/// Number of buckets of side `chunk` needed to cover `len`.
pub open spec fn bucket_count(len: int, chunk: int) -> int {
    (len + chunk - 1) / chunk
}

/// Squared Euclidean distance between `(ax, ay)` and `(bx, by)`.
pub open spec fn dist_sqr(ax: int, ay: int, bx: int, by: int) -> int {
    (ax - bx) * (ax - bx) + (ay - by) * (ay - by)
}

/// A position in nested buckets: row, column, place in the bucket.
pub open spec fn valid_loc<P>(cells: Seq<Seq<Seq<P>>>, l: (int, int, int)) -> bool {
    &&& 0 <= l.0 < cells.len()
    &&& 0 <= l.1 < cells[l.0].len()
    &&& 0 <= l.2 < cells[l.0][l.1].len()
}

pub open spec fn at<P>(cells: Seq<Seq<Seq<P>>>, l: (int, int, int)) -> P {
    cells[l.0][l.1][l.2]
}

/// Every entity satisfies `ok` together with the row and column of its bucket.
pub open spec fn every<P>(cells: Seq<Seq<Seq<P>>>, ok: spec_fn(P, int, int) -> bool) -> bool {
    forall|r: int, c: int, k: int|
        0 <= r < cells.len() && 0 <= c < cells[r].len() && 0 <= k < cells[r][c].len() ==> ok(
            #[trigger] cells[r][c][k],
            r,
            c,
        )
}

/// Every bucket is empty.
pub open spec fn all_empty<P>(cells: Seq<Seq<Seq<P>>>) -> bool {
    forall|r: int, c: int|
        0 <= r < cells.len() && 0 <= c < cells[r].len() ==> (#[trigger] cells[r][c]).len() == 0
}

/// Replacing bucket `(r, c)` by one whose entities all satisfy `ok` there keeps `every`.
pub proof fn lemma_every_set_bucket<P>(
    cells: Seq<Seq<Seq<P>>>,
    r: int,
    c: int,
    b: Seq<P>,
    ok: spec_fn(P, int, int) -> bool,
)
    requires
        every(cells, ok),
        0 <= r < cells.len(),
        0 <= c < cells[r].len(),
        forall|k: int| 0 <= k < b.len() ==> ok(#[trigger] b[k], r, c),
    ensures
        every(cells.update(r, cells[r].update(c, b)), ok),
{
    let cells2 = cells.update(r, cells[r].update(c, b));
    assert forall|r2: int, c2: int, k: int|
        0 <= r2 < cells2.len() && 0 <= c2 < cells2[r2].len() && 0 <= k < cells2[r2][c2].len()
            implies ok(#[trigger] cells2[r2][c2][k], r2, c2) by {
        if r2 == r && c2 == c {
            assert(cells2[r2][c2][k] == b[k]);
        } else {
            assert(cells2[r2][c2][k] == cells[r2][c2][k]);
        }
    }
}

pub open spec fn bucket_bag<P>(b: Seq<P>, r: int, c: int, f: Relabel<P>) -> Multiset<(int, int, P)>
    decreases b.len(),
{
    if b.len() == 0 {
        Multiset::empty()
    } else {
        bucket_bag(b.drop_last(), r, c, f).insert(f(r, c, b.last()))
    }
}

pub open spec fn row_bag<P>(row: Seq<Seq<P>>, r: int, f: Relabel<P>) -> Multiset<(int, int, P)>
    decreases row.len(),
{
    if row.len() == 0 {
        Multiset::empty()
    } else {
        row_bag(row.drop_last(), r, f).add(bucket_bag(row.last(), r, row.len() - 1, f))
    }
}

/// The multiset of relabelled entities of all buckets.
pub open spec fn cells_bag<P>(cells: Seq<Seq<Seq<P>>>, f: Relabel<P>) -> Multiset<(int, int, P)>
    decreases cells.len(),
{
    if cells.len() == 0 {
        Multiset::empty()
    } else {
        cells_bag(cells.drop_last(), f).add(row_bag(cells.last(), cells.len() - 1, f))
    }
}

pub proof fn lemma_bucket_bag_push<P>(b: Seq<P>, r: int, c: int, f: Relabel<P>, e: P)
    ensures
        bucket_bag(b.push(e), r, c, f) == bucket_bag(b, r, c, f).insert(f(r, c, e)),
{
    assert(b.push(e).drop_last() =~= b);
}

/// Adding the same multiset to both sides of an equation keeps it.
pub proof fn lemma_add_common<T>(
    a: Multiset<T>,
    b: Multiset<T>,
    c: Multiset<T>,
    d: Multiset<T>,
    z: Multiset<T>,
)
    requires
        a.add(b) =~= c.add(d),
    ensures
        a.add(z).add(b) =~= c.add(z).add(d),
{
    assert forall|v: T| #[trigger] a.add(z).add(b).count(v) == c.add(z).add(d).count(v) by {
        assert(a.add(b).count(v) == c.add(d).count(v));
    }
}

pub proof fn lemma_row_bag_update<P>(row: Seq<Seq<P>>, r: int, c: int, b: Seq<P>, f: Relabel<P>)
    requires
        0 <= c < row.len(),
    ensures
        row_bag(row.update(c, b), r, f).add(bucket_bag(row[c], r, c, f)) =~= row_bag(row, r, f).add(
            bucket_bag(b, r, c, f),
        ),
    decreases row.len(),
{
    let row2 = row.update(c, b);
    let last = row.len() - 1;
    if c == last {
        assert(row2.drop_last() =~= row.drop_last());
        assert(row_bag(row2, r, f) == row_bag(row.drop_last(), r, f).add(bucket_bag(b, r, c, f)));
        let d = row_bag(row.drop_last(), r, f);
        let x = bucket_bag(b, r, c, f);
        let y = bucket_bag(row[c], r, c, f);
        assert(d.add(x).add(y) =~= d.add(y).add(x));
        assert(row_bag(row, r, f) == d.add(y));
        assert(row_bag(row2, r, f).add(y) == d.add(x).add(y));
    } else {
        assert(row2.drop_last() =~= row.drop_last().update(c, b));
        lemma_row_bag_update(row.drop_last(), r, c, b, f);
        let e = row_bag(row2.drop_last(), r, f);
        let d = row_bag(row.drop_last(), r, f);
        let z = bucket_bag(row[last], r, last, f);
        let x = bucket_bag(b, r, c, f);
        let y = bucket_bag(row[c], r, c, f);
        assert(row.drop_last()[c] == row[c]);
        assert(row_bag(row2, r, f) == e.add(z));
        assert(row_bag(row, r, f) == d.add(z));
        lemma_add_common(e, y, d, x, z);
    }
}

pub proof fn lemma_cells_bag_update<P>(
    cells: Seq<Seq<Seq<P>>>,
    r: int,
    row: Seq<Seq<P>>,
    f: Relabel<P>,
)
    requires
        0 <= r < cells.len(),
    ensures
        cells_bag(cells.update(r, row), f).add(row_bag(cells[r], r, f)) =~= cells_bag(cells, f).add(
            row_bag(row, r, f),
        ),
    decreases cells.len(),
{
    let cells2 = cells.update(r, row);
    let last = cells.len() - 1;
    if r == last {
        assert(cells2.drop_last() =~= cells.drop_last());
        assert(cells_bag(cells2, f) == cells_bag(cells.drop_last(), f).add(row_bag(row, r, f)));
    } else {
        assert(cells2.drop_last() =~= cells.drop_last().update(r, row));
        lemma_cells_bag_update(cells.drop_last(), r, row, f);
        let e = cells_bag(cells2.drop_last(), f);
        let d = cells_bag(cells.drop_last(), f);
        let z = row_bag(cells[last], last, f);
        assert(cells.drop_last()[r] == cells[r]);
        assert(cells_bag(cells2, f) == e.add(z));
        lemma_add_common(e, row_bag(cells[r], r, f), d, row_bag(row, r, f), z);
    }
}

/// Replacing one bucket changes the multiset by the difference of the two buckets.
pub proof fn lemma_cells_bag_set_bucket<P>(
    cells: Seq<Seq<Seq<P>>>,
    r: int,
    c: int,
    b: Seq<P>,
    f: Relabel<P>,
)
    requires
        0 <= r < cells.len(),
        0 <= c < cells[r].len(),
    ensures
        cells_bag(cells.update(r, cells[r].update(c, b)), f).add(bucket_bag(cells[r][c], r, c, f))
            =~= cells_bag(cells, f).add(bucket_bag(b, r, c, f)),
{
    let row2 = cells[r].update(c, b);
    lemma_cells_bag_update(cells, r, row2, f);
    lemma_row_bag_update(cells[r], r, c, b, f);
    let n = cells_bag(cells.update(r, row2), f);
    let o = cells_bag(cells, f);
    let ro = row_bag(cells[r], r, f);
    let rn = row_bag(row2, r, f);
    let bo = bucket_bag(cells[r][c], r, c, f);
    let bn = bucket_bag(b, r, c, f);
    assert forall|v: (int, int, P)| #[trigger] n.add(bo).count(v) == o.add(bn).count(v) by {
        assert(n.add(ro).count(v) == o.add(rn).count(v));
        assert(rn.add(bo).count(v) == ro.add(bn).count(v));
    }
}

/// Appending `e` to bucket `(r, c)` adds its relabelling.
pub proof fn lemma_cells_bag_push<P>(cells: Seq<Seq<Seq<P>>>, r: int, c: int, e: P, f: Relabel<P>)
    requires
        0 <= r < cells.len(),
        0 <= c < cells[r].len(),
    ensures
        cells_bag(cells.update(r, cells[r].update(c, cells[r][c].push(e))), f) =~= cells_bag(
            cells,
            f,
        ).insert(f(r, c, e)),
{
    lemma_cells_bag_set_bucket(cells, r, c, cells[r][c].push(e), f);
    lemma_bucket_bag_push(cells[r][c], r, c, f, e);
    let n = cells_bag(cells.update(r, cells[r].update(c, cells[r][c].push(e))), f);
    let o = cells_bag(cells, f);
    let bo = bucket_bag(cells[r][c], r, c, f);
    assert forall|v: (int, int, P)| #[trigger] n.count(v) == o.insert(f(r, c, e)).count(v) by {
        assert(n.add(bo).count(v) == o.add(bo.insert(f(r, c, e))).count(v));
    }
}

/// Removing the last entity of bucket `(r, c)` removes its relabelling.
pub proof fn lemma_cells_bag_pop<P>(cells: Seq<Seq<Seq<P>>>, r: int, c: int, f: Relabel<P>)
    requires
        0 <= r < cells.len(),
        0 <= c < cells[r].len(),
        cells[r][c].len() > 0,
    ensures
        cells_bag(cells, f) =~= cells_bag(
            cells.update(r, cells[r].update(c, cells[r][c].drop_last())),
            f,
        ).insert(f(r, c, cells[r][c].last())),
{
    let b = cells[r][c];
    lemma_cells_bag_set_bucket(cells, r, c, b.drop_last(), f);
    let n = cells_bag(cells.update(r, cells[r].update(c, b.drop_last())), f);
    let o = cells_bag(cells, f);
    let bn = bucket_bag(b.drop_last(), r, c, f);
    assert(bucket_bag(b, r, c, f) == bn.insert(f(r, c, b.last())));
    assert forall|v: (int, int, P)| #[trigger] o.count(v) == n.insert(f(r, c, b.last())).count(v) by {
        assert(n.add(bn.insert(f(r, c, b.last()))).count(v) == o.add(bn).count(v));
    }
}

/// Dropping the last bucket of row `r` removes that bucket's entities.
pub proof fn lemma_cells_bag_pop_bucket<P>(cells: Seq<Seq<Seq<P>>>, r: int, f: Relabel<P>)
    requires
        0 <= r < cells.len(),
        cells[r].len() > 0,
    ensures
        cells_bag(cells, f) =~= cells_bag(cells.update(r, cells[r].drop_last()), f).add(
            bucket_bag(cells[r].last(), r, cells[r].len() - 1, f),
        ),
{
    let row = cells[r];
    lemma_cells_bag_update(cells, r, row.drop_last(), f);
    let n = cells_bag(cells.update(r, row.drop_last()), f);
    let o = cells_bag(cells, f);
    let d = row_bag(row.drop_last(), r, f);
    let l = bucket_bag(row.last(), r, row.len() - 1, f);
    assert(row_bag(row, r, f) == d.add(l));
    assert forall|v: (int, int, P)| #[trigger] o.count(v) == n.add(l).count(v) by {
        assert(n.add(d.add(l)).count(v) == o.add(d).count(v));
    }
}

/// Appending an empty bucket to row `r` changes nothing.
pub proof fn lemma_cells_bag_push_bucket<P>(cells: Seq<Seq<Seq<P>>>, r: int, f: Relabel<P>)
    requires
        0 <= r < cells.len(),
    ensures
        cells_bag(cells.update(r, cells[r].push(Seq::empty())), f) =~= cells_bag(cells, f),
{
    let row = cells[r];
    let row2 = row.push(Seq::empty());
    lemma_cells_bag_update(cells, r, row2, f);
    assert(row2.drop_last() =~= row);
    assert(bucket_bag(Seq::<P>::empty(), r, row.len() as int, f) =~= Multiset::empty());
    assert(row_bag(row2, r, f) =~= row_bag(row, r, f));
    let n = cells_bag(cells.update(r, row2), f);
    let o = cells_bag(cells, f);
    assert forall|v: (int, int, P)| #[trigger] n.count(v) == o.count(v) by {
        assert(n.add(row_bag(row, r, f)).count(v) == o.add(row_bag(row2, r, f)).count(v));
    }
}

/// Appending a row of empty buckets changes nothing.
pub proof fn lemma_cells_bag_push_row<P>(cells: Seq<Seq<Seq<P>>>, row: Seq<Seq<P>>, f: Relabel<P>)
    requires
        forall|c: int| 0 <= c < row.len() ==> (#[trigger] row[c]).len() == 0,
    ensures
        cells_bag(cells.push(row), f) =~= cells_bag(cells, f),
{
    assert(cells.push(row).drop_last() =~= cells);
    lemma_row_bag_empty(row, cells.len() as int, f);
}

pub proof fn lemma_row_bag_empty<P>(row: Seq<Seq<P>>, r: int, f: Relabel<P>)
    requires
        forall|c: int| 0 <= c < row.len() ==> (#[trigger] row[c]).len() == 0,
    ensures
        row_bag(row, r, f) =~= Multiset::empty(),
    decreases row.len(),
{
    if row.len() > 0 {
        lemma_row_bag_empty(row.drop_last(), r, f);
        assert(row.last().len() == 0);
    }
}

pub proof fn lemma_cells_bag_empty<P>(cells: Seq<Seq<Seq<P>>>, f: Relabel<P>)
    requires
        all_empty(cells),
    ensures
        cells_bag(cells, f) =~= Multiset::empty(),
    decreases cells.len(),
{
    if cells.len() > 0 {
        lemma_cells_bag_empty(cells.drop_last(), f);
        let row = cells.last();
        assert forall|c: int| 0 <= c < row.len() implies (#[trigger] row[c]).len() == 0 by {
            assert(cells[cells.len() - 1][c].len() == 0);
        }
        lemma_row_bag_empty(row, cells.len() - 1, f);
    }
}

pub proof fn lemma_bucket_bag_agree<P>(b: Seq<P>, r: int, c: int, f: Relabel<P>, g: Relabel<P>)
    requires
        forall|k: int| 0 <= k < b.len() ==> f(r, c, #[trigger] b[k]) == g(r, c, b[k]),
    ensures
        bucket_bag(b, r, c, f) == bucket_bag(b, r, c, g),
    decreases b.len(),
{
    if b.len() > 0 {
        lemma_bucket_bag_agree(b.drop_last(), r, c, f, g);
        assert(f(r, c, b[b.len() - 1]) == g(r, c, b[b.len() - 1]));
    }
}

pub proof fn lemma_row_bag_agree<P>(row: Seq<Seq<P>>, r: int, f: Relabel<P>, g: Relabel<P>)
    requires
        forall|c: int, k: int|
            0 <= c < row.len() && 0 <= k < row[c].len() ==> f(r, c, #[trigger] row[c][k]) == g(
                r,
                c,
                row[c][k],
            ),
    ensures
        row_bag(row, r, f) == row_bag(row, r, g),
    decreases row.len(),
{
    if row.len() > 0 {
        let c = row.len() - 1;
        lemma_row_bag_agree(row.drop_last(), r, f, g);
        assert forall|k: int| 0 <= k < row[c].len() implies f(r, c, #[trigger] row[c][k]) == g(
            r,
            c,
            row[c][k],
        ) by {}
        lemma_bucket_bag_agree(row[c], r, c, f, g);
    }
}

/// Two relabellings that agree on every entity give the same multiset.
pub proof fn lemma_cells_bag_agree<P>(cells: Seq<Seq<Seq<P>>>, f: Relabel<P>, g: Relabel<P>)
    requires
        every(cells, |e: P, r: int, c: int| f(r, c, e) == g(r, c, e)),
    ensures
        cells_bag(cells, f) == cells_bag(cells, g),
    decreases cells.len(),
{
    if cells.len() > 0 {
        let r = cells.len() - 1;
        let front = cells.drop_last();
        assert forall|r2: int, c: int, k: int|
            0 <= r2 < front.len() && 0 <= c < front[r2].len() && 0 <= k < front[r2][c].len()
                implies f(r2, c, #[trigger] front[r2][c][k]) == g(r2, c, front[r2][c][k]) by {
            assert(front[r2][c][k] == cells[r2][c][k]);
        }
        lemma_cells_bag_agree(front, f, g);
        assert forall|c: int, k: int|
            0 <= c < cells[r].len() && 0 <= k < cells[r][c].len() implies f(
                r,
                c,
                #[trigger] cells[r][c][k],
            ) == g(r, c, cells[r][c][k]) by {}
        lemma_row_bag_agree(cells[r], r, f, g);
    }
}

pub proof fn lemma_bucket_bag_len<P>(b: Seq<P>, r: int, c: int, f: Relabel<P>, g: Relabel<P>)
    ensures
        bucket_bag(b, r, c, f).len() == bucket_bag(b, r, c, g).len(),
    decreases b.len(),
{
    if b.len() > 0 {
        lemma_bucket_bag_len(b.drop_last(), r, c, f, g);
    }
}

pub proof fn lemma_row_bag_len<P>(row: Seq<Seq<P>>, r: int, f: Relabel<P>, g: Relabel<P>)
    ensures
        row_bag(row, r, f).len() == row_bag(row, r, g).len(),
    decreases row.len(),
{
    if row.len() > 0 {
        lemma_row_bag_len(row.drop_last(), r, f, g);
        lemma_bucket_bag_len(row.last(), r, row.len() - 1, f, g);
    }
}

/// Relabelling never changes how many entities there are.
pub proof fn lemma_cells_bag_len<P>(cells: Seq<Seq<Seq<P>>>, f: Relabel<P>, g: Relabel<P>)
    ensures
        cells_bag(cells, f).len() == cells_bag(cells, g).len(),
    decreases cells.len(),
{
    if cells.len() > 0 {
        lemma_cells_bag_len(cells.drop_last(), f, g);
        lemma_row_bag_len(cells.last(), cells.len() - 1, f, g);
    }
}

} // verus!
