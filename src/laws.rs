//! Properties of the grid that relate its operations to one another and to
//! a plain scan over all entities.
use vstd::prelude::*;

use vstd::arithmetic::div_mod::{lemma_div_is_ordered, lemma_div_plus_one};

use crate::grid::{center_dist, ent_dist, near, same_pair, Grid, Positioned};
use crate::model::{all_empty, raw_index};

verus! {

/// Two coordinates less than one bucket side apart have raw bucket indices
/// at most one apart.
proof fn lemma_raw_close(a: int, b: int, offset: int, chunk: int)
    requires
        chunk > 0,
        a <= b < a + chunk,
    ensures
        raw_index(a, offset, chunk) <= raw_index(b, offset, chunk) <= raw_index(a, offset, chunk)
            + 1,
{
    lemma_div_is_ordered(a + offset, b + offset, chunk);
    lemma_div_is_ordered(b + offset, a + offset + chunk, chunk);
    lemma_div_plus_one(a + offset, chunk);
}

/// A square below `bound * bound` has a root below `bound`.
proof fn lemma_small_square(d: int, rest: int, bound: int)
    requires
        bound >= 0,
        rest >= 0,
        d * d + rest < bound * bound,
    ensures
        -bound < d < bound,
{
    if d >= bound {
        assert(d * d >= bound * bound) by (nonlinear_arith)
            requires
                d >= bound,
                bound >= 0,
        ;
    }
    if d <= -bound {
        assert(d * d >= bound * bound) by (nonlinear_arith)
            requires
                d <= -bound,
                bound >= 0,
        ;
    }
}

/// In a grid where every entity sits where its position implies, two
/// entities closer than one bucket side lie in the same or adjacent buckets.
proof fn lemma_close_is_near<P: Positioned + Copy>(g: Grid<P>, a: (int, int, int), b: (int, int, int))
    requires
        g.wf(),
        g.placed(),
        g.valid(a),
        g.valid(b),
        g.close(a, b),
    ensures
        near(a, b),
{
    let ea = g.at(a);
    let eb = g.at(b);
    assert(g.row_of(ea) == a.0 && g.col_of(ea) == a.1);
    assert(g.row_of(eb) == b.0 && g.col_of(eb) == b.1);
    let dx = ea.spec_x() - eb.spec_x();
    let dy = ea.spec_y() - eb.spec_y();
    assert(dx * dx >= 0 && dy * dy >= 0) by (nonlinear_arith);
    lemma_small_square(dx, dy * dy, g.chunk());
    lemma_small_square(dy, dx * dx, g.chunk());
    if ea.spec_x() <= eb.spec_x() {
        lemma_raw_close(ea.spec_x() as int, eb.spec_x() as int, g.offset(), g.chunk());
    } else {
        lemma_raw_close(eb.spec_x() as int, ea.spec_x() as int, g.offset(), g.chunk());
    }
    if ea.spec_y() <= eb.spec_y() {
        lemma_raw_close(ea.spec_y() as int, eb.spec_y() as int, g.offset(), g.chunk());
    } else {
        lemma_raw_close(eb.spec_y() as int, ea.spec_y() as int, g.offset(), g.chunk());
    }
}

/// Bucket invariant: a grid whose entities all lie in their exact bucket
/// (which `new` establishes, and which `insert` of an entity inside the
/// grid's span and `set_size` keep) has every entity in the bucket that its
/// position implies, with clamping at the borders. `insert` and `all_mut`
/// keep or establish that placement directly.
pub proof fn lemma_exact_is_placed<P: Positioned + Copy>(g: Grid<P>)
    requires
        g.wf(),
        g.exact(),
    ensures
        g.placed(),
{
    let cells = g.cells();
    assert forall|r: int, c: int, k: int|
        0 <= r < cells.len() && 0 <= c < cells[r].len() && 0 <= k < cells[r][c].len() implies (|
        e: P,
        r: int,
        c: int,
    | g.row_of(e) == r && g.col_of(e) == c)(#[trigger] cells[r][c][k], r, c) by {
        let e = cells[r][c][k];
        assert(g.exact_in(e, r, c));
        assert(cells[r].len() == g.cols());
    }
}

/// Pair enumeration matches a scan of all pairs: in a grid where every
/// entity sits where its position implies, the pairs that `pairs` lists are
/// exactly the unordered pairs of distinct entities closer than one bucket
/// side, each listed once.
pub proof fn lemma_pairs_match_scan<P: Positioned + Copy>(
    g: Grid<P>,
    out: Seq<(P, P, u64)>,
    locs: Seq<((int, int, int), (int, int, int))>,
)
    requires
        g.wf(),
        g.placed(),
        g.pairs_listed(out, locs),
    ensures
        forall|a: (int, int, int), b: (int, int, int)|
            g.valid(a) && g.valid(b) && a != b ==> ((exists|i: int|
                0 <= i < locs.len() && #[trigger] same_pair(locs[i], (a, b))) <==> ent_dist(
                g.at(a),
                g.at(b),
            ) < g.chunk() * g.chunk()),
        forall|i: int, j: int|
            0 <= i < j < locs.len() ==> !same_pair(#[trigger] locs[i], #[trigger] locs[j]),
        forall|i: int| 0 <= i < locs.len() ==> (#[trigger] locs[i]).0 != locs[i].1,
{
    assert forall|a: (int, int, int), b: (int, int, int)|
        g.valid(a) && g.valid(b) && a != b implies ((exists|i: int|
        0 <= i < locs.len() && #[trigger] same_pair(locs[i], (a, b))) <==> ent_dist(
        g.at(a),
        g.at(b),
    ) < g.chunk() * g.chunk()) by {
        if g.close(a, b) {
            lemma_close_is_near(g, a, b);
        }
        assert((exists|i: int| 0 <= i < locs.len() && #[trigger] same_pair(locs[i], (a, b))) <==> (
        near(a, b) && g.close(a, b)));
    }
}

/// Radius queries match a scan of all entities: in a grid where every
/// entity sits where its position implies, `all_within` lists exactly the
/// entities whose squared distance to the center is below the squared
/// radius, each once.
pub proof fn lemma_within_matches_scan<P: Positioned + Copy>(
    g: Grid<P>,
    cx: int,
    cy: int,
    radius: int,
    out: Seq<(P, u64)>,
    locs: Seq<(int, int, int)>,
)
    requires
        g.wf(),
        g.placed(),
        radius >= 0,
        g.within_listed(cx, cy, radius, out, locs),
    ensures
        forall|a: (int, int, int)|
            g.valid(a) ==> ((exists|i: int| 0 <= i < locs.len() && locs[i] == a) <==> center_dist(
                #[trigger] g.at(a),
                cx,
                cy,
            ) < radius * radius),
        forall|i: int, j: int| 0 <= i < j < locs.len() ==> locs[i] != locs[j],
{
    assert forall|a: (int, int, int)| g.valid(a) implies ((exists|i: int|
        0 <= i < locs.len() && locs[i] == a) <==> center_dist(#[trigger] g.at(a), cx, cy) < radius
        * radius) by {
        let e = g.at(a);
        if center_dist(e, cx, cy) < radius * radius {
            assert(g.row_of(e) == a.0 && g.col_of(e) == a.1);
            let dx = e.spec_x() - cx;
            let dy = e.spec_y() - cy;
            assert(dx * dx >= 0 && dy * dy >= 0) by (nonlinear_arith);
            lemma_small_square(dx, dy * dy, radius);
            lemma_small_square(dy, dx * dx, radius);
            let off = g.offset();
            let ch = g.chunk();
            lemma_div_is_ordered(cx - radius - 1 + off, e.spec_x() + off, ch);
            lemma_div_is_ordered(e.spec_x() + off, cx + radius + 1 + off, ch);
            lemma_div_is_ordered(cy - radius - 1 + off, e.spec_y() + off, ch);
            lemma_div_is_ordered(e.spec_y() + off, cy + radius + 1 + off, ch);
            assert(g.in_window(cx, cy, radius, a));
        }
    }
}

/// Clearing silences the queries: in a grid with every bucket empty, the
/// lists that `pairs` and `all_within` return are empty.
pub proof fn lemma_empty_reports_nothing<P: Positioned + Copy>(
    g: Grid<P>,
    pairs_out: Seq<(P, P, u64)>,
    pair_locs: Seq<((int, int, int), (int, int, int))>,
    cx: int,
    cy: int,
    radius: int,
    within_out: Seq<(P, u64)>,
    within_locs: Seq<(int, int, int)>,
)
    requires
        all_empty(g.cells()),
        g.pairs_listed(pairs_out, pair_locs),
        g.within_listed(cx, cy, radius, within_out, within_locs),
    ensures
        pairs_out.len() == 0,
        within_out.len() == 0,
{
    if pair_locs.len() > 0 {
        let l = pair_locs[0].0;
        assert(g.valid(l));
        assert(g.cells()[l.0][l.1].len() == 0);
    }
    if within_locs.len() > 0 {
        let l = within_locs[0];
        assert(g.valid(l));
        assert(g.cells()[l.0][l.1].len() == 0);
    }
}

} // verus!
