use neonet2::grid::Grid;
use neonet2::neonet::Point;

fn pt(index: usize, x: i32, y: i32) -> Point {
    Point { index, x, y, vx: 0, vy: 0 }
}

fn count_all(g: &Grid<Point>) -> usize {
    let mut n = 0;
    for r in 0..g.row_count() {
        for c in 0..g.col_count() {
            n += g.bucket_len(r, c);
        }
    }
    n
}

fn pair_set(out: &[(Point, Point, u64)]) -> Vec<(usize, usize, u64)> {
    let mut v: Vec<(usize, usize, u64)> = out
        .iter()
        .map(|(a, b, d)| (a.index.min(b.index), a.index.max(b.index), *d))
        .collect();
    v.sort();
    v
}

fn brute_pairs(points: &[Point], chunk: i64) -> Vec<(usize, usize, u64)> {
    let mut v = Vec::new();
    for i in 0..points.len() {
        for j in (i + 1)..points.len() {
            let dx = points[i].x as i64 - points[j].x as i64;
            let dy = points[i].y as i64 - points[j].y as i64;
            let d = dx * dx + dy * dy;
            if d < chunk * chunk {
                let (a, b) = (points[i].index, points[j].index);
                v.push((a.min(b), a.max(b), d as u64));
            }
        }
    }
    v.sort();
    v
}

struct Lcg(u64);

impl Lcg {
    fn next(&mut self, bound: u64) -> u64 {
        self.0 = self.0.wrapping_mul(6364136223846793005).wrapping_add(1442695040888963407);
        (self.0 >> 33) % bound
    }
}

#[test]
fn two_points_make_one_pair() {
    let mut g: Grid<Point> = Grid::new(10, 10, 100, 100);
    g.insert(pt(0, 0, 0));
    g.insert(pt(1, 5, 0));
    let out = g.pairs();
    assert_eq!(out.len(), 1);
    assert_eq!(out[0].2, 25);
    let mut idx = [out[0].0.index, out[0].1.index];
    idx.sort();
    assert_eq!(idx, [0, 1]);
}

#[test]
fn far_point_joins_no_pair() {
    let mut g: Grid<Point> = Grid::new(10, 10, 100, 100);
    g.insert(pt(0, 0, 0));
    g.insert(pt(1, 5, 0));
    g.insert(pt(2, 100, 100));
    let out = g.pairs();
    assert_eq!(out.len(), 1);
    assert!(out.iter().all(|(a, b, _)| a.index != 2 && b.index != 2));
}

#[test]
fn shrink_moves_point_back_into_last_column() {
    let mut g: Grid<Point> = Grid::new(1, 10, 100, 100);
    g.insert(pt(0, 95, 5));
    assert_eq!(g.bucket_len(0, 9), 1);
    g.set_size(50, 100);
    assert_eq!(g.col_count(), 5);
    assert_eq!(g.bucket_len(0, 4), 1);
    assert_eq!(count_all(&g), 1);
    let found = g.all_within(45, 5, 1);
    assert_eq!(found.len(), 1);
    assert_eq!(found[0].0.x, 45);
    assert_eq!(found[0].0.y, 5);
    assert_eq!(found[0].1, 0);
}

#[test]
fn shrink_keeps_clamped_point() {
    let mut g: Grid<Point> = Grid::new(10, 10, 100, 100);
    g.insert(pt(0, 95, -5));
    assert_eq!(g.bucket_len(0, 9), 1);
    g.set_size(50, 100);
    assert_eq!(g.bucket_len(0, 4), 1);
    let found = g.all_within(45, -5, 1);
    assert_eq!(found.len(), 1);
    assert_eq!(found[0].0.x, 45);
}

#[test]
fn shrink_rows_moves_points_up() {
    let mut g: Grid<Point> = Grid::new(1, 10, 30, 100);
    g.insert(pt(0, 5, 75));
    g.insert(pt(1, 25, 95));
    g.set_size(30, 40);
    assert_eq!(g.row_count(), 4);
    assert_eq!(count_all(&g), 2);
    // row 7 folds onto row 3 (7 mod 4), moving up by 40
    assert_eq!(g.bucket_len(3, 0), 1);
    // row 9 folds onto row 1, moving up by 80
    assert_eq!(g.bucket_len(1, 2), 1);
    let a = g.all_within(5, 35, 1);
    assert_eq!(a.len(), 1);
    assert_eq!(a[0].0.index, 0);
    let b = g.all_within(25, 15, 1);
    assert_eq!(b.len(), 1);
    assert_eq!(b[0].0.index, 1);
}

#[test]
fn grow_keeps_points_and_adds_buckets() {
    let mut g: Grid<Point> = Grid::new(1, 10, 20, 20);
    g.insert(pt(0, 3, 3));
    g.insert(pt(1, 15, 15));
    g.set_size(45, 31);
    assert_eq!(g.col_count(), 5);
    assert_eq!(g.row_count(), 4);
    assert_eq!(count_all(&g), 2);
    assert_eq!(g.bucket_len(0, 0), 1);
    assert_eq!(g.bucket_len(1, 1), 1);
}

#[test]
fn resize_sequence_keeps_count() {
    let mut rng = Lcg(7);
    let mut g: Grid<Point> = Grid::new(20, 10, 200, 150);
    for i in 0..300 {
        let x = rng.next(200) as i32 - 10;
        let y = rng.next(150) as i32 - 10;
        g.insert(pt(i, x, y));
    }
    let sizes = [(90u32, 60u32), (310, 40), (15, 400), (1, 1), (250, 250), (33, 77)];
    for (w, h) in sizes {
        g.set_size(w, h);
        assert_eq!(g.col_count(), ((w + 9) / 10) as usize);
        assert_eq!(g.row_count(), ((h + 9) / 10) as usize);
        assert_eq!(count_all(&g), 300);
    }
}

#[test]
fn new_grid_uses_ceiling_counts() {
    let g: Grid<Point> = Grid::new(5, 10, 101, 90);
    assert_eq!(g.col_count(), 11);
    assert_eq!(g.row_count(), 9);
    assert_eq!(count_all(&g), 0);
    let one: Grid<Point> = Grid::new(5, 10, 1, 1);
    assert_eq!(one.col_count(), 1);
    assert_eq!(one.row_count(), 1);
}

#[test]
fn insert_uses_offset_and_clamps() {
    let mut g: Grid<Point> = Grid::new(10, 10, 50, 50);
    g.insert(pt(0, -10, -10));
    g.insert(pt(1, -500, -3));
    g.insert(pt(2, 1000, 1000));
    g.insert(pt(3, 4, 25));
    assert_eq!(g.bucket_len(0, 0), 2);
    assert_eq!(g.bucket_len(4, 4), 1);
    assert_eq!(g.bucket_len(3, 1), 1);
    assert_eq!(count_all(&g), 4);
}

#[test]
fn all_mut_rebuckets_every_point() {
    let mut g: Grid<Point> = Grid::new(10, 10, 100, 100);
    g.insert(pt(0, 0, 0));
    g.insert(pt(1, 30, 30));
    g.all_mut(|mut p: Point| {
        p.x += 20;
        p.y += 40;
        p
    });
    assert_eq!(count_all(&g), 2);
    assert_eq!(g.bucket_len(5, 3), 1);
    assert_eq!(g.bucket_len(8, 6), 1);
    assert_eq!(g.bucket_len(1, 1), 0);
    let found = g.all_within(50, 70, 1);
    assert_eq!(found.len(), 1);
    assert_eq!(found[0].0.index, 1);
}

#[test]
fn clear_silences_queries() {
    let mut g: Grid<Point> = Grid::new(10, 10, 100, 100);
    for i in 0..20 {
        g.insert(pt(i, (i * 3) as i32, (i * 2) as i32));
    }
    assert!(!g.pairs().is_empty());
    g.clear();
    assert_eq!(g.col_count(), 10);
    assert_eq!(g.row_count(), 10);
    assert!(g.pairs().is_empty());
    assert!(g.all_within(20, 20, 1000).is_empty());
    g.clear();
    assert!(g.pairs().is_empty());
}

#[test]
fn pairs_match_brute_force() {
    let mut rng = Lcg(12345);
    for &(chunk, w, h) in &[(10i32, 100u32, 80u32), (25, 200, 200), (7, 50, 120), (60, 300, 90)] {
        let offset = chunk;
        let mut g: Grid<Point> = Grid::new(offset, chunk, w, h);
        let mut points = Vec::new();
        for i in 0..150 {
            let x = rng.next(w as u64 + offset as u64) as i32 - offset;
            let y = rng.next(h as u64 + offset as u64) as i32 - offset;
            let p = pt(i, x, y);
            points.push(p);
            g.insert(p);
        }
        let out = g.pairs();
        assert!(out.iter().all(|(a, b, _)| a.index != b.index));
        let got = pair_set(&out);
        let mut dedup = got.clone();
        dedup.dedup_by(|a, b| a.0 == b.0 && a.1 == b.1);
        assert_eq!(dedup.len(), got.len());
        assert_eq!(got, brute_pairs(&points, chunk as i64));
    }
}

#[test]
fn pairs_match_brute_force_after_moves() {
    let mut rng = Lcg(99);
    let mut g: Grid<Point> = Grid::new(10, 10, 120, 120);
    for i in 0..120 {
        let x = rng.next(120) as i32;
        let y = rng.next(120) as i32;
        g.insert(Point { index: i, x, y, vx: (i % 7) as i32 - 3, vy: (i % 5) as i32 - 2 });
    }
    g.all_mut(|mut p: Point| {
        p.x += p.vx * 4;
        p.y += p.vy * 4;
        p
    });
    let mut points: Vec<Point> = g.all_within(60, 60, 10_000).into_iter().map(|(p, _)| p).collect();
    points.sort_by_key(|p| p.index);
    assert_eq!(points.len(), 120);
    let out = g.pairs();
    assert_eq!(pair_set(&out), brute_pairs(&points, 10));
}

#[test]
fn within_matches_brute_force() {
    let mut rng = Lcg(4242);
    let mut g: Grid<Point> = Grid::new(15, 15, 150, 150);
    let mut points = Vec::new();
    for i in 0..200 {
        let x = rng.next(160) as i32 - 5;
        let y = rng.next(160) as i32 - 5;
        let p = pt(i, x, y);
        points.push(p);
        g.insert(p);
    }
    for &(cx, cy, r) in &[(0i32, 0i32, 10u32), (75, 75, 30), (149, 3, 50), (-20, 160, 40), (60, 60, 0)] {
        let mut got: Vec<(usize, u64)> = g.all_within(cx, cy, r).into_iter().map(|(p, d)| (p.index, d)).collect();
        got.sort();
        let mut want: Vec<(usize, u64)> = points
            .iter()
            .filter_map(|p| {
                let dx = p.x as i64 - cx as i64;
                let dy = p.y as i64 - cy as i64;
                let d = dx * dx + dy * dy;
                if d < (r as i64) * (r as i64) { Some((p.index, d as u64)) } else { None }
            })
            .collect();
        want.sort();
        assert_eq!(got, want);
    }
}

#[test]
fn within_reports_exact_squared_distance() {
    let mut g: Grid<Point> = Grid::new(10, 10, 100, 100);
    g.insert(pt(0, 3, 4));
    g.insert(pt(1, 6, 8));
    let out = g.all_within(0, 0, 10);
    let mut got: Vec<(usize, u64)> = out.into_iter().map(|(p, d)| (p.index, d)).collect();
    got.sort();
    assert_eq!(got, vec![(0, 25)]);
    let out = g.all_within(0, 0, 11);
    assert_eq!(out.len(), 2);
}

#[test]
fn pairs_of_equal_positions_and_large_coordinates() {
    let mut g: Grid<Point> = Grid::new(1000, 100_000, 1_000_000, 1_000_000);
    g.insert(pt(0, 500_000, 500_000));
    g.insert(pt(1, 500_000, 500_000));
    g.insert(pt(2, 599_999, 500_000));
    g.insert(pt(3, 600_000, 500_000));
    let got = pair_set(&g.pairs());
    assert_eq!(
        got,
        vec![(0, 1, 0), (0, 2, 99_999 * 99_999), (1, 2, 99_999 * 99_999), (2, 3, 1)]
    );
}

#[test]
fn extreme_coordinates_do_not_overflow() {
    let mut g: Grid<Point> = Grid::new(i32::MAX, i32::MAX, u32::MAX, 1);
    g.insert(pt(0, i32::MIN, i32::MIN));
    g.insert(pt(1, i32::MAX, i32::MAX));
    let out = g.all_within(0, 0, u32::MAX);
    assert_eq!(out.len(), 2);
    assert!(out.iter().all(|(_, d)| *d == 1u64 << 63 || *d == (1u64 << 63) - (1u64 << 33) + 2));
    let far = g.all_within(i32::MAX, i32::MAX, 1);
    assert_eq!(far.len(), 1);
    assert_eq!(g.pairs().len(), 0);
}

#[test]
fn grow_leaves_clamped_point_in_its_bucket() {
    let mut g: Grid<Point> = Grid::new(10, 10, 50, 50);
    g.insert(pt(0, 100, 0));
    assert_eq!(g.bucket_len(1, 4), 1);
    g.set_size(200, 50);
    assert_eq!(g.col_count(), 20);
    assert_eq!(g.bucket_len(1, 4), 1);
    assert_eq!(g.bucket_len(1, 11), 0);
    assert_eq!(count_all(&g), 1);
}

#[test]
fn all_mut_clamps_points_that_leave_the_grid() {
    let mut g: Grid<Point> = Grid::new(10, 10, 50, 50);
    g.insert(pt(0, 20, 20));
    g.all_mut(|mut p: Point| {
        p.x = -1000;
        p.y = 1000;
        p
    });
    assert_eq!(g.bucket_len(4, 0), 1);
    assert_eq!(count_all(&g), 1);
}
