use maze_gen::{can_move, gen_layout, reaches_every_cell, Layout};

fn flood_from(layout: &Layout, si: usize, sj: usize) -> usize {
    let n = layout.N;
    let mut seen = vec![vec![false; n]; n];
    let mut stack = vec![(si, sj)];
    seen[si][sj] = true;
    let mut count = 0;
    while let Some((i, j)) = stack.pop() {
        count += 1;
        for dir in 0..4 {
            if can_move(n, &layout.h, &layout.v, i, j, dir) {
                let (i2, j2) = match dir {
                    0 => (i, j + 1),
                    1 => (i + 1, j),
                    2 => (i, j - 1),
                    _ => (i - 1, j),
                };
                if !seen[i2][j2] {
                    seen[i2][j2] = true;
                    stack.push((i2, j2));
                }
            }
        }
    }
    count
}

#[test]
fn every_cell_reaches_every_cell() {
    for seed in 0..5u64 {
        let layout = gen_layout(seed).unwrap();
        let n = layout.N;
        assert!(reaches_every_cell(n, &layout.h, &layout.v));
        for (si, sj) in [(0, 0), (n - 1, n - 1), (n / 2, 3), (7, n - 2)] {
            assert_eq!(flood_from(&layout, si, sj), n * n);
        }
    }
}

#[test]
fn same_seed_same_layout() {
    for seed in [0u64, 1, 42, u64::MAX] {
        assert_eq!(gen_layout(seed), gen_layout(seed));
    }
}

#[test]
fn different_seeds_differ() {
    assert_ne!(gen_layout(1), gen_layout(2));
}

#[test]
fn generated_sizes_in_bounds() {
    for seed in 0..30u64 {
        let l = gen_layout(seed).unwrap();
        assert!(20 <= l.N && l.N <= 40);
        assert!(1 <= l.c && l.c <= l.N / 2);
        assert_eq!(l.h.len(), l.N - 1);
        assert!(l.h.iter().all(|r| r.len() == l.N && r.iter().all(|&c| c == '0' || c == '1')));
        assert_eq!(l.v.len(), l.N);
        assert!(l.v.iter().all(|r| r.len() == l.N - 1 && r.iter().all(|&c| c == '0' || c == '1')));
        assert_eq!(l.baseline.len(), l.c);
        assert_eq!(l.noise.len(), l.N);
        assert!(l.noise.iter().all(|r| r.len() == l.N));
        assert!(l.region.iter().all(|r| r.len() == l.N && r.iter().all(|&x| x <= l.c)));
    }
}

#[test]
fn regions_hold_their_seed_area() {
    // the last region grows without being overwritten: it holds at least N cells
    for seed in 0..10u64 {
        let l = gen_layout(seed).unwrap();
        let last = l.region.iter().flatten().filter(|&&x| x == l.c).count();
        assert!(last >= l.N);
    }
}

#[test]
fn some_walls_are_drawn() {
    let with_walls = (0..10u64)
        .map(|s| gen_layout(s).unwrap())
        .filter(|l| l.h.iter().chain(l.v.iter()).flatten().any(|&c| c == '1'))
        .count();
    assert!(with_walls > 0);
}

#[test]
fn seed_one_golden() {
    let l = gen_layout(1).unwrap();
    assert_eq!(l.N, 26);
    assert_eq!(l.c, 9);
    let h0: String = l.h[0].iter().collect();
    let v0: String = l.v[0].iter().collect();
    assert_eq!(h0, "00000000000000000000000000");
    assert_eq!(v0, "1000000010000000000000000");
    let walls = l.h.iter().chain(l.v.iter()).flatten().filter(|&&c| c == '1').count();
    assert_eq!(walls, 107);
    assert_eq!(l.region[0][0], 0);
    assert_eq!(l.baseline[0], 12140358307490662678);
    assert_eq!(l.noise[0][0], 11772513790690836827);
}

#[test]
fn last_region_is_present_and_connected() {
    for seed in 0..10u64 {
        let l = gen_layout(seed).unwrap();
        let cells: Vec<(usize, usize)> = (0..l.N)
            .flat_map(|i| (0..l.N).map(move |j| (i, j)))
            .filter(|&(i, j)| l.region[i][j] == l.c)
            .collect();
        assert!(cells.len() >= l.N && cells.len() <= l.N * l.N / l.c);
    }
}

#[test]
fn wall_count_in_bounds() {
    for seed in 0..20u64 {
        let l = gen_layout(seed).unwrap();
        let walls = l.h.iter().chain(l.v.iter()).flatten().filter(|&&c| c == '1').count();
        assert!(walls >= 1 && walls <= l.N * (l.N / 2));
    }
}
