use cubefold::digits::count_digit;
use cubefold::geom::{Circle, Point, Rect};
use cubefold::names::{index, BIN_INDEX, INP_INDEX, OUT_INDEX};

#[test]
fn matches_exact() {
    assert!(cubefold::pattern::matches("abc", "abc"));
    assert!(!cubefold::pattern::matches("abd", "abc"));
}

#[test]
fn matches_wildcard() {
    assert!(cubefold::pattern::matches("a?c", "abc"));
    assert!(cubefold::pattern::matches("???", "xyz"));
    assert!(!cubefold::pattern::matches("a?d", "abc"));
}

#[test]
fn matches_length_mismatch_ignores_tail() {
    // only the overlapping prefix is compared
    assert!(cubefold::pattern::matches("ab", "abcdef"));
    assert!(cubefold::pattern::matches("abcdef", "ab"));
    assert!(!cubefold::pattern::matches("xb", "abcdef"));
}

#[test]
fn count_digit_examples() {
    assert_eq!(count_digit(120556, 5), 2);
    assert_eq!(count_digit(555, 5), 3);
    assert_eq!(count_digit(123, 9), 0);
    assert_eq!(count_digit(0, 0), 0);
    assert_eq!(count_digit(10, 0), 1);
    assert_eq!(count_digit(u64::MAX, 5), count_digit(18446744073709551615, 5));
}

#[test]
fn index_special_names() {
    assert_eq!(index("INP"), INP_INDEX);
    assert_eq!(index("OUT"), OUT_INDEX);
    assert_eq!(index("BIN"), BIN_INDEX);
    assert_eq!(INP_INDEX, 27 * 27 * 27 - 3);
}

#[test]
fn index_lowercase_names() {
    assert_eq!(index("aaa"), 0);
    assert_eq!(index("abc"), 1 * 27 + 2);
    assert_eq!(index("zzz"), 25 * 27 * 27 + 25 * 27 + 25);
}

#[test]
fn rect_measurements() {
    let r = Rect { min_x: -2, min_y: 1, max_x: 5, max_y: 11 };
    assert_eq!(r.width(), 7);
    assert_eq!(r.height(), 10);
    assert_eq!(r.area(), 70);
}

#[test]
fn circle_contains_points() {
    let c = Circle { x: 0, y: 0, r: 5 };
    assert!(c.contains(&Point { x: 3, y: 3 }));
    assert!(!c.contains(&Point { x: 4, y: 3 }));
    assert!(!c.contains(&Point { x: 5, y: 0 }));
}

#[test]
fn circles_overlapping() {
    let a = Circle { x: 0, y: 0, r: 3 };
    let b = Circle { x: 5, y: 0, r: 3 };
    let c = Circle { x: 10, y: 0, r: 3 };
    assert!(a.overlaps(&b));
    assert!(!a.overlaps(&c));
}

#[test]
fn rect_overlaps_circles() {
    let r = Rect { min_x: 0, min_y: 0, max_x: 10, max_y: 10 };
    assert!(r.overlaps(&Circle { x: 12, y: 5, r: 3 }));
    assert!(!r.overlaps(&Circle { x: 14, y: 5, r: 3 }));
    assert!(r.overlaps(&Circle { x: 5, y: 5, r: 1 }));
}

#[test]
fn quadtree_search_finds_single_point() {
    // a one-point rectangle whose corner exactly one circle contains
    let r = Rect { min_x: 2, min_y: 3, max_x: 3, max_y: 4 };
    let circles = vec![Circle { x: 2, y: 3, r: 2 }];
    assert_eq!(cubefold::geom::dfs(&r, &circles, 1), Some(6));
}

#[test]
fn quadtree_search_counts_overlaps_exactly() {
    let r = Rect { min_x: -8, min_y: -8, max_x: 8, max_y: 8 };
    let circles = vec![Circle { x: 0, y: 0, r: 5 }, Circle { x: 1, y: 0, r: 5 }];
    // some point lies inside both circles, none inside three
    assert!(cubefold::geom::dfs(&r, &circles, 2).is_some());
    assert_eq!(cubefold::geom::dfs(&r, &circles, 3), None);
}

#[test]
fn route_sweep_records_best_scores() {
    // 2 x 2 grid of scores, sweeping right and down
    let grid = vec![1u64, 2, 3, 4];
    let best = cubefold::routes::bfs(&grid, 2, 2, (0, 0), (1, 1), 1, 1);
    assert_eq!(best.len(), 4);
    // the start itself is never re-entered
    assert_eq!(best[0], 0);
    assert_eq!(best[1], 3);
    assert_eq!(best[2], 4);
    // the best route to the far corner takes the heavier column
    assert_eq!(best[3], 8);
}

#[test]
fn index_uses_first_three_letters() {
    // longer names are indexed by their first three letters alone
    assert_eq!(index("abcdef"), index("abc"));
    assert_eq!(index("outlet"), index("out"));
}

fn brute_force_search(fd: u64, fnum: u64, lo: u64, hi: u64) -> u64 {
    let mut expect = 0u64;
    let mut upper = 1u64;
    for _ in 0..hi {
        upper *= 10;
    }
    for n in 1..upper {
        let s = n.to_string();
        let len = s.len() as u64;
        if len >= lo && len <= hi && n % fnum == 0 {
            let c = s.bytes().filter(|b| (*b - b'0') as u64 == fd).count() as u64;
            if c >= (len + 1) / 2 {
                expect += 1;
            }
        }
    }
    expect
}

#[test]
fn search_single_length_favorite_one() {
    // among 1..=9 only the number 1 holds the digit 1 in half its places
    let mut cache = vec![u64::MAX; 16 * 16];
    let got = cubefold::digits::dfs(0, 0, 0, 1, 1, 1, 1, &mut cache);
    assert_eq!(got, 1);
}

#[test]
fn search_matches_brute_force_two_digits() {
    let (fd, fnum, lo, hi) = (5u64, 3u64, 1u64, 2u64);
    let mut cache = vec![u64::MAX; 16 * 16 * fnum as usize];
    let got = cubefold::digits::dfs(0, 0, 0, fd, fnum, lo, hi, &mut cache);
    assert_eq!(got, brute_force_search(fd, fnum, lo, hi));
}

#[test]
fn search_matches_brute_force_three_digits() {
    let (fd, fnum, lo, hi) = (3u64, 7u64, 2u64, 3u64);
    let mut cache = vec![u64::MAX; 16 * 16 * fnum as usize];
    let got = cubefold::digits::dfs(0, 0, 0, fd, fnum, lo, hi, &mut cache);
    assert_eq!(got, brute_force_search(fd, fnum, lo, hi));
}

#[test]
fn search_reuses_cache() {
    let (fd, fnum, lo, hi) = (3u64, 7u64, 2u64, 3u64);
    let mut cache = vec![u64::MAX; 16 * 16 * fnum as usize];
    let first = cubefold::digits::dfs(0, 0, 0, fd, fnum, lo, hi, &mut cache);
    let second = cubefold::digits::dfs(0, 0, 0, fd, fnum, lo, hi, &mut cache);
    assert_eq!(first, second);
    assert_eq!(first, brute_force_search(fd, fnum, lo, hi));
}
