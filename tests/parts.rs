use maze_gen::grid::{can_move, SetMinMax};
use maze_gen::text::{parse_int, tokenize};

fn chars(s: &str) -> Vec<char> {
    s.chars().collect()
}

#[test]
fn moves_respect_walls_and_border() {
    let n = 20;
    let mut h = vec![vec!['0'; n]; n - 1];
    let mut v = vec![vec!['0'; n - 1]; n];
    h[3][4] = '1';
    v[5][6] = '1';
    assert!(!can_move(n, &h, &v, 3, 4, 1));
    assert!(!can_move(n, &h, &v, 4, 4, 3));
    assert!(can_move(n, &h, &v, 3, 5, 1));
    assert!(!can_move(n, &h, &v, 5, 6, 0));
    assert!(!can_move(n, &h, &v, 5, 7, 2));
    assert!(can_move(n, &h, &v, 5, 7, 0));
    assert!(!can_move(n, &h, &v, 0, 0, 2));
    assert!(!can_move(n, &h, &v, 0, 0, 3));
    assert!(!can_move(n, &h, &v, n - 1, n - 1, 0));
    assert!(!can_move(n, &h, &v, n - 1, n - 1, 1));
    assert!(can_move(n, &h, &v, 0, 0, 0));
    assert!(can_move(n, &h, &v, 0, 0, 1));
}

#[test]
fn walled_off_corner_is_not_connected() {
    let n = 20;
    let mut h = vec![vec!['0'; n]; n - 1];
    let mut v = vec![vec!['0'; n - 1]; n];
    assert!(maze_gen::reaches_every_cell(n, &h, &v));
    h[0][0] = '1';
    v[0][0] = '1';
    assert!(!maze_gen::reaches_every_cell(n, &h, &v));
}

#[test]
fn tokens_split_on_whitespace() {
    let t = tokenize(&chars("  ab\tc\n\n d \u{3000}e "));
    assert_eq!(t, vec![chars("ab"), chars("c"), chars("d"), chars("e")]);
    assert!(tokenize(&chars(" \n ")).is_empty());
}

#[test]
fn integers_parse_like_i64() {
    assert_eq!(parse_int(&chars("0")), Some(0));
    assert_eq!(parse_int(&chars("+15")), Some(15));
    assert_eq!(parse_int(&chars("-15")), Some(-15));
    assert_eq!(parse_int(&chars("007")), Some(7));
    assert_eq!(parse_int(&chars("-9223372036854775808")), Some(i64::MIN));
    assert_eq!(parse_int(&chars("9223372036854775807")), Some(i64::MAX));
    assert_eq!(parse_int(&chars("9223372036854775808")), None);
    assert_eq!(parse_int(&chars("123456789012345678901234")), None);
    assert_eq!(parse_int(&chars("")), None);
    assert_eq!(parse_int(&chars("-")), None);
    assert_eq!(parse_int(&chars("12a")), None);
}

#[test]
fn set_min_max() {
    let mut x: usize = 5;
    assert!(!x.setmax(3));
    assert_eq!(x, 5);
    assert!(x.setmax(9));
    assert_eq!(x, 9);
    assert!(x.setmin(2));
    assert_eq!(x, 2);
    assert!(!x.setmin(2));
    let mut b = false;
    assert!(b.setmax(true));
    assert!(!b.setmax(true));
    assert!(b);
    assert!(b.setmin(false));
    assert!(!b);
}

#[test]
fn claim_takes_lower_neighbours_only() {
    let n = 20;
    let h = vec![vec!['0'; n]; n - 1];
    let mut v = vec![vec!['0'; n - 1]; n];
    v[2][3] = '1';
    let mut region = vec![vec![0usize; n]; n];
    region[2][5] = 3;
    let mut members = vec![(2usize, 4usize)];
    // wall between (2,3) and (2,4)
    assert!(!maze_gen::maze::claim(n, &h, &v, &mut region, 2, &mut members, 2, 4, 2));
    // neighbour owned by a higher region
    assert!(!maze_gen::maze::claim(n, &h, &v, &mut region, 2, &mut members, 2, 4, 0));
    // border
    assert!(!maze_gen::maze::claim(n, &h, &v, &mut region, 2, &mut members, 0, 4, 3));
    assert_eq!(members, vec![(2, 4)]);
    assert!(maze_gen::maze::claim(n, &h, &v, &mut region, 2, &mut members, 2, 4, 1));
    assert_eq!(members, vec![(2, 4), (3, 4)]);
    assert_eq!(region[3][4], 2);
    assert_eq!(region[2][5], 3);
    assert_eq!(region.iter().flatten().filter(|&&x| x != 0).count(), 2);
}

#[test]
fn is_space_matches_std() {
    for k in 0u32..0x3100 {
        if let Some(c) = char::from_u32(k) {
            assert_eq!(maze_gen::text::is_space(c), c.is_whitespace());
        }
    }
}
