use maze_gen::{gen_layout, parse_input, parse_output, Input, Output, OutputError, MAX_ROUTE_LEN};

fn sample_input(seed: u64) -> Input {
    let l = gen_layout(seed).unwrap();
    let d = l
        .noise
        .iter()
        .map(|r| r.iter().map(|&x| (x % 5000) as i64 + 1).collect())
        .collect();
    Input { N: l.N, h: l.h, v: l.v, d }
}

#[test]
fn text_round_trip() {
    for seed in 0..5u64 {
        let x = sample_input(seed);
        let text = x.to_string();
        assert_eq!(parse_input(&text), Some(x));
    }
}

#[test]
fn text_layout() {
    let x = sample_input(3);
    let text = x.to_string();
    let lines: Vec<&str> = text.lines().collect();
    let n = x.N;
    assert_eq!(lines.len(), 1 + (n - 1) + n + n);
    assert_eq!(lines[0], n.to_string());
    assert_eq!(lines[1], x.h[0].iter().collect::<String>());
    assert_eq!(lines[n], x.v[0].iter().collect::<String>());
    let first: Vec<String> = x.d[0].iter().map(|v| v.to_string()).collect();
    assert_eq!(lines[2 * n], first.join(" "));
    assert!(text.ends_with('\n'));
}

#[test]
fn parse_ignores_spacing() {
    let x = sample_input(4);
    let text = x.to_string().replace('\n', "  \t\n ");
    assert_eq!(parse_input(&format!("\n\n{}", text)), Some(x));
}

#[test]
fn parse_reads_small_size() {
    let x = Input {
        N: 2,
        h: vec![vec!['0', '1']],
        v: vec![vec!['1'], vec!['0']],
        d: vec![vec![1, 2], vec![3, 4]],
    };
    assert_eq!(x.to_string(), "2\n01\n1\n0\n1 2\n3 4\n");
    assert_eq!(parse_input("2\n01\n1\n0\n1 2\n3 4\n"), Some(x));
}

#[test]
fn parse_rejects_zero_size_and_bad_counts() {
    assert_eq!(parse_input("0\n"), None);
    assert_eq!(parse_input("-2\n01\n1\n0\n1 2\n3 4\n"), None);
    assert_eq!(parse_input("1\n5\n"), None);
    assert_eq!(parse_input("3\n01\n1\n0\n1 2\n3 4\n"), None);
}

#[test]
fn parse_rejects_missing_token() {
    let x = sample_input(5);
    let text = x.to_string();
    let cut = text.trim_end().rsplit_once(' ').unwrap().0.to_string();
    assert_eq!(parse_input(&cut), None);
}

#[test]
fn parse_rejects_extra_token() {
    let x = sample_input(5);
    let text = format!("{} 7\n", x.to_string());
    assert_eq!(parse_input(&text), None);
}

#[test]
fn parse_rejects_bad_wall() {
    let mut x = sample_input(6);
    x.h[2][3] = '2';
    assert_eq!(parse_input(&x.to_string()), None);
}

#[test]
fn parse_reads_negative_value() {
    let mut x = sample_input(7);
    x.d[1][1] = -5;
    x.d[0][2] = i64::MIN;
    assert_eq!(parse_input(&x.to_string()), Some(x));
}

#[test]
fn parse_rejects_non_number() {
    let x = sample_input(8);
    let text = x.to_string().replacen("\n", "\nx", 1);
    assert_eq!(parse_input(&text), None);
}

#[test]
fn parse_reads_signed_and_large_values() {
    let mut x = sample_input(9);
    x.d[0][0] = i64::MAX;
    let text = x.to_string();
    let text = text.replacen(&format!("\n{} ", i64::MAX), &format!("\n+{} ", i64::MAX), 1);
    assert_eq!(parse_input(&text), Some(x.clone()));
    let over = text.replacen(&format!("+{}", i64::MAX), "9223372036854775808", 1);
    assert_eq!(parse_input(&over), None);
}

#[test]
fn route_at_limit_is_accepted() {
    let x = sample_input(1);
    let route = "R".repeat(MAX_ROUTE_LEN);
    let out = parse_output(&x, &format!("  {}\n", route)).unwrap();
    assert_eq!(out.out.len(), 100000);
}

#[test]
fn route_over_limit_is_refused() {
    let x = sample_input(1);
    let route = "D".repeat(100001);
    assert_eq!(parse_output(&x, &route), Err(OutputError::TooLong(100001)));
}

#[test]
fn route_is_trimmed() {
    let x = sample_input(1);
    let out = parse_output(&x, " \t RDLU\r\n").unwrap();
    assert_eq!(out, Output { out: vec!['R', 'D', 'L', 'U'] });
}

#[test]
fn route_characters_not_checked() {
    let x = sample_input(1);
    let out = parse_output(&x, "RXz").unwrap();
    assert_eq!(out.out, vec!['R', 'X', 'z']);
}

#[test]
fn empty_route() {
    let x = sample_input(1);
    assert_eq!(parse_output(&x, "   \n").unwrap().out, Vec::<char>::new());
}

#[test]
fn route_length_counts_characters() {
    let x = sample_input(1);
    let route = "é".repeat(60000);
    assert_eq!(parse_output(&x, &route).unwrap().out.len(), 60000);
}
