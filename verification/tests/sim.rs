use acervo::sim::{find_longest_match, matching_blocks_range, ratio};

fn ratio_f(a: &str, b: &str) -> f64 {
    let s = ratio(a, b);
    let total = s.len_a + s.len_b;
    if total == 0 {
        return 1.0;
    }
    2.0 * s.matches as f64 / total as f64
}

#[test]
fn identical_strings() {
    assert_eq!(ratio_f("severance", "severance"), 1.0);
}

#[test]
fn both_empty() {
    assert_eq!(ratio_f("", ""), 1.0);
}

#[test]
fn one_empty() {
    assert_eq!(ratio_f("severance", ""), 0.0);
}

#[test]
fn known_pair() {
    let r = ratio_f("the office", "the office us");
    assert!((r - 0.8695652173913043).abs() < 1e-9, "got {r}");
}

#[test]
fn unrelated_strings() {
    let r = ratio_f("breaking bad", "the sopranos");
    assert!((r - 0.25).abs() < 1e-9, "got {r}");
}

#[test]
fn matched_counts_are_exact() {
    let s = ratio("the office", "the office us");
    assert_eq!((s.matches, s.len_a, s.len_b), (10, 10, 13));
    let s = ratio("abcd", "dcba");
    assert_eq!(s.matches, 1);
    let s = ratio("a\u{e9}b", "\u{e9}b");
    assert_eq!((s.matches, s.len_a, s.len_b), (2, 3, 2));
}

#[test]
fn longest_match_prefers_earliest_block() {
    let a: Vec<char> = "xabyab".chars().collect();
    let b: Vec<char> = "ab".chars().collect();
    assert_eq!(find_longest_match(&a, &b, 0, a.len(), 0, b.len()), (1, 0, 2));
    let c: Vec<char> = "zz".chars().collect();
    assert_eq!(find_longest_match(&a, &c, 0, a.len(), 0, c.len()), (0, 0, 0));
}

#[test]
fn blocks_come_root_then_right_then_left() {
    let a: Vec<char> = "abxcdyef".chars().collect();
    let b: Vec<char> = "abqcdref".chars().collect();
    let (blocks, m) = matching_blocks_range(&a, &b, 0, a.len(), 0, b.len());
    assert_eq!(m, 6);
    assert_eq!(blocks, vec![(0, 0, 2), (3, 3, 2), (6, 6, 2)]);
}

#[test]
fn blocks_are_common_and_do_not_cross() {
    let a: Vec<char> = "the office us".chars().collect();
    let b: Vec<char> = "office the".chars().collect();
    let (blocks, m) = matching_blocks_range(&a, &b, 0, a.len(), 0, b.len());
    let mut total = 0;
    for &(i, j, k) in &blocks {
        assert!(k > 0);
        assert_eq!(a[i..i + k], b[j..j + k]);
        total += k;
    }
    assert_eq!(total, m);
    for (p, x) in blocks.iter().enumerate() {
        for (q, y) in blocks.iter().enumerate() {
            if p != q {
                let before = x.0 + x.2 <= y.0 && x.1 + x.2 <= y.1;
                let after = y.0 + y.2 <= x.0 && y.1 + y.2 <= x.1;
                assert!(before || after);
            }
        }
    }
    let c: Vec<char> = "xyz".chars().collect();
    let (none, m) = matching_blocks_range(&a, &c, 0, a.len(), 0, c.len());
    assert!(none.is_empty());
    assert_eq!(m, 0);
}
