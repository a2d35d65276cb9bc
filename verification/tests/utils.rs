use bs::utils::{build_sa, build_t, radix_sort};

#[test]
fn build_t_names_the_bytes_in_stable_sorted_order() {
    assert_eq!(build_t(b"banana"), vec![1, 3, 5, 0, 2, 4]);
    assert_eq!(build_t(&[]), Vec::<usize>::new());
    assert_eq!(build_t(&[7]), vec![0]);
    assert_eq!(build_t(&[255, 0, 255, 0]), vec![1, 3, 0, 2]);
}

#[test]
fn radix_sort_sorts_rows_by_the_columns_behind_the_first() {
    let mut rows = vec![vec![0, b'b', b'a'], vec![1, b'a', b'b'], vec![2, b'a', b'a']];
    radix_sort(&mut rows, 3);
    assert_eq!(rows, vec![vec![2, b'a', b'a'], vec![1, b'a', b'b'], vec![0, b'b', b'a']]);
}

#[test]
fn radix_sort_keeps_the_order_of_equal_rows() {
    let mut rows = vec![vec![0, 1, 9], vec![1, 1, 8], vec![2, 0, 7], vec![3, 1, 6]];
    radix_sort(&mut rows, 2);
    assert_eq!(rows, vec![vec![2, 0, 7], vec![0, 1, 9], vec![1, 1, 8], vec![3, 1, 6]]);
}

#[test]
fn radix_sort_without_columns_changes_nothing() {
    let mut rows = vec![vec![3u8], vec![1], vec![2]];
    radix_sort(&mut rows, 1);
    assert_eq!(rows, vec![vec![3u8], vec![1], vec![2]]);
    let mut rows: Vec<Vec<u8>> = vec![vec![], vec![]];
    radix_sort(&mut rows, 0);
    assert_eq!(rows, vec![Vec::<u8>::new(), Vec::<u8>::new()]);
    let mut rows: Vec<Vec<u8>> = Vec::new();
    radix_sort(&mut rows, 5);
    assert!(rows.is_empty());
}

#[test]
fn build_sa_gives_the_suffix_array() {
    assert_eq!(build_sa(b"banana"), vec![5, 3, 1, 0, 4, 2]);
    assert_eq!(build_sa(b""), Vec::<usize>::new());
    assert_eq!(build_sa(b"z"), vec![0]);
    assert_eq!(build_sa(b"aaaa"), vec![3, 2, 1, 0]);
    assert_eq!(build_sa(b"abababab"), vec![6, 4, 2, 0, 7, 5, 3, 1]);
}

#[test]
fn build_sa_orders_all_suffixes_of_a_longer_text() {
    let mut text = Vec::new();
    let mut x: u32 = 7;
    for _ in 0..3000 {
        x = x.wrapping_mul(1664525).wrapping_add(1013904223);
        text.push(b"abc"[((x >> 24) % 3) as usize]);
    }
    let sa = build_sa(&text);
    let mut seen = vec![false; text.len()];
    for &i in &sa {
        assert!(!seen[i]);
        seen[i] = true;
    }
    for w in sa.windows(2) {
        assert!(text[w[0]..] < text[w[1]..]);
    }
}
