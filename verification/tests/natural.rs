use core::cmp::Ordering;
use kagami::natural::natural_cmp;
use kagami::sort::natural_order;

#[test]
fn natural_order_sorts_numerically() {
    let mut v = vec![
        "no.126_010.jpg",
        "no.126_002.jpg",
        "no.126_1.jpg",
        "no.126_009.jpg",
        "no.126_100.jpg",
        "no.126_20.jpg",
    ];
    v.sort_by(|a, b| natural_cmp(a, b));
    assert_eq!(
        v,
        vec![
            "no.126_1.jpg",
            "no.126_002.jpg",
            "no.126_009.jpg",
            "no.126_010.jpg",
            "no.126_20.jpg",
            "no.126_100.jpg",
        ]
    );
}

#[test]
fn equal_values_put_fewer_zeros_first() {
    assert_eq!(natural_cmp("a7", "a007"), Ordering::Less);
    assert_eq!(natural_cmp("a007", "a7"), Ordering::Greater);
    assert_eq!(natural_cmp("a007", "a007"), Ordering::Equal);
    assert_eq!(natural_cmp("a007b", "a7c"), Ordering::Greater);
    assert_eq!(natural_cmp("000", "0"), Ordering::Greater);
}

#[test]
fn very_long_numbers_do_not_overflow() {
    let nines = "9".repeat(60);
    let one = format!("1{}", "0".repeat(60));
    assert_eq!(natural_cmp(&nines, &one), Ordering::Less);
    assert_eq!(natural_cmp(&one, &nines), Ordering::Greater);
}

#[test]
fn shorter_text_comes_first() {
    assert_eq!(natural_cmp("", ""), Ordering::Equal);
    assert_eq!(natural_cmp("", "a"), Ordering::Less);
    assert_eq!(natural_cmp("dir", "dir/a"), Ordering::Less);
    assert_eq!(natural_cmp("dir9", "dir9/a"), Ordering::Less);
    assert_eq!(natural_cmp("dir10/a", "dir9/b"), Ordering::Greater);
}

#[test]
fn digits_rank_among_other_characters_by_code() {
    assert_eq!(natural_cmp("1", "a"), Ordering::Less);
    assert_eq!(natural_cmp("1", "-"), Ordering::Greater);
    assert_eq!(natural_cmp("x-1", "x1"), Ordering::Less);
}

#[test]
fn order_is_transitive_on_samples() {
    let samples = ["", "0", "00", "1", "01", "a", "a1", "a01", "a1b", "a10", "b", "-", "\u{e9}"];
    for a in samples {
        for b in samples {
            assert_eq!(natural_cmp(a, b), natural_cmp(b, a).reverse());
            for c in samples {
                if natural_cmp(a, b) != Ordering::Greater && natural_cmp(b, c) != Ordering::Greater {
                    assert_ne!(natural_cmp(a, c), Ordering::Greater);
                }
            }
        }
    }
}

#[test]
fn equal_keys_keep_their_order() {
    let keys: Vec<Vec<char>> = ["b2", "a", "b10", "a", "b2", "b1"]
        .iter()
        .map(|k| k.chars().collect())
        .collect();
    assert_eq!(natural_order(&keys), vec![1, 3, 5, 0, 4, 2]);
    assert_eq!(natural_order(&Vec::new()), Vec::<usize>::new());
}
