use rlp_iter::ilog2;
use rlp_iter::RlpIter;
use rlp_iter::RlpIterator;

fn collect_all(mut it: RlpIter) -> Vec<usize> {
    let mut out = Vec::new();
    while let Some(v) = it.next() {
        out.push(v);
    }
    out
}

#[test]
fn inclusive_range_works() {
    let out: Vec<usize> = collect_all((0..=8).rlp_iter());
    assert_eq!(out[..], [0, 8, 4, 2, 6, 1, 3, 5, 7]);
}

#[test]
fn exclusive_range_works() {
    let out: Vec<usize> = collect_all((0..9).rlp_iter());
    assert_eq!(out[..], [0, 8, 4, 2, 6, 1, 3, 5, 7]);
}

#[test]
fn offset_works() {
    let out: Vec<usize> = collect_all((1..=9).rlp_iter());
    assert_eq!(out[..], [1, 9, 5, 3, 7, 2, 4, 6, 8]);
}

#[test]
fn extreme_offset_inclusive_works() {
    let out: Vec<usize> = collect_all((1_000..=1_008).rlp_iter());
    assert_eq!(
        out[..],
        [1_000, 1_008, 1_004, 1_002, 1_006, 1_001, 1_003, 1_005, 1_007]
    );
}

#[test]
fn extreme_offset_exclusive_works() {
    let out: Vec<usize> = collect_all((1_000..1_009).rlp_iter());
    assert_eq!(
        out[..],
        [1_000, 1_008, 1_004, 1_002, 1_006, 1_001, 1_003, 1_005, 1_007]
    );
}

#[test]
fn output_inclusive_is_complete() {
    let mut out: Vec<usize> = collect_all((7..=7919).rlp_iter());
    let expected: Vec<usize> = (7..=7919).collect();

    out.sort();
    assert_eq!(expected, out);
}

#[test]
fn output_exclusive_is_complete() {
    let mut out: Vec<usize> = collect_all((7..7919).rlp_iter());
    let expected: Vec<usize> = (7..7919).collect();

    out.sort();
    assert_eq!(expected, out);
}

#[test]
fn test_readme_example() {
    let out: Vec<usize> = collect_all((0..=100).rlp_iter());

    assert_eq!(out[0..9], [0, 100, 50, 25, 75, 13, 38, 63, 88]);
}

#[test]
fn first_value_is_lower_bound() {
    let mut it = (4..=9).rlp_iter();
    assert_eq!(it.next(), Some(4));
}

#[test]
fn second_value_is_upper_bound() {
    let mut it = (4..=9).rlp_iter();
    it.next();
    assert_eq!(it.next(), Some(9));
    let mut half_open = (4..10).rlp_iter();
    half_open.next();
    assert_eq!(half_open.next(), Some(9));
}

#[test]
fn single_element_inclusive() {
    let mut it = (5..=5).rlp_iter();
    assert_eq!(it.next(), Some(5));
    assert_eq!(it.next(), None);
    assert_eq!(it.next(), None);
    assert_eq!(it.next(), None);
}

#[test]
fn single_element_exclusive() {
    let mut it = (7..8).rlp_iter();
    assert_eq!(it.next(), Some(7));
    assert_eq!(it.next(), None);
    assert_eq!(it.next(), None);
}

#[test]
fn exhausted_iterator_keeps_signalling_end() {
    let mut it = (0..=8).rlp_iter();
    for _ in 0..=8 {
        assert!(it.next().is_some());
    }
    assert_eq!(it.next(), None);
    assert_eq!(it.next(), None);
}

#[test]
fn same_range_gives_identical_sequences() {
    let a: Vec<usize> = collect_all((3..=20).rlp_iter());
    let b: Vec<usize> = collect_all((3..=20).rlp_iter());
    assert_eq!(a, b);
}

#[test]
fn offset_run_matches_zero_based_run() {
    let shifted: Vec<usize> = collect_all((10..=19).rlp_iter());
    let base: Vec<usize> = collect_all((0..=9).rlp_iter());
    assert_eq!(shifted.len(), base.len());
    for (s, b) in shifted.iter().zip(base.iter()) {
        assert_eq!(s - 10, *b);
    }
}

#[test]
fn completeness_without_order_small() {
    let mut out: Vec<usize> = collect_all((0..=37).rlp_iter());
    out.sort();
    let expected: Vec<usize> = (0..=37).collect();
    assert_eq!(out, expected);
}

#[test]
fn ilog2_rounds_to_nearest() {
    assert_eq!(ilog2(0), 0);
    assert_eq!(ilog2(1), 0);
    assert_eq!(ilog2(2), 1);
    assert_eq!(ilog2(3), 2);
    assert_eq!(ilog2(4), 2);
    assert_eq!(ilog2(5), 2);
    assert_eq!(ilog2(6), 3);
    assert_eq!(ilog2(8), 3);
    assert_eq!(ilog2(11), 3);
    assert_eq!(ilog2(12), 4);
    assert_eq!(ilog2(100), 7);
}
