use math_toolkit::math_set::{parse_sets, reduce_sets, MathSet};
use math_toolkit::text::ParseError;

#[test]
fn test_set_operations() {
    let set1 = MathSet { elements: vec![1, 2, 3] };
    let set2 = MathSet { elements: vec![3, 4, 5] };

    let union_result = set1.union(&set2);
    let expected_union = MathSet { elements: vec![1, 2, 3, 4, 5] };
    assert_eq!(union_result, expected_union);

    let intersection_result = set1.intersection(&set2);
    let expected_intersection = MathSet { elements: vec![3] };
    assert_eq!(intersection_result, expected_intersection);

    let difference_result = set1.difference(&set2);
    let expected_difference = MathSet { elements: vec![1, 2] };
    assert_eq!(difference_result, expected_difference);
}

#[test]
fn union_keeps_first_occurrence_of_each_value() {
    let a = MathSet::new(vec![2, 2, 1]);
    let b = MathSet::new(vec![3, 1, 3, 4]);
    assert_eq!(a.union(&b).elements, vec![2, 1, 3, 4]);
    let e = MathSet::new(vec![]);
    assert_eq!(MathSet::new(vec![2, 2]).union(&e).elements, vec![2]);
}

#[test]
fn union_of_duplicate_free_sets_has_each_value_once() {
    let a = MathSet::new(vec![5, -1]);
    let b = MathSet::new(vec![-1, 7, 5, 8]);
    let u = a.union(&b);
    assert_eq!(u.elements, vec![5, -1, 7, 8]);
    for x in [5, -1, 7, 8] {
        assert_eq!(u.elements.iter().filter(|&&y| y == x).count(), 1);
    }
}

#[test]
fn intersection_keeps_repeats_of_first() {
    let a = MathSet::new(vec![4, 1, 4, 2]);
    let b = MathSet::new(vec![4, 9]);
    assert_eq!(a.intersection(&b).elements, vec![4, 4]);
}

#[test]
fn difference_shares_nothing_with_second() {
    let a = MathSet::new(vec![1, 2, 3, 2, 6]);
    let b = MathSet::new(vec![2, 6]);
    let d = a.difference(&b);
    assert_eq!(d.elements, vec![1, 3]);
    assert!(d.elements.iter().all(|x| !b.elements.contains(x)));
}

#[test]
fn operations_on_empty_sets() {
    let e = MathSet::new(vec![]);
    let a = MathSet::new(vec![1]);
    assert_eq!(e.union(&a).elements, vec![1]);
    assert_eq!(a.union(&e).elements, vec![1]);
    assert!(e.intersection(&a).elements.is_empty());
    assert!(a.intersection(&e).elements.is_empty());
    assert_eq!(a.difference(&e).elements, vec![1]);
}

#[test]
fn duplicate_copies_elements() {
    let a = MathSet::new(vec![9, 8]);
    assert_eq!(a.duplicate(), a);
}

#[test]
fn parse_sets_reads_one_set_per_line() {
    let sets = parse_sets("1, 2,3\n-4,+5\r\n 7 \n").unwrap();
    assert_eq!(sets.len(), 3);
    assert_eq!(sets[0].elements, vec![1, 2, 3]);
    assert_eq!(sets[1].elements, vec![-4, 5]);
    assert_eq!(sets[2].elements, vec![7]);
}

#[test]
fn parse_sets_trims_unicode_white_space() {
    let sets = parse_sets("5\u{a0}\n\u{3000}-6,\u{2009}7").unwrap();
    assert_eq!(sets[0].elements, vec![5]);
    assert_eq!(sets[1].elements, vec![-6, 7]);
}

#[test]
fn parse_sets_of_empty_text_is_empty() {
    assert_eq!(parse_sets("").unwrap().len(), 0);
}

#[test]
fn parse_sets_rejects_bad_token() {
    assert_eq!(parse_sets("1,2\n3,x\n"), Err(ParseError::InvalidInteger));
    assert_eq!(parse_sets("1,,2"), Err(ParseError::InvalidInteger));
    assert_eq!(parse_sets("1\n\n2"), Err(ParseError::InvalidInteger));
}

#[test]
fn parse_sets_integer_range() {
    let sets = parse_sets("2147483647,-2147483648").unwrap();
    assert_eq!(sets[0].elements, vec![i32::MAX, i32::MIN]);
    assert_eq!(parse_sets("2147483648"), Err(ParseError::InvalidInteger));
    assert_eq!(parse_sets("-2147483649"), Err(ParseError::InvalidInteger));
    assert_eq!(parse_sets("99999999999999999999"), Err(ParseError::InvalidInteger));
    assert_eq!(parse_sets("-"), Err(ParseError::InvalidInteger));
    assert_eq!(parse_sets("+"), Err(ParseError::InvalidInteger));
    assert_eq!(parse_sets("007").unwrap()[0].elements, vec![7]);
}

#[test]
fn reduce_sets_folds_left_to_right() {
    let sets = vec![
        MathSet::new(vec![1, 2, 3, 4]),
        MathSet::new(vec![3, 4, 5]),
        MathSet::new(vec![4, 6]),
    ];
    let t = reduce_sets(&sets, 3).unwrap();
    assert_eq!(t.union.elements, vec![1, 2, 3, 4, 5, 6]);
    assert_eq!(t.intersection.elements, vec![4]);
    assert_eq!(t.difference.elements, vec![1, 2]);
    let t2 = reduce_sets(&sets, 2).unwrap();
    assert_eq!(t2.union.elements, vec![1, 2, 3, 4, 5]);
    assert_eq!(t2.intersection.elements, vec![3, 4]);
    assert_eq!(t2.difference.elements, vec![1, 2]);
    let t1 = reduce_sets(&sets, 1).unwrap();
    assert_eq!(t1.union.elements, vec![1, 2, 3, 4]);
}

#[test]
fn reduce_sets_rejects_bad_count() {
    let sets = vec![MathSet::new(vec![1])];
    assert!(reduce_sets(&sets, 0).is_none());
    assert!(reduce_sets(&sets, 2).is_none());
}
