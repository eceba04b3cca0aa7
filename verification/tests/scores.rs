use bot::ordering::{move_priority, priority_indices};
use bot::score::{max, min, Score};

#[test]
fn test_move_priorty() {
    let mut test_hm = Vec::new();
    test_hm.push(((2, 4), Score::whole(50)));
    test_hm.push(((3, 5), Score::whole(40)));
    test_hm.push(((4, 2), Score::whole(70)));
    test_hm.push(((5, 3), Score::whole(-110)));

    assert_eq!(vec![(4, 2), (2, 4), (3, 5), (5, 3)], move_priority(&test_hm));
}

#[test]
fn priority_keeps_the_listed_order_among_equal_scores() {
    let scores = vec![
        ((2, 3), Score::whole(0)),
        ((3, 2), Score::whole(0)),
        ((4, 5), Score::whole(0)),
        ((5, 4), Score::whole(0)),
    ];
    assert_eq!(move_priority(&scores), vec![(2, 3), (3, 2), (4, 5), (5, 4)]);
    let scores = vec![
        ((0, 0), Score::ratio(1, 2)),
        ((0, 1), Score::infinity()),
        ((0, 2), Score::ratio(2, 4)),
        ((0, 3), Score::neg_infinity()),
        ((0, 4), Score::ratio(3, 5)),
    ];
    assert_eq!(move_priority(&scores), vec![(0, 1), (0, 4), (0, 0), (0, 2), (0, 3)]);
    // the input is as it was
    assert!(scores[0].1.same(&Score::ratio(1, 2)));
    assert_eq!(scores[3].0, (0, 3));
}

#[test]
fn priority_of_nothing_is_nothing() {
    assert!(move_priority(&Vec::new()).is_empty());
}

#[test]
fn indices_come_by_descending_score() {
    let scores = vec![
        ((2, 4), Score::whole(50)),
        ((3, 5), Score::whole(40)),
        ((4, 2), Score::whole(70)),
        ((5, 3), Score::whole(-110)),
    ];
    assert_eq!(priority_indices(&scores), vec![2, 0, 1, 3]);
    let level = vec![((0, 0), Score::ratio(1, 2)), ((0, 1), Score::ratio(3, 6))];
    assert_eq!(priority_indices(&level), vec![0, 1]);
    let rising = vec![
        ((0, 0), Score::neg_infinity()),
        ((0, 1), Score::whole(-1)),
        ((0, 2), Score::whole(-1)),
        ((0, 3), Score::infinity()),
    ];
    assert_eq!(priority_indices(&rising), vec![3, 1, 2, 0]);
    assert!(priority_indices(&Vec::new()).is_empty());
}

#[test]
fn fractions_are_ordered_by_value() {
    let third = Score::ratio(1, 3);
    let half = Score::ratio(1, 2);
    let two_quarters = Score::ratio(2, 4);
    assert!(third.lt(&half));
    assert!(!half.lt(&third));
    assert!(half.gt(&third));
    assert!(third.le(&half));
    assert!(half.ge(&third));
    assert!(half.same(&two_quarters));
    assert!(half.le(&two_quarters) && half.ge(&two_quarters));
    assert!(!half.lt(&two_quarters) && !half.gt(&two_quarters));
    assert!(Score::ratio(-1, 2).lt(&Score::ratio(-1, 3)));
    assert!(Score::whole(-110).lt(&Score::whole(40)));
}

#[test]
fn fractions_at_the_limits_are_ordered() {
    let big = Score::ratio(i64::MAX, 1);
    let small = Score::ratio(i64::MAX, u32::MAX);
    let low = Score::ratio(i64::MIN, 1);
    assert!(small.lt(&big));
    assert!(low.lt(&small));
    assert!(low.lt(&Score::ratio(i64::MIN, u32::MAX)));
    assert!(big.lt(&Score::infinity()));
    assert!(Score::neg_infinity().lt(&low));
}

#[test]
fn infinities_bound_every_fraction() {
    let inf = Score::infinity();
    let neg = Score::neg_infinity();
    let x = Score::whole(1_000_000_000);
    assert!(x.lt(&inf));
    assert!(neg.lt(&x));
    assert!(neg.lt(&inf));
    assert!(inf.same(&Score::infinity()));
    assert!(neg.same(&Score::neg_infinity()));
    assert!(inf.ge(&inf) && !inf.gt(&inf));
    assert!(inf.is_infinity() && !inf.is_neg_infinity() && !inf.is_finite());
    assert!(neg.is_neg_infinity() && !neg.is_infinity() && !neg.is_finite());
    assert!(x.is_finite());
    assert_eq!(x.numerator(), 1_000_000_000);
    assert_eq!(x.denominator(), 1);
    assert_eq!(Score::ratio(-7, 9).numerator(), -7);
    assert_eq!(Score::ratio(-7, 9).denominator(), 9);
}

#[test]
fn min_and_max_pick_by_value() {
    let a = Score::whole(3);
    let b = Score::whole(5);
    assert!(min(a, b).same(&a));
    assert!(min(b, a).same(&a));
    assert!(max(a, b).same(&b));
    assert!(max(b, a).same(&b));
    assert!(max(a, Score::infinity()).is_infinity());
    assert!(min(a, Score::neg_infinity()).is_neg_infinity());
    // of two of one value the second is taken
    let h = Score::ratio(1, 2);
    let q = Score::ratio(2, 4);
    assert_eq!(min(h, q).denominator(), 4);
    assert_eq!(max(h, q).denominator(), 4);
}
