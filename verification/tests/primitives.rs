use bellframe::RowBuf;
use monument::layout::course_heads::CourseHeadMask;
use monument::primitives::{Mask, PlaceNot, Row, Stage};
use monument::text::to_decimal;

fn row(bells: &[usize]) -> Row {
    Row::new(bells.to_vec()).unwrap()
}

#[test]
fn only_permutations_are_rows() {
    assert!(Row::new(vec![]).is_none());
    assert!(Row::new(vec![0, 0]).is_none());
    assert!(Row::new(vec![0, 2]).is_none());
    assert_eq!(row(&[2, 0, 1]).bells(), &vec![2, 0, 1]);
}

#[test]
fn rows_multiply_like_permutations() {
    let a = row(&[1, 2, 0, 3]);
    let b = row(&[0, 2, 1, 3]);
    assert_eq!(a.times(&b).bells(), &vec![1, 0, 2, 3]);
    assert_eq!(b.times(&a).bells(), &vec![2, 1, 0, 3]);
    let expected = &RowBuf::parse("2314").unwrap() * &RowBuf::parse("1324").unwrap();
    assert_eq!(a.times(&b).to_text(), expected.to_string());
}

#[test]
fn rounds_is_the_identity_and_products_are_associative() {
    let a = row(&[1, 2, 0, 3]);
    let b = row(&[0, 2, 1, 3]);
    let c = row(&[3, 2, 1, 0]);
    assert_eq!(Row::rounds(4).bells(), &vec![0, 1, 2, 3]);
    assert!(Row::rounds(4).times(&a).same_as(&a));
    assert!(a.times(&Row::rounds(4)).same_as(&a));
    assert!(a.times(&b).times(&c).same_as(&a.times(&b.times(&c))));
}

#[test]
fn rows_are_displayed_by_bell_names() {
    assert_eq!(row(&[1, 0, 2]).to_text(), "213");
    assert_eq!(Row::rounds(12).to_text(), "1234567890ET");
    assert_eq!(Row::rounds(35).to_text(), "1234567890ETABCDFGHJKLMNPQRSUVWYZ<34><35>");
}

#[test]
fn rows_are_compared_by_their_bells() {
    assert!(row(&[1, 0]).same_as(&row(&[1, 0])));
    assert!(!row(&[1, 0]).same_as(&row(&[0, 1])));
    assert!(!row(&[0]).same_as(&row(&[0, 1])));
}

#[test]
fn masks_match_rows() {
    let mask = Mask::new(vec![Some(0), None, None, Some(3)]);
    assert!(mask.matches(&row(&[0, 2, 1, 3])));
    assert!(!mask.matches(&row(&[0, 2, 3, 1])));
    assert!(!mask.matches(&row(&[0, 2, 1])));
    assert_eq!(mask.place_of(3), Some(3));
    assert_eq!(mask.place_of(1), None);
    assert_eq!(mask.unspecified_places(), vec![1, 2]);
    assert_eq!(mask.with_bell(1, 2).bells, vec![Some(0), None, Some(1), Some(3)]);
}

#[test]
fn masks_are_expanded_for_the_calling_bell() {
    let fixed: Vec<Option<usize>> = (0..5).map(Some).collect();
    let mut bells = fixed.clone();
    bells.extend([None, None, None]);
    let masks = CourseHeadMask::new(Mask::new(bells.clone()), 7);
    assert_eq!(masks.len(), 3);
    for (i, expanded) in masks.iter().enumerate() {
        let mut expected = bells.clone();
        expected[5 + i] = Some(7);
        assert_eq!(expanded.mask().bells, expected);
        assert_eq!(expanded.calling_bell(), 7);
    }
    // Every row that the mask matches is matched by exactly one of the expanded masks
    let middle = row(&[0, 1, 2, 3, 4, 5, 7, 6]);
    let matching: Vec<bool> = masks.iter().map(|m| m.mask().matches(&middle)).collect();
    assert_eq!(matching, vec![false, true, false]);
}

#[test]
fn masks_that_name_the_calling_bell_are_kept() {
    let mask = Mask::new(vec![Some(1), None]);
    let masks = CourseHeadMask::new(mask, 1);
    assert_eq!(masks.len(), 1);
    assert_eq!(masks[0].mask().bells, vec![Some(1), None]);
    assert_eq!(masks[0].calling_bell(), 1);
}

fn made(place_not: &PlaceNot) -> Vec<usize> {
    (0..place_not.stage().num_bells()).filter(|p| place_not.contains(*p)).collect()
}

#[test]
fn place_notation_is_parsed() {
    let stage = Stage::new(8);
    assert_eq!(made(&PlaceNot::parse("14", stage).unwrap()), vec![0, 3]);
    assert_eq!(made(&PlaceNot::parse("4", stage).unwrap()), vec![0, 3]);
    assert_eq!(made(&PlaceNot::parse("1", stage).unwrap()), vec![0, 7]);
    assert_eq!(made(&PlaceNot::parse("13", stage).unwrap()), vec![0, 1, 2, 7]);
    assert!(made(&PlaceNot::parse("-", stage).unwrap()).is_empty());
    // Characters that name no bell are passed over, and the order does not matter
    assert_eq!(made(&PlaceNot::parse(" 8|7~14", stage).unwrap()), vec![0, 3, 6, 7]);
    assert_eq!(made(&PlaceNot::parse("1T", Stage::new(12)).unwrap()), vec![0, 11]);
    assert!(made(&PlaceNot::parse("x", stage).unwrap()).is_empty());
    assert!(PlaceNot::parse("--", stage).is_none());
    assert!(PlaceNot::parse("11", stage).is_none());
    assert!(PlaceNot::parse("15", stage).is_none());
    assert!(PlaceNot::parse("19", stage).is_none());
    assert!(PlaceNot::parse("", stage).is_none());
    assert!(PlaceNot::parse("-", Stage::new(7)).is_none());
    assert!(!PlaceNot::parse("14", stage).unwrap().contains(8));
}

#[test]
fn sorted_places_are_the_same_as_parsed_ones() {
    for num_bells in 1..10 {
        let stage = Stage::new(num_bells);
        for (text, places) in [
            ("14", vec![0, 3]),
            ("4", vec![3]),
            ("1", vec![0]),
            ("13", vec![0, 2]),
            ("15", vec![0, 4]),
            ("1256", vec![0, 1, 4, 5]),
            ("89", vec![7, 8]),
        ] {
            let parsed = PlaceNot::parse(text, stage);
            let sorted = PlaceNot::from_sorted_places(&places, stage);
            assert_eq!(parsed.map(|p| made(&p)), sorted.map(|p| made(&p)));
        }
    }
    assert!(PlaceNot::from_sorted_places(&vec![], Stage::new(4)).is_none());
    assert!(PlaceNot::from_sorted_places(&vec![1, 1], Stage::new(4)).is_none());
}

#[test]
fn stages_are_even_or_odd() {
    assert!(Stage::new(8).is_even());
    assert!(!Stage::new(7).is_even());
}

#[test]
fn numbers_are_written_in_decimal() {
    assert_eq!(to_decimal(0), "0");
    assert_eq!(to_decimal(9), "9");
    assert_eq!(to_decimal(1020), "1020");
    assert_eq!(to_decimal(usize::MAX), usize::MAX.to_string());
}
