use fountaincode::iterext::cumsum;

#[test]
fn cumsum_test_i32() {
    let input = vec![1_u64, 1, 1, 1, 1, 1];
    let csum: Vec<u64> = cumsum(&input).unwrap();
    let expected = [1_u64, 2, 3, 4, 5, 6];
    assert_eq!(&csum, &expected);
}

#[test]
fn cumsum_overflow_is_none() {
    let input = vec![u64::MAX, 1];
    assert_eq!(cumsum(&input), None);
    assert_eq!(cumsum(&vec![]), Some(vec![]));
}
