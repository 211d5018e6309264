use path_identifier::matrix::OFFSET;
use path_identifier::{PathError, PathIdentifier};

fn encode(path: &[u64]) -> PathIdentifier {
    PathIdentifier::from_path(path).expect("path is encodable")
}

#[test]
fn offset_is_two() {
    assert_eq!(OFFSET, 2);
}

#[test]
fn root_is_the_identity_matrix() {
    let root = PathIdentifier::root();
    assert_eq!(root.entries(), (1, 0, 0, 1));
    assert!(root.is_root());
    assert_eq!(root.path(), Vec::<u64>::new());
}

#[test]
fn empty_path_encodes_to_root() {
    assert_eq!(encode(&[]), PathIdentifier::root());
    assert!(encode(&[]).is_root());
}

#[test]
fn only_the_empty_path_is_root() {
    assert!(!encode(&[0]).is_root());
    assert!(!encode(&[0, 0]).is_root());
    assert!(!encode(&[3, 12, 5]).is_root());
    assert_ne!(encode(&[0]), PathIdentifier::root());
}

#[test]
fn numerators_and_denominators_of_known_paths() {
    let cases: Vec<(Vec<u64>, u64, u64)> = vec![
        (vec![3], 5, 1),
        (vec![3, 12], 71, 14),
        (vec![3, 12, 5], 502, 99),
        (vec![3, 12, 5, 1], 1577, 311),
        (vec![3, 12, 5, 1, 21], 36773, 7252),
    ];
    for (path, numerator, denominator) in cases {
        let (a, _, c, _) = encode(&path).entries();
        assert_eq!((a, c), (numerator, denominator));
    }
}

#[test]
fn zero_elements_are_encoded() {
    assert_eq!(encode(&[0]), (2, 1, 1, 0));
    assert_eq!(encode(&[0, 0]), (5, 2, 2, 1));
    assert_eq!(encode(&[7, 0, 0, 2]), (207, 47, 22, 5));
    assert_eq!(encode(&[7, 0, 0, 2]).path(), vec![7, 0, 0, 2]);
}

#[test]
fn single_element_identifier() {
    assert_eq!(PathIdentifier::from_path_element(3), Some(encode(&[3])));
    assert_eq!(PathIdentifier::from_path_element(0).unwrap(), (2, 1, 1, 0));
    assert_eq!(
        PathIdentifier::from_path_element(u64::MAX - 2).unwrap(),
        (u64::MAX, 1, 1, 0)
    );
    assert_eq!(PathIdentifier::from_path_element(u64::MAX - 1), None);
    assert_eq!(PathIdentifier::from_path_element(u64::MAX), None);
}

#[test]
fn largest_single_element() {
    let id = encode(&[u64::MAX - 2]);
    assert_eq!(id, (u64::MAX, 1, 1, 0));
    assert_eq!(id.path(), vec![u64::MAX - 2]);
}

#[test]
fn element_overflow_is_reported() {
    assert_eq!(
        PathIdentifier::from_path(&[u64::MAX - 1]),
        Err(PathError::Overflow)
    );
    assert_eq!(
        PathIdentifier::from_path(&[u64::MAX]),
        Err(PathError::Overflow)
    );
    assert_eq!(
        PathIdentifier::from_path(&[3, u64::MAX, 5]),
        Err(PathError::Overflow)
    );
}

#[test]
fn product_overflow_is_reported() {
    assert_eq!(
        encode(&[4294967293, 4294967294]),
        (18446744069414584321, 4294967295, 4294967296, 1)
    );
    assert_eq!(
        PathIdentifier::from_path(&[4294967294, 4294967294]),
        Err(PathError::Overflow)
    );
    assert_eq!(
        PathIdentifier::from_path(&[0, u64::MAX - 2]),
        Err(PathError::Overflow)
    );
}

#[test]
fn sum_overflow_is_reported() {
    assert_eq!(
        encode(&[9223372036854775805, 0]),
        (u64::MAX, 9223372036854775807, 2, 1)
    );
    assert_eq!(
        encode(&[0, 9223372036854775804]),
        (18446744073709551613, 2, 9223372036854775806, 1)
    );
    assert_eq!(
        PathIdentifier::from_path(&[9223372036854775805, 0, 0]),
        Err(PathError::Overflow)
    );
}

#[test]
fn deepest_path_of_zeros() {
    let fits = vec![0u64; 50];
    let id = encode(&fits);
    assert_eq!(
        id,
        (
            11749380235262596085,
            4866752642924153522,
            4866752642924153522,
            2015874949414289041
        )
    );
    assert_eq!(id.path(), fits);
    let too_deep = vec![0u64; 51];
    assert_eq!(
        PathIdentifier::from_path(&too_deep),
        Err(PathError::Overflow)
    );
}

#[test]
fn try_from_vector() {
    assert_eq!(
        PathIdentifier::try_from(vec![3, 12]).unwrap(),
        (71, 5, 14, 1)
    );
    assert_eq!(
        PathIdentifier::try_from(vec![u64::MAX]),
        Err(PathError::Overflow)
    );
}

#[test]
fn checked_product_concatenates() {
    let left = encode(&[3, 12]);
    let right = encode(&[5, 1]);
    let product = left.checked_mul(&right).unwrap();
    assert_eq!(product, (1577, 502, 311, 99));
    assert_eq!(product, encode(&[3, 12, 5, 1]));
    assert_eq!(product.path(), vec![3, 12, 5, 1]);
}

#[test]
fn checked_product_with_root() {
    let id = encode(&[3, 12, 5]);
    let root = PathIdentifier::root();
    assert_eq!(id.checked_mul(&root), Some(id.clone()));
    assert_eq!(root.checked_mul(&id), Some(id));
}

#[test]
fn checked_product_reports_overflow() {
    let left = encode(&[4294967294]);
    assert_eq!(left.checked_mul(&left), None);
    let deep = encode(&vec![0u64; 50]);
    assert_eq!(deep.checked_mul(&encode(&[0])), None);
}

#[test]
fn product_operator_concatenates() {
    let product = encode(&[3]) * encode(&[12]);
    assert_eq!(product, (71, 5, 14, 1));
    let back = encode(&[12]) * encode(&[3]);
    assert_eq!(back, (71, 14, 5, 1));
}

#[test]
fn product_in_place() {
    let mut id = PathIdentifier::root();
    id *= encode(&[3]);
    assert_eq!(id, (5, 1, 1, 0));
    id *= encode(&[12, 5]);
    assert_eq!(id, (502, 71, 99, 14));
}

#[test]
fn equality_and_clone() {
    let id = encode(&[3, 12, 5]);
    let copy = id.clone();
    assert_eq!(id, copy);
    assert!(id == (502, 71, 99, 14));
    assert!(id != (502, 71, 99, 15));
    assert!(id != (503, 71, 99, 14));
    assert!(id != (502, 70, 99, 14));
    assert!(id != (502, 71, 98, 14));
    assert_ne!(id, encode(&[3, 12]));
}
