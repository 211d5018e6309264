use path_identifier::PathIdentifier;

fn encode(path: &[u64]) -> PathIdentifier {
    PathIdentifier::from_path(path).expect("path is encodable")
}

#[test]
fn walk_gives_elements_in_order() {
    let id = encode(&[3, 12, 5]);
    let mut walk = id.path_iter();
    assert_eq!(walk.next(), Some(3));
    assert_eq!(walk.next(), Some(12));
    assert_eq!(walk.next(), Some(5));
    assert_eq!(walk.next(), None);
}

#[test]
fn walk_stays_at_its_end() {
    let id = encode(&[9]);
    let mut walk = id.path_iter();
    assert_eq!(walk.next(), Some(9));
    assert_eq!(walk.next(), None);
    assert_eq!(walk.next(), None);
}

#[test]
fn walk_of_root_is_empty() {
    let mut walk = PathIdentifier::root().path_iter();
    assert_eq!(walk.next(), None);
}

#[test]
fn each_walk_starts_anew() {
    let id = encode(&[3, 12]);
    let mut first = id.path_iter();
    assert_eq!(first.next(), Some(3));
    let mut second = id.path_iter();
    assert_eq!(second.next(), Some(3));
    assert_eq!(first.next(), Some(12));
    assert_eq!(second.next(), Some(12));
    assert_eq!(id, (71, 5, 14, 1));
    assert_eq!(id.path(), vec![3, 12]);
    assert_eq!(id.path(), vec![3, 12]);
}

#[test]
fn decodes_known_matrices() {
    assert_eq!(encode(&[3]).path(), vec![3]);
    assert_eq!(encode(&[3, 12]).path(), vec![3, 12]);
    assert_eq!(encode(&[3, 12, 5]).path(), vec![3, 12, 5]);
    assert_eq!(encode(&[3, 12, 5, 1]).path(), vec![3, 12, 5, 1]);
    assert_eq!(encode(&[3, 12, 5, 1, 21]).path(), vec![3, 12, 5, 1, 21]);
}

#[test]
fn decodes_large_elements() {
    let path = vec![4294967293, 4294967294];
    assert_eq!(encode(&path).path(), path);
    let path = vec![9223372036854775805, 0];
    assert_eq!(encode(&path).path(), path);
    let path = vec![0, 9223372036854775804];
    assert_eq!(encode(&path).path(), path);
}
