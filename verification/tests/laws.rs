use path_identifier::PathIdentifier;

fn encode(path: &[u64]) -> PathIdentifier {
    PathIdentifier::from_path(path).expect("path is encodable")
}

fn sample_paths() -> Vec<Vec<u64>> {
    let mut paths: Vec<Vec<u64>> = vec![vec![]];
    for a in 0..4u64 {
        paths.push(vec![a]);
        for b in 0..4u64 {
            paths.push(vec![a, b]);
            for c in 0..4u64 {
                paths.push(vec![a, b, c]);
            }
        }
    }
    paths.push(vec![3, 5, 1]);
    paths.push(vec![3, 6]);
    paths.push(vec![1000000, 0, 999, 0, 0, 123456789]);
    paths.push(vec![u64::MAX - 2]);
    paths
}

#[test]
fn round_trip_on_samples() {
    for path in sample_paths() {
        assert_eq!(encode(&path).path(), path);
    }
}

#[test]
fn distinct_paths_have_distinct_identifiers() {
    let paths = sample_paths();
    for (i, p) in paths.iter().enumerate() {
        for (j, q) in paths.iter().enumerate() {
            assert_eq!(encode(p) == encode(q), i == j);
        }
    }
}

#[test]
fn trailing_one_does_not_collide() {
    assert_eq!(encode(&[3, 5, 1]), (113, 36, 22, 7));
    assert_eq!(encode(&[3, 6]), (41, 5, 8, 1));
    assert_ne!(encode(&[3, 5, 1]), encode(&[3, 6]));
}

#[test]
fn trailing_zero_does_not_collide() {
    assert_ne!(encode(&[3, 0]), encode(&[3]));
    assert_ne!(encode(&[3, 0]), encode(&[4]));
    assert_ne!(encode(&[0]), encode(&[]));
}

#[test]
fn order_of_elements_matters() {
    assert_ne!(encode(&[3, 12]), encode(&[12, 3]));
    assert_eq!(encode(&[3, 12]), (71, 5, 14, 1));
    assert_eq!(encode(&[12, 3]), (71, 14, 5, 1));
    assert_eq!(encode(&[12, 3]).path(), vec![12, 3]);
}

#[test]
fn root_is_the_only_identifier_of_the_empty_path() {
    for path in sample_paths() {
        let id = encode(&path);
        assert_eq!(id.path().is_empty(), id == PathIdentifier::root());
        assert_eq!(id.is_root(), path.is_empty());
    }
}

#[test]
fn equality_agrees_with_decoding() {
    let paths = sample_paths();
    for p in &paths {
        for q in &paths {
            let x = encode(p);
            let y = encode(q);
            assert_eq!(x == y, x.path() == y.path());
        }
    }
}

#[test]
fn product_is_concatenation_on_samples() {
    let paths = sample_paths();
    for p in paths.iter().take(30) {
        for q in paths.iter().take(30) {
            let mut joined = p.clone();
            joined.extend_from_slice(q);
            assert_eq!(encode(p).checked_mul(&encode(q)), Some(encode(&joined)));
        }
    }
}

#[test]
fn text_round_trip_on_samples() {
    for path in sample_paths() {
        let id = encode(&path);
        let text = id.text();
        let back: PathIdentifier = text.parse().expect("canonical text parses");
        assert_eq!(back, id);
        assert_eq!(back.text(), text);
    }
}
