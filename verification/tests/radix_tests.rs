use superperms::radix::{check_iteration_deterministic, MixedRadix};

#[test]
fn mixedradix_iteration() {
    let system = MixedRadix::new(vec![3, 2, 2]);
    let expected = vec![
        vec![0, 0, 0],
        vec![1, 0, 0],
        vec![2, 0, 0],
        vec![0, 1, 0],
        vec![1, 1, 0],
        vec![2, 1, 0],
        vec![0, 0, 1],
        vec![1, 0, 1],
        vec![2, 0, 1],
        vec![0, 1, 1],
        vec![1, 1, 1],
        vec![2, 1, 1],
    ];
    // check if the iterator can be used multiple times
    for _ in 0..2 {
        let mut it = system.iter();
        let mut i = 0;
        while let Some(repr) = it.next() {
            assert_eq!(repr, expected[i]);
            i += 1;
        }
        assert_eq!(i, expected.len());
    }
}

#[test]
fn mixedradix_edgecase() {
    let system = MixedRadix::new(vec![1, 2]);
    let expected = vec![vec![0, 0], vec![0, 1]];
    let mut it = system.iter();
    let mut i = 0;
    while let Some(repr) = it.next() {
        assert_eq!(repr, expected[i]);
        i += 1;
    }
    assert_eq!(i, expected.len());
}

#[test]
fn encode_decode_example() {
    // the value 54 over the bases (5, 4, 3) is represented as (4, 2, 2)
    let system = MixedRadix::new(vec![5, 4, 3]);
    assert_eq!(system.max_value, 60);
    let repr = system.encode_value(&54);
    assert_eq!(repr, vec![4, 2, 2]);
    assert_eq!(system.decode_representation(&repr), 54);
}

#[test]
fn codec_round_trip_all_values() {
    let system = MixedRadix::new(vec![3, 2, 2]);
    for v in 0..system.max_value {
        let repr = system.encode_value(&v);
        assert_eq!(system.decode_representation(&repr), v);
    }
}

#[test]
fn iteration_deterministic_law() {
    for bases in [vec![], vec![4], vec![2, 3], vec![3, 2, 2], vec![1, 5, 1]] {
        let system = MixedRadix::new(bases);
        assert!(check_iteration_deterministic(&system));
    }
}

#[test]
fn zero_base_gives_empty_space() {
    let system = MixedRadix::new(vec![3, 0, 2]);
    assert_eq!(system.max_value, 0);
    let mut it = system.iter();
    assert_eq!(it.next(), None);
}

#[test]
fn all_representations_in_value_order() {
    let system = MixedRadix::new(vec![2, 3]);
    let all = system.all_representations();
    assert_eq!(all.len(), 6);
    for (v, repr) in all.iter().enumerate() {
        assert_eq!(system.decode_representation(repr), v);
    }
}
