use superperms::mapper::{check_round_trip, PermutationMapper};

#[test]
fn encode_and_decode_permutations() {
    let helper = PermutationMapper::new((1..6).collect());

    for i in 1..helper.mixed_radix_sys.max_value {
        assert_eq!(helper.perm_to_value(&helper.value_to_perm(&i)), Some(i));
    }
}

#[test]
fn impossible_permutations() {
    let helper = PermutationMapper::new((1..6).collect());
    let impossible = vec![
        vec![1, 2, 3, 4, 4],
        vec![0, 2, 3, 4, 5],
        vec![1, 2, 3, 2, 5],
        vec![1, 2, 3, 5],
        vec![1, 2, 3, 4, 5, 6],
    ];
    for imp in impossible {
        println!("{:?}", imp);
        assert_eq!(helper.perm_to_value(&imp), None);
    }
}

#[test]
fn value_zero_is_base_sequence() {
    let mapper = PermutationMapper::new(vec![1, 2, 3, 4]);
    assert_eq!(mapper.value_to_perm(&0), vec![1, 2, 3, 4]);
    assert_eq!(mapper.perm_to_value(&vec![1, 2, 3, 4]), Some(0));
}

#[test]
fn round_trip_law_holds() {
    let mapper = PermutationMapper::new((1..5).collect());
    for v in 0..mapper.mixed_radix_sys.max_value {
        assert!(check_round_trip(&mapper, v));
    }
}

#[test]
fn possible_values_empty_prefix_is_everything() {
    let mapper = PermutationMapper::new(vec![1, 2, 3]);
    let all = mapper.possible_values_for(&vec![]);
    assert_eq!(all, vec![0, 1, 2, 3, 4, 5]);
}

#[test]
fn possible_values_match_decoded_permutations() {
    let mapper = PermutationMapper::new(vec![1, 2, 3, 4]);
    for prefix in [vec![2], vec![3, 1], vec![4, 2, 1], vec![1, 2, 3, 4]] {
        let reported = mapper.possible_values_for(&prefix);
        let mut expected = Vec::new();
        for v in 0..mapper.mixed_radix_sys.max_value {
            let perm = mapper.value_to_perm(&v);
            if perm[..prefix.len()] == prefix[..] {
                expected.push(v);
            }
        }
        assert_eq!(reported, expected);
    }
}

#[test]
fn possible_values_rejects_bad_prefixes() {
    let mapper = PermutationMapper::new(vec![1, 2, 3]);
    assert_eq!(mapper.possible_values_for(&vec![2, 2]), Vec::<usize>::new());
    assert_eq!(mapper.possible_values_for(&vec![7]), Vec::<usize>::new());
    assert_eq!(
        mapper.possible_values_for(&vec![1, 2, 3, 1]),
        Vec::<usize>::new()
    );
}
