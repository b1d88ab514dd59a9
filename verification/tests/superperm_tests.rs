use rand::Rng;
use superperms::base::{check_self_agreement, SuperPermHandling};
use superperms::{bruteforce, bruteforce_optimise};

/// Common tests to perform on each implementation.
fn common_checks(superperm_h: impl SuperPermHandling) {
    // self agreement test
    for n in 1..7 {
        assert!(superperm_h.check_superperm(&superperm_h.create_superperm(n), n));
    }

    // invalid case
    assert!(!superperm_h.check_superperm(&vec![1, 2, 3, 2], 3));
    // valid cases
    assert!(superperm_h.check_superperm(&vec![1, 2, 3, 1, 2, 1, 3, 2, 1], 3));
    assert!(superperm_h.check_superperm(
        &vec![
            1, 2, 3, 4, 1, 2, 3, 1, 4, 2, 3, 1, 2, 4, 3, 1, 2, 1, 3, 4, 2, 1, 3, 2, 4, 1, 3, 2,
            1, 4, 3, 2, 1
        ],
        4
    ));
    // fuzz testing valid cases (appending random numbers at beginning/end
    // should not affect a valid superpermutation)
    let mut rng = rand::thread_rng();
    for _ in 0..10 {
        let mut pre = vec![0; rng.gen_range(1..10)];
        let mut suf = vec![0; rng.gen_range(1..10)];
        pre.iter_mut().for_each(|x| *x = rng.gen_range(1..4));
        suf.iter_mut().for_each(|x| *x = rng.gen_range(1..4));
        let vec = [pre, vec![1, 2, 3, 1, 2, 1, 3, 2, 1], suf].concat();
        assert!(superperm_h.check_superperm(&vec, 3));
    }
}

#[test]
fn bruteforce_test() {
    common_checks(bruteforce::Handle {});
}

#[test]
fn bruteforce_optimise_test() {
    common_checks(bruteforce_optimise::Handle {});
}

#[test]
fn basic_check() {
    for n in 1..6 {
        assert!(bruteforce::check_superperm(&bruteforce::create_superperm(n), n));
    }
}

#[test]
fn self_agreement_law() {
    for n in 0..6 {
        assert!(check_self_agreement(&bruteforce::Handle {}, n));
        assert!(check_self_agreement(&bruteforce_optimise::Handle {}, n));
    }
}

#[test]
fn strategies_agree_on_check() {
    let naive = bruteforce::Handle {};
    let optimised = bruteforce_optimise::Handle {};
    let cases: Vec<(Vec<usize>, usize)> = vec![
        (vec![1, 2, 3, 2], 3),
        (vec![1, 2, 3, 1, 2, 1, 3, 2, 1], 3),
        (vec![1, 2, 1], 2),
        (vec![1, 2], 2),
        (vec![1], 1),
        (vec![], 1),
        (vec![2, 1, 2], 2),
    ];
    for (seq, n) in cases {
        assert_eq!(
            naive.check_superperm(&seq, n),
            optimised.check_superperm(&seq, n)
        );
    }
}

#[test]
fn short_sequences_fail() {
    assert!(!bruteforce::check_superperm(&vec![1, 2], 3));
    assert!(!bruteforce_optimise::Handle {}.check_superperm(&vec![1, 2], 3));
    assert!(!bruteforce::check_superperm(&vec![], 1));
}

#[test]
fn single_token_alphabet() {
    assert_eq!(bruteforce::create_superperm(1), vec![1]);
    assert!(bruteforce::check_superperm(&vec![1], 1));
    let built = bruteforce_optimise::Handle {}.create_superperm(1);
    assert_eq!(built, vec![1]);
}

#[test]
fn known_padding_is_harmless() {
    let optimised = bruteforce_optimise::Handle {};
    let core = vec![1, 2, 3, 1, 2, 1, 3, 2, 1];
    let padded = [vec![3, 3, 2], core.clone(), vec![1, 1]].concat();
    assert!(optimised.check_superperm(&padded, 3));
    let naive = bruteforce::Handle {};
    assert!(naive.check_superperm(&padded, 3));
}

#[test]
fn documented_exact_outputs() {
    // the documented greedy output for three tokens
    assert_eq!(
        bruteforce::create_superperm(3),
        vec![1, 2, 3, 1, 2, 1, 3, 2, 1]
    );
    assert_eq!(bruteforce::create_superperm(2), vec![1, 2, 1]);
    let optimised = bruteforce_optimise::Handle {};
    assert_eq!(optimised.create_superperm(2), vec![1, 2, 1]);
    assert_eq!(
        optimised.create_superperm(3),
        vec![1, 2, 3, 1, 2, 1, 3, 2, 1]
    );
}

#[test]
fn repeated_calls_agree() {
    let naive = bruteforce::Handle {};
    let optimised = bruteforce_optimise::Handle {};
    for n in 0..5 {
        assert_eq!(naive.create_superperm(n), naive.create_superperm(n));
        assert_eq!(optimised.create_superperm(n), optimised.create_superperm(n));
    }
}

#[test]
fn construction_shape() {
    fn factorial(n: usize) -> usize {
        (1..=n).product()
    }
    let naive = bruteforce::Handle {};
    let optimised = bruteforce_optimise::Handle {};
    for n in 1..6 {
        for built in [naive.create_superperm(n), optimised.create_superperm(n)] {
            // starts with the base sequence 1..=n
            let id: Vec<usize> = (1..=n).collect();
            assert_eq!(&built[..n], &id[..]);
            // length bounds from one new permutation per greedy step
            assert!(n + factorial(n) - 1 <= built.len());
            assert!(built.len() <= n * factorial(n));
        }
    }
}
