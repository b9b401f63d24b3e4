use analyses::combinatorics::{binomial, hypercube, multi_indices};
use analyses::typ::ATyp;

/// Position of multi-index / hypercube point `k` in the slot order of `typ`.
fn index_of(typ: &ATyp, k: &[usize]) -> usize {
    match typ {
        ATyp::VPoly(n, m) => multi_indices(*n, *m)
            .iter()
            .position(|kk| kk.as_slice() == k)
            .expect("multi-index out of range for VPoly"),
        ATyp::Mle(n) => {
            assert_eq!(k.len(), *n);
            let mut acc = 0usize;
            for (j, bj) in k.iter().enumerate() {
                assert!(*bj <= 1);
                acc |= (bj & 1) << j;
            }
            acc
        }
        _ => 0,
    }
}

#[test]
fn test_multi_indices_univariate() {
    let got = multi_indices(1, 3);
    assert_eq!(got, vec![vec![0], vec![1], vec![2], vec![3]]);
}

#[test]
fn test_multi_indices_two_vars_deg2() {
    let got = multi_indices(2, 2);
    assert_eq!(
        got,
        vec![vec![0, 0], vec![0, 1], vec![1, 0], vec![0, 2], vec![1, 1], vec![2, 0]]
    );
}

#[test]
fn test_hypercube_enumeration() {
    let got = hypercube(3);
    assert_eq!(got[0], vec![0, 0, 0]);
    assert_eq!(got[1], vec![1, 0, 0]);
    assert_eq!(got[2], vec![0, 1, 0]);
    assert_eq!(got[7], vec![1, 1, 1]);
}

#[test]
fn test_binomial_helper_sanity() {
    assert_eq!(binomial(0, 0), 1);
    assert_eq!(binomial(5, 0), 1);
    assert_eq!(binomial(5, 5), 1);
    assert_eq!(binomial(5, 2), 10);
    assert_eq!(binomial(6, 3), 20);
    assert_eq!(binomial(10, 4), 210);
}

#[test]
fn test_physical_len_vpoly_matches_binomial() {
    for n in 1..=5usize {
        for m in 0..=5usize {
            assert_eq!(ATyp::VPoly(n, m).physical_len(), binomial(n + m, n));
        }
    }
}

#[test]
fn test_physical_len_mle_is_power_of_two() {
    for n in 0..=5usize {
        assert_eq!(ATyp::Mle(n).physical_len(), 1usize << n);
    }
}

#[test]
fn test_physical_len_uni_is_m_plus_one() {
    for m in 0..=15usize {
        assert_eq!(ATyp::Uni(m).physical_len(), m + 1);
    }
}

#[test]
fn test_physical_len_vec_is_length() {
    for n in 0..=16usize {
        for inner in [ATyp::scalar(), ATyp::unit(), ATyp::g1(), ATyp::g2()] {
            let typ = ATyp::vec(&inner, n);
            assert_eq!(typ.physical_len(), n);
        }
    }
}

#[test]
fn test_physical_len_base_is_one() {
    for typ in [ATyp::scalar(), ATyp::unit(), ATyp::g1(), ATyp::g2(), ATyp::gt(), ATyp::fin(0)] {
        assert_eq!(typ.physical_len(), 1);
    }
}

#[test]
fn test_multi_indices_len_matches_physical_len() {
    for n in 1..=4usize {
        for m in 0..=4usize {
            assert_eq!(multi_indices(n, m).len(), ATyp::VPoly(n, m).physical_len());
        }
    }
}

#[test]
fn test_hypercube_len_is_power_of_two() {
    for n in 0..=5usize {
        assert_eq!(hypercube(n).len(), 1usize << n);
    }
}

#[test]
fn test_index_of_mle_roundtrip_grid() {
    for n in 1..=4usize {
        let cube = hypercube(n);
        for (i, b) in cube.iter().enumerate() {
            assert_eq!(index_of(&ATyp::Mle(n), b), i);
        }
    }
}

#[test]
fn test_index_of_vpoly_position_roundtrip() {
    for n in 1..=4usize {
        for m in 0..=4usize {
            let mis = multi_indices(n, m);
            for (i, k) in mis.iter().enumerate() {
                assert_eq!(index_of(&ATyp::VPoly(n, m), k), i);
            }
        }
    }
}

#[test]
fn test_multi_indices_graded_lex_ordering() {
    for n in 1..=4usize {
        for m in 0..=4usize {
            let mis = multi_indices(n, m);
            for w in mis.windows(2) {
                let da: usize = w[0].iter().sum();
                let db: usize = w[1].iter().sum();
                assert!(da < db || (da == db && w[0] < w[1]));
            }
        }
    }
}

#[test]
fn multi_indices_start_with_the_constant_monomial() {
    for n in 0..=4usize {
        for m in 0..=3usize {
            assert_eq!(multi_indices(n, m)[0], vec![0; n]);
        }
    }
}

#[test]
fn multi_indices_of_lower_degree_are_a_prefix() {
    for n in 1..=3usize {
        let small = multi_indices(n, 2);
        let big = multi_indices(n, 4);
        assert_eq!(&big[..small.len()], &small[..]);
    }
}

#[test]
fn binomial_counts_multi_indices_exactly() {
    assert_eq!(multi_indices(3, 2).len(), 10);
    assert_eq!(binomial(7, 3), 35);
    assert_eq!(binomial(3, 7), 0);
}
