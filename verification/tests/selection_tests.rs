use max_n::comparator::U64Natural;
use max_n::selection::max_n_by_from_iter;
use rand::{Rng, RngCore, SeedableRng};

fn max_n(a: Vec<u64>, k: usize) -> Vec<u64> {
    max_n_by_from_iter(a, k, U64Natural).unwrap()
}

#[test]
fn max_n1() {
    let a = vec![1u64];
    let b = vec![1u64];
    assert_eq!(max_n(a, 1), b);
}

#[test]
fn max_n2() {
    let a = vec![1u64, 2];
    let b = vec![2u64];
    assert_eq!(max_n(a, 1), b);
}

#[test]
fn max_n3() {
    let a = vec![1u64, 2, 3];
    let b = vec![3u64];
    assert_eq!(max_n(a, 1), b);
}

#[test]
fn max_n3_2() {
    let a = vec![1u64, 2, 3];
    let b = vec![2u64, 3];
    assert_eq!(max_n(a, 2), b);
}

#[test]
fn smoke_largerange() {
    let mut rng = rand_chacha::ChaCha8Rng::seed_from_u64(42);

    for _ in 0..1000 {
        let mut a = Vec::new();
        for _ in 0..(1000 + rng.gen_range(0..1000)) {
            a.push(rng.next_u64());
        }
        let mut b = max_n(a.clone(), 10);
        a.sort();
        b.sort();

        assert_eq!(a[a.len() - 10..], b[..]);
    }
}

#[test]
fn smoke_smallrange() {
    let mut rng = rand_chacha::ChaCha8Rng::seed_from_u64(42);

    for _ in 0..1000 {
        let mut a = Vec::new();
        for _ in 0..(1000 + rng.gen_range(0..1000)) {
            a.push(rng.gen_range(0..16));
        }
        let mut b = max_n(a.clone(), 10);
        a.sort();
        b.sort();

        assert_eq!(a[a.len() - 10..], b[..]);
    }
}
