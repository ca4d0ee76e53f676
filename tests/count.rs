use inversion_number::{count, CountError};

fn brute_force(a: &[usize]) -> u64 {
    let mut total: u64 = 0;
    for i in 0..a.len() {
        for j in (i + 1)..a.len() {
            if a[i] > a[j] {
                total += 1;
            }
        }
    }
    total
}

/// A permutation of `1..=n` shuffled by a fixed linear congruential generator.
fn shuffled(n: usize, seed: u64) -> Vec<usize> {
    let mut a: Vec<usize> = (1..=n).collect();
    let mut state = seed;
    for i in (1..n).rev() {
        state = state.wrapping_mul(6364136223846793005).wrapping_add(1442695040888963407);
        let j = ((state >> 33) % (i as u64 + 1)) as usize;
        a.swap(i, j);
    }
    a
}

#[test]
fn it_works() {
    // The inverted pairs: 4 before 1, 2, 3; 8 before 5, 6, 2, 7, 3;
    // 5 before 2, 3; 6 before 2, 3; 7 before 3. Thirteen in all.
    let a = [4, 1, 8, 5, 6, 2, 7, 3];
    let res = count(&a);
    assert!(res.is_ok());
    assert!(res.unwrap() == 13_u64);
    assert_eq!(brute_force(&a), 13);
}

#[test]
fn empty_is_zero() {
    assert_eq!(count(&[]), Ok(0));
}

#[test]
fn single_item() {
    assert_eq!(count(&[1]), Ok(0));
    assert_eq!(count(&[2]), Err(CountError::InvalidInput));
    assert_eq!(count(&[0]), Err(CountError::InvalidInput));
}

#[test]
fn ascending_has_none() {
    assert_eq!(count(&[1, 2, 3, 4]), Ok(0));
    let a: Vec<usize> = (1..=1000).collect();
    assert_eq!(count(&a), Ok(0));
}

#[test]
fn descending_has_all() {
    assert_eq!(count(&[4, 3, 2, 1]), Ok(6));
    let n: usize = 200_000;
    let a: Vec<usize> = (1..=n).rev().collect();
    assert_eq!(count(&a), Ok((n as u64) * (n as u64 - 1) / 2));
}

#[test]
fn two_items_inverted() {
    assert_eq!(count(&[2, 1]), Ok(1));
}

#[test]
fn width_not_a_power_of_two() {
    assert_eq!(count(&[3, 1, 2]), Ok(2));
    assert_eq!(count(&[5, 4, 1, 3, 2]), Ok(8));
}

#[test]
fn zero_is_rejected() {
    assert_eq!(count(&[0, 1]), Err(CountError::InvalidInput));
}

#[test]
fn above_length_is_rejected() {
    assert_eq!(count(&[1, 3]), Err(CountError::InvalidInput));
}

#[test]
fn duplicate_is_rejected() {
    assert_eq!(count(&[1, 1]), Err(CountError::InvalidInput));
    assert_eq!(count(&[3, 1, 2, 2]), Err(CountError::InvalidInput));
}

#[test]
fn offending_item_anywhere() {
    let base: Vec<usize> = vec![3, 1, 4, 5, 2];
    for pos in 0..base.len() {
        let mut low = base.clone();
        low[pos] = 0;
        assert_eq!(count(&low), Err(CountError::InvalidInput));
        let mut high = base.clone();
        high[pos] = 6;
        assert_eq!(count(&high), Err(CountError::InvalidInput));
        let mut dup = base.clone();
        dup[pos] = base[(pos + 1) % base.len()];
        assert_eq!(count(&dup), Err(CountError::InvalidInput));
    }
}

#[test]
fn error_message() {
    assert_eq!(
        CountError::InvalidInput.message(),
        "The Sequence has an item not in [1,len(seq)] or duplication"
    );
}

#[test]
fn matches_brute_force() {
    let mut seed: u64 = 7;
    for &n in &[0usize, 1, 2, 5, 50, 500] {
        for _ in 0..170 {
            seed += 1;
            let a = shuffled(n, seed);
            assert_eq!(count(&a), Ok(brute_force(&a)));
        }
    }
}

#[test]
fn within_pair_bound() {
    for seed in 0..20u64 {
        let a = shuffled(30, seed);
        let c = count(&a).unwrap();
        assert!(c <= 30 * 29 / 2);
    }
}

#[test]
fn reverse_complements() {
    for seed in 0..20u64 {
        let a = shuffled(40, seed);
        let mut r = a.clone();
        r.reverse();
        assert_eq!(count(&a).unwrap() + count(&r).unwrap(), 40 * 39 / 2);
    }
}

#[test]
fn adjacent_swap_changes_by_one() {
    let a = shuffled(25, 3);
    let c = count(&a).unwrap() as i64;
    for i in 0..24 {
        let mut b = a.clone();
        b.swap(i, i + 1);
        let d = count(&b).unwrap() as i64 - c;
        if a[i] < a[i + 1] {
            assert_eq!(d, 1);
        } else {
            assert_eq!(d, -1);
        }
    }
}

#[test]
fn transposition_changes_by_odd_amount() {
    let a = shuffled(12, 11);
    let c = count(&a).unwrap() as i64;
    for i in 0..12 {
        for j in (i + 1)..12 {
            let mut b = a.clone();
            b.swap(i, j);
            let d = count(&b).unwrap() as i64 - c;
            assert_eq!(d.rem_euclid(2), 1);
            let (lo, hi) = if a[i] < a[j] { (a[i], a[j]) } else { (a[j], a[i]) };
            let m = ((i + 1)..j).filter(|&k| lo < a[k] && a[k] < hi).count() as i64;
            if a[i] < a[j] {
                assert_eq!(d, 1 + 2 * m);
            } else {
                assert_eq!(d, -(1 + 2 * m));
            }
            if (j - i) % 2 == 1 {
                assert_eq!(d.rem_euclid(2), ((j - i) % 2) as i64);
            }
        }
    }
}

#[test]
fn ends_of_three_exchanged() {
    assert_eq!(count(&[1, 2, 3]), Ok(0));
    assert_eq!(count(&[3, 2, 1]), Ok(3));
}

#[test]
fn validity_ignores_order() {
    let bad: Vec<usize> = vec![2, 7, 1, 3];
    for i in 0..bad.len() {
        for j in (i + 1)..bad.len() {
            let mut b = bad.clone();
            b.swap(i, j);
            assert_eq!(count(&b), Err(CountError::InvalidInput));
        }
    }
}
