use sort::is_permutation;
use sort::is_sorted;
use sort::is_sorted_int;
use sort::is_unique;
use sort::sort;

#[test]
fn test_is_sorted_int() {
    let sorted_vals: [i64; 3] = [1, 4, 5];
    let notsorted: [i64; 3] = [1, 5, 4];
    let empty: [i64; 0] = [];
    assert!(is_sorted_int(&sorted_vals));
    assert!(!is_sorted_int(&notsorted));
    assert!(is_sorted_int(&empty));
}

#[test]
fn test_is_sorted() {
    let sorted_vals: [i64; 3] = [1, 4, 5];
    let notsorted1: [i64; 3] = [1, 5, 4];
    let notsorted2: [i64; 3] = [6, 5, 4];
    let notsorted3: [i64; 4] = [2, 7, 5, 6];
    let empty: [i64; 0] = [];
    assert!(is_sorted(&sorted_vals));
    assert!(!is_sorted(&notsorted1));
    assert!(!is_sorted(&notsorted2));
    assert!(!is_sorted(&notsorted3));
    assert!(is_sorted(&empty));
    let single: [i64; 1] = [7];
    assert!(is_sorted(&single));
}

#[test]
fn test_is_unique() {
    let unique: [i64; 3] = [1, 4, 5];
    let notunique: [i64; 3] = [1, 5, 5];
    let notunique2: [i64; 4] = [1, 1, 5, 6];
    let empty: [i64; 0] = [];
    assert!(is_unique(&unique));
    assert!(!is_unique(&notunique));
    assert!(!is_unique(&notunique2));
    assert!(is_unique(&empty));
    let single: [i64; 1] = [7];
    assert!(is_unique(&single));
}

#[test]
fn test_is_permutation() {
    let perm1: [i64; 3] = [1, 4, 5];
    let same_as_perm1: [i64; 3] = [5, 1, 4];
    let perm2: [i64; 3] = [5, 1, 5];
    let empty1: [i64; 0] = [];
    let empty2: [i64; 0] = [];
    assert!(is_permutation(&perm1, &perm1));
    assert!(is_permutation(&perm1, &same_as_perm1));
    assert!(!is_permutation(&perm1, &perm2));
    assert!(!is_permutation(&perm2, &same_as_perm1));
    assert!(is_permutation(&empty1, &empty2));
    assert!(!is_permutation(&empty1, &perm1));
    assert!(!is_permutation(&empty2, &same_as_perm1));
}

#[test]
fn test_sort() {
    let a: [i64; 3] = [1, 5, 4];
    let b: [i64; 6] = [1, 4, 4, 55, 6, 7];
    let vv: Vec<i64> = Vec::with_capacity(a.len());
    let vv = sort(&a, vv);
    assert!(is_sorted(&vv));
    assert!(is_permutation(&a, &vv));
    let w: Vec<i64> = Vec::with_capacity(b.len());
    let w = sort(&b, w);
    assert!(is_sorted(&w));
    assert!(is_permutation(&b, &w));
}

#[test]
fn test_sort_expected_values() {
    let a: [i64; 3] = [1, 5, 4];
    let r = sort(&a, Vec::new());
    assert_eq!(r, vec![1, 4, 5]);
    let b: [i64; 6] = [1, 4, 4, 55, 6, 7];
    let r = sort(&b, Vec::new());
    assert_eq!(r, vec![1, 4, 4, 6, 7, 55]);
}

#[test]
fn test_sort_already_sorted_identity() {
    let a: [i64; 5] = [-3, 0, 0, 2, 9];
    let r = sort(&a, Vec::new());
    assert_eq!(r, vec![-3, 0, 0, 2, 9]);
    let empty: [i64; 0] = [];
    let r = sort(&empty, Vec::new());
    assert!(r.is_empty());
}

#[test]
fn test_sort_merges_into_nonempty_destination() {
    let a: [i64; 2] = [3, 1];
    let v: Vec<i64> = vec![2, 4];
    let r = sort(&a, v);
    assert_eq!(r, vec![1, 2, 3, 4]);
    let dup: [i64; 2] = [2, 2];
    let v: Vec<i64> = vec![1, 2, 3];
    let r = sort(&dup, v);
    assert_eq!(r, vec![1, 2, 2, 2, 3]);
}

#[test]
fn test_sort_extreme_values() {
    let a: [i64; 4] = [i64::MAX, i64::MIN, 0, -1];
    let r = sort(&a, Vec::new());
    assert_eq!(r, vec![i64::MIN, -1, 0, i64::MAX]);
    assert!(is_sorted(&r));
    assert!(is_permutation(&a, &r));
}

#[test]
fn test_permutation_agrees_with_sorting() {
    let pairs: [(Vec<i64>, Vec<i64>); 4] = [
        (vec![1, 4, 5], vec![5, 1, 4]),
        (vec![1, 4, 5], vec![5, 1, 5]),
        (vec![2, 2, 3], vec![3, 2, 2]),
        (vec![2, 2, 3], vec![3, 3, 2]),
    ];
    for (a, b) in pairs.iter() {
        let sa = sort(a, Vec::new());
        let sb = sort(b, Vec::new());
        assert_eq!(is_permutation(a, b), sa == sb);
    }
}

fn next_pseudo(state: &mut u64) -> u64 {
    *state = state
        .wrapping_mul(6364136223846793005)
        .wrapping_add(1442695040888963407);
    *state
}

#[test]
fn test_sort_random_vectors() {
    let mut state: u64 = 0x5EED;
    for round in 0..10 {
        let len = if round == 0 { 0 } else { (next_pseudo(&mut state) % 30) as usize };
        let mut vi: Vec<i64> = Vec::with_capacity(len);
        for _ in 0..len {
            vi.push((next_pseudo(&mut state) % 201) as i64 - 100);
        }
        let vo: Vec<i64> = Vec::with_capacity(vi.len());
        let vo = sort(&vi, vo);
        assert!(is_sorted(&vo));
        assert!(is_permutation(&vi, &vo));
    }
}
