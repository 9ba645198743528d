use introsort::{heapsort, insertion_sort, sort_by};
use rand::Rng;
use std::cmp::Ordering;

type Compare = fn(&usize, &usize) -> Ordering;

fn ascending(a: &usize, b: &usize) -> Ordering {
    a.cmp(b)
}

fn descending(a: &usize, b: &usize) -> Ordering {
    b.cmp(a)
}

fn random_values(len: usize) -> Vec<usize> {
    let mut rng = rand::thread_rng();
    (0..len).map(|_| 10 + usize::from(rng.gen::<u8>() % 89)).collect()
}

fn do_test_sort(sortfun: fn(&mut [usize], &Compare)) {
    let cmp: Compare = ascending;
    let cmp_rev: Compare = descending;
    for len in (4usize..250).step_by(5) {
        for _ in 0isize..100 {
            let mut v = random_values(len);
            let mut v1 = v.clone();

            sortfun(&mut v[..], &cmp);
            assert!(v.windows(2).all(|w| w[0] <= w[1]));

            sortfun(&mut v1[..], &cmp);
            assert!(v1.windows(2).all(|w| w[0] <= w[1]));

            sortfun(&mut v1[..], &cmp_rev);
            assert!(v1.windows(2).all(|w| w[0] >= w[1]));
        }
    }
    // shouldn't fail/crash
    let mut v: [usize; 0] = [];
    sortfun(&mut v[..], &cmp);

    let mut v = [0xDEADBEEFusize];
    sortfun(&mut v[..], &cmp);
    assert!(v == [0xDEADBEEF]);
}

#[test]
fn test_introsort() {
    do_test_sort(sort_by::<usize, Compare>);
}

#[test]
fn test_heapsort() {
    do_test_sort(heapsort::<usize, Compare>);
}

#[test]
fn test_insertion_sort() {
    do_test_sort(insertion_sort::<usize, Compare>);
}
