use crowd_flow::statistics::{mean, median};

#[test]
fn mean_of_one_duration_is_itself() {
    assert_eq!(mean(&vec![7]), 7);
    assert_eq!(mean(&vec![0]), 0);
}

#[test]
fn mean_is_rounded_down() {
    assert_eq!(mean(&vec![1, 2]), 1);
    assert_eq!(mean(&vec![1, 2, 3, 4]), 2);
    assert_eq!(mean(&vec![10, 20, 30]), 20);
    assert_eq!(mean(&vec![5, 5, 6]), 5);
}

#[test]
fn mean_of_the_longest_durations_does_not_overflow() {
    assert_eq!(mean(&vec![u64::MAX, u64::MAX, u64::MAX]), u64::MAX);
    assert_eq!(mean(&vec![u64::MAX, 0]), u64::MAX / 2);
    assert_eq!(mean(&vec![u64::MAX, u64::MAX - 2]), u64::MAX - 1);
}

#[test]
fn median_of_an_odd_number_is_the_one_in_the_middle() {
    assert_eq!(median(&vec![9]), 9);
    assert_eq!(median(&vec![3, 1, 2]), 2);
    assert_eq!(median(&vec![50, 10, 40, 20, 30]), 30);
    assert_eq!(median(&vec![7, 7, 1, 9, 7]), 7);
}

#[test]
fn median_of_an_even_number_is_the_mean_of_the_two_in_the_middle() {
    assert_eq!(median(&vec![4, 2]), 3);
    assert_eq!(median(&vec![1, 2]), 1);
    assert_eq!(median(&vec![40, 10, 30, 20]), 25);
    assert_eq!(median(&vec![8, 8, 8, 8]), 8);
    assert_eq!(median(&vec![u64::MAX, u64::MAX]), u64::MAX);
}

#[test]
fn median_does_not_depend_on_the_order() {
    let a = vec![12, 5, 99, 5, 0, 41, 77, 3];
    let mut b = a.clone();
    b.reverse();
    let mut c = a.clone();
    c.sort();
    assert_eq!(median(&a), 8);
    assert_eq!(median(&b), 8);
    assert_eq!(median(&c), 8);
}

#[test]
fn median_against_sorting() {
    let mut state: u64 = 99;
    for len in 1..40usize {
        let mut a = Vec::new();
        for _ in 0..len {
            state = state.wrapping_mul(6364136223846793005).wrapping_add(1442695040888963407);
            a.push((state >> 40) % 50);
        }
        let mut s = a.clone();
        s.sort();
        let expected = if len % 2 == 0 { (s[len / 2] + s[len / 2 - 1]) / 2 } else { s[len / 2] };
        assert_eq!(median(&a), expected);
        let sum: u64 = a.iter().sum();
        assert_eq!(mean(&a), sum / len as u64);
    }
}
