use primer::Primer;
use std::cell::{Cell, RefCell};

fn first_primes(n: usize) -> Vec<i64> {
    let mut primes = Vec::new();
    let mut candidate = 2i64;
    while primes.len() < n {
        if primes.iter().take_while(|&&p| p * p <= candidate).all(|&p| candidate % p != 0) {
            primes.push(candidate);
        }
        candidate += 1;
    }
    primes
}

fn emitted(n: usize) -> Vec<(usize, i64)> {
    let mut primer = Primer::new().expect("should be able to open the sieve");
    let out = RefCell::new(Vec::new());
    primer
        .crunch(|_| out.borrow().len() < n, |index, prime| out.borrow_mut().push((index, prime)))
        .unwrap();
    out.into_inner()
}

#[test]
fn primer_aborts_if_cancelled() {
    let mut primer = Primer::new().expect("should be able to open the sieve");

    primer.crunch(|_| false, |_, _| assert!(false, "callback should not run")).unwrap();
}

#[test]
fn emits_the_first_five_primes() {
    assert_eq!(emitted(5), vec![(0, 2), (1, 3), (2, 5), (3, 7), (4, 11)]);
}

#[test]
fn emits_the_first_ten_primes() {
    assert_eq!(
        emitted(10),
        vec![(0, 2), (1, 3), (2, 5), (3, 7), (4, 11), (5, 13), (6, 17), (7, 19), (8, 23), (9, 29)]
    );
}

#[test]
fn emits_the_reference_primes_for_each_count() {
    let reference = first_primes(10_000);
    for n in [0usize, 1, 5, 100, 10_000] {
        let got: Vec<i64> = emitted(n).into_iter().map(|(_, p)| p).collect();
        assert_eq!(got, reference[..n].to_vec());
    }
}

#[test]
fn indices_count_calls_and_primes_ascend() {
    let mut primer = Primer::new().unwrap();
    let calls = Cell::new(0usize);
    let last = Cell::new(0i64);
    primer
        .crunch(
            |_| calls.get() < 2_000,
            |index, prime| {
                assert_eq!(index, calls.get());
                assert!(prime > last.get());
                last.set(prime);
                calls.set(calls.get() + 1);
            },
        )
        .unwrap();
    assert_eq!(calls.get(), 2_000);
    assert_eq!(last.get(), 17389);
}

#[test]
fn resumed_sieve_continues_the_sequence() {
    let mut primer = Primer::new().unwrap();
    let out = RefCell::new(Vec::new());
    primer
        .crunch(|_| out.borrow().len() < 7, |index, prime| out.borrow_mut().push((index, prime)))
        .unwrap();
    primer
        .crunch(|_| out.borrow().len() < 12, |index, prime| out.borrow_mut().push((index, prime)))
        .unwrap();
    let expected: Vec<(usize, i64)> = first_primes(12).into_iter().enumerate().collect();
    assert_eq!(out.into_inner(), expected);
}

#[test]
fn advance_examines_one_candidate_at_a_time() {
    let mut primer = Primer::new().unwrap();
    let mut found = Vec::new();
    let mut misses = 0usize;
    while found.len() < 8 {
        match primer.advance().unwrap() {
            Some(pair) => found.push(pair),
            None => misses += 1,
        }
    }
    assert_eq!(found, vec![(0, 2), (1, 3), (2, 5), (3, 7), (4, 11), (5, 13), (6, 17), (7, 19)]);
    // The wheel goes 13, 17, 19, 21, 23: 21 is the first candidate it strikes out.
    assert_eq!(misses, 0);
    assert_eq!(primer.advance().unwrap(), None);
    assert_eq!(primer.advance().unwrap(), Some((8, 23)));
}

#[test]
fn is_active_is_told_the_count_so_far() {
    let mut primer = Primer::new().unwrap();
    let asked = RefCell::new(Vec::new());
    let out = RefCell::new(Vec::new());
    primer
        .crunch(
            |emitted| {
                asked.borrow_mut().push(emitted);
                emitted < 6
            },
            |index, prime| out.borrow_mut().push((index, prime)),
        )
        .unwrap();
    assert_eq!(out.into_inner(), vec![(0, 2), (1, 3), (2, 5), (3, 7), (4, 11), (5, 13)]);
    let asked = asked.into_inner();
    assert_eq!(asked.first(), Some(&0));
    assert_eq!(asked.last(), Some(&6));
    assert!(asked.windows(2).all(|w| w[0] <= w[1]));
}
