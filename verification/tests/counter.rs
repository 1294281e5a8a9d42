use ring_channel::counter::{
    msb_nn, msb_pp, AtomicCounter, Counter, CounterRange, COUNTER_VALID_RANGE,
};

#[test]
fn test_counter_utils() {
    assert!(msb_pp(Counter(!0)));
    assert!(!msb_nn(Counter(!0)));
    assert!(!msb_pp(Counter(0)));
    assert!(msb_nn(Counter(0)));

    assert_ne!(COUNTER_VALID_RANGE << 2, 0);
    assert_eq!(COUNTER_VALID_RANGE << 3, 0);
}

#[test]
fn test_compare_counters() {
    let zero = Counter::new(0);

    assert_eq!(zero, zero);
    assert!(zero <= zero);
    assert!(zero >= zero);
    assert!(zero < zero + 1);
    assert!(zero <= zero + 1);

    let mut one = zero;
    one += 1;
    assert_eq!(one, zero + 1);

    assert_eq!(one - zero, 1);
    assert_eq!(zero - zero, 0);
    assert_eq!(zero - one, -1);
}

#[test]
fn test_compare_overflowed_counters() {
    const STEP: usize = COUNTER_VALID_RANGE;

    let step0 = Counter::new(0);
    let step1 = step0 + STEP;
    let step2 = step1 + STEP;
    let step3 = step2 + STEP;

    assert_eq!(step0, step0);
    assert_eq!(step1, step1);
    assert_eq!(step2, step2);
    assert_eq!(step3, step3);

    assert_eq!(step1 - step0, STEP as isize);
    assert_eq!(step2 - step1, STEP as isize);
    assert_eq!(step3 - step2, STEP as isize);
    assert_eq!(step0 - step3, STEP as isize);

    assert_eq!(step0 - step1, -(STEP as isize));
    assert_eq!(step1 - step2, -(STEP as isize));
    assert_eq!(step2 - step3, -(STEP as isize));
    assert_eq!(step3 - step0, -(STEP as isize));

    assert!(step0 < step0 + 1);
    assert!(step1 < step1 + 1);
    assert!(step2 < step2 + 1);
    assert!(step3 < step3 + 1);

    assert!(step0 < step1);
    assert!(step1 < step2);
    assert!(step2 < step3);
    assert!(step3 < step0);

    assert!(step1 > step0);
    assert!(step2 > step1);
    assert!(step3 > step2);
    assert!(step0 > step3);
}

#[test]
fn test_multithread_counter_incr() {
    let mut counter = AtomicCounter::new(Counter::new(0));

    for _ in 0..8 {
        for _ in 0..8000 {
            counter.incr();
        }
    }

    assert_eq!(counter.fetch().unwrap(), Counter::new(64000));
}

#[test]
fn test_overflowed_counter_incr() {
    let counter_init = Counter::new(usize::MAX - 8000);
    let mut counter = AtomicCounter::new(counter_init);

    for _ in 0..8 {
        for _ in 0..8000 {
            counter.incr();
        }
    }

    let counter_end = counter.fetch().unwrap();
    assert_eq!(counter_end, counter_init + 64000);
    assert!(counter_end > counter_init);
}

#[test]
fn counter_cell_closes_and_keeps_its_last_counter() {
    let mut cell = AtomicCounter::new(Counter::new(5));
    assert_eq!(cell.incr(), Some(Counter::new(5)));
    assert_eq!(cell.comp_swap(Counter::new(6), Counter::new(9)), Ok(()));
    assert_eq!(
        cell.comp_swap(Counter::new(6), Counter::new(7)),
        Err(Some(Counter::new(9)))
    );
    cell.close();
    assert_eq!(cell.fetch(), Err(Counter::new(9)));
    assert_eq!(cell.incr(), None);
    assert_eq!(cell.comp_swap(Counter::new(9), Counter::new(10)), Err(None));
    cell.close();
    assert_eq!(cell.fetch(), Err(Counter::new(9)));
}

#[test]
fn round_trip_across_the_wrap() {
    let near_end = Counter::new(usize::MAX / 2 - 3);
    for n in 1..100usize {
        assert_eq!((near_end + n) - near_end, n as isize);
        assert!(near_end + n > near_end);
        assert_eq!((near_end + n) - n, near_end);
    }
    assert_eq!(near_end + 4, Counter::new(0));
}

#[test]
fn counter_range_walks_to_its_end() {
    let mut range: CounterRange = Counter::range(Counter::new(usize::MAX / 2), Counter::new(2));
    assert_eq!(range.next(), Some(Counter::new(usize::MAX / 2)));
    assert_eq!(range.next(), Some(Counter::new(0)));
    assert_eq!(range.next(), Some(Counter::new(1)));
    assert_eq!(range.next(), None);
}
