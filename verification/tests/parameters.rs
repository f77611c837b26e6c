use tricolor_gc::params::{GcParameters, MULTIPLIER_UNIT};

#[test]
fn default_parameters() {
    // Pause 1.5, timing 1.0, granularity 50, in hundredths.
    let parameters = GcParameters::default();
    assert_eq!(MULTIPLIER_UNIT, 100);
    assert_eq!(parameters.pause_multiplier, 150);
    assert_eq!(parameters.timing_multiplier, 100);
    assert_eq!(parameters.allocation_granularity, 5000);
    assert_eq!(parameters.min_wakeup, 512);
    assert_eq!(parameters.units_of_step(), 50);
}

#[test]
fn new_parameters_hold_what_was_given() {
    let parameters = GcParameters::new(200, 50, 700, 3);
    assert_eq!(parameters.pause_multiplier, 200);
    assert_eq!(parameters.timing_multiplier, 50);
    assert_eq!(parameters.allocation_granularity, 700);
    assert_eq!(parameters.min_wakeup, 3);
}

#[test]
fn one_allocation_adds_one_plus_the_inverse_of_the_timing() {
    // timing 1.0: 1 + 1/1 = 2; scaled by the timing and in hundredths of
    // hundredths, 1.0 * 2 * 10000.
    assert_eq!(GcParameters::default().charge(0), 20_000);
    assert_eq!(GcParameters::default().charge(20_000), 40_000);
    // timing 0.5: 1 + 1/0.5 = 3; scaled by the timing, 0.5 * 3 = 1.5.
    assert_eq!(GcParameters::new(150, 50, 5000, 512).charge(0), 15_000);
    // timing 2.0: 1 + 1/2 = 1.5; scaled by the timing, 2 * 1.5 = 3.
    assert_eq!(GcParameters::new(150, 200, 5000, 512).charge(0), 30_000);
}

#[test]
fn debt_stops_at_the_largest_value() {
    let parameters = GcParameters::default();
    assert_eq!(parameters.charge(u64::MAX), u64::MAX);
    assert_eq!(parameters.charge(u64::MAX - 19_999), u64::MAX);
    assert_eq!(parameters.charge(u64::MAX - 20_000), u64::MAX);
    assert_eq!(parameters.charge(u64::MAX - 20_001), u64::MAX - 1);
}

#[test]
fn debt_is_due_from_the_granularity_on() {
    // granularity 50 at timing 1.0: 25 allocations of debt 2 each.
    let parameters = GcParameters::default();
    assert!(!parameters.is_due(0));
    assert!(!parameters.is_due(499_999));
    assert!(parameters.is_due(500_000));
    assert!(parameters.is_due(500_001));
    let mut debt = 0;
    let mut allocations = 0;
    while !parameters.is_due(debt) {
        debt = parameters.charge(debt);
        allocations += 1;
    }
    assert_eq!(allocations, 25);
}

#[test]
fn fractional_granularity_is_due_at_its_own_value() {
    // granularity 2.5 at timing 1.0: debt 2 is short of it, debt 4 is not;
    // the step then spends work while any is left, which is three units.
    let parameters = GcParameters::new(150, 100, 250, 512);
    let once = parameters.charge(0);
    let twice = parameters.charge(once);
    assert!(!parameters.is_due(once));
    assert!(parameters.is_due(twice));
    assert_eq!(parameters.units_of_step(), 3);
    // granularity 2.0: due with the first allocation, steps of two units.
    let whole = GcParameters::new(150, 100, 200, 512);
    assert!(whole.is_due(whole.charge(0)));
    assert_eq!(whole.units_of_step(), 2);
    assert_eq!(GcParameters::new(150, 100, 201, 512).units_of_step(), 3);
    assert_eq!(GcParameters::new(150, 100, 0, 512).units_of_step(), 0);
    assert_eq!(GcParameters::new(150, 100, 1, 512).units_of_step(), 1);
}

#[test]
fn zero_timing_makes_every_debt_due() {
    let parameters = GcParameters::new(150, 0, 5000, 512);
    assert!(parameters.is_due(0));
    assert_eq!(parameters.charge(0), 10_000);
}

#[test]
fn largest_parameters_do_not_overflow() {
    let parameters = GcParameters::new(u32::MAX, u32::MAX, u32::MAX, usize::MAX);
    assert_eq!(parameters.charge(0), (u32::MAX as u64 + 100) * 100);
    assert!(!parameters.is_due(0));
    assert!(parameters.is_due(u32::MAX as u64 * u32::MAX as u64));
    assert!(!parameters.is_due(u32::MAX as u64 * u32::MAX as u64 - 1));
    assert_eq!(parameters.units_of_step(), 42_949_673);
}
