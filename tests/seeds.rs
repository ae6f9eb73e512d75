use eda_tester::errors::AppError;
use eda_tester::seeds::SeedRange;

#[test]
fn seed_range_yields_every_seed_once() {
    let r = SeedRange::new(10, 5).unwrap();
    assert_eq!(r.min, 10);
    assert_eq!(r.max, 14);
    assert_eq!(r.count(), 5);
    assert_eq!(r.seeds(), vec![10, 11, 12, 13, 14]);
}

#[test]
fn seed_range_single_instance() {
    let r = SeedRange::new(7, 1).unwrap();
    assert_eq!(r.seeds(), vec![7]);
    assert_eq!(r.count(), 1);
}

#[test]
fn seed_range_reaches_largest_seed() {
    let r = SeedRange::new(u32::MAX - 2, 3).unwrap();
    assert_eq!(r.seeds(), vec![u32::MAX - 2, u32::MAX - 1, u32::MAX]);
    let whole = SeedRange::new(0, u32::MAX).unwrap();
    assert_eq!(whole.max, u32::MAX - 1);
    assert_eq!(whole.count(), u32::MAX as u64);
}

#[test]
fn seed_range_overflow_fails() {
    assert_eq!(SeedRange::new(u32::MAX, 2), Err(AppError::SeedRangeOutOfBounds));
    assert_eq!(SeedRange::new(u32::MAX - 2, 4), Err(AppError::SeedRangeOutOfBounds));
    assert_eq!(SeedRange::new(2, u32::MAX), Err(AppError::SeedRangeOutOfBounds));
    assert!(SeedRange::new(u32::MAX, 1).is_ok());
}

#[test]
fn error_variants_differ() {
    assert_ne!(AppError::SeedRangeOutOfBounds, AppError::BrokenChildCommunication);
}
