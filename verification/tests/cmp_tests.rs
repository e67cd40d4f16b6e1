use bnum::ordering::BintTest;
use core::cmp::Ordering;

#[test]
fn test_inequality() {
    let a = BintTest::from_i128(4, -2348273479989898i128);
    let b = BintTest::from_i128(4, -9049873947589473745i128);
    assert!(a > b);
    assert_ne!(a, b);

    let a = BintTest::from_i128(4, 34578394758934759478789354i128);
    let b = BintTest::from_i128(4, 3459374957834758394759782i128);
    assert!(a > b);
    assert_ne!(a, b);

    let a = BintTest::from_i128(4, -34578394758934759478789354i128);
    let b = BintTest::from_i128(4, 3459374957834758394759782i128);
    assert!(b > a);
    assert_ne!(a, b);
}

#[test]
fn test_equality() {
    let a = BintTest::from_i128(4, -9049873947589473745i128);
    let b = BintTest::from_i128(4, -9049873947589473745i128);
    assert_eq!(a, b);

    let a = BintTest::from_i128(4, 34578394758934759478789354i128);
    let b = BintTest::from_i128(4, 34578394758934759478789354i128);
    assert_eq!(a, b);
}

#[test]
fn test_cmp_ordering() {
    let a = BintTest::from_i128(4, -5i128);
    let b = BintTest::from_i128(4, 7i128);
    assert_eq!(a.cmp(&b), Ordering::Less);
    assert_eq!(b.cmp(&a), Ordering::Greater);
    assert_eq!(a.cmp(&a), Ordering::Equal);
    assert_eq!(a.partial_cmp(&b), Some(Ordering::Less));
    assert!(BintTest::eq(&a, &a));
    assert!(!BintTest::eq(&a, &b));
}
