use despace::hints::cold;
use despace::hints::hint_from_iter;
use despace::hints::likely;
use despace::hints::unlikely;

#[test]
fn likely_and_unlikely_return_their_argument() {
    assert!(likely(true));
    assert!(!likely(false));
    assert!(unlikely(true));
    assert!(!unlikely(false));
    cold();
}

#[test]
fn hint_prefers_the_upper_bound() {
    assert_eq!(hint_from_iter(3, Some(7)), 7);
    assert_eq!(hint_from_iter(3, None), 3);
    let v: Vec<u32> = vec![1, 2, 3, 4];
    let hint = v.iter().size_hint();
    assert_eq!(hint_from_iter(hint.0, hint.1), 4);
}
