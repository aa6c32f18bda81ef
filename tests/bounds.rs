use bistring::{Bounds, Endpoint};

#[test]
fn bounds_normalize_endpoints() {
    let b = Bounds::new(Endpoint::Excluded(2), Endpoint::Included(5));
    assert_eq!(b, Bounds { start: Some(3), end: Some(6) });
    let b = Bounds::new(Endpoint::Included(2), Endpoint::Excluded(5));
    assert_eq!(b, Bounds { start: Some(2), end: Some(5) });
    let b = Bounds::new(Endpoint::Unbounded, Endpoint::Unbounded);
    assert_eq!(b, Bounds::full());
}

#[test]
fn bounds_to_range_fills_missing_ends() {
    assert_eq!(Bounds::full().to_range(7), 0..7);
    assert_eq!(Bounds::range(2, 4).to_range(7), 2..4);
    assert_eq!(Bounds::new(Endpoint::Included(3), Endpoint::Unbounded).to_range(7), 3..7);
}

#[test]
fn bounds_slice_is_relative() {
    let b = Bounds::range(4, 7);
    assert_eq!(b.slice(Endpoint::Included(1), Endpoint::Excluded(2)), Bounds::range(5, 6));
    assert_eq!(b.slice(Endpoint::Unbounded, Endpoint::Unbounded), b);
    assert_eq!(b.slice(Endpoint::Excluded(0), Endpoint::Included(1)), Bounds::range(5, 6));
    assert_eq!(Bounds::full().slice(Endpoint::Included(2), Endpoint::Unbounded), Bounds { start: Some(2), end: None });
}

#[test]
fn bounds_clamp() {
    let b = Bounds::range(2, 5);
    assert_eq!(b.clamp(0), 2);
    assert_eq!(b.clamp(3), 3);
    assert_eq!(b.clamp(9), 5);
    assert_eq!(Bounds::full().clamp(9), 9);
}

#[test]
fn bounds_slice_reaches_the_largest_index() {
    let b = Bounds::range(4, 7);
    let top = usize::MAX - 4;
    assert_eq!(
        b.slice(Endpoint::Included(top), Endpoint::Excluded(top)),
        Bounds { start: Some(usize::MAX), end: Some(usize::MAX) },
    );
}
