//! Primitive geometry and identifiers.


#[test]
fn isqrt_ceil_rounds_up() {
    assert_eq!(understory::index::util::isqrt_ceil(0), 0);
    assert_eq!(understory::index::util::isqrt_ceil(1), 1);
    assert_eq!(understory::index::util::isqrt_ceil(2), 2);
}

#[test]
fn isqrt_ceil() {
    assert_eq!(understory::index::util::isqrt_ceil(255), 16);
    assert_eq!(understory::index::util::isqrt_ceil(256), 16);
    assert_eq!(understory::index::util::isqrt_ceil(257), 17);
}
