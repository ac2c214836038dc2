use alpha_zero::zero::range::IdxRange;

#[test]
fn range_new_and_get() {
    let r = IdxRange::new(3, 7);
    assert_eq!(r.start, 3);
    assert_eq!(r.length, 4);
    assert_eq!(r.get(0), 3);
    assert_eq!(r.get(3), 6);
    assert_eq!(r.iter(), 3..7);
}
