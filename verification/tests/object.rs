use soft::object::ObjectDescriptor;

#[test]
fn descriptor_keeps_its_ranges() {
    let d = ObjectDescriptor::new(4, 10, 6, 17, 4, 12);
    assert_eq!(d.particles_range(), 4..10);
    assert_eq!(d.springs_range(), 6..17);
    assert_eq!(d.boundaries_range(), 4..12);
    assert_eq!(d.particles_len(), 6);
    assert_eq!(d.springs_len(), 11);
    assert_eq!(d.boundaries_len(), 8);
}

#[test]
fn empty_ranges_have_length_zero() {
    let d = ObjectDescriptor::new(3, 3, 0, 0, 9, 9);
    assert_eq!((d.particles_len(), d.springs_len(), d.boundaries_len()), (0, 0, 0));
    assert!(d.particles_range().is_empty());
}
