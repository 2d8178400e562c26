use kyute::{Axis, CollectionChange, ValueLens};

#[test]
fn cross_axis_swaps_the_axes() {
    assert_eq!(Axis::Horizontal.cross_axis(), Axis::Vertical);
    assert_eq!(Axis::Vertical.cross_axis(), Axis::Horizontal);
    assert_eq!(Axis::Vertical.cross_axis().cross_axis(), Axis::Vertical);
}

#[test]
fn value_lens_gives_its_value() {
    let lens = ValueLens::new(7);
    assert_eq!(*lens.value(), 7);
    assert!(!lens.affected::<Vec<u8>>(&CollectionChange::Insert { index: 0 }));
}
