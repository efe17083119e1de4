use core::mem::{align_of, size_of};
use mercy::JeffreysU8;

#[test]
fn layout_is_exactly_one_byte() {
    assert_eq!(size_of::<JeffreysU8>(), 1);
    assert_eq!(align_of::<JeffreysU8>(), 1);
}

#[test]
fn every_byte_round_trips() {
    for raw in 0u8..=u8::MAX {
        assert_eq!(JeffreysU8::from_raw(raw).into_raw(), raw);
    }
}

#[test]
fn conversions_and_slices_preserve_bytes() {
    let bytes = [0u8, 127, 128, 254, 255];
    let values = JeffreysU8::slice_from_bytes(&bytes);
    assert_eq!(values.len(), 5);
    assert_eq!(JeffreysU8::slice_as_bytes(&values), bytes.to_vec());
    assert_eq!(u8::from(JeffreysU8::from(9u8)), 9);
}
