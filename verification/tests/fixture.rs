use wirecodec::codec::{Codec, FromInner, IntoInner};
use wirecodec::error::CodecError;
use wirecodec::example::{Example, ExampleUnwrapped};
use wirecodec::order::ByteOrder;

const FIXTURE: [u8; 16] = [
    0x00, 0x2A, 0x2A, 0x00, 0x00, 0x0A, 0x48, 0x00, 0x65, 0x00, 0x6C, 0x00, 0x6C, 0x00, 0x6F, 0x00,
];

fn decode(bytes: &[u8]) -> Result<(ExampleUnwrapped, usize), CodecError> {
    Example::try_from_ctx(bytes, ByteOrder::Little).map(|(wire, n)| (wire.into(), n))
}

#[test]
fn fixture_decodes_to_plain_values() {
    let (plain, used) = decode(&FIXTURE).unwrap();
    assert_eq!(plain.big, 42u16);
    assert_eq!(plain.little, 42u16);
    assert_eq!(plain.var, "Hello".to_owned());
    assert_eq!(used, 16);
}

#[test]
fn fixture_is_written_back_byte_for_byte() {
    let (plain, _) = decode(&FIXTURE).unwrap();
    let wire: Example = plain.into();
    let mut dest = vec![0u8; FIXTURE.len()];
    assert_eq!(wire.try_into_ctx(&mut dest, ByteOrder::Little), Ok(16));
    assert_eq!(dest.as_slice(), FIXTURE.as_ref());
}

#[test]
fn ambient_order_does_not_reach_tagged_fields() {
    let (a, _) = decode(&FIXTURE).unwrap();
    let (b, _) = Example::try_from_ctx(&FIXTURE, ByteOrder::Big)
        .map(|(wire, n)| (ExampleUnwrapped::from(wire), n))
        .unwrap();
    assert_eq!((a.big, a.little, a.var), (b.big, b.little, b.var));
    let wire: Example = ExampleUnwrapped { big: 42, little: 42, var: "Hello".to_owned() }.into();
    let mut dest = vec![0u8; 16];
    assert_eq!(wire.try_into_ctx(&mut dest, ByteOrder::Big), Ok(16));
    assert_eq!(dest.as_slice(), FIXTURE.as_ref());
}

#[test]
fn fixture_truncated_to_fourteen_bytes_has_invalid_length() {
    let r = decode(&FIXTURE[..14]);
    assert_eq!(r.err(), Some(CodecError::InvalidLength));
}

#[test]
fn odd_count_over_aligned_text_has_invalid_length() {
    let bytes = [0x00, 0x2A, 0x2A, 0x00, 0x00, 0x05, 0x48, 0x00, 0x65, 0x00, 0x6C, 0x00];
    assert_eq!(decode(&bytes).err(), Some(CodecError::InvalidLength));
    let exact = [0x00, 0x2A, 0x2A, 0x00, 0x00, 0x05, 0x48, 0x00, 0x65, 0x00, 0x6C];
    assert_eq!(decode(&exact).err(), Some(CodecError::InvalidLength));
}

#[test]
fn buffers_below_the_minimum_are_too_short() {
    for n in 0..6 {
        assert_eq!(decode(&FIXTURE[..n]).err(), Some(CodecError::BufferTooShort), "length {}", n);
    }
}

#[test]
fn minimum_buffer_holds_an_empty_text() {
    let bytes = [0x01, 0x02, 0x03, 0x04, 0x00, 0x00];
    let (plain, used) = decode(&bytes).unwrap();
    assert_eq!(plain.big, 0x0102);
    assert_eq!(plain.little, 0x0403);
    assert_eq!(plain.var, "");
    assert_eq!(used, 6);
}

#[test]
fn bytes_behind_the_struct_are_left_alone() {
    let mut bytes = FIXTURE.to_vec();
    bytes.extend_from_slice(&[0xFF, 0xFF, 0xFF]);
    let (plain, used) = decode(&bytes).unwrap();
    assert_eq!(plain.var, "Hello");
    assert_eq!(used, 16);
}

#[test]
fn measure_is_what_encode_writes() {
    let wire: Example =
        ExampleUnwrapped { big: 7, little: 9, var: "a\u{1F600}b".to_owned() }.into();
    let measured = wire.measure_with(ByteOrder::Little).unwrap();
    assert_eq!(measured, 2 + 2 + 2 + 8);
    let mut dest = vec![0xEEu8; measured + 3];
    assert_eq!(wire.try_into_ctx(&mut dest, ByteOrder::Little), Ok(measured));
    assert_eq!(
        dest,
        vec![
            0x00, 0x07, 0x09, 0x00, 0x00, 0x08, 0x61, 0x00, 0x3D, 0xD8, 0x00, 0xDE, 0x62, 0x00,
            0xEE, 0xEE, 0xEE
        ]
    );
}

#[test]
fn wrap_encode_decode_unwrap_gives_the_values_back() {
    let texts = ["", "Hello", "gr\u{00FC}\u{00DF}e", "\u{1F600}\u{10000}\u{10FFFF}", "\u{FFFD}\u{D7FF}\u{E000}"];
    for (i, text) in texts.iter().enumerate() {
        let plain = ExampleUnwrapped { big: 0xABCD, little: i as u16, var: text.to_string() };
        let wire: Example = plain.into();
        let n = wire.measure_with(ByteOrder::Big).unwrap();
        let mut dest = vec![0u8; n];
        assert_eq!(wire.try_into_ctx(&mut dest, ByteOrder::Big), Ok(n));
        let (back, used) = decode(&dest).unwrap();
        assert_eq!(used, n);
        assert_eq!(back.big, 0xABCD);
        assert_eq!(back.little, i as u16);
        assert_eq!(back.var, *text);
    }
}

#[test]
fn encode_into_too_little_room_fails_and_leaves_dest() {
    let wire: Example = ExampleUnwrapped { big: 42, little: 42, var: "Hello".to_owned() }.into();
    let mut dest = vec![0x11u8; 15];
    assert_eq!(wire.try_into_ctx(&mut dest, ByteOrder::Little), Err(CodecError::BufferTooShort));
    assert_eq!(dest, vec![0x11u8; 15]);
}

#[test]
fn text_longer_than_the_count_can_hold_is_a_numeric_conversion_error() {
    let wire: Example =
        ExampleUnwrapped { big: 1, little: 2, var: "x".repeat(32768) }.into();
    assert_eq!(wire.measure_with(ByteOrder::Little), Err(CodecError::NumericConversion));
    let mut dest = vec![0u8; 70000];
    assert_eq!(wire.try_into_ctx(&mut dest, ByteOrder::Little), Err(CodecError::NumericConversion));
    assert!(dest.iter().all(|b| *b == 0));
    let fits: Example = ExampleUnwrapped { big: 1, little: 2, var: "x".repeat(32767) }.into();
    assert_eq!(fits.measure_with(ByteOrder::Little), Ok(6 + 65534));
}

#[test]
fn wrapping_and_unwrapping_keep_the_values() {
    let wire: Example = ExampleUnwrapped { big: 1, little: 2, var: "three".to_owned() }.into();
    assert_eq!((wire.big.0).0, 1);
    assert_eq!((wire.little.0).0, 2);
    assert_eq!((wire.var.0).0, "three");
    let plain: ExampleUnwrapped = wire.into();
    assert_eq!(plain.big, 1);
    assert_eq!(plain.little, 2);
    assert_eq!(plain.var, "three");
    let again = Example::from(plain);
    assert_eq!(again.var.into_inner(), "three");
    let tagged = wirecodec::endian_wrapper::EndianWrapper::<
        wirecodec::number::TermWrapper<u16>,
        wirecodec::order::BigEndian,
    >::from_inner(5);
    assert_eq!(tagged.into_inner(), 5);
}
