use std::marker::PhantomData;
use wirecodec::codec::{Codec, FromInner, IntoInner, LengthCodec};
use wirecodec::endian_wrapper::EndianWrapper;
use wirecodec::error::CodecError;
use wirecodec::length::LengthData;
use wirecodec::number::TermWrapper;
use wirecodec::order::{BigEndian, ByteOrder, Endian, LittleEndian};
use wirecodec::text::UTF16;

type TextLe = UTF16<LittleEndian>;
type TextBe = UTF16<BigEndian>;
type CountedText = LengthData<UTF16<LittleEndian>, EndianWrapper<u16, BigEndian>>;

fn text_of<E: Endian>(bytes: &[u8]) -> Result<(String, usize), CodecError> {
    UTF16::<E>::try_from_ctx(bytes, ByteOrder::Big).map(|(t, n)| (t.into_inner(), n))
}

#[test]
fn markers_name_their_order() {
    assert_eq!(BigEndian::get_val(), ByteOrder::Big);
    assert_eq!(LittleEndian::get_val(), ByteOrder::Little);
}

#[test]
fn number_is_read_in_the_order_given() {
    assert_eq!(u16::try_from_ctx(&[0x12, 0x34], ByteOrder::Big), Ok((0x1234, 2)));
    assert_eq!(u16::try_from_ctx(&[0x12, 0x34], ByteOrder::Little), Ok((0x3412, 2)));
    assert_eq!(u16::try_from_ctx(&[0x12, 0x34, 0x56], ByteOrder::Big), Ok((0x1234, 2)));
}

#[test]
fn number_is_written_in_the_order_given() {
    let mut dest = [0xAAu8; 4];
    assert_eq!(0x1234u16.try_into_ctx(&mut dest, ByteOrder::Big), Ok(2));
    assert_eq!(dest, [0x12, 0x34, 0xAA, 0xAA]);
    assert_eq!(0x1234u16.try_into_ctx(&mut dest, ByteOrder::Little), Ok(2));
    assert_eq!(dest, [0x34, 0x12, 0xAA, 0xAA]);
    assert_eq!(0x1234u16.measure_with(ByteOrder::Big), Ok(2));
}

#[test]
fn number_needs_two_bytes() {
    assert_eq!(u16::try_from_ctx(&[], ByteOrder::Big), Err(CodecError::BufferTooShort));
    assert_eq!(u16::try_from_ctx(&[1], ByteOrder::Little), Err(CodecError::BufferTooShort));
    let mut one = [9u8; 1];
    assert_eq!(7u16.try_into_ctx(&mut one, ByteOrder::Big), Err(CodecError::BufferTooShort));
    assert_eq!(one, [9]);
    let mut none: [u8; 0] = [];
    assert_eq!(7u16.try_into_ctx(&mut none, ByteOrder::Big), Err(CodecError::BufferTooShort));
}

#[test]
fn term_wrapper_follows_the_ambient_order() {
    let (v, n) = TermWrapper::<u16>::try_from_ctx(&[0x00, 0x2A], ByteOrder::Big).unwrap();
    assert_eq!((v.0, n), (42, 2));
    let (v, _) = TermWrapper::<u16>::try_from_ctx(&[0x00, 0x2A], ByteOrder::Little).unwrap();
    assert_eq!(v.0, 0x2A00);
    let mut dest = [0u8; 2];
    assert_eq!(TermWrapper(0x0102u16).try_into_ctx(&mut dest, ByteOrder::Little), Ok(2));
    assert_eq!(dest, [0x02, 0x01]);
    assert_eq!(TermWrapper(1u16).measure_with(ByteOrder::Big), Ok(2));
    assert_eq!(TermWrapper::<u16>::from_inner(3).into_inner(), 3);
}

#[test]
fn endian_wrapper_uses_its_own_order() {
    type Be = EndianWrapper<TermWrapper<u16>, BigEndian>;
    type Le = EndianWrapper<TermWrapper<u16>, LittleEndian>;
    for ambient in [ByteOrder::Big, ByteOrder::Little] {
        let (v, n) = Be::try_from_ctx(&[0x00, 0x2A], ambient).unwrap();
        assert_eq!((v.into_inner(), n), (42, 2));
        let (v, n) = Le::try_from_ctx(&[0x2A, 0x00], ambient).unwrap();
        assert_eq!((v.into_inner(), n), (42, 2));
        let mut dest = [0u8; 2];
        assert_eq!(Be::from_inner(0x0102).try_into_ctx(&mut dest, ambient), Ok(2));
        assert_eq!(dest, [0x01, 0x02]);
        assert_eq!(Le::from_inner(0x0102).try_into_ctx(&mut dest, ambient), Ok(2));
        assert_eq!(dest, [0x02, 0x01]);
        assert_eq!(Le::from_inner(0x0102).measure_with(ambient), Ok(2));
    }
    assert_eq!(Be::try_from_ctx(&[0x00], ByteOrder::Big).err(), Some(CodecError::BufferTooShort));
}

#[test]
fn lengths_convert_to_and_from_counts() {
    assert_eq!(10u16.to_len(), Ok(10));
    assert_eq!(u16::from_len(65535), Ok(65535u16));
    assert_eq!(u16::from_len(65536), Err(CodecError::NumericConversion));
    let c = EndianWrapper::<u16, BigEndian>::from_len(300).unwrap();
    assert_eq!(c.0, 300);
    assert_eq!(c.to_len(), Ok(300));
    assert!(matches!(
        EndianWrapper::<u16, BigEndian>::from_len(70000),
        Err(CodecError::NumericConversion)
    ));
}

#[test]
fn text_is_read_in_its_order() {
    assert_eq!(text_of::<LittleEndian>(&[0x48, 0x00, 0x69, 0x00]), Ok(("Hi".to_owned(), 4)));
    assert_eq!(text_of::<BigEndian>(&[0x00, 0x48, 0x00, 0x69]), Ok(("Hi".to_owned(), 4)));
    assert_eq!(text_of::<LittleEndian>(&[]), Ok((String::new(), 0)));
    assert_eq!(
        text_of::<BigEndian>(&[0xD8, 0x3D, 0xDE, 0x00]),
        Ok(("\u{1F600}".to_owned(), 4))
    );
}

#[test]
fn text_of_odd_length_has_invalid_length() {
    assert_eq!(text_of::<LittleEndian>(&[0x48]), Err(CodecError::InvalidLength));
    assert_eq!(text_of::<LittleEndian>(&[0x48, 0x00, 0x69]), Err(CodecError::InvalidLength));
    assert_eq!(text_of::<BigEndian>(&[0xFF; 7]), Err(CodecError::InvalidLength));
    assert_eq!(text_of::<BigEndian>(&[0x00, 0xD8, 0x00]), Err(CodecError::InvalidLength));
}

#[test]
fn unpaired_surrogates_become_the_replacement_character() {
    assert_eq!(text_of::<LittleEndian>(&[0x00, 0xD8]), Ok(("\u{FFFD}".to_owned(), 2)));
    assert_eq!(text_of::<LittleEndian>(&[0x00, 0xDC]), Ok(("\u{FFFD}".to_owned(), 2)));
    assert_eq!(
        text_of::<LittleEndian>(&[0x41, 0x00, 0x00, 0xD8, 0x42, 0x00]),
        Ok(("A\u{FFFD}B".to_owned(), 6))
    );
    assert_eq!(
        text_of::<BigEndian>(&[0xDC, 0x00, 0xD8, 0x3D]),
        Ok(("\u{FFFD}\u{FFFD}".to_owned(), 4))
    );
    assert_eq!(
        text_of::<BigEndian>(&[0xD8, 0x3D, 0xD8, 0x3D, 0xDE, 0x00]),
        Ok(("\u{FFFD}\u{1F600}".to_owned(), 6))
    );
}

#[test]
fn text_is_written_as_code_units() {
    let mut dest = [0x77u8; 8];
    let le: TextLe = UTF16("a\u{1F600}".to_owned(), PhantomData);
    assert_eq!(le.measure_with(ByteOrder::Big), Ok(6));
    assert_eq!(le.try_into_ctx(&mut dest, ByteOrder::Big), Ok(6));
    assert_eq!(dest, [0x61, 0x00, 0x3D, 0xD8, 0x00, 0xDE, 0x77, 0x77]);
    let be: TextBe = UTF16::from_inner("a\u{1F600}".to_owned());
    assert_eq!(be.try_into_ctx(&mut dest, ByteOrder::Little), Ok(6));
    assert_eq!(dest, [0x00, 0x61, 0xD8, 0x3D, 0xDE, 0x00, 0x77, 0x77]);
    let empty: TextBe = UTF16::from_inner(String::new());
    assert_eq!(empty.measure_with(ByteOrder::Big), Ok(0));
    let mut none: [u8; 0] = [];
    assert_eq!(empty.try_into_ctx(&mut none, ByteOrder::Big), Ok(0));
}

#[test]
fn text_without_room_is_not_written() {
    let mut dest = [0x77u8; 3];
    let le: TextLe = UTF16::from_inner("ab".to_owned());
    assert_eq!(le.try_into_ctx(&mut dest, ByteOrder::Big), Err(CodecError::BufferTooShort));
    assert_eq!(dest, [0x77; 3]);
}

#[test]
fn counted_text_is_read_from_exactly_its_bytes() {
    let bytes = [0x00, 0x04, 0x48, 0x00, 0x69, 0x00, 0x21, 0x00];
    let (v, n) = CountedText::try_from_ctx(&bytes, ByteOrder::Little).unwrap();
    assert_eq!(n, 6);
    assert_eq!(v.into_inner(), "Hi");
}

#[test]
fn count_beyond_the_rest_has_invalid_length() {
    let bytes = [0x00, 0x06, 0x48, 0x00, 0x69, 0x00];
    assert_eq!(
        CountedText::try_from_ctx(&bytes, ByteOrder::Little).err(),
        Some(CodecError::InvalidLength)
    );
    let huge = [0xFF, 0xFF, 0x48, 0x00];
    assert_eq!(
        CountedText::try_from_ctx(&huge, ByteOrder::Little).err(),
        Some(CodecError::InvalidLength)
    );
    let no_count = [0x00];
    assert_eq!(
        CountedText::try_from_ctx(&no_count, ByteOrder::Little).err(),
        Some(CodecError::BufferTooShort)
    );
}

#[test]
fn counted_text_writes_its_count_first() {
    let v = CountedText::from_inner("Hi".to_owned());
    assert_eq!(v.measure_with(ByteOrder::Little), Ok(6));
    let mut dest = [0x55u8; 7];
    assert_eq!(v.try_into_ctx(&mut dest, ByteOrder::Little), Ok(6));
    assert_eq!(dest, [0x00, 0x04, 0x48, 0x00, 0x69, 0x00, 0x55]);
    let mut short = [0x55u8; 5];
    assert_eq!(v.try_into_ctx(&mut short, ByteOrder::Little), Err(CodecError::BufferTooShort));
    assert_eq!(short, [0x55; 5]);
}

#[test]
fn payload_must_take_all_its_bytes() {
    type CountedNumber = LengthData<TermWrapper<u16>, u16>;
    let exact = [0x00, 0x02, 0x01, 0x02];
    let (v, n) = CountedNumber::try_from_ctx(&exact, ByteOrder::Big).unwrap();
    assert_eq!((v.into_inner(), n), (0x0102, 4));
    let wide = [0x00, 0x04, 0x01, 0x02, 0x03, 0x04];
    assert_eq!(
        CountedNumber::try_from_ctx(&wide, ByteOrder::Big).err(),
        Some(CodecError::InvalidLength)
    );
    let narrow = [0x00, 0x01, 0x01, 0x02];
    assert_eq!(
        CountedNumber::try_from_ctx(&narrow, ByteOrder::Big).err(),
        Some(CodecError::BufferTooShort)
    );
    let mut dest = [0u8; 4];
    assert_eq!(CountedNumber::from_inner(0x0A0B).try_into_ctx(&mut dest, ByteOrder::Little), Ok(4));
    assert_eq!(dest, [0x02, 0x00, 0x0B, 0x0A]);
}

#[test]
fn clones_hold_the_same_values() {
    let tagged = EndianWrapper::<TermWrapper<u16>, BigEndian>::from_inner(77);
    assert_eq!(tagged.clone().into_inner(), 77);
    assert_eq!(TermWrapper(5u16).clone().0, 5);
    let counted = CountedText::from_inner("copy".to_owned());
    let twin = counted.clone();
    assert_eq!(twin.into_inner(), "copy");
    assert_eq!(counted.into_inner(), "copy");
    let text: TextLe = UTF16("x".to_owned(), PhantomData);
    assert_eq!(text.clone().0, "x");
}

#[test]
fn counted_text_comes_back_from_its_bytes() {
    for text in ["", "a", "\u{1F600}", "long enough to matter \u{2603}"] {
        let v = CountedText::from_inner(text.to_owned());
        let n = v.measure_with(ByteOrder::Big).unwrap();
        let mut dest = vec![0u8; n + 2];
        assert_eq!(v.try_into_ctx(&mut dest, ByteOrder::Big), Ok(n));
        let (back, used) = CountedText::try_from_ctx(&dest, ByteOrder::Big).unwrap();
        assert_eq!(used, n);
        assert_eq!(back.into_inner(), text);
    }
}
