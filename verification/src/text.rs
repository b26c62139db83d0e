use crate::codec::{Codec, FromInner, IntoInner};
use crate::error::CodecError;
use crate::number::{gwrite_u16, lemma_u16_round_trip, u16_bytes, u16_of_bytes};
use crate::order::{ByteOrder, Endian};
use crate::utf16::{
    lemma_unpaired_gives_replacement, lemma_utf16_round_trip, replacement, unpaired_at,
    utf16_decode_lossy, utf16_encode, utf16_text_lossy, utf16_unit_count, utf16_units,
};
use scroll::Pread;
use std::marker::PhantomData;
use vstd::prelude::*;

verus! {

/// The code units that a byte sequence holds, two bytes each; a last odd
/// byte is not looked at.
pub open spec fn units_of_bytes(bytes: Seq<u8>, order: ByteOrder) -> Seq<u16> {
    Seq::new(bytes.len() / 2, |i: int| u16_of_bytes(bytes[2 * i], bytes[2 * i + 1], order))
}

/// The bytes of a sequence of code units, two for each.
pub open spec fn bytes_of_units(units: Seq<u16>, order: ByteOrder) -> Seq<u8> {
    Seq::new(2 * units.len(), |i: int| u16_bytes(units[i / 2], order)[i % 2])
}

/// `scroll::Pread::gread_inout_with::<u16>` on a byte slice: it fills
/// `inout` with the numbers that stand from `offset` on, two bytes each, and
/// moves `offset` past them. It fails when the bytes run out before `inout`
/// is full; what `inout` and `offset` hold then is not stated.
#[verifier::external_body]
pub(crate) fn gread_inout_u16(
    src: &[u8],
    offset: &mut usize,
    inout: &mut Vec<u16>,
    order: ByteOrder,
) -> (r: Result<(), scroll::Error>)
    ensures
        final(inout)@.len() == old(inout)@.len(),
        r is Ok <==> old(inout)@.len() == 0 || *old(offset) + 2 * old(inout)@.len() <= src@.len(),
        r is Ok ==> *final(offset) == *old(offset) + 2 * old(inout)@.len(),
        r is Ok ==> forall|i: int|
            0 <= i < old(inout)@.len() ==> #[trigger] final(inout)@[i] == u16_of_bytes(
                src@[*old(offset) + 2 * i],
                src@[*old(offset) + 2 * i + 1],
                order,
            ),
{
    match order {
        ByteOrder::Big => src.gread_inout_with::<u16>(offset, inout, scroll::Endian::Big),
        ByteOrder::Little => src.gread_inout_with::<u16>(offset, inout, scroll::Endian::Little),
    }
}

/// A text that is read and written as UTF-16 code units in the order `E`.
/// It takes the whole byte range that it is given.
#[derive(Debug)]
pub struct UTF16<E>(pub String, pub PhantomData<E>);

impl<E> Clone for UTF16<E> {
    fn clone(&self) -> (r: Self)
        ensures
            r.0@ == self.0@,
    {
        UTF16(self.0.clone(), PhantomData)
    }
}

impl<E: Endian> Codec for UTF16<E> {
    type Model = Seq<char>;

    open spec fn model(&self) -> Seq<char> {
        self.0@
    }

    open spec fn wire(m: Seq<char>, order: ByteOrder) -> Result<Seq<u8>, CodecError> {
        if 2 * utf16_encode(m).len() > usize::MAX {
            Err(CodecError::NumericConversion)
        } else {
            Ok(bytes_of_units(utf16_encode(m), E::order()))
        }
    }

    open spec fn parse(bytes: Seq<u8>, order: ByteOrder) -> Result<(Seq<char>, nat), CodecError> {
        if bytes.len() % 2 != 0 {
            Err(CodecError::InvalidLength)
        } else {
            Ok((utf16_decode_lossy(units_of_bytes(bytes, E::order())), bytes.len()))
        }
    }

    open spec fn self_delimiting() -> bool {
        false
    }

    proof fn lemma_round_trip(m: Seq<char>, order: ByteOrder) {
        lemma_units_round_trip(utf16_encode(m), E::order());
        lemma_utf16_round_trip(m);
    }

    proof fn lemma_parse_within(bytes: Seq<u8>, order: ByteOrder) {
    }

    proof fn lemma_rest_ignored(bytes: Seq<u8>, rest: Seq<u8>, order: ByteOrder) {
    }

    fn try_from_ctx(src: &[u8], order: ByteOrder) -> (r: Result<(Self, usize), CodecError>)
        ensures
            match r {
                Ok((v, n)) => src@.len() % 2 == 0 && n == src@.len() && v.0@ == utf16_decode_lossy(
                    units_of_bytes(src@, E::order()),
                ),
                Err(e) => src@.len() % 2 == 1 && e == CodecError::InvalidLength,
            },
    {
        if src.len() % 2 != 0 {
            return Err(CodecError::InvalidLength);
        }
        let mut offset: usize = 0;
        let mut data: Vec<u16> = vec![0u16; src.len() / 2];
        match gread_inout_u16(src, &mut offset, &mut data, E::get_val()) {
            Ok(()) => {
                proof {
                    assert(data@ =~= units_of_bytes(src@, E::order()));
                }
                Ok((UTF16(utf16_text_lossy(data.as_slice()), PhantomData), src.len()))
            },
            Err(_) => Err(CodecError::BufferTooShort),
        }
    }

    fn try_into_ctx(&self, dest: &mut [u8], order: ByteOrder) -> (r: Result<usize, CodecError>)
        ensures
            r is Ok <==> 2 * utf16_encode(self.0@).len() <= old(dest)@.len(),
            r is Ok ==> r->Ok_0 == 2 * utf16_encode(self.0@).len() && final(dest)@
                == bytes_of_units(utf16_encode(self.0@), E::order()) + old(dest)@.skip(
                r->Ok_0 as int,
            ),
            r is Err ==> final(dest)@ == old(dest)@ && r->Err_0 == (if 2 * utf16_encode(
                self.0@,
            ).len() > usize::MAX {
                CodecError::NumericConversion
            } else {
                CodecError::BufferTooShort
            }),
    {
        let room = dest.len();
        let units = utf16_units(self.0.as_str());
        let total = match units.len().checked_mul(2) {
            Some(n) => n,
            None => { return Err(CodecError::NumericConversion); },
        };
        if total > room {
            return Err(CodecError::BufferTooShort);
        }
        let endian = E::get_val();
        let mut size: usize = 0;
        let mut i: usize = 0;
        while i < units.len()
            invariant
                i <= units.len(),
                size == 2 * i,
                total == 2 * units.len(),
                total <= dest@.len(),
                dest@.len() == old(dest)@.len(),
                endian == E::order(),
                dest@.subrange(0, size as int) == bytes_of_units(units@.take(i as int), endian),
                dest@.skip(size as int) == old(dest)@.skip(size as int),
            decreases units.len() - i,
        {
            let ghost before = dest@;
            match gwrite_u16(dest, units[i], &mut size, endian) {
                Ok(_) => {},
                Err(_) => { return Err(CodecError::BufferTooShort); },
            }
            proof {
                assert(dest@.subrange(0, size as int) =~= bytes_of_units(
                    units@.take(i + 1),
                    endian,
                )) by {
                    assert forall|k: int| 0 <= k < size implies dest@[k] == bytes_of_units(
                        units@.take(i + 1),
                        endian,
                    )[k] by {
                        if k < 2 * i {
                            assert(dest@[k] == before.subrange(0, 2 * i)[k]);
                        }
                    }
                }
                assert(dest@.skip(size as int) =~= old(dest)@.skip(size as int)) by {
                    assert forall|k: int| 0 <= k < dest@.len() - size implies dest@.skip(
                        size as int,
                    )[k] == old(dest)@.skip(size as int)[k] by {
                        assert(before.skip(2 * i)[k + 2] == old(dest)@.skip(2 * i)[k + 2]);
                    }
                }
            }
            i = i + 1;
        }
        proof {
            assert(units@.take(i as int) =~= units@);
            assert(dest@ =~= dest@.subrange(0, size as int) + dest@.skip(size as int));
        }
        Ok(size)
    }

    fn measure_with(&self, order: ByteOrder) -> (r: Result<usize, CodecError>)
        ensures
            r == (if 2 * utf16_encode(self.0@).len() > usize::MAX {
                Err::<usize, CodecError>(CodecError::NumericConversion)
            } else {
                Ok((2 * utf16_encode(self.0@).len()) as usize)
            }),
    {
        let count = match utf16_unit_count(self.0.as_str()) {
            Some(n) => n,
            None => { return Err(CodecError::NumericConversion); },
        };
        match count.checked_mul(2) {
            Some(n) => Ok(n),
            None => Err(CodecError::NumericConversion),
        }
    }
}

impl<E> IntoInner for UTF16<E> {
    type Inner = String;

    open spec fn inner(self) -> String {
        self.0
    }

    fn into_inner(self) -> (r: String)
        ensures
            r == self.0,
    {
        self.0
    }
}

impl<E> FromInner for UTF16<E> {
    type Inner = String;

    open spec fn wrap(inner: String) -> Self {
        UTF16(inner, PhantomData)
    }

    fn from_inner(inner: String) -> (r: Self)
        ensures
            r.0 == inner,
    {
        UTF16(inner, PhantomData)
    }
}

/// Reading the bytes of a sequence of code units gives the units back.
pub proof fn lemma_units_round_trip(units: Seq<u16>, order: ByteOrder)
    ensures
        bytes_of_units(units, order).len() == 2 * units.len(),
        units_of_bytes(bytes_of_units(units, order), order) == units,
{
    let bytes = bytes_of_units(units, order);
    assert forall|i: int| 0 <= i < units.len() implies units_of_bytes(bytes, order)[i]
        == units[i] by {
        lemma_u16_round_trip(units[i], order);
        assert((2 * i) / 2 == i && (2 * i) % 2 == 0);
        assert((2 * i + 1) / 2 == i && (2 * i + 1) % 2 == 1);
    }
    assert(units_of_bytes(bytes, order) =~= units);
}

/// A byte range of odd length is never read as a text, whatever it holds.
pub proof fn lemma_text_odd_length_rejected<E: Endian>(bytes: Seq<u8>, order: ByteOrder)
    requires
        bytes.len() % 2 == 1,
    ensures
        UTF16::<E>::parse(bytes, order) == Err::<(Seq<char>, nat), CodecError>(
            CodecError::InvalidLength,
        ),
{
}

/// A byte range of even length is always read as a text, and where its
/// units hold a surrogate without its partner the text holds the
/// replacement character.
pub proof fn lemma_text_unpaired_replaced<E: Endian>(bytes: Seq<u8>, order: ByteOrder, i: int)
    requires
        bytes.len() % 2 == 0,
        unpaired_at(units_of_bytes(bytes, E::order()), i),
    ensures
        UTF16::<E>::parse(bytes, order) is Ok,
        UTF16::<E>::parse(bytes, order)->Ok_0.0.contains(replacement()),
        UTF16::<E>::parse(bytes, order)->Ok_0.1 == bytes.len(),
{
    lemma_unpaired_gives_replacement(units_of_bytes(bytes, E::order()), i);
}

} // verus!
