use crate::codec::{measure_outcome, write_outcome, Codec, FromInner, IntoInner, LengthCodec};
use crate::error::CodecError;
use crate::order::ByteOrder;
use scroll::{Pread, Pwrite};
use vstd::prelude::*;

verus! {

/// `scroll::Error`, taken as a value that nothing is known of: it is only
/// told apart from success.
#[verifier::external_type_specification]
#[verifier::external_body]
pub struct ExScrollError(scroll::Error);

/// The 16-bit number that two bytes hold, `b0` standing first.
pub open spec fn u16_of_bytes(b0: u8, b1: u8, order: ByteOrder) -> u16 {
    match order {
        ByteOrder::Big => (b0 * 256 + b1) as u16,
        ByteOrder::Little => (b1 * 256 + b0) as u16,
    }
}

/// The two bytes of a 16-bit number.
pub open spec fn u16_bytes(v: u16, order: ByteOrder) -> Seq<u8> {
    match order {
        ByteOrder::Big => seq![(v / 256) as u8, (v % 256) as u8],
        ByteOrder::Little => seq![(v % 256) as u8, (v / 256) as u8],
    }
}

/// Reading the two bytes of a number gives the number back.
pub proof fn lemma_u16_round_trip(v: u16, order: ByteOrder)
    ensures
        u16_bytes(v, order).len() == 2,
        u16_of_bytes(u16_bytes(v, order)[0], u16_bytes(v, order)[1], order) == v,
{
}

/// Writing the number that two bytes hold gives the two bytes back.
pub proof fn lemma_u16_bytes_of_read(b0: u8, b1: u8, order: ByteOrder)
    ensures
        u16_bytes(u16_of_bytes(b0, b1, order), order) == seq![b0, b1],
{
    assert(u16_bytes(u16_of_bytes(b0, b1, order), order) =~= seq![b0, b1]);
}

/// `scroll::Pread::gread_with::<u16>` on a byte slice: it succeeds exactly
/// when two bytes stand at `offset`, gives the number they hold in the order
/// asked for and moves `offset` past them; on failure `offset` stays.
#[verifier::external_body]
pub(crate) fn gread_u16(src: &[u8], offset: &mut usize, order: ByteOrder) -> (r: Result<
    u16,
    scroll::Error,
>)
    ensures
        r is Ok <==> *old(offset) + 2 <= src@.len(),
        r is Ok ==> r->Ok_0 == u16_of_bytes(
            src@[*old(offset) as int],
            src@[*old(offset) + 1],
            order,
        ) && *final(offset) == *old(offset) + 2,
        r is Err ==> *final(offset) == *old(offset),
{
    match order {
        ByteOrder::Big => src.gread_with::<u16>(offset, scroll::Endian::Big),
        ByteOrder::Little => src.gread_with::<u16>(offset, scroll::Endian::Little),
    }
}

/// `scroll::Pwrite::gwrite_with::<u16>` on a byte slice: it succeeds exactly
/// when two bytes of room stand at `offset`, puts the number's two bytes
/// there in the order asked for, returns 2 and moves `offset` past them; on
/// failure `dest` and `offset` stay.
#[verifier::external_body]
pub(crate) fn gwrite_u16(dest: &mut [u8], v: u16, offset: &mut usize, order: ByteOrder) -> (r:
    Result<usize, scroll::Error>)
    ensures
        r is Ok <==> *old(offset) + 2 <= old(dest)@.len(),
        r is Ok ==> r->Ok_0 == 2 && *final(offset) == *old(offset) + 2 && final(dest)@ == old(
            dest,
        )@.subrange(0, *old(offset) as int) + u16_bytes(v, order) + old(dest)@.skip(
            *old(offset) + 2,
        ),
        r is Err ==> *final(offset) == *old(offset) && final(dest)@ == old(dest)@,
{
    match order {
        ByteOrder::Big => dest.gwrite_with::<u16>(v, offset, scroll::Endian::Big),
        ByteOrder::Little => dest.gwrite_with::<u16>(v, offset, scroll::Endian::Little),
    }
}

impl Codec for u16 {
    type Model = u16;

    open spec fn model(&self) -> u16 {
        *self
    }

    open spec fn wire(m: u16, order: ByteOrder) -> Result<Seq<u8>, CodecError> {
        Ok(u16_bytes(m, order))
    }

    open spec fn parse(bytes: Seq<u8>, order: ByteOrder) -> Result<(u16, nat), CodecError> {
        if bytes.len() < 2 {
            Err(CodecError::BufferTooShort)
        } else {
            Ok((u16_of_bytes(bytes[0], bytes[1], order), 2nat))
        }
    }

    open spec fn self_delimiting() -> bool {
        true
    }

    proof fn lemma_round_trip(m: u16, order: ByteOrder) {
        lemma_u16_round_trip(m, order);
    }

    proof fn lemma_parse_within(bytes: Seq<u8>, order: ByteOrder) {
    }

    proof fn lemma_rest_ignored(bytes: Seq<u8>, rest: Seq<u8>, order: ByteOrder) {
        assert((bytes + rest)[0] == bytes[0]);
        assert((bytes + rest)[1] == bytes[1]);
    }

    fn try_from_ctx(src: &[u8], order: ByteOrder) -> (r: Result<(Self, usize), CodecError>)
        ensures
            r == (if src@.len() < 2 {
                Err::<(u16, usize), CodecError>(CodecError::BufferTooShort)
            } else {
                Ok((u16_of_bytes(src@[0], src@[1], order), 2usize))
            }),
    {
        let mut offset: usize = 0;
        match gread_u16(src, &mut offset, order) {
            Ok(v) => Ok((v, offset)),
            Err(_) => Err(CodecError::BufferTooShort),
        }
    }

    fn try_into_ctx(&self, dest: &mut [u8], order: ByteOrder) -> (r: Result<usize, CodecError>)
        ensures
            r == (if old(dest)@.len() < 2 {
                Err::<usize, CodecError>(CodecError::BufferTooShort)
            } else {
                Ok(2usize)
            }),
            final(dest)@ == (if old(dest)@.len() < 2 {
                old(dest)@
            } else {
                u16_bytes(*self, order) + old(dest)@.skip(2)
            }),
    {
        let mut offset: usize = 0;
        match gwrite_u16(dest, *self, &mut offset, order) {
            Ok(n) => {
                proof {
                    assert(old(dest)@.subrange(0, 0) + u16_bytes(*self, order) =~= u16_bytes(
                        *self,
                        order,
                    ));
                }
                Ok(n)
            },
            Err(_) => Err(CodecError::BufferTooShort),
        }
    }

    fn measure_with(&self, order: ByteOrder) -> (r: Result<usize, CodecError>)
        ensures
            r == Ok::<usize, CodecError>(2),
    {
        Ok(2)
    }
}

impl LengthCodec for u16 {
    open spec fn len_of(m: u16) -> Option<nat> {
        Some(m as nat)
    }

    open spec fn of_len(n: nat) -> Option<u16> {
        if n <= u16::MAX {
            Some(n as u16)
        } else {
            None
        }
    }

    proof fn lemma_count(n: nat) {
    }

    fn to_len(&self) -> (r: Result<usize, CodecError>)
        ensures
            r == Ok::<usize, CodecError>(*self as usize),
    {
        Ok(*self as usize)
    }

    fn from_len(n: usize) -> (r: Result<Self, CodecError>)
        ensures
            r == (if n <= 0xFFFF {
                Ok::<u16, CodecError>(n as u16)
            } else {
                Err(CodecError::NumericConversion)
            }),
    {
        if n <= 0xFFFF {
            Ok(n as u16)
        } else {
            Err(CodecError::NumericConversion)
        }
    }
}

/// The innermost wrapper: it holds a plain value and reads and writes as
/// that value does.
pub struct TermWrapper<T>(pub T);

impl<T: Clone> Clone for TermWrapper<T> {
    fn clone(&self) -> (r: Self)
        ensures
            cloned(self.0, r.0),
    {
        TermWrapper(self.0.clone())
    }
}

impl<T: Codec> Codec for TermWrapper<T> {
    type Model = T::Model;

    open spec fn model(&self) -> T::Model {
        self.0.model()
    }

    open spec fn wire(m: T::Model, order: ByteOrder) -> Result<Seq<u8>, CodecError> {
        T::wire(m, order)
    }

    open spec fn parse(bytes: Seq<u8>, order: ByteOrder) -> Result<(T::Model, nat), CodecError> {
        T::parse(bytes, order)
    }

    open spec fn self_delimiting() -> bool {
        T::self_delimiting()
    }

    proof fn lemma_round_trip(m: T::Model, order: ByteOrder) {
        T::lemma_round_trip(m, order);
    }

    proof fn lemma_parse_within(bytes: Seq<u8>, order: ByteOrder) {
        T::lemma_parse_within(bytes, order);
    }

    proof fn lemma_rest_ignored(bytes: Seq<u8>, rest: Seq<u8>, order: ByteOrder) {
        T::lemma_rest_ignored(bytes, rest, order);
    }

    fn try_from_ctx(src: &[u8], order: ByteOrder) -> (r: Result<(Self, usize), CodecError>)
        ensures
            match r {
                Ok((v, n)) => T::parse(src@, order) == Ok::<(T::Model, nat), CodecError>(
                    (v.0.model(), n as nat),
                ),
                Err(e) => T::parse(src@, order) == Err::<(T::Model, nat), CodecError>(e),
            },
    {
        match T::try_from_ctx(src, order) {
            Ok((val, size)) => Ok((TermWrapper(val), size)),
            Err(e) => Err(e),
        }
    }

    fn try_into_ctx(&self, dest: &mut [u8], order: ByteOrder) -> (r: Result<usize, CodecError>)
        ensures
            r == write_outcome(T::wire(self.0.model(), order), old(dest)@.len()),
            final(dest)@ == match r {
                Ok(n) => T::wire(self.0.model(), order)->Ok_0 + old(dest)@.skip(n as int),
                Err(_) => old(dest)@,
            },
    {
        self.0.try_into_ctx(dest, order)
    }

    fn measure_with(&self, order: ByteOrder) -> (r: Result<usize, CodecError>)
        ensures
            r == measure_outcome(T::wire(self.0.model(), order)),
    {
        self.0.measure_with(order)
    }
}

impl<T> IntoInner for TermWrapper<T> {
    type Inner = T;

    open spec fn inner(self) -> T {
        self.0
    }

    fn into_inner(self) -> (r: T)
        ensures
            r == self.0,
    {
        self.0
    }
}

impl<T> FromInner for TermWrapper<T> {
    type Inner = T;

    open spec fn wrap(inner: T) -> Self {
        TermWrapper(inner)
    }

    fn from_inner(inner: T) -> (r: Self)
        ensures
            r.0 == inner,
    {
        TermWrapper(inner)
    }
}

} // verus!
