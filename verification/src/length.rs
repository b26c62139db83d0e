use crate::codec::{measure_outcome, write_outcome, Codec, FromInner, IntoInner, LengthCodec};
use crate::error::CodecError;
use crate::order::ByteOrder;
use std::marker::PhantomData;
use vstd::prelude::*;
use vstd::slice::slice_subrange;

verus! {

/// A value that stands behind its own byte count. The count is read and
/// written by `Length` and is never stored: it is measured when the value is
/// written and dropped once the value is read.
pub struct LengthData<Data, Length>(pub Data, pub PhantomData<Length>);

impl<Data: Clone, Length> Clone for LengthData<Data, Length> {
    fn clone(&self) -> (r: Self)
        ensures
            cloned(self.0, r.0),
    {
        LengthData(self.0.clone(), PhantomData)
    }
}

impl<Data: Codec, Length: LengthCodec> Codec for LengthData<Data, Length> {
    type Model = Data::Model;

    open spec fn model(&self) -> Data::Model {
        self.0.model()
    }

    open spec fn wire(m: Data::Model, order: ByteOrder) -> Result<Seq<u8>, CodecError> {
        match Data::wire(m, order) {
            Err(e) => Err(e),
            Ok(payload) => match Length::of_len(payload.len()) {
                None => Err(CodecError::NumericConversion),
                Some(count) => match Length::wire(count, order) {
                    Err(e) => Err(e),
                    Ok(prefix) => if prefix.len() + payload.len() > usize::MAX {
                        Err(CodecError::NumericConversion)
                    } else {
                        Ok(prefix + payload)
                    },
                },
            },
        }
    }

    open spec fn parse(bytes: Seq<u8>, order: ByteOrder) -> Result<(Data::Model, nat), CodecError> {
        match Length::parse(bytes, order) {
            Err(e) => Err(e),
            Ok((count, read)) => match Length::len_of(count) {
                None => Err(CodecError::NumericConversion),
                Some(len) => if len > usize::MAX {
                    Err(CodecError::NumericConversion)
                } else if read + len > bytes.len() {
                    Err(CodecError::InvalidLength)
                } else {
                    match Data::parse(bytes.subrange(read as int, (read + len) as int), order) {
                        Err(e) => Err(e),
                        Ok((m, used)) => if used != len {
                            Err(CodecError::InvalidLength)
                        } else {
                            Ok((m, read + len))
                        },
                    }
                },
            },
        }
    }

    open spec fn self_delimiting() -> bool {
        Length::self_delimiting()
    }

    proof fn lemma_round_trip(m: Data::Model, order: ByteOrder) {
        let payload = Data::wire(m, order)->Ok_0;
        let count = Length::of_len(payload.len())->Some_0;
        let prefix = Length::wire(count, order)->Ok_0;
        Length::lemma_count(payload.len());
        Length::lemma_round_trip(count, order);
        Length::lemma_rest_ignored(prefix, payload, order);
        Data::lemma_round_trip(m, order);
        assert((prefix + payload).subrange(
            prefix.len() as int,
            (prefix.len() + payload.len()) as int,
        ) =~= payload);
    }

    proof fn lemma_parse_within(bytes: Seq<u8>, order: ByteOrder) {
    }

    proof fn lemma_rest_ignored(bytes: Seq<u8>, rest: Seq<u8>, order: ByteOrder) {
        Length::lemma_rest_ignored(bytes, rest, order);
        let (count, read) = Length::parse(bytes, order)->Ok_0;
        let len = Length::len_of(count)->Some_0;
        assert((bytes + rest).subrange(read as int, (read + len) as int) =~= bytes.subrange(
            read as int,
            (read + len) as int,
        ));
    }

    fn try_from_ctx(src: &[u8], order: ByteOrder) -> (r: Result<(Self, usize), CodecError>)
        ensures
            match r {
                Ok((v, n)) => Self::parse(src@, order) == Ok::<(Self::Model, nat), CodecError>(
                    (v.model(), n as nat),
                ),
                Err(e) => Self::parse(src@, order) == Err::<(Self::Model, nat), CodecError>(e),
            },
    {
        let (count, read) = match Length::try_from_ctx(src, order) {
            Ok(p) => p,
            Err(e) => { return Err(e); },
        };
        let len = match count.to_len() {
            Ok(n) => n,
            Err(e) => { return Err(e); },
        };
        if len > src.len() - read {
            return Err(CodecError::InvalidLength);
        }
        let (data, used) = match Data::try_from_ctx(slice_subrange(src, read, read + len), order) {
            Ok(p) => p,
            Err(e) => { return Err(e); },
        };
        if used != len {
            return Err(CodecError::InvalidLength);
        }
        Ok((LengthData(data, PhantomData), read + len))
    }

    fn try_into_ctx(&self, dest: &mut [u8], order: ByteOrder) -> (r: Result<usize, CodecError>)
        ensures
            r == write_outcome(Self::wire(self.model(), order), old(dest)@.len()),
            final(dest)@ == match r {
                Ok(n) => Self::wire(self.model(), order)->Ok_0 + old(dest)@.skip(n as int),
                Err(_) => old(dest)@,
            },
    {
        let payload_len = match self.0.measure_with(order) {
            Ok(n) => n,
            Err(e) => { return Err(e); },
        };
        let count = match Length::from_len(payload_len) {
            Ok(c) => c,
            Err(e) => { return Err(e); },
        };
        let prefix_len = match count.measure_with(order) {
            Ok(n) => n,
            Err(e) => { return Err(e); },
        };
        if payload_len > usize::MAX - prefix_len {
            return Err(CodecError::NumericConversion);
        }
        if prefix_len + payload_len > dest.len() {
            return Err(CodecError::BufferTooShort);
        }
        let (head, tail) = dest.split_at_mut(prefix_len);
        let wrote_prefix = count.try_into_ctx(head, order);
        let wrote_payload = self.0.try_into_ctx(tail, order);
        proof {
            let prefix = Length::wire(count.model(), order)->Ok_0;
            let payload = Data::wire(self.0.model(), order)->Ok_0;
            assert(wrote_prefix == Ok::<usize, CodecError>(prefix_len));
            assert(wrote_payload == Ok::<usize, CodecError>(payload_len));
            assert(final(dest)@ =~= prefix + payload + old(dest)@.skip(prefix_len + payload_len));
        }
        Ok(prefix_len + payload_len)
    }

    fn measure_with(&self, order: ByteOrder) -> (r: Result<usize, CodecError>)
        ensures
            r == measure_outcome(Self::wire(self.model(), order)),
    {
        let data_len = match self.0.measure_with(order) {
            Ok(n) => n,
            Err(e) => { return Err(e); },
        };
        let count = match Length::from_len(data_len) {
            Ok(c) => c,
            Err(e) => { return Err(e); },
        };
        let prefix_len = match count.measure_with(order) {
            Ok(n) => n,
            Err(e) => { return Err(e); },
        };
        match prefix_len.checked_add(data_len) {
            Some(total) => Ok(total),
            None => Err(CodecError::NumericConversion),
        }
    }
}

impl<Data: IntoInner, Length> IntoInner for LengthData<Data, Length> {
    type Inner = Data::Inner;

    open spec fn inner(self) -> Data::Inner {
        self.0.inner()
    }

    fn into_inner(self) -> (r: Data::Inner)
        ensures
            r == self.0.inner(),
    {
        self.0.into_inner()
    }
}

impl<Data: FromInner, Length> FromInner for LengthData<Data, Length> {
    type Inner = Data::Inner;

    open spec fn wrap(inner: Data::Inner) -> Self {
        LengthData(Data::wrap(inner), PhantomData)
    }

    fn from_inner(inner: Data::Inner) -> (r: Self)
        ensures
            r.0 == Data::wrap(inner),
    {
        LengthData(Data::from_inner(inner), PhantomData)
    }
}

/// A count that announces more bytes than are left behind it is refused,
/// whatever those bytes hold.
pub proof fn lemma_length_beyond_rest<Data: Codec, Length: LengthCodec>(
    bytes: Seq<u8>,
    order: ByteOrder,
)
    requires
        Length::parse(bytes, order) is Ok,
        Length::len_of(Length::parse(bytes, order)->Ok_0.0) is Some,
        Length::len_of(Length::parse(bytes, order)->Ok_0.0)->Some_0 <= usize::MAX,
        Length::parse(bytes, order)->Ok_0.1 + Length::len_of(
            Length::parse(bytes, order)->Ok_0.0,
        )->Some_0 > bytes.len(),
    ensures
        LengthData::<Data, Length>::parse(bytes, order) == Err::<(Data::Model, nat), CodecError>(
            CodecError::InvalidLength,
        ),
{
}

/// A read never takes more bytes than the count and the payload it
/// announces, and its payload is read from exactly the announced bytes.
pub proof fn lemma_length_bounds_payload<Data: Codec, Length: LengthCodec>(
    bytes: Seq<u8>,
    order: ByteOrder,
)
    requires
        LengthData::<Data, Length>::parse(bytes, order) is Ok,
    ensures
        ({
            let (count, read) = Length::parse(bytes, order)->Ok_0;
            let len = Length::len_of(count)->Some_0;
            let (m, n) = LengthData::<Data, Length>::parse(bytes, order)->Ok_0;
            &&& n == read + len
            &&& n <= bytes.len()
            &&& Data::parse(bytes.subrange(read as int, n as int), order) == Ok::<
                (Data::Model, nat),
                CodecError,
            >((m, len))
        }),
{
}

} // verus!
