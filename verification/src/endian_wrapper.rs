use crate::codec::{measure_outcome, write_outcome, Codec, FromInner, IntoInner, LengthCodec};
use crate::error::CodecError;
use crate::order::{ByteOrder, Endian};
use std::marker::PhantomData;
use vstd::prelude::*;

verus! {

/// A value bound to the byte order `E`: it reads and writes as the value
/// inside does under `E`, whatever order the caller hands in.
pub struct EndianWrapper<T, E>(pub T, pub PhantomData<E>);

impl<T: Clone, E> Clone for EndianWrapper<T, E> {
    fn clone(&self) -> (r: Self)
        ensures
            cloned(self.0, r.0),
    {
        EndianWrapper(self.0.clone(), PhantomData)
    }
}

impl<T: Codec, E: Endian> Codec for EndianWrapper<T, E> {
    type Model = T::Model;

    open spec fn model(&self) -> T::Model {
        self.0.model()
    }

    open spec fn wire(m: T::Model, order: ByteOrder) -> Result<Seq<u8>, CodecError> {
        T::wire(m, E::order())
    }

    open spec fn parse(bytes: Seq<u8>, order: ByteOrder) -> Result<(T::Model, nat), CodecError> {
        T::parse(bytes, E::order())
    }

    open spec fn self_delimiting() -> bool {
        T::self_delimiting()
    }

    proof fn lemma_round_trip(m: T::Model, order: ByteOrder) {
        T::lemma_round_trip(m, E::order());
    }

    proof fn lemma_parse_within(bytes: Seq<u8>, order: ByteOrder) {
        T::lemma_parse_within(bytes, E::order());
    }

    proof fn lemma_rest_ignored(bytes: Seq<u8>, rest: Seq<u8>, order: ByteOrder) {
        T::lemma_rest_ignored(bytes, rest, E::order());
    }

    fn try_from_ctx(src: &[u8], order: ByteOrder) -> (r: Result<(Self, usize), CodecError>)
        ensures
            match r {
                Ok((v, n)) => T::parse(src@, E::order()) == Ok::<(T::Model, nat), CodecError>(
                    (v.0.model(), n as nat),
                ),
                Err(e) => T::parse(src@, E::order()) == Err::<(T::Model, nat), CodecError>(e),
            },
    {
        match T::try_from_ctx(src, E::get_val()) {
            Ok((val, size)) => Ok((EndianWrapper(val, PhantomData), size)),
            Err(e) => Err(e),
        }
    }

    fn try_into_ctx(&self, dest: &mut [u8], order: ByteOrder) -> (r: Result<usize, CodecError>)
        ensures
            r == write_outcome(T::wire(self.0.model(), E::order()), old(dest)@.len()),
            final(dest)@ == match r {
                Ok(n) => T::wire(self.0.model(), E::order())->Ok_0 + old(dest)@.skip(n as int),
                Err(_) => old(dest)@,
            },
    {
        self.0.try_into_ctx(dest, E::get_val())
    }

    fn measure_with(&self, order: ByteOrder) -> (r: Result<usize, CodecError>)
        ensures
            r == measure_outcome(T::wire(self.0.model(), E::order())),
    {
        self.0.measure_with(E::get_val())
    }
}

impl<T: LengthCodec, E: Endian> LengthCodec for EndianWrapper<T, E> {
    open spec fn len_of(m: T::Model) -> Option<nat> {
        T::len_of(m)
    }

    open spec fn of_len(n: nat) -> Option<T::Model> {
        T::of_len(n)
    }

    proof fn lemma_count(n: nat) {
        T::lemma_count(n);
    }

    fn to_len(&self) -> (r: Result<usize, CodecError>)
        ensures
            match T::len_of(self.0.model()) {
                Some(n) if n <= usize::MAX => r == Ok::<usize, CodecError>(n as usize),
                _ => r == Err::<usize, CodecError>(CodecError::NumericConversion),
            },
    {
        self.0.to_len()
    }

    fn from_len(n: usize) -> (r: Result<Self, CodecError>)
        ensures
            match T::of_len(n as nat) {
                Some(m) => r is Ok && r->Ok_0.0.model() == m,
                None => r is Err && r->Err_0 == CodecError::NumericConversion,
            },
    {
        match T::from_len(n) {
            Ok(val) => Ok(EndianWrapper(val, PhantomData)),
            Err(e) => Err(e),
        }
    }
}

impl<T: IntoInner, E> IntoInner for EndianWrapper<T, E> {
    type Inner = T::Inner;

    open spec fn inner(self) -> T::Inner {
        self.0.inner()
    }

    fn into_inner(self) -> (r: T::Inner)
        ensures
            r == self.0.inner(),
    {
        self.0.into_inner()
    }
}

impl<T: FromInner, E> FromInner for EndianWrapper<T, E> {
    type Inner = T::Inner;

    open spec fn wrap(inner: T::Inner) -> Self {
        EndianWrapper(T::wrap(inner), PhantomData)
    }

    fn from_inner(inner: T::Inner) -> (r: Self)
        ensures
            r.0 == T::wrap(inner),
    {
        EndianWrapper(T::from_inner(inner), PhantomData)
    }
}

/// The order that the caller hands in does not reach a value bound to an
/// order of its own: it is read and written alike under every one.
pub proof fn lemma_ambient_order_ignored<T: Codec, E: Endian>(
    bytes: Seq<u8>,
    m: T::Model,
    first: ByteOrder,
    second: ByteOrder,
)
    ensures
        EndianWrapper::<T, E>::parse(bytes, first) == EndianWrapper::<T, E>::parse(bytes, second),
        EndianWrapper::<T, E>::wire(m, first) == EndianWrapper::<T, E>::wire(m, second),
        EndianWrapper::<T, E>::parse(bytes, first) == T::parse(bytes, E::order()),
        EndianWrapper::<T, E>::wire(m, first) == T::wire(m, E::order()),
{
}

} // verus!
