use crate::error::CodecError;
use crate::order::ByteOrder;
use vstd::prelude::*;

verus! {

/// What `try_into_ctx` returns, given the encoding (or the reason why there
/// is none) and the room in the destination.
pub open spec fn write_outcome(wire: Result<Seq<u8>, CodecError>, room: nat) -> Result<
    usize,
    CodecError,
> {
    match wire {
        Err(e) => Err(e),
        Ok(w) => if w.len() > room {
            Err(CodecError::BufferTooShort)
        } else {
            Ok(w.len() as usize)
        },
    }
}

/// What `measure_with` returns, given the encoding.
pub open spec fn measure_outcome(wire: Result<Seq<u8>, CodecError>) -> Result<usize, CodecError> {
    match wire {
        Err(e) => Err(e),
        Ok(w) => Ok(w.len() as usize),
    }
}

/// Where an encoding has room, `try_into_ctx` writes as many bytes as
/// `measure_with` counts.
pub proof fn lemma_measure_is_written(wire: Result<Seq<u8>, CodecError>, room: nat)
    requires
        wire is Ok,
        wire->Ok_0.len() <= room,
    ensures
        write_outcome(wire, room) == measure_outcome(wire),
{
}

/// A type that is read from bytes and written to bytes under a byte order.
///
/// `Model` is the mathematical value that the type carries. `wire` gives the
/// bytes of a model, `parse` the model that a byte sequence holds together
/// with the number of bytes that it takes.
pub trait Codec: Sized {
    type Model;

    spec fn model(&self) -> Self::Model;

    /// The encoding of `m`, or the reason why it has none. An encoding is
    /// never longer than `usize::MAX` bytes.
    spec fn wire(m: Self::Model, order: ByteOrder) -> Result<Seq<u8>, CodecError>;

    /// The value at the start of `bytes` and the number of bytes it takes.
    spec fn parse(bytes: Seq<u8>, order: ByteOrder) -> Result<(Self::Model, nat), CodecError>;

    /// Whether a read finds the end of its value by itself, so that bytes
    /// behind the value do not change what is read. A codec that is not
    /// self-delimiting takes whatever range it is given.
    spec fn self_delimiting() -> bool;

    /// A value that has an encoding is read back from it, and the read takes
    /// all its bytes.
    proof fn lemma_round_trip(m: Self::Model, order: ByteOrder)
        requires
            Self::wire(m, order) is Ok,
        ensures
            Self::parse(Self::wire(m, order)->Ok_0, order) == Ok::<(Self::Model, nat), CodecError>(
                (m, Self::wire(m, order)->Ok_0.len()),
            ),
    ;

    /// A read never takes more bytes than there are.
    proof fn lemma_parse_within(bytes: Seq<u8>, order: ByteOrder)
        ensures
            Self::parse(bytes, order) is Ok ==> Self::parse(bytes, order)->Ok_0.1 <= bytes.len(),
    ;

    /// What a self-delimiting codec reads stays the same when more bytes
    /// follow.
    proof fn lemma_rest_ignored(bytes: Seq<u8>, rest: Seq<u8>, order: ByteOrder)
        requires
            Self::parse(bytes, order) is Ok,
        ensures
            Self::self_delimiting() ==> Self::parse(bytes + rest, order) == Self::parse(
                bytes,
                order,
            ),
    ;

    /// Reads a value from the start of `src`.
    fn try_from_ctx(src: &[u8], order: ByteOrder) -> (r: Result<(Self, usize), CodecError>)
        ensures
            match r {
                Ok((v, n)) => Self::parse(src@, order) == Ok::<(Self::Model, nat), CodecError>(
                    (v.model(), n as nat),
                ) && n <= src@.len(),
                Err(e) => Self::parse(src@, order) == Err::<(Self::Model, nat), CodecError>(e),
            },
    ;

    /// Writes the value at the start of `dest`. On failure `dest` is left as
    /// it was.
    fn try_into_ctx(&self, dest: &mut [u8], order: ByteOrder) -> (r: Result<usize, CodecError>)
        ensures
            r == write_outcome(Self::wire(self.model(), order), old(dest)@.len()),
            final(dest)@ == match r {
                Ok(n) => Self::wire(self.model(), order)->Ok_0 + old(dest)@.skip(n as int),
                Err(_) => old(dest)@,
            },
    ;

    /// The number of bytes that `try_into_ctx` writes.
    fn measure_with(&self, order: ByteOrder) -> (r: Result<usize, CodecError>)
        ensures
            r == measure_outcome(Self::wire(self.model(), order)),
            r is Ok ==> Self::wire(self.model(), order)->Ok_0.len() <= usize::MAX,
    ;
}

/// A codec whose value serves as the length of what follows it.
pub trait LengthCodec: Codec {
    /// The byte count that `m` stands for, if it is one.
    spec fn len_of(m: Self::Model) -> Option<nat>;

    /// The value that stands for the byte count `n`, if there is one.
    spec fn of_len(n: nat) -> Option<Self::Model>;

    /// A count is self-delimiting, and the value that stands for a byte
    /// count stands for that count and no other.
    proof fn lemma_count(n: nat)
        ensures
            Self::self_delimiting(),
            Self::of_len(n) is Some ==> Self::len_of(Self::of_len(n)->Some_0) == Some(n),
    ;

    fn to_len(&self) -> (r: Result<usize, CodecError>)
        ensures
            match Self::len_of(self.model()) {
                Some(n) if n <= usize::MAX => r == Ok::<usize, CodecError>(n as usize),
                _ => r == Err::<usize, CodecError>(CodecError::NumericConversion),
            },
    ;

    fn from_len(n: usize) -> (r: Result<Self, CodecError>)
        ensures
            match Self::of_len(n as nat) {
                Some(m) => r is Ok && r->Ok_0.model() == m,
                None => r is Err && r->Err_0 == CodecError::NumericConversion,
            },
    ;
}

/// A wire value that gives up the plain value inside all its wrappers.
pub trait IntoInner: Sized {
    type Inner;

    spec fn inner(self) -> Self::Inner;

    fn into_inner(self) -> (r: Self::Inner)
        ensures
            r == self.inner(),
    ;
}

/// A wire value that is built around a plain value.
pub trait FromInner: Sized {
    type Inner;

    spec fn wrap(inner: Self::Inner) -> Self;

    fn from_inner(inner: Self::Inner) -> (r: Self)
        ensures
            r == Self::wrap(inner),
    ;
}

} // verus!
