use crate::codec::{measure_outcome, write_outcome, Codec, FromInner, IntoInner};
use crate::endian_wrapper::EndianWrapper;
use crate::error::CodecError;
use crate::length::LengthData;
use crate::number::TermWrapper;
use crate::order::{BigEndian, ByteOrder, LittleEndian};
use crate::text::UTF16;
use vstd::prelude::*;
use vstd::slice::slice_subrange;
use vstd::std_specs::convert::FromSpecImpl;

verus! {

/// A wire struct of three fields, read and written one after the other
/// without padding: a big-endian number, a little-endian number, and a
/// little-endian UTF-16 text behind its byte count, itself a big-endian
/// 16-bit number.
pub struct Example {
    pub big: EndianWrapper<TermWrapper<u16>, BigEndian>,
    pub little: EndianWrapper<TermWrapper<u16>, LittleEndian>,
    pub var: LengthData<UTF16<LittleEndian>, EndianWrapper<u16, BigEndian>>,
}

/// The plain values of an `Example`.
#[derive(Debug)]
pub struct ExampleUnwrapped {
    pub big: u16,
    pub little: u16,
    pub var: String,
}

impl View for ExampleUnwrapped {
    type V = (u16, u16, Seq<char>);

    open spec fn view(&self) -> (u16, u16, Seq<char>) {
        (self.big, self.little, self.var@)
    }
}

/// The encoding of a struct from those of its fields, in their order.
pub open spec fn join_fields(
    first: Result<Seq<u8>, CodecError>,
    second: Result<Seq<u8>, CodecError>,
    third: Result<Seq<u8>, CodecError>,
) -> Result<Seq<u8>, CodecError> {
    match first {
        Err(e) => Err(e),
        Ok(a) => match second {
            Err(e) => Err(e),
            Ok(b) => match third {
                Err(e) => Err(e),
                Ok(c) => if a.len() + b.len() + c.len() > usize::MAX {
                    Err(CodecError::NumericConversion)
                } else {
                    Ok(a + b + c)
                },
            },
        },
    }
}

impl Codec for Example {
    type Model = (u16, u16, Seq<char>);

    open spec fn model(&self) -> (u16, u16, Seq<char>) {
        (self.big.model(), self.little.model(), self.var.model())
    }

    open spec fn wire(m: (u16, u16, Seq<char>), order: ByteOrder) -> Result<Seq<u8>, CodecError> {
        join_fields(
            EndianWrapper::<TermWrapper<u16>, BigEndian>::wire(m.0, order),
            EndianWrapper::<TermWrapper<u16>, LittleEndian>::wire(m.1, order),
            LengthData::<UTF16<LittleEndian>, EndianWrapper<u16, BigEndian>>::wire(m.2, order),
        )
    }

    open spec fn parse(bytes: Seq<u8>, order: ByteOrder) -> Result<
        ((u16, u16, Seq<char>), nat),
        CodecError,
    > {
        match EndianWrapper::<TermWrapper<u16>, BigEndian>::parse(bytes, order) {
            Err(e) => Err(e),
            Ok((big, n1)) => match EndianWrapper::<TermWrapper<u16>, LittleEndian>::parse(
                bytes.skip(n1 as int),
                order,
            ) {
                Err(e) => Err(e),
                Ok((little, n2)) => match LengthData::<
                    UTF16<LittleEndian>,
                    EndianWrapper<u16, BigEndian>,
                >::parse(bytes.skip((n1 + n2) as int), order) {
                    Err(e) => Err(e),
                    Ok((var, n3)) => Ok(((big, little, var), n1 + n2 + n3)),
                },
            },
        }
    }

    open spec fn self_delimiting() -> bool {
        true
    }

    proof fn lemma_round_trip(m: (u16, u16, Seq<char>), order: ByteOrder) {
        let a = EndianWrapper::<TermWrapper<u16>, BigEndian>::wire(m.0, order)->Ok_0;
        let b = EndianWrapper::<TermWrapper<u16>, LittleEndian>::wire(m.1, order)->Ok_0;
        let c = LengthData::<UTF16<LittleEndian>, EndianWrapper<u16, BigEndian>>::wire(
            m.2,
            order,
        )->Ok_0;
        let w = a + b + c;
        EndianWrapper::<TermWrapper<u16>, BigEndian>::lemma_round_trip(m.0, order);
        EndianWrapper::<TermWrapper<u16>, BigEndian>::lemma_rest_ignored(a, b + c, order);
        EndianWrapper::<TermWrapper<u16>, LittleEndian>::lemma_round_trip(m.1, order);
        EndianWrapper::<TermWrapper<u16>, LittleEndian>::lemma_rest_ignored(b, c, order);
        LengthData::<UTF16<LittleEndian>, EndianWrapper<u16, BigEndian>>::lemma_round_trip(
            m.2,
            order,
        );
        assert(w =~= a + (b + c));
        assert(w.skip(a.len() as int) =~= b + c);
        assert(w.skip((a.len() + b.len()) as int) =~= c);
    }

    proof fn lemma_parse_within(bytes: Seq<u8>, order: ByteOrder) {
        if Self::parse(bytes, order) is Ok {
            let n1 = EndianWrapper::<TermWrapper<u16>, BigEndian>::parse(bytes, order)->Ok_0.1;
            let n2 = EndianWrapper::<TermWrapper<u16>, LittleEndian>::parse(
                bytes.skip(n1 as int),
                order,
            )->Ok_0.1;
            LengthData::<UTF16<LittleEndian>, EndianWrapper<u16, BigEndian>>::lemma_parse_within(
                bytes.skip((n1 + n2) as int),
                order,
            );
        }
    }

    proof fn lemma_rest_ignored(bytes: Seq<u8>, rest: Seq<u8>, order: ByteOrder) {
        let n1 = EndianWrapper::<TermWrapper<u16>, BigEndian>::parse(bytes, order)->Ok_0.1;
        let n2 = EndianWrapper::<TermWrapper<u16>, LittleEndian>::parse(
            bytes.skip(n1 as int),
            order,
        )->Ok_0.1;
        EndianWrapper::<TermWrapper<u16>, BigEndian>::lemma_rest_ignored(bytes, rest, order);
        assert((bytes + rest).skip(n1 as int) =~= bytes.skip(n1 as int) + rest);
        EndianWrapper::<TermWrapper<u16>, LittleEndian>::lemma_rest_ignored(
            bytes.skip(n1 as int),
            rest,
            order,
        );
        assert((bytes + rest).skip((n1 + n2) as int) =~= bytes.skip((n1 + n2) as int) + rest);
        LengthData::<UTF16<LittleEndian>, EndianWrapper<u16, BigEndian>>::lemma_rest_ignored(
            bytes.skip((n1 + n2) as int),
            rest,
            order,
        );
    }

    fn try_from_ctx(src: &[u8], order: ByteOrder) -> (r: Result<(Self, usize), CodecError>)
        ensures
            match r {
                Ok((v, n)) => Self::parse(src@, order) == Ok::<(Self::Model, nat), CodecError>(
                    (v.model(), n as nat),
                ),
                Err(e) => Self::parse(src@, order) == Err::<(Self::Model, nat), CodecError>(e),
            },
    {
        let (big, n1) = match EndianWrapper::<TermWrapper<u16>, BigEndian>::try_from_ctx(
            src,
            order,
        ) {
            Ok(p) => p,
            Err(e) => { return Err(e); },
        };
        let after_big = slice_subrange(src, n1, src.len());
        assert(after_big@ =~= src@.skip(n1 as int));
        let (little, n2) = match EndianWrapper::<TermWrapper<u16>, LittleEndian>::try_from_ctx(
            after_big,
            order,
        ) {
            Ok(p) => p,
            Err(e) => { return Err(e); },
        };
        let after_little = slice_subrange(src, n1 + n2, src.len());
        assert(after_little@ =~= src@.skip((n1 + n2) as int));
        let (var, n3) = match LengthData::<
            UTF16<LittleEndian>,
            EndianWrapper<u16, BigEndian>,
        >::try_from_ctx(after_little, order) {
            Ok(p) => p,
            Err(e) => { return Err(e); },
        };
        Ok((Example { big, little, var }, n1 + n2 + n3))
    }

    fn try_into_ctx(&self, dest: &mut [u8], order: ByteOrder) -> (r: Result<usize, CodecError>)
        ensures
            r == write_outcome(Self::wire(self.model(), order), old(dest)@.len()),
            final(dest)@ == match r {
                Ok(n) => Self::wire(self.model(), order)->Ok_0 + old(dest)@.skip(n as int),
                Err(_) => old(dest)@,
            },
    {
        let n1 = match self.big.measure_with(order) {
            Ok(n) => n,
            Err(e) => { return Err(e); },
        };
        let n2 = match self.little.measure_with(order) {
            Ok(n) => n,
            Err(e) => { return Err(e); },
        };
        let n3 = match self.var.measure_with(order) {
            Ok(n) => n,
            Err(e) => { return Err(e); },
        };
        if n2 > usize::MAX - n1 || n3 > usize::MAX - n1 - n2 {
            return Err(CodecError::NumericConversion);
        }
        if n1 + n2 + n3 > dest.len() {
            return Err(CodecError::BufferTooShort);
        }
        let (first, rest) = dest.split_at_mut(n1);
        let (second, third) = rest.split_at_mut(n2);
        let w1 = self.big.try_into_ctx(first, order);
        let w2 = self.little.try_into_ctx(second, order);
        let w3 = self.var.try_into_ctx(third, order);
        proof {
            let a = EndianWrapper::<TermWrapper<u16>, BigEndian>::wire(self.big.model(), order)->Ok_0;
            let b = EndianWrapper::<TermWrapper<u16>, LittleEndian>::wire(
                self.little.model(),
                order,
            )->Ok_0;
            let c = LengthData::<UTF16<LittleEndian>, EndianWrapper<u16, BigEndian>>::wire(
                self.var.model(),
                order,
            )->Ok_0;
            assert(w1 == Ok::<usize, CodecError>(n1));
            assert(w2 == Ok::<usize, CodecError>(n2));
            assert(w3 == Ok::<usize, CodecError>(n3));
            assert(final(dest)@ =~= a + b + c + old(dest)@.skip(n1 + n2 + n3));
        }
        Ok(n1 + n2 + n3)
    }

    fn measure_with(&self, order: ByteOrder) -> (r: Result<usize, CodecError>)
        ensures
            r == measure_outcome(Self::wire(self.model(), order)),
    {
        let n1 = match self.big.measure_with(order) {
            Ok(n) => n,
            Err(e) => { return Err(e); },
        };
        let n2 = match self.little.measure_with(order) {
            Ok(n) => n,
            Err(e) => { return Err(e); },
        };
        let n3 = match self.var.measure_with(order) {
            Ok(n) => n,
            Err(e) => { return Err(e); },
        };
        if n2 > usize::MAX - n1 || n3 > usize::MAX - n1 - n2 {
            return Err(CodecError::NumericConversion);
        }
        Ok(n1 + n2 + n3)
    }
}

/// The plain struct that a wire struct holds: each field without its
/// wrappers.
pub open spec fn unwrapped(wire: Example) -> ExampleUnwrapped {
    ExampleUnwrapped { big: wire.big.inner(), little: wire.little.inner(), var: wire.var.inner() }
}

/// The wire struct around a plain struct: each field inside its wrappers.
pub open spec fn wrapped(plain: ExampleUnwrapped) -> Example {
    Example {
        big: EndianWrapper::wrap(plain.big),
        little: EndianWrapper::wrap(plain.little),
        var: LengthData::wrap(plain.var),
    }
}

impl From<Example> for ExampleUnwrapped {
    fn from(src: Example) -> (r: ExampleUnwrapped)
        ensures
            r == unwrapped(src),
    {
        ExampleUnwrapped {
            big: src.big.into_inner(),
            little: src.little.into_inner(),
            var: src.var.into_inner(),
        }
    }
}

impl FromSpecImpl<Example> for ExampleUnwrapped {
    open spec fn obeys_from_spec() -> bool {
        true
    }

    open spec fn from_spec(src: Example) -> ExampleUnwrapped {
        unwrapped(src)
    }
}

impl From<ExampleUnwrapped> for Example {
    fn from(src: ExampleUnwrapped) -> (r: Example)
        ensures
            r == wrapped(src),
    {
        Example {
            big: EndianWrapper::from_inner(src.big),
            little: EndianWrapper::from_inner(src.little),
            var: LengthData::from_inner(src.var),
        }
    }
}

impl FromSpecImpl<ExampleUnwrapped> for Example {
    open spec fn obeys_from_spec() -> bool {
        true
    }

    open spec fn from_spec(src: ExampleUnwrapped) -> Example {
        wrapped(src)
    }
}

/// The least number of bytes that an `Example` takes: two numbers and the
/// count of an empty text.
pub open spec fn example_min_len() -> nat {
    6
}

/// Unwrapping keeps every field's value.
pub proof fn lemma_unwrap_keeps_values(wire: Example)
    ensures
        unwrapped(wire)@ == wire.model(),
{
}

/// Wrapping keeps every field's value, and unwrapping what was wrapped
/// gives the plain struct back.
pub proof fn lemma_wrap_keeps_values(plain: ExampleUnwrapped)
    ensures
        wrapped(plain).model() == plain@,
        unwrapped(wrapped(plain)) == plain,
{
}

/// Wrapping what was unwrapped gives a wire struct with the same encoding.
pub proof fn lemma_rewrap_keeps_wire(wire: Example, order: ByteOrder)
    ensures
        Example::wire(wrapped(unwrapped(wire)).model(), order)
            == Example::wire(wire.model(), order),
{
}

/// A plain struct that is wrapped, written, read and unwrapped comes back
/// with the same values: `decoded` stands for the wire struct that the read
/// returns.
pub proof fn lemma_domain_round_trip(plain: ExampleUnwrapped, decoded: Example, order: ByteOrder)
    requires
        Example::wire(wrapped(plain).model(), order) is Ok,
        decoded.model() == Example::parse(
            Example::wire(wrapped(plain).model(), order)->Ok_0,
            order,
        )->Ok_0.0,
    ensures
        Example::parse(Example::wire(wrapped(plain).model(), order)->Ok_0, order) is Ok,
        unwrapped(decoded)@ == plain@,
{
    Example::lemma_round_trip(plain@, order);
}

/// Bytes that are fewer than the least an `Example` takes are refused as
/// too short, whatever they hold.
pub proof fn lemma_example_short_buffer(bytes: Seq<u8>, order: ByteOrder)
    requires
        bytes.len() < example_min_len(),
    ensures
        Example::parse(bytes, order) == Err::<((u16, u16, Seq<char>), nat), CodecError>(
            CodecError::BufferTooShort,
        ),
{
}

/// An `Example` whose count announces more bytes than follow it is refused
/// for its length.
pub proof fn lemma_example_count_beyond_rest(bytes: Seq<u8>, order: ByteOrder)
    requires
        bytes.len() >= example_min_len(),
        6 + bytes[4] * 256 + bytes[5] > bytes.len(),
    ensures
        Example::parse(bytes, order) == Err::<((u16, u16, Seq<char>), nat), CodecError>(
            CodecError::InvalidLength,
        ),
{
}

/// An `Example` whose count is odd is refused for its length, whatever the
/// bytes behind the count hold.
pub proof fn lemma_example_odd_count(bytes: Seq<u8>, order: ByteOrder)
    requires
        bytes.len() >= example_min_len(),
        bytes[5] % 2 == 1,
    ensures
        Example::parse(bytes, order) == Err::<((u16, u16, Seq<char>), nat), CodecError>(
            CodecError::InvalidLength,
        ),
{
    let len = bytes[4] * 256 + bytes[5];
    if 6 + len <= bytes.len() {
        assert(bytes.skip(4).subrange(2, 2 + len).len() == len);
    }
}

} // verus!
