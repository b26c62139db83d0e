use vstd::prelude::*;

verus! {

/// The order in which the bytes of a number stand on the wire.
#[derive(Clone, Copy, Debug, PartialEq, Eq, Structural)]
pub enum ByteOrder {
    Big,
    Little,
}

/// A byte order fixed by a type: a marker without data.
pub trait Endian {
    /// The order that the marker stands for.
    spec fn order() -> ByteOrder;

    fn get_val() -> (r: ByteOrder)
        ensures
            r == Self::order(),
    ;
}

/// Marker: least significant byte first.
#[derive(Clone, Copy, Debug)]
pub struct LittleEndian;

/// Marker: most significant byte first.
#[derive(Clone, Copy, Debug)]
pub struct BigEndian;

impl Endian for LittleEndian {
    open spec fn order() -> ByteOrder {
        ByteOrder::Little
    }

    fn get_val() -> (r: ByteOrder)
        ensures
            r == ByteOrder::Little,
    {
        ByteOrder::Little
    }
}

impl Endian for BigEndian {
    open spec fn order() -> ByteOrder {
        ByteOrder::Big
    }

    fn get_val() -> (r: ByteOrder)
        ensures
            r == ByteOrder::Big,
    {
        ByteOrder::Big
    }
}

} // verus!
