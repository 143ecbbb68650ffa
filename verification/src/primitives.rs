//! The numeric-to-bytes adapter: a capability, implemented per native
//! numeric type, that produces the value's canonical decimal textual form
//! as bytes (the integer 42 becomes the two bytes `"42"`).

use vstd::prelude::*;

verus! {

/// The decimal digits of `n` as ASCII bytes, most significant first.
pub open spec fn dec_bytes(n: nat) -> Seq<u8>
    decreases n,
{
    if n < 10 {
        seq![(48 + n) as u8]
    } else {
        dec_bytes(n / 10).push((48 + n % 10) as u8)
    }
}

/// The canonical decimal text of an integer as ASCII bytes: a minus sign
/// for negative values, then the digits of the absolute value.
pub open spec fn dec_bytes_signed(n: int) -> Seq<u8> {
    if n < 0 {
        seq![45u8] + dec_bytes((-n) as nat)
    } else {
        dec_bytes(n as nat)
    }
}

/// A capability to convert a native numeric value into the byte form of
/// its canonical decimal text, for storage through
/// [`crate::ByteBox::insert_primitive`].
pub trait BytesPrimitives {
    /// The byte sequence that the conversion produces.
    spec fn bytes_spec(&self) -> Seq<u8>;

    /// Converts the value into the bytes of its decimal text.
    fn to_bytes(&self) -> (r: Vec<u8>)
        ensures
            r@ == self.bytes_spec(),
    ;
}

/// Appends the decimal digits of `n` to `out`.
pub(crate) fn push_dec(n: u128, out: &mut Vec<u8>)
    ensures
        final(out)@ == old(out)@ + dec_bytes(n as nat),
    decreases n,
{
    if n >= 10 {
        push_dec(n / 10, out);
    }
    out.push((n % 10) as u8 + 48);
    proof {
        if n < 10 {
            assert(out@ =~= old(out)@ + dec_bytes(n as nat));
        } else {
            assert(out@ =~= old(out)@ + dec_bytes(n as nat));
        }
    }
}

/// Converts an unsigned value to its decimal bytes.
fn unsigned_to_bytes(n: u128) -> (r: Vec<u8>)
    ensures
        r@ == dec_bytes(n as nat),
{
    let mut out: Vec<u8> = Vec::new();
    push_dec(n, &mut out);
    proof {
        assert(out@ =~= dec_bytes(n as nat));
    }
    out
}

/// Converts a signed value to its decimal bytes, minus sign included.
fn signed_to_bytes(n: i128) -> (r: Vec<u8>)
    requires
        n > i128::MIN,
    ensures
        r@ == dec_bytes_signed(n as int),
{
    if n < 0 {
        let mut out: Vec<u8> = Vec::new();
        out.push(45);
        push_dec((-n) as u128, &mut out);
        proof {
            assert(out@ =~= dec_bytes_signed(n as int));
        }
        out
    } else {
        unsigned_to_bytes(n as u128)
    }
}

impl BytesPrimitives for u8 {
    open spec fn bytes_spec(&self) -> Seq<u8> {
        dec_bytes(*self as nat)
    }

    fn to_bytes(&self) -> (r: Vec<u8>) {
        unsigned_to_bytes(*self as u128)
    }
}

impl BytesPrimitives for u16 {
    open spec fn bytes_spec(&self) -> Seq<u8> {
        dec_bytes(*self as nat)
    }

    fn to_bytes(&self) -> (r: Vec<u8>) {
        unsigned_to_bytes(*self as u128)
    }
}

impl BytesPrimitives for u32 {
    open spec fn bytes_spec(&self) -> Seq<u8> {
        dec_bytes(*self as nat)
    }

    fn to_bytes(&self) -> (r: Vec<u8>) {
        unsigned_to_bytes(*self as u128)
    }
}

impl BytesPrimitives for u64 {
    open spec fn bytes_spec(&self) -> Seq<u8> {
        dec_bytes(*self as nat)
    }

    fn to_bytes(&self) -> (r: Vec<u8>) {
        unsigned_to_bytes(*self as u128)
    }
}

impl BytesPrimitives for usize {
    open spec fn bytes_spec(&self) -> Seq<u8> {
        dec_bytes(*self as nat)
    }

    fn to_bytes(&self) -> (r: Vec<u8>) {
        unsigned_to_bytes(*self as u128)
    }
}

impl BytesPrimitives for i8 {
    open spec fn bytes_spec(&self) -> Seq<u8> {
        dec_bytes_signed(*self as int)
    }

    fn to_bytes(&self) -> (r: Vec<u8>) {
        signed_to_bytes(*self as i128)
    }
}

impl BytesPrimitives for i16 {
    open spec fn bytes_spec(&self) -> Seq<u8> {
        dec_bytes_signed(*self as int)
    }

    fn to_bytes(&self) -> (r: Vec<u8>) {
        signed_to_bytes(*self as i128)
    }
}

impl BytesPrimitives for i32 {
    open spec fn bytes_spec(&self) -> Seq<u8> {
        dec_bytes_signed(*self as int)
    }

    fn to_bytes(&self) -> (r: Vec<u8>) {
        signed_to_bytes(*self as i128)
    }
}

impl BytesPrimitives for i64 {
    open spec fn bytes_spec(&self) -> Seq<u8> {
        dec_bytes_signed(*self as int)
    }

    fn to_bytes(&self) -> (r: Vec<u8>) {
        signed_to_bytes(*self as i128)
    }
}

impl BytesPrimitives for isize {
    open spec fn bytes_spec(&self) -> Seq<u8> {
        dec_bytes_signed(*self as int)
    }

    fn to_bytes(&self) -> (r: Vec<u8>) {
        signed_to_bytes(*self as i128)
    }
}

} // verus!
