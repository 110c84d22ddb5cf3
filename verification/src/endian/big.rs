//! The big-endian pinned codec: values sent through these traits use
//! most-significant-byte-first order no matter what the configuration's
//! default byte order is. Length prefixes inside composite values still
//! follow the configuration, as the unpinned codec does.
use vstd::prelude::*;

verus! {

use crate::config::Config;
use crate::endian::BE;
use crate::error::{Error, IoFault};
use crate::numbytes::{
    lemma_num_bytes_len,
    lemma_num_round_small,
    lemma_pow256_values,
    num_bytes,
    num_val,
    rcv_uint,
    snd_uint,
};
use crate::config::Endian;
use crate::{Receivable, Receiver, Sendable, Sender};

/// A value that can be serialized with its byte order pinned to big-endian.
pub trait SendableBE {
    /// The exact bytes this value puts on the wire, pinned big-endian.
    spec fn wire_be(&self, c: Config) -> Seq<u8>;

    /// Whether encoding this value succeeds on an accepting sink; see
    /// [`Sendable::ok_to_send`].
    open spec fn ok_to_send_be(&self, c: Config) -> bool {
        true
    }

    /// Constrains the error returned when [`SendableBE::ok_to_send_be`] is
    /// false.
    open spec fn send_fault_be(&self, c: Config, e: Error) -> bool {
        false
    }

    /// Whether this value's pinned wire form decodes back unchanged; see
    /// [`Sendable::faithful`].
    open spec fn faithful_be(&self, c: Config) -> bool {
        true
    }

    /// Appends this value's big-endian wire form to `writer`.
    fn send_to<W: Sender>(&self, writer: &mut W, c: Config) -> (r: Result<(), Error>)
        ensures
            old(writer).accepts() && self.ok_to_send_be(c) ==> (r matches Ok(()) && final(
                writer
            ).accepts() && final(writer).sent() == old(writer).sent() + self.wire_be(c)),
            old(writer).accepts() && !self.ok_to_send_be(c) ==> (r matches Err(e)
                && self.send_fault_be(c, e)),
    ;
}

/// A value that can be deserialized with its byte order pinned to
/// big-endian; the counterpart of [`SendableBE`].
pub trait ReceivableBE: SendableBE + crate::model::Model + Sized {
    /// Parses a prefix of `s` pinned big-endian into the mathematical
    /// model of a value; see [`Receivable::parse`].
    spec fn parse_be(s: Seq<u8>, c: Config) -> Option<(Self::M, int)>;

    /// Constrains the error returned when [`ReceivableBE::parse_be`] fails.
    open spec fn parse_fault_be(s: Seq<u8>, c: Config, e: Error) -> bool {
        true
    }

    /// A successful pinned parse consumes at least nothing and no more
    /// than the bytes it was given.
    proof fn parse_bounds_be(s: Seq<u8>, c: Config)
        ensures
            Self::parse_be(s, c) matches Some((m, n)) ==> 0 <= n <= s.len(),
    ;

    /// The pinned decoder inverts the pinned encoder; see
    /// [`Receivable::round_trip`].
    proof fn round_trip_be(&self, c: Config, rest: Seq<u8>)
        requires
            self.ok_to_send_be(c),
            self.faithful_be(c),
        ensures
            Self::parse_be(self.wire_be(c) + rest, c) == Some(
                (self.model(), self.wire_be(c).len() as int),
            ),
    ;

    /// Reads one value of this type from `reader`, pinned big-endian.
    fn receive_from<R: Receiver>(reader: &mut R, c: Config) -> (r: Result<Self, Error>)
        ensures
            Self::parse_be(old(reader).remaining(), c) matches Some((v, n)) ==> (r matches Ok(
                rv,
            ) && rv.model() == v && final(reader).remaining() == old(
                reader,
            ).remaining().skip(n)),
            Self::parse_be(old(reader).remaining(), c) is None ==> (r matches Err(e)
                && Self::parse_fault_be(old(reader).remaining(), c, e)),
    ;
}

impl<'a, T: SendableBE> SendableBE for &'a T {
    open spec fn wire_be(&self, c: Config) -> Seq<u8> {
        (**self).wire_be(c)
    }

    open spec fn ok_to_send_be(&self, c: Config) -> bool {
        (**self).ok_to_send_be(c)
    }

    open spec fn send_fault_be(&self, c: Config, e: Error) -> bool {
        (**self).send_fault_be(c, e)
    }

    open spec fn faithful_be(&self, c: Config) -> bool {
        (**self).faithful_be(c)
    }

    fn send_to<W: Sender>(&self, writer: &mut W, c: Config) -> (r: Result<(), Error>) {
        (**self).send_to(writer, c)
    }
}

impl<T: SendableBE> Sendable for BE<T> {
    open spec fn wire(&self, c: Config) -> Seq<u8> {
        self.0.wire_be(c)
    }

    open spec fn ok_to_send(&self, c: Config) -> bool {
        self.0.ok_to_send_be(c)
    }

    open spec fn send_fault(&self, c: Config, e: Error) -> bool {
        self.0.send_fault_be(c, e)
    }

    open spec fn faithful(&self, c: Config) -> bool {
        self.0.faithful_be(c)
    }

    fn snd_to<S: Sender>(&self, writer: &mut S, c: Config) -> (r: Result<(), Error>) {
        self.0.send_to(writer, c)
    }
}

impl<T: ReceivableBE> Receivable for BE<T> {
    open spec fn parse(s: Seq<u8>, c: Config) -> Option<(T::M, int)> {
        T::parse_be(s, c)
    }

    open spec fn parse_fault(s: Seq<u8>, c: Config, e: Error) -> bool {
        T::parse_fault_be(s, c, e)
    }

    proof fn parse_bounds(s: Seq<u8>, c: Config) {
        T::parse_bounds_be(s, c);
    }

    proof fn round_trip(&self, c: Config, rest: Seq<u8>) {
        self.0.round_trip_be(c, rest);
    }

    fn rcv_from<R: Receiver>(reader: &mut R, c: Config) -> (r: Result<BE<T>, Error>) {
        match T::receive_from(reader, c) {
            Ok(v) => Ok(BE(v)),
            Err(e) => Err(e),
        }
    }
}

impl SendableBE for u16 {
    open spec fn wire_be(&self, c: Config) -> Seq<u8> {
        num_bytes(Endian::Big, *self as nat, 2)
    }

    fn send_to<W: Sender>(&self, writer: &mut W, c: Config) -> (r: Result<(), Error>) {
        snd_uint(writer, Endian::Big, *self as u128, 2)
    }
}

impl ReceivableBE for u16 {
    open spec fn parse_be(s: Seq<u8>, c: Config) -> Option<(u16, int)> {
        if s.len() >= 2 {
            Some((num_val(Endian::Big, s.take(2)) as u16, 2int))
        } else {
            None
        }
    }

    open spec fn parse_fault_be(s: Seq<u8>, c: Config, e: Error) -> bool {
        e == Error::Io(IoFault::UnexpectedEof)
    }

    proof fn parse_bounds_be(s: Seq<u8>, c: Config) {
    }

    proof fn round_trip_be(&self, c: Config, rest: Seq<u8>) {
        let w = self.wire_be(c);
        lemma_num_bytes_len(Endian::Big, *self as nat, 2);
        assert((w + rest).take(2) =~= w);
        lemma_pow256_values();
        lemma_num_round_small(Endian::Big, *self as nat, 2);
    }

    fn receive_from<R: Receiver>(reader: &mut R, c: Config) -> (r: Result<u16, Error>) {
        proof {
            lemma_pow256_values();
        }
        let v = rcv_uint(reader, Endian::Big, 2)?;
        Ok(v as u16)
    }
}

impl SendableBE for u32 {
    open spec fn wire_be(&self, c: Config) -> Seq<u8> {
        num_bytes(Endian::Big, *self as nat, 4)
    }

    fn send_to<W: Sender>(&self, writer: &mut W, c: Config) -> (r: Result<(), Error>) {
        snd_uint(writer, Endian::Big, *self as u128, 4)
    }
}

impl ReceivableBE for u32 {
    open spec fn parse_be(s: Seq<u8>, c: Config) -> Option<(u32, int)> {
        if s.len() >= 4 {
            Some((num_val(Endian::Big, s.take(4)) as u32, 4int))
        } else {
            None
        }
    }

    open spec fn parse_fault_be(s: Seq<u8>, c: Config, e: Error) -> bool {
        e == Error::Io(IoFault::UnexpectedEof)
    }

    proof fn parse_bounds_be(s: Seq<u8>, c: Config) {
    }

    proof fn round_trip_be(&self, c: Config, rest: Seq<u8>) {
        let w = self.wire_be(c);
        lemma_num_bytes_len(Endian::Big, *self as nat, 4);
        assert((w + rest).take(4) =~= w);
        lemma_pow256_values();
        lemma_num_round_small(Endian::Big, *self as nat, 4);
    }

    fn receive_from<R: Receiver>(reader: &mut R, c: Config) -> (r: Result<u32, Error>) {
        proof {
            lemma_pow256_values();
        }
        let v = rcv_uint(reader, Endian::Big, 4)?;
        Ok(v as u32)
    }
}

impl SendableBE for u64 {
    open spec fn wire_be(&self, c: Config) -> Seq<u8> {
        num_bytes(Endian::Big, *self as nat, 8)
    }

    fn send_to<W: Sender>(&self, writer: &mut W, c: Config) -> (r: Result<(), Error>) {
        snd_uint(writer, Endian::Big, *self as u128, 8)
    }
}

impl ReceivableBE for u64 {
    open spec fn parse_be(s: Seq<u8>, c: Config) -> Option<(u64, int)> {
        if s.len() >= 8 {
            Some((num_val(Endian::Big, s.take(8)) as u64, 8int))
        } else {
            None
        }
    }

    open spec fn parse_fault_be(s: Seq<u8>, c: Config, e: Error) -> bool {
        e == Error::Io(IoFault::UnexpectedEof)
    }

    proof fn parse_bounds_be(s: Seq<u8>, c: Config) {
    }

    proof fn round_trip_be(&self, c: Config, rest: Seq<u8>) {
        let w = self.wire_be(c);
        lemma_num_bytes_len(Endian::Big, *self as nat, 8);
        assert((w + rest).take(8) =~= w);
        lemma_pow256_values();
        lemma_num_round_small(Endian::Big, *self as nat, 8);
    }

    fn receive_from<R: Receiver>(reader: &mut R, c: Config) -> (r: Result<u64, Error>) {
        proof {
            lemma_pow256_values();
        }
        let v = rcv_uint(reader, Endian::Big, 8)?;
        Ok(v as u64)
    }
}

impl SendableBE for u128 {
    open spec fn wire_be(&self, c: Config) -> Seq<u8> {
        num_bytes(Endian::Big, *self as nat, 16)
    }

    fn send_to<W: Sender>(&self, writer: &mut W, c: Config) -> (r: Result<(), Error>) {
        snd_uint(writer, Endian::Big, *self as u128, 16)
    }
}

impl ReceivableBE for u128 {
    open spec fn parse_be(s: Seq<u8>, c: Config) -> Option<(u128, int)> {
        if s.len() >= 16 {
            Some((num_val(Endian::Big, s.take(16)) as u128, 16int))
        } else {
            None
        }
    }

    open spec fn parse_fault_be(s: Seq<u8>, c: Config, e: Error) -> bool {
        e == Error::Io(IoFault::UnexpectedEof)
    }

    proof fn parse_bounds_be(s: Seq<u8>, c: Config) {
    }

    proof fn round_trip_be(&self, c: Config, rest: Seq<u8>) {
        let w = self.wire_be(c);
        lemma_num_bytes_len(Endian::Big, *self as nat, 16);
        assert((w + rest).take(16) =~= w);
        lemma_pow256_values();
        lemma_num_round_small(Endian::Big, *self as nat, 16);
    }

    fn receive_from<R: Receiver>(reader: &mut R, c: Config) -> (r: Result<u128, Error>) {
        proof {
            lemma_pow256_values();
        }
        let v = rcv_uint(reader, Endian::Big, 16)?;
        Ok(v as u128)
    }
}

impl SendableBE for i16 {
    open spec fn wire_be(&self, c: Config) -> Seq<u8> {
        num_bytes(Endian::Big, (*self as u16) as nat, 2)
    }

    fn send_to<W: Sender>(&self, writer: &mut W, c: Config) -> (r: Result<(), Error>) {
        snd_uint(writer, Endian::Big, (*self as u16) as u128, 2)
    }
}

impl ReceivableBE for i16 {
    open spec fn parse_be(s: Seq<u8>, c: Config) -> Option<(i16, int)> {
        if s.len() >= 2 {
            Some(((num_val(Endian::Big, s.take(2)) as u16) as i16, 2int))
        } else {
            None
        }
    }

    open spec fn parse_fault_be(s: Seq<u8>, c: Config, e: Error) -> bool {
        e == Error::Io(IoFault::UnexpectedEof)
    }

    proof fn parse_bounds_be(s: Seq<u8>, c: Config) {
    }

    proof fn round_trip_be(&self, c: Config, rest: Seq<u8>) {
        let w = self.wire_be(c);
        lemma_num_bytes_len(Endian::Big, (*self as u16) as nat, 2);
        assert((w + rest).take(2) =~= w);
        lemma_pow256_values();
        lemma_num_round_small(Endian::Big, (*self as u16) as nat, 2);
        assert((*self as u16) as i16 == *self) by (bit_vector);
    }

    fn receive_from<R: Receiver>(reader: &mut R, c: Config) -> (r: Result<i16, Error>) {
        proof {
            lemma_pow256_values();
        }
        let v = rcv_uint(reader, Endian::Big, 2)?;
        Ok((v as u16) as i16)
    }
}

impl SendableBE for i32 {
    open spec fn wire_be(&self, c: Config) -> Seq<u8> {
        num_bytes(Endian::Big, (*self as u32) as nat, 4)
    }

    fn send_to<W: Sender>(&self, writer: &mut W, c: Config) -> (r: Result<(), Error>) {
        snd_uint(writer, Endian::Big, (*self as u32) as u128, 4)
    }
}

impl ReceivableBE for i32 {
    open spec fn parse_be(s: Seq<u8>, c: Config) -> Option<(i32, int)> {
        if s.len() >= 4 {
            Some(((num_val(Endian::Big, s.take(4)) as u32) as i32, 4int))
        } else {
            None
        }
    }

    open spec fn parse_fault_be(s: Seq<u8>, c: Config, e: Error) -> bool {
        e == Error::Io(IoFault::UnexpectedEof)
    }

    proof fn parse_bounds_be(s: Seq<u8>, c: Config) {
    }

    proof fn round_trip_be(&self, c: Config, rest: Seq<u8>) {
        let w = self.wire_be(c);
        lemma_num_bytes_len(Endian::Big, (*self as u32) as nat, 4);
        assert((w + rest).take(4) =~= w);
        lemma_pow256_values();
        lemma_num_round_small(Endian::Big, (*self as u32) as nat, 4);
        assert((*self as u32) as i32 == *self) by (bit_vector);
    }

    fn receive_from<R: Receiver>(reader: &mut R, c: Config) -> (r: Result<i32, Error>) {
        proof {
            lemma_pow256_values();
        }
        let v = rcv_uint(reader, Endian::Big, 4)?;
        Ok((v as u32) as i32)
    }
}

impl SendableBE for i64 {
    open spec fn wire_be(&self, c: Config) -> Seq<u8> {
        num_bytes(Endian::Big, (*self as u64) as nat, 8)
    }

    fn send_to<W: Sender>(&self, writer: &mut W, c: Config) -> (r: Result<(), Error>) {
        snd_uint(writer, Endian::Big, (*self as u64) as u128, 8)
    }
}

impl ReceivableBE for i64 {
    open spec fn parse_be(s: Seq<u8>, c: Config) -> Option<(i64, int)> {
        if s.len() >= 8 {
            Some(((num_val(Endian::Big, s.take(8)) as u64) as i64, 8int))
        } else {
            None
        }
    }

    open spec fn parse_fault_be(s: Seq<u8>, c: Config, e: Error) -> bool {
        e == Error::Io(IoFault::UnexpectedEof)
    }

    proof fn parse_bounds_be(s: Seq<u8>, c: Config) {
    }

    proof fn round_trip_be(&self, c: Config, rest: Seq<u8>) {
        let w = self.wire_be(c);
        lemma_num_bytes_len(Endian::Big, (*self as u64) as nat, 8);
        assert((w + rest).take(8) =~= w);
        lemma_pow256_values();
        lemma_num_round_small(Endian::Big, (*self as u64) as nat, 8);
        assert((*self as u64) as i64 == *self) by (bit_vector);
    }

    fn receive_from<R: Receiver>(reader: &mut R, c: Config) -> (r: Result<i64, Error>) {
        proof {
            lemma_pow256_values();
        }
        let v = rcv_uint(reader, Endian::Big, 8)?;
        Ok((v as u64) as i64)
    }
}

impl SendableBE for i128 {
    open spec fn wire_be(&self, c: Config) -> Seq<u8> {
        num_bytes(Endian::Big, (*self as u128) as nat, 16)
    }

    fn send_to<W: Sender>(&self, writer: &mut W, c: Config) -> (r: Result<(), Error>) {
        snd_uint(writer, Endian::Big, (*self as u128) as u128, 16)
    }
}

impl ReceivableBE for i128 {
    open spec fn parse_be(s: Seq<u8>, c: Config) -> Option<(i128, int)> {
        if s.len() >= 16 {
            Some(((num_val(Endian::Big, s.take(16)) as u128) as i128, 16int))
        } else {
            None
        }
    }

    open spec fn parse_fault_be(s: Seq<u8>, c: Config, e: Error) -> bool {
        e == Error::Io(IoFault::UnexpectedEof)
    }

    proof fn parse_bounds_be(s: Seq<u8>, c: Config) {
    }

    proof fn round_trip_be(&self, c: Config, rest: Seq<u8>) {
        let w = self.wire_be(c);
        lemma_num_bytes_len(Endian::Big, (*self as u128) as nat, 16);
        assert((w + rest).take(16) =~= w);
        lemma_pow256_values();
        lemma_num_round_small(Endian::Big, (*self as u128) as nat, 16);
        assert((*self as u128) as i128 == *self) by (bit_vector);
    }

    fn receive_from<R: Receiver>(reader: &mut R, c: Config) -> (r: Result<i128, Error>) {
        proof {
            lemma_pow256_values();
        }
        let v = rcv_uint(reader, Endian::Big, 16)?;
        Ok((v as u128) as i128)
    }
}

} // verus!
