//! A binary serialization core: values are sent to a byte sink and received
//! from a byte source under an immutable wire [configuration](config::Config)
//! that fixes the byte order, the representation of length prefixes and an
//! optional maximum-size policy.
//!
//! Every encoding is pinned down by a specification function: a type's
//! [`Sendable::wire`] gives the exact byte sequence it produces, and
//! [`Receivable::parse`] gives the exact value and consumed length a byte
//! sequence decodes to. The [`Receivable::round_trip`] obligation makes every
//! decoder invert its encoder.
use vstd::prelude::*;

pub mod composite;
pub mod config;
pub mod endian;
pub mod error;
pub mod model;
pub mod numbytes;
pub mod primitive;
pub mod schema;
pub mod text;

verus! {

use crate::config::Config;
use crate::error::{Error, IoFault};

/// A sink of bytes: the minimal write capability the codec layer needs.
///
/// A sink is modelled by [`Sender::sent`], the bytes it has accepted so far,
/// and [`Sender::accepts`], which tells whether it takes further writes. An
/// in-memory sink always accepts; a fallible one that has stopped accepting
/// refuses the whole write, so no partial write is ever observable.
pub trait Sender {
    /// The bytes this sink has accepted so far. The default leaves the
    /// model unconstrained, so an implementation outside the verifier need
    /// not name one; every verified implementation overrides it.
    open spec fn sent(&self) -> Seq<u8> {
        arbitrary()
    }

    /// Whether this sink accepts further writes.
    open spec fn accepts(&self) -> bool {
        arbitrary()
    }

    /// Writes all of `buf`, or fails without accepting any of it.
    fn snd_all(&mut self, buf: &[u8]) -> (r: Result<(), Error>)
        ensures
            old(self).accepts() ==> (r matches Ok(()) && final(self).accepts() && final(self).sent() == old(self).sent() + buf@),
            !old(self).accepts() ==> (r is Err && !final(self).accepts() && final(self).sent()
                == old(self).sent()),
    ;
}

/// A source of bytes: the minimal read capability the codec layer needs.
///
/// A source is modelled by [`Receiver::remaining`], the bytes it will still
/// deliver, in order. An exact read takes a prefix of them; asking for more
/// than remains fails with an end-of-data error and consumes nothing, so a
/// short read is never returned silently.
pub trait Receiver {
    /// The bytes this source will still deliver. The default leaves the
    /// model unconstrained, so an implementation outside the verifier need
    /// not name one; every verified implementation overrides it.
    open spec fn remaining(&self) -> Seq<u8> {
        arbitrary()
    }

    /// Reads exactly `len` bytes, or fails with an end-of-data error.
    fn rcv_all(&mut self, len: usize) -> (r: Result<Vec<u8>, Error>)
        ensures
            len <= old(self).remaining().len() ==> (r matches Ok(b) && b@ == old(
                self,
            ).remaining().take(len as int) && final(self).remaining() == old(
                self,
            ).remaining().skip(len as int)),
            len > old(self).remaining().len() ==> (r matches Err(e) && e == Error::Io(
                IoFault::UnexpectedEof,
            ) && final(self).remaining() == old(self).remaining()),
    ;
}

/// A value that can be serialized under a wire configuration.
pub trait Sendable {
    /// The exact bytes this value puts on the wire under `c`.
    spec fn wire(&self, c: Config) -> Seq<u8>;

    /// Whether encoding this value succeeds on an accepting sink.
    /// False only where a rule of the format rejects the value itself,
    /// such as a count above the configured maximum.
    open spec fn ok_to_send(&self, c: Config) -> bool {
        true
    }

    /// Constrains the error returned when [`Sendable::ok_to_send`] is false.
    open spec fn send_fault(&self, c: Config, e: Error) -> bool {
        false
    }

    /// Whether this value's wire form decodes back to the identical value.
    /// False only in the documented lossy cases, such as a count wider than
    /// the configured length representation.
    open spec fn faithful(&self, c: Config) -> bool {
        true
    }

    /// Appends this value's wire form to `writer`.
    fn snd_to<S: Sender>(&self, writer: &mut S, c: Config) -> (r: Result<(), Error>)
        ensures
            old(writer).accepts() && self.ok_to_send(c) ==> (r matches Ok(()) && final(writer).accepts() && final(writer).sent() == old(writer).sent() + self.wire(c)),
            old(writer).accepts() && !self.ok_to_send(c) ==> (r matches Err(e) && self.send_fault(
                c,
                e,
            )),
    ;
}

/// A value that can be deserialized under a wire configuration.
///
/// Decoding is deterministic: [`Receivable::parse`] fixes, for every byte
/// sequence, either the unique value and consumed length or a failure, and
/// [`Receivable::rcv_from`] must agree with it.
pub trait Receivable: Sendable + crate::model::Model + Sized {
    /// Parses a prefix of `s`: the mathematical model of the decoded value
    /// ([`Model::M`](crate::model::Model)) and the number of bytes
    /// consumed, or `None` when `s` does not begin with a valid encoding.
    spec fn parse(s: Seq<u8>, c: Config) -> Option<(Self::M, int)>;

    /// Constrains the error returned when [`Receivable::parse`] fails.
    open spec fn parse_fault(s: Seq<u8>, c: Config, e: Error) -> bool {
        true
    }

    /// A successful parse consumes at least nothing and no more than the
    /// bytes it was given.
    proof fn parse_bounds(s: Seq<u8>, c: Config)
        ensures
            Self::parse(s, c) matches Some((m, n)) ==> 0 <= n <= s.len(),
    ;

    /// Every value this type sends is decoded back unchanged: its wire form,
    /// followed by anything, parses to the identical value, consuming exactly
    /// the wire form. [`Sendable::faithful`] excludes the documented lossy
    /// cases.
    proof fn round_trip(&self, c: Config, rest: Seq<u8>)
        requires
            self.ok_to_send(c),
            self.faithful(c),
        ensures
            Self::parse(self.wire(c) + rest, c) == Some(
                (self.model(), self.wire(c).len() as int),
            ),
    ;

    /// Reads one value of this type from `reader`.
    fn rcv_from<R: Receiver>(reader: &mut R, c: Config) -> (r: Result<Self, Error>)
        ensures
            Self::parse(old(reader).remaining(), c) matches Some((v, n)) ==> (r matches Ok(rv)
                && rv.model() == v && final(reader).remaining() == old(reader).remaining().skip(
                n,
            )),
            Self::parse(old(reader).remaining(), c) is None ==> (r matches Err(e)
                && Self::parse_fault(old(reader).remaining(), c, e)),
    ;
}

/// Convenience: lets a sink send any [`Sendable`] value directly.
pub trait Snd {
    /// The bytes this sink has accepted so far; see [`Sender::sent`].
    spec fn snd_sent(&self) -> Seq<u8>;

    /// Whether this sink accepts further writes; see [`Sender::accepts`].
    spec fn snd_accepts(&self) -> bool;

    /// Sends `v`, as [`Sendable::snd_to`] does.
    fn snd<T: Sendable>(&mut self, v: T, c: Config) -> (r: Result<(), Error>)
        ensures
            old(self).snd_accepts() && v.ok_to_send(c) ==> (r matches Ok(()) && final(self).snd_accepts() && final(self).snd_sent() == old(self).snd_sent() + v.wire(c)),
            old(self).snd_accepts() && !v.ok_to_send(c) ==> (r matches Err(e) && v.send_fault(
                c,
                e,
            )),
    ;
}

/// Convenience: lets a source receive any [`Receivable`] value directly.
pub trait Rcv {
    /// The bytes this source will still deliver; see [`Receiver::remaining`].
    spec fn rcv_remaining(&self) -> Seq<u8>;

    /// Receives one value of type `T`, as [`Receivable::rcv_from`] does.
    fn rcv<T: Receivable>(&mut self, c: Config) -> (r: Result<T, Error>)
        ensures
            T::parse(old(self).rcv_remaining(), c) matches Some((v, n)) ==> (r matches Ok(rv)
                && rv.model() == v && final(self).rcv_remaining() == old(
                self,
            ).rcv_remaining().skip(n)),
            T::parse(old(self).rcv_remaining(), c) is None ==> (r matches Err(e) && T::parse_fault(
                old(self).rcv_remaining(),
                c,
                e,
            )),
    ;

    /// Reads exactly `len` raw bytes, as [`Receiver::rcv_all`] does.
    fn rcv_bytes(&mut self, len: usize) -> (r: Result<Vec<u8>, Error>)
        ensures
            len <= old(self).rcv_remaining().len() ==> (r matches Ok(b) && b@ == old(
                self,
            ).rcv_remaining().take(len as int) && final(self).rcv_remaining() == old(
                self,
            ).rcv_remaining().skip(len as int)),
            len > old(self).rcv_remaining().len() ==> (r matches Err(e) && e == Error::Io(
                IoFault::UnexpectedEof,
            ) && final(self).rcv_remaining() == old(self).rcv_remaining()),
    ;
}

impl<'a, T: Sendable> Sendable for &'a T {
    open spec fn wire(&self, c: Config) -> Seq<u8> {
        (**self).wire(c)
    }

    open spec fn ok_to_send(&self, c: Config) -> bool {
        (**self).ok_to_send(c)
    }

    open spec fn send_fault(&self, c: Config, e: Error) -> bool {
        (**self).send_fault(c, e)
    }

    open spec fn faithful(&self, c: Config) -> bool {
        (**self).faithful(c)
    }

    fn snd_to<S: Sender>(&self, writer: &mut S, c: Config) -> (r: Result<(), Error>) {
        (**self).snd_to(writer, c)
    }
}

impl<S: Sender> Snd for S {
    open spec fn snd_sent(&self) -> Seq<u8> {
        self.sent()
    }

    open spec fn snd_accepts(&self) -> bool {
        self.accepts()
    }

    fn snd<T: Sendable>(&mut self, v: T, c: Config) -> (r: Result<(), Error>) {
        v.snd_to(self, c)
    }
}

impl<R: Receiver> Rcv for R {
    open spec fn rcv_remaining(&self) -> Seq<u8> {
        self.remaining()
    }

    fn rcv<T: Receivable>(&mut self, c: Config) -> (r: Result<T, Error>) {
        T::rcv_from(self, c)
    }

    fn rcv_bytes(&mut self, len: usize) -> (r: Result<Vec<u8>, Error>) {
        self.rcv_all(len)
    }
}

/// Reads a value whose wire length is dictated from outside, as a
/// `len`-annotated record field is: the fixed-length decode form.
pub trait FromReader: Receivable {
    /// Parses exactly the first `len` bytes of `s` into the mathematical
    /// model of a value, or fails.
    spec fn parse_sized(s: Seq<u8>, len: int, c: Config) -> Option<Self::M>;

    /// Constrains the error returned when [`FromReader::parse_sized`] fails.
    open spec fn parse_sized_fault(s: Seq<u8>, len: int, c: Config, e: Error) -> bool {
        true
    }

    /// Reads exactly `len` bytes from `reader` and decodes them.
    fn from_reader<R: Receiver>(reader: &mut R, len: usize, c: Config) -> (r: Result<Self, Error>)
        ensures
            Self::parse_sized(old(reader).remaining(), len as int, c) matches Some(v) ==> (r
                matches Ok(rv) && rv.model() == v && final(reader).remaining() == old(
                reader,
            ).remaining().skip(len as int)),
            Self::parse_sized(old(reader).remaining(), len as int, c) is None ==> (r matches Err(e)
                && Self::parse_sized_fault(old(reader).remaining(), len as int, c, e)),
    ;
}

/// Writes a value into a wire length dictated from outside, truncating or
/// zero-padding to exactly `len` bytes: the fixed-length encode form.
pub trait IntoWriter {
    /// The exact `len` bytes this value puts on the wire.
    spec fn wire_sized(&self, len: int, c: Config) -> Seq<u8>;

    /// Whether the fixed-length encode of this value succeeds; see
    /// [`Sendable::ok_to_send`].
    open spec fn ok_to_send_sized(&self, len: int, c: Config) -> bool {
        true
    }

    /// Constrains the error returned when [`IntoWriter::ok_to_send_sized`]
    /// is false.
    open spec fn send_sized_fault(&self, len: int, c: Config, e: Error) -> bool {
        false
    }

    /// Appends exactly `len` bytes for this value to `writer`.
    fn into_writer<S: Sender>(&self, writer: &mut S, len: usize, c: Config) -> (r: Result<
        (),
        Error,
    >)
        ensures
            old(writer).accepts() && self.ok_to_send_sized(len as int, c) ==> (r matches Ok(())
                && final(writer).accepts() && final(writer).sent() == old(writer).sent()
                + self.wire_sized(len as int, c) && self.wire_sized(len as int, c).len() == len),
            old(writer).accepts() && !self.ok_to_send_sized(len as int, c) ==> (r matches Err(e)
                && self.send_sized_fault(len as int, c, e) && final(writer).sent() == old(
                writer,
            ).sent()),
    ;
}

impl Sender for Vec<u8> {
    open spec fn sent(&self) -> Seq<u8> {
        self@
    }

    open spec fn accepts(&self) -> bool {
        true
    }

    fn snd_all(&mut self, buf: &[u8]) -> (r: Result<(), Error>) {
        let mut i: usize = 0;
        while i < buf.len()
            invariant
                i <= buf@.len(),
                self@ == old(self)@ + buf@.take(i as int),
            decreases buf@.len() - i,
        {
            self.push(buf[i]);
            proof {
                assert(buf@.take(i + 1) =~= buf@.take(i as int).push(buf@[i as int]));
            }
            i = i + 1;
        }
        proof {
            assert(buf@.take(buf@.len() as int) =~= buf@);
        }
        Ok(())
    }
}

impl<'a> Receiver for &'a [u8] {
    open spec fn remaining(&self) -> Seq<u8> {
        self@
    }

    fn rcv_all(&mut self, len: usize) -> (r: Result<Vec<u8>, Error>) {
        if len <= self.len() {
            let front: &[u8] = vstd::slice::slice_subrange(*self, 0, len);
            let rest: &'a [u8] = vstd::slice::slice_subrange(*self, len, self.len());
            let out: Vec<u8> = vstd::slice::slice_to_vec(front);
            *self = rest;
            proof {
                assert(out@ =~= old(self)@.take(len as int));
                assert(self@ =~= old(self)@.skip(len as int));
            }
            Ok(out)
        } else {
            Err(Error::Io(IoFault::UnexpectedEof))
        }
    }
}

} // verus!
