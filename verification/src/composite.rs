//! Codecs for composite values: optional values, raw byte buffers, heap
//! boxes, fixed byte arrays, tuples and ranges. Each composes the wire
//! forms of its parts in declared order, with no header of its own beyond
//! what the format prescribes.
use vstd::prelude::*;

verus! {

use crate::config::Config;
use crate::endian::{len_fits, len_parse, len_wire, Length};
use crate::error::{Error, IoFault};
use crate::model::Model;
use crate::{Receivable, Receiver, Sendable, Sender};

impl Sendable for Vec<u8> {
    open spec fn wire(&self, c: Config) -> Seq<u8> {
        len_wire(self@.len(), c) + self@
    }

    open spec fn ok_to_send(&self, c: Config) -> bool {
        self@.len() <= c.spec_max()
    }

    open spec fn send_fault(&self, c: Config, e: Error) -> bool {
        e == Error::DataTooLarge(c.spec_max())
    }

    open spec fn faithful(&self, c: Config) -> bool {
        len_fits(self@.len(), c)
    }

    fn snd_to<S: Sender>(&self, writer: &mut S, c: Config) -> (r: Result<(), Error>) {
        let len = Length(self.len());
        len.check(c)?;
        let r0 = len.snd_to(writer, c);
        match r0 {
            Ok(()) => (),
            Err(err) => {
                return Err(err);
            },
        }
        writer.snd_all(self.as_slice())
    }
}

impl Receivable for Vec<u8> {
    open spec fn parse(s: Seq<u8>, c: Config) -> Option<(Seq<u8>, int)> {
        match len_parse(s, c) {
            Some((n, k)) => if k + n <= s.len() {
                Some((s.subrange(k, k + n), k + n))
            } else {
                None
            },
            None => None,
        }
    }

    open spec fn parse_fault(s: Seq<u8>, c: Config, e: Error) -> bool {
        match len_parse(s, c) {
            Some((n, k)) => e == Error::Io(IoFault::UnexpectedEof),
            None => <Length as Receivable>::parse_fault(s, c, e),
        }
    }

    proof fn parse_bounds(s: Seq<u8>, c: Config) {
        crate::endian::lemma_len_parse_bounds(s, c);
    }

    proof fn round_trip(&self, c: Config, rest: Seq<u8>) {
        let body = self@;
        let n = self@.len() as usize;
        let lw = len_wire(self@.len(), c);
        assert(self.wire(c) + rest =~= lw + (body + rest));
        crate::endian::lemma_len_round(n, c, body + rest);
        let k = lw.len() as int;
        assert((self.wire(c) + rest).subrange(k, k + n as int) =~= body);
    }

    fn rcv_from<R: Receiver>(reader: &mut R, c: Config) -> (r: Result<Vec<u8>, Error>) {
        let ghost s0 = reader.remaining();
        let len = Length::rcv_from(reader, c)?;
        let ghost k = (<Length as Receivable>::parse(s0, c))->Some_0.1;
        proof {
            crate::endian::lemma_len_parse_bounds(s0, c);
        }
        let n = len.0;
        let ghost s1 = reader.remaining();
        let b = reader.rcv_all(n)?;
        proof {
            assert(b@ =~= s0.subrange(k, k + n as int));
            assert(s1.skip(n as int) =~= s0.skip(k + n));
        }
        Ok(b)
    }
}

impl<T: Sendable> Sendable for Option<T> {
    open spec fn wire(&self, c: Config) -> Seq<u8> {
        match self {
            Some(v) => seq![1u8] + v.wire(c),
            None => seq![0u8],
        }
    }

    open spec fn ok_to_send(&self, c: Config) -> bool {
        match self {
            Some(v) => v.ok_to_send(c),
            None => true,
        }
    }

    open spec fn send_fault(&self, c: Config, e: Error) -> bool {
        match self {
            Some(v) => v.send_fault(c, e),
            None => false,
        }
    }

    open spec fn faithful(&self, c: Config) -> bool {
        match self {
            Some(v) => v.faithful(c),
            None => true,
        }
    }

    fn snd_to<S: Sender>(&self, writer: &mut S, c: Config) -> (r: Result<(), Error>) {
        match self {
            Some(v) => {
                let r0 = 1u8.snd_to(writer, c);
                match r0 {
                    Ok(()) => (),
                    Err(err) => {
                        return Err(err);
                    },
                }
                v.snd_to(writer, c)
            },
            None => 0u8.snd_to(writer, c),
        }
    }
}

impl<T: Receivable> Receivable for Option<T> {
    open spec fn parse(s: Seq<u8>, c: Config) -> Option<(Option<T::M>, int)> {
        if s.len() < 1 {
            None
        } else if s[0] == 0 {
            Some((None, 1int))
        } else {
            match T::parse(s.skip(1), c) {
                Some((m, n)) => Some((Some(m), n + 1)),
                None => None,
            }
        }
    }

    open spec fn parse_fault(s: Seq<u8>, c: Config, e: Error) -> bool {
        if s.len() < 1 {
            e == Error::Io(IoFault::UnexpectedEof)
        } else if s[0] == 0 {
            true
        } else {
            T::parse_fault(s.skip(1), c, e)
        }
    }

    proof fn parse_bounds(s: Seq<u8>, c: Config) {
        if s.len() >= 1 && s[0] != 0 {
            T::parse_bounds(s.skip(1), c);
        }
    }

    proof fn round_trip(&self, c: Config, rest: Seq<u8>) {
        match self {
            Some(v) => {
                let w = self.wire(c);
                assert(w[0] == 1u8);
                assert((w + rest).skip(1) =~= v.wire(c) + rest);
                v.round_trip(c, rest);
            },
            None => {
                assert((self.wire(c) + rest)[0] == 0u8);
            },
        }
    }

    fn rcv_from<R: Receiver>(reader: &mut R, c: Config) -> (r: Result<Option<T>, Error>) {
        let ghost s0 = reader.remaining();
        let flag = u8::rcv_from(reader, c)?;
        proof {
            assert(s0[0] == flag);
        }
        if flag != 0 {
            let ghost s1 = reader.remaining();
            proof {
                assert(s1 == s0.skip(1));
            }
            let rv = T::rcv_from(reader, c);
            match rv {
                Ok(v) => {
                    proof {
                        T::parse_bounds(s0.skip(1), c);
                        let n = (T::parse(s0.skip(1), c))->Some_0.1;
                        assert(s0.skip(1).skip(n) =~= s0.skip(n + 1));
                    }
                    Ok(Some(v))
                },
                Err(err) => Err(err),
            }
        } else {
            Ok(None)
        }
    }
}

impl<T: Sendable> Sendable for Box<T> {
    open spec fn wire(&self, c: Config) -> Seq<u8> {
        (**self).wire(c)
    }

    open spec fn ok_to_send(&self, c: Config) -> bool {
        (**self).ok_to_send(c)
    }

    open spec fn send_fault(&self, c: Config, e: Error) -> bool {
        (**self).send_fault(c, e)
    }

    open spec fn faithful(&self, c: Config) -> bool {
        (**self).faithful(c)
    }

    fn snd_to<S: Sender>(&self, writer: &mut S, c: Config) -> (r: Result<(), Error>) {
        (**self).snd_to(writer, c)
    }
}

impl<T: Receivable> Receivable for Box<T> {
    open spec fn parse(s: Seq<u8>, c: Config) -> Option<(T::M, int)> {
        T::parse(s, c)
    }

    open spec fn parse_fault(s: Seq<u8>, c: Config, e: Error) -> bool {
        T::parse_fault(s, c, e)
    }

    proof fn parse_bounds(s: Seq<u8>, c: Config) {
        T::parse_bounds(s, c);
    }

    proof fn round_trip(&self, c: Config, rest: Seq<u8>) {
        (**self).round_trip(c, rest);
    }

    fn rcv_from<R: Receiver>(reader: &mut R, c: Config) -> (r: Result<Box<T>, Error>) {
        let v = T::rcv_from(reader, c)?;
        Ok(Box::new(v))
    }
}

impl<const N: usize> Sendable for [u8; N] {
    open spec fn wire(&self, c: Config) -> Seq<u8> {
        self@
    }

    fn snd_to<S: Sender>(&self, writer: &mut S, c: Config) -> (r: Result<(), Error>) {
        writer.snd_all(self.as_slice())
    }
}

/// Relies on copying from a slice into an array of the same length: the
/// array then holds exactly the slice's bytes.
#[verifier::external_body]
fn array_from_vec<const N: usize>(v: Vec<u8>) -> (r: [u8; N])
    requires
        v@.len() == N,
    ensures
        r@ == v@,
{
    let mut out = [0u8; N];
    out.copy_from_slice(v.as_slice());
    out
}

impl<const N: usize> Receivable for [u8; N] {
    open spec fn parse(s: Seq<u8>, c: Config) -> Option<(Seq<u8>, int)> {
        if s.len() >= N {
            Some((s.take(N as int), N as int))
        } else {
            None
        }
    }

    open spec fn parse_fault(s: Seq<u8>, c: Config, e: Error) -> bool {
        e == Error::Io(IoFault::UnexpectedEof)
    }

    proof fn parse_bounds(s: Seq<u8>, c: Config) {
    }

    proof fn round_trip(&self, c: Config, rest: Seq<u8>) {
        assert((self@ + rest).take(N as int) =~= self@);
    }

    fn rcv_from<R: Receiver>(reader: &mut R, c: Config) -> (r: Result<[u8; N], Error>) {
        let b = reader.rcv_all(N)?;
        Ok(array_from_vec(b))
    }
}

impl<A: Sendable, B: Sendable> Sendable for (A, B) {
    open spec fn wire(&self, c: Config) -> Seq<u8> {
        self.0.wire(c) + self.1.wire(c)
    }

    open spec fn ok_to_send(&self, c: Config) -> bool {
        self.0.ok_to_send(c) && self.1.ok_to_send(c)
    }

    open spec fn send_fault(&self, c: Config, e: Error) -> bool {
        if !self.0.ok_to_send(c) {
            self.0.send_fault(c, e)
        } else {
            self.1.send_fault(c, e)
        }
    }

    open spec fn faithful(&self, c: Config) -> bool {
        self.0.faithful(c) && self.1.faithful(c)
    }

    fn snd_to<S: Sender>(&self, writer: &mut S, c: Config) -> (r: Result<(), Error>) {
        let r0 = self.0.snd_to(writer, c);
        match r0 {
            Ok(()) => (),
            Err(err) => {
                return Err(err);
            },
        }
        self.1.snd_to(writer, c)
    }
}

impl<A: Receivable, B: Receivable> Receivable for (A, B) {
    open spec fn parse(s: Seq<u8>, c: Config) -> Option<((A::M, B::M), int)> {
        match A::parse(s, c) {
            Some((ma, na)) => match B::parse(s.skip(na), c) {
                Some((mb, nb)) => Some(((ma, mb), na + nb)),
                None => None,
            },
            None => None,
        }
    }

    open spec fn parse_fault(s: Seq<u8>, c: Config, e: Error) -> bool {
        match A::parse(s, c) {
            Some((ma, na)) => B::parse_fault(s.skip(na), c, e),
            None => A::parse_fault(s, c, e),
        }
    }

    proof fn parse_bounds(s: Seq<u8>, c: Config) {
        A::parse_bounds(s, c);
        match A::parse(s, c) {
            Some((ma, na)) => {
                B::parse_bounds(s.skip(na), c);
            },
            None => {},
        }
    }

    proof fn round_trip(&self, c: Config, rest: Seq<u8>) {
        let wa = self.0.wire(c);
        let wb = self.1.wire(c);
        assert(self.wire(c) + rest =~= wa + (wb + rest));
        self.0.round_trip(c, wb + rest);
        assert((wa + (wb + rest)).skip(wa.len() as int) =~= wb + rest);
        self.1.round_trip(c, rest);
    }

    fn rcv_from<R: Receiver>(reader: &mut R, c: Config) -> (r: Result<(A, B), Error>) {
        let ghost s0 = reader.remaining();
        let a = A::rcv_from(reader, c)?;
        proof {
            A::parse_bounds(s0, c);
            let na = (A::parse(s0, c))->Some_0.1;
            B::parse_bounds(s0.skip(na), c);
            match B::parse(s0.skip(na), c) {
                Some((mb, nb)) => {
                    assert(s0.skip(na).skip(nb) =~= s0.skip(na + nb));
                },
                None => {},
            }
        }
        let b = B::rcv_from(reader, c)?;
        Ok((a, b))
    }
}

impl<A: Sendable, B: Sendable, C: Sendable> Sendable for (A, B, C) {
    open spec fn wire(&self, c: Config) -> Seq<u8> {
        self.0.wire(c) + self.1.wire(c) + self.2.wire(c)
    }

    open spec fn ok_to_send(&self, c: Config) -> bool {
        self.0.ok_to_send(c) && self.1.ok_to_send(c) && self.2.ok_to_send(c)
    }

    open spec fn send_fault(&self, c: Config, e: Error) -> bool {
        if !self.0.ok_to_send(c) {
            self.0.send_fault(c, e)
        } else if !self.1.ok_to_send(c) {
            self.1.send_fault(c, e)
        } else {
            self.2.send_fault(c, e)
        }
    }

    open spec fn faithful(&self, c: Config) -> bool {
        self.0.faithful(c) && self.1.faithful(c) && self.2.faithful(c)
    }

    fn snd_to<S: Sender>(&self, writer: &mut S, c: Config) -> (r: Result<(), Error>) {
        let r0 = self.0.snd_to(writer, c);
        match r0 {
            Ok(()) => (),
            Err(err) => {
                return Err(err);
            },
        }
        let r1 = self.1.snd_to(writer, c);
        match r1 {
            Ok(()) => (),
            Err(err) => {
                return Err(err);
            },
        }
        self.2.snd_to(writer, c)
    }
}

impl<A: Receivable, B: Receivable, C: Receivable> Receivable for (A, B, C) {
    open spec fn parse(s: Seq<u8>, c: Config) -> Option<((A::M, B::M, C::M), int)> {
        match A::parse(s, c) {
            Some((ma, na)) => match B::parse(s.skip(na), c) {
                Some((mb, nb)) => match C::parse(s.skip(na + nb), c) {
                    Some((mc, nc)) => Some(((ma, mb, mc), na + nb + nc)),
                    None => None,
                },
                None => None,
            },
            None => None,
        }
    }

    open spec fn parse_fault(s: Seq<u8>, c: Config, e: Error) -> bool {
        match A::parse(s, c) {
            Some((ma, na)) => match B::parse(s.skip(na), c) {
                Some((mb, nb)) => C::parse_fault(s.skip(na + nb), c, e),
                None => B::parse_fault(s.skip(na), c, e),
            },
            None => A::parse_fault(s, c, e),
        }
    }

    proof fn parse_bounds(s: Seq<u8>, c: Config) {
        A::parse_bounds(s, c);
        match A::parse(s, c) {
            Some((ma, na)) => {
                B::parse_bounds(s.skip(na), c);
                match B::parse(s.skip(na), c) {
                    Some((mb, nb)) => {
                        C::parse_bounds(s.skip(na + nb), c);
                        assert(s.skip(na).skip(nb) =~= s.skip(na + nb));
                    },
                    None => {},
                }
            },
            None => {},
        }
    }

    proof fn round_trip(&self, c: Config, rest: Seq<u8>) {
        let wa = self.0.wire(c);
        let wb = self.1.wire(c);
        let wc = self.2.wire(c);
        let s = self.wire(c) + rest;
        assert(s =~= wa + (wb + (wc + rest)));
        self.0.round_trip(c, wb + (wc + rest));
        assert((wa + (wb + (wc + rest))).skip(wa.len() as int) =~= wb + (wc + rest));
        self.1.round_trip(c, wc + rest);
        assert(s.skip(wa.len() + wb.len() as int) =~= wc + rest);
        self.2.round_trip(c, rest);
    }

    fn rcv_from<R: Receiver>(reader: &mut R, c: Config) -> (r: Result<(A, B, C), Error>) {
        let ghost s0 = reader.remaining();
        let a = A::rcv_from(reader, c)?;
        proof {
            A::parse_bounds(s0, c);
            let na = (A::parse(s0, c))->Some_0.1;
            B::parse_bounds(s0.skip(na), c);
            match B::parse(s0.skip(na), c) {
                Some((mb, nb)) => {
                    assert(s0.skip(na).skip(nb) =~= s0.skip(na + nb));
                },
                None => {},
            }
        }
        let b = B::rcv_from(reader, c)?;
        proof {
            let na = (A::parse(s0, c))->Some_0.1;
            let nb = (B::parse(s0.skip(na), c))->Some_0.1;
            C::parse_bounds(s0.skip(na + nb), c);
            match C::parse(s0.skip(na + nb), c) {
                Some((mc, nc)) => {
                    assert(s0.skip(na + nb).skip(nc) =~= s0.skip(na + nb + nc));
                },
                None => {},
            }
        }
        let cc = C::rcv_from(reader, c)?;
        Ok((a, b, cc))
    }
}

impl<A: Sendable, B: Sendable, C: Sendable, D: Sendable> Sendable for (A, B, C, D) {
    open spec fn wire(&self, c: Config) -> Seq<u8> {
        self.0.wire(c) + self.1.wire(c) + self.2.wire(c) + self.3.wire(c)
    }

    open spec fn ok_to_send(&self, c: Config) -> bool {
        self.0.ok_to_send(c) && self.1.ok_to_send(c) && self.2.ok_to_send(c) && self.3.ok_to_send(
            c,
        )
    }

    open spec fn send_fault(&self, c: Config, e: Error) -> bool {
        if !self.0.ok_to_send(c) {
            self.0.send_fault(c, e)
        } else if !self.1.ok_to_send(c) {
            self.1.send_fault(c, e)
        } else if !self.2.ok_to_send(c) {
            self.2.send_fault(c, e)
        } else {
            self.3.send_fault(c, e)
        }
    }

    open spec fn faithful(&self, c: Config) -> bool {
        self.0.faithful(c) && self.1.faithful(c) && self.2.faithful(c) && self.3.faithful(c)
    }

    fn snd_to<S: Sender>(&self, writer: &mut S, c: Config) -> (r: Result<(), Error>) {
        let r0 = self.0.snd_to(writer, c);
        match r0 {
            Ok(()) => (),
            Err(err) => {
                return Err(err);
            },
        }
        let r1 = self.1.snd_to(writer, c);
        match r1 {
            Ok(()) => (),
            Err(err) => {
                return Err(err);
            },
        }
        let r2 = self.2.snd_to(writer, c);
        match r2 {
            Ok(()) => (),
            Err(err) => {
                return Err(err);
            },
        }
        self.3.snd_to(writer, c)
    }
}

impl<A: Receivable, B: Receivable, C: Receivable, D: Receivable> Receivable for (A, B, C, D) {
    open spec fn parse(s: Seq<u8>, c: Config) -> Option<((A::M, B::M, C::M, D::M), int)> {
        match A::parse(s, c) {
            Some((ma, na)) => match B::parse(s.skip(na), c) {
                Some((mb, nb)) => match C::parse(s.skip(na + nb), c) {
                    Some((mc, nc)) => match D::parse(s.skip(na + nb + nc), c) {
                        Some((md, nd)) => Some(((ma, mb, mc, md), na + nb + nc + nd)),
                        None => None,
                    },
                    None => None,
                },
                None => None,
            },
            None => None,
        }
    }

    open spec fn parse_fault(s: Seq<u8>, c: Config, e: Error) -> bool {
        match A::parse(s, c) {
            Some((ma, na)) => match B::parse(s.skip(na), c) {
                Some((mb, nb)) => match C::parse(s.skip(na + nb), c) {
                    Some((mc, nc)) => D::parse_fault(s.skip(na + nb + nc), c, e),
                    None => C::parse_fault(s.skip(na + nb), c, e),
                },
                None => B::parse_fault(s.skip(na), c, e),
            },
            None => A::parse_fault(s, c, e),
        }
    }

    proof fn parse_bounds(s: Seq<u8>, c: Config) {
        A::parse_bounds(s, c);
        match A::parse(s, c) {
            Some((ma, na)) => {
                B::parse_bounds(s.skip(na), c);
                match B::parse(s.skip(na), c) {
                    Some((mb, nb)) => {
                        C::parse_bounds(s.skip(na + nb), c);
                        assert(s.skip(na).skip(nb) =~= s.skip(na + nb));
                        match C::parse(s.skip(na + nb), c) {
                            Some((mc, nc)) => {
                                D::parse_bounds(s.skip(na + nb + nc), c);
                                assert(s.skip(na + nb).skip(nc) =~= s.skip(na + nb + nc));
                            },
                            None => {},
                        }
                    },
                    None => {},
                }
            },
            None => {},
        }
    }

    proof fn round_trip(&self, c: Config, rest: Seq<u8>) {
        let wa = self.0.wire(c);
        let wb = self.1.wire(c);
        let wc = self.2.wire(c);
        let wd = self.3.wire(c);
        let s = self.wire(c) + rest;
        assert(s =~= wa + (wb + (wc + (wd + rest))));
        self.0.round_trip(c, wb + (wc + (wd + rest)));
        assert(s.skip(wa.len() as int) =~= wb + (wc + (wd + rest)));
        self.1.round_trip(c, wc + (wd + rest));
        assert(s.skip(wa.len() + wb.len() as int) =~= wc + (wd + rest));
        self.2.round_trip(c, wd + rest);
        assert(s.skip(wa.len() + wb.len() + wc.len() as int) =~= wd + rest);
        self.3.round_trip(c, rest);
    }

    fn rcv_from<R: Receiver>(reader: &mut R, c: Config) -> (r: Result<(A, B, C, D), Error>) {
        let ghost s0 = reader.remaining();
        let a = A::rcv_from(reader, c)?;
        proof {
            A::parse_bounds(s0, c);
            let na = (A::parse(s0, c))->Some_0.1;
            B::parse_bounds(s0.skip(na), c);
            match B::parse(s0.skip(na), c) {
                Some((mb, nb)) => {
                    assert(s0.skip(na).skip(nb) =~= s0.skip(na + nb));
                },
                None => {},
            }
        }
        let b = B::rcv_from(reader, c)?;
        proof {
            let na = (A::parse(s0, c))->Some_0.1;
            let nb = (B::parse(s0.skip(na), c))->Some_0.1;
            C::parse_bounds(s0.skip(na + nb), c);
            match C::parse(s0.skip(na + nb), c) {
                Some((mc, nc)) => {
                    assert(s0.skip(na + nb).skip(nc) =~= s0.skip(na + nb + nc));
                },
                None => {},
            }
        }
        let cc = C::rcv_from(reader, c)?;
        proof {
            let na = (A::parse(s0, c))->Some_0.1;
            let nb = (B::parse(s0.skip(na), c))->Some_0.1;
            let nc = (C::parse(s0.skip(na + nb), c))->Some_0.1;
            D::parse_bounds(s0.skip(na + nb + nc), c);
            match D::parse(s0.skip(na + nb + nc), c) {
                Some((md, nd)) => {
                    assert(s0.skip(na + nb + nc).skip(nd) =~= s0.skip(na + nb + nc + nd));
                },
                None => {},
            }
        }
        let d = D::rcv_from(reader, c)?;
        Ok((a, b, cc, d))
    }
}

impl<'a, T: crate::model::Model + Clone> crate::model::Model for std::borrow::Cow<'a, T> {
    type M = T::M;

    open spec fn model(&self) -> T::M {
        match self {
            std::borrow::Cow::Borrowed(v) => v.model(),
            std::borrow::Cow::Owned(v) => v.model(),
        }
    }
}

impl<'a, T: Sendable + Clone> Sendable for std::borrow::Cow<'a, T> {
    open spec fn wire(&self, c: Config) -> Seq<u8> {
        match self {
            std::borrow::Cow::Borrowed(v) => v.wire(c),
            std::borrow::Cow::Owned(v) => v.wire(c),
        }
    }

    open spec fn ok_to_send(&self, c: Config) -> bool {
        match self {
            std::borrow::Cow::Borrowed(v) => v.ok_to_send(c),
            std::borrow::Cow::Owned(v) => v.ok_to_send(c),
        }
    }

    open spec fn send_fault(&self, c: Config, e: Error) -> bool {
        match self {
            std::borrow::Cow::Borrowed(v) => v.send_fault(c, e),
            std::borrow::Cow::Owned(v) => v.send_fault(c, e),
        }
    }

    open spec fn faithful(&self, c: Config) -> bool {
        match self {
            std::borrow::Cow::Borrowed(v) => v.faithful(c),
            std::borrow::Cow::Owned(v) => v.faithful(c),
        }
    }

    fn snd_to<S: Sender>(&self, writer: &mut S, c: Config) -> (r: Result<(), Error>) {
        match self {
            std::borrow::Cow::Borrowed(v) => v.snd_to(writer, c),
            std::borrow::Cow::Owned(v) => v.snd_to(writer, c),
        }
    }
}

impl<'a, T: Receivable + Clone> Receivable for std::borrow::Cow<'a, T> {
    open spec fn parse(s: Seq<u8>, c: Config) -> Option<(T::M, int)> {
        T::parse(s, c)
    }

    open spec fn parse_fault(s: Seq<u8>, c: Config, e: Error) -> bool {
        T::parse_fault(s, c, e)
    }

    proof fn parse_bounds(s: Seq<u8>, c: Config) {
        T::parse_bounds(s, c);
    }

    proof fn round_trip(&self, c: Config, rest: Seq<u8>) {
        match self {
            std::borrow::Cow::Borrowed(v) => {
                v.round_trip(c, rest);
            },
            std::borrow::Cow::Owned(v) => {
                v.round_trip(c, rest);
            },
        }
    }

    fn rcv_from<R: Receiver>(reader: &mut R, c: Config) -> (r: Result<
        std::borrow::Cow<'a, T>,
        Error,
    >) {
        let v = T::rcv_from(reader, c)?;
        Ok(std::borrow::Cow::Owned(v))
    }
}

#[verifier::external_type_specification]
#[verifier::external_body]
pub struct ExPathBuf(std::path::PathBuf);

/// The characters a path's lossy text conversion yields: a function of
/// the path alone.
pub uninterp spec fn lossy_text_of(p: std::path::PathBuf) -> Seq<char>;

/// Relies on Path::to_string_lossy: the result depends on the path alone,
/// and a path built from text converts back to that text unchanged, since
/// the conversion only replaces invalid sequences.
#[verifier::external_body]
fn path_lossy_text(p: &std::path::PathBuf) -> (r: String)
    ensures
        r@ == lossy_text_of(*p),
{
    p.to_string_lossy().into_owned()
}

/// Relies on PathBuf::from over a String: the path holds exactly the given
/// text, so its lossy text conversion returns it unchanged.
#[verifier::external_body]
fn path_from_text(s: String) -> (r: std::path::PathBuf)
    ensures
        lossy_text_of(r) == s@,
{
    std::path::PathBuf::from(s)
}

impl crate::model::Model for std::path::PathBuf {
    type M = Seq<char>;

    open spec fn model(&self) -> Seq<char> {
        lossy_text_of(*self)
    }
}

impl Sendable for std::path::PathBuf {
    open spec fn wire(&self, c: Config) -> Seq<u8> {
        crate::text::str_wire(lossy_text_of(*self), c)
    }

    open spec fn ok_to_send(&self, c: Config) -> bool {
        vstd::utf8::encode_utf8(lossy_text_of(*self)).len() <= c.spec_max()
    }

    open spec fn send_fault(&self, c: Config, e: Error) -> bool {
        e == Error::DataTooLarge(c.spec_max())
    }

    open spec fn faithful(&self, c: Config) -> bool {
        len_fits(vstd::utf8::encode_utf8(lossy_text_of(*self)).len() as nat, c)
    }

    fn snd_to<S: Sender>(&self, writer: &mut S, c: Config) -> (r: Result<(), Error>) {
        let text = path_lossy_text(self);
        crate::text::snd_str(writer, c, text.as_str())
    }
}

impl Receivable for std::path::PathBuf {
    open spec fn parse(s: Seq<u8>, c: Config) -> Option<(Seq<char>, int)> {
        crate::text::str_parse(s, c)
    }

    open spec fn parse_fault(s: Seq<u8>, c: Config, e: Error) -> bool {
        crate::text::str_fault(s, c, e)
    }

    proof fn parse_bounds(s: Seq<u8>, c: Config) {
        crate::endian::lemma_len_parse_bounds(s, c);
    }

    proof fn round_trip(&self, c: Config, rest: Seq<u8>) {
        crate::text::lemma_str_round(lossy_text_of(*self), c, rest);
    }

    fn rcv_from<R: Receiver>(reader: &mut R, c: Config) -> (r: Result<std::path::PathBuf, Error>) {
        let st = crate::text::rcv_str(reader, c)?;
        Ok(path_from_text(st))
    }
}

/// A 32-bit integer that is never zero on a valid wire: it travels as its
/// plain integer, and decoding a zero fails with [`Error::Zero`].
#[derive(PartialEq, Eq, Debug, Clone, Copy)]
pub struct NonZero32(pub u32);

/// A 64-bit integer that is never zero on a valid wire; see [`NonZero32`].
#[derive(PartialEq, Eq, Debug, Clone, Copy)]
pub struct NonZero64(pub u64);

impl crate::model::Model for NonZero32 {
    type M = u32;

    open spec fn model(&self) -> u32 {
        self.0
    }
}

impl crate::model::Model for NonZero64 {
    type M = u64;

    open spec fn model(&self) -> u64 {
        self.0
    }
}

impl Sendable for NonZero32 {
    open spec fn wire(&self, c: Config) -> Seq<u8> {
        crate::numbytes::num_bytes(c.endian, self.0 as nat, 4)
    }

    open spec fn faithful(&self, c: Config) -> bool {
        self.0 != 0
    }

    fn snd_to<S: Sender>(&self, writer: &mut S, c: Config) -> (r: Result<(), Error>) {
        crate::numbytes::snd_uint(writer, c.endian, self.0 as u128, 4)
    }
}

impl Receivable for NonZero32 {
    open spec fn parse(s: Seq<u8>, c: Config) -> Option<(u32, int)> {
        if s.len() >= 4 {
            let v = crate::numbytes::num_val(c.endian, s.take(4)) as u32;
            if v != 0 {
                Some((v, 4int))
            } else {
                None
            }
        } else {
            None
        }
    }

    open spec fn parse_fault(s: Seq<u8>, c: Config, e: Error) -> bool {
        if s.len() >= 4 {
            e == Error::Zero
        } else {
            e == Error::Io(IoFault::UnexpectedEof)
        }
    }

    proof fn parse_bounds(s: Seq<u8>, c: Config) {
    }

    proof fn round_trip(&self, c: Config, rest: Seq<u8>) {
        let w = self.wire(c);
        crate::numbytes::lemma_num_bytes_len(c.endian, self.0 as nat, 4);
        assert((w + rest).take(4) =~= w);
        crate::numbytes::lemma_pow256_values();
        crate::numbytes::lemma_num_round_small(c.endian, self.0 as nat, 4);
    }

    fn rcv_from<R: Receiver>(reader: &mut R, c: Config) -> (r: Result<NonZero32, Error>) {
        proof {
            crate::numbytes::lemma_pow256_values();
        }
        let w = crate::numbytes::rcv_uint(reader, c.endian, 4)?;
        let v = w as u32;
        if v == 0 {
            Err(Error::Zero)
        } else {
            Ok(NonZero32(v))
        }
    }
}

impl Sendable for NonZero64 {
    open spec fn wire(&self, c: Config) -> Seq<u8> {
        crate::numbytes::num_bytes(c.endian, self.0 as nat, 8)
    }

    open spec fn faithful(&self, c: Config) -> bool {
        self.0 != 0
    }

    fn snd_to<S: Sender>(&self, writer: &mut S, c: Config) -> (r: Result<(), Error>) {
        crate::numbytes::snd_uint(writer, c.endian, self.0 as u128, 8)
    }
}

impl Receivable for NonZero64 {
    open spec fn parse(s: Seq<u8>, c: Config) -> Option<(u64, int)> {
        if s.len() >= 8 {
            let v = crate::numbytes::num_val(c.endian, s.take(8)) as u64;
            if v != 0 {
                Some((v, 8int))
            } else {
                None
            }
        } else {
            None
        }
    }

    open spec fn parse_fault(s: Seq<u8>, c: Config, e: Error) -> bool {
        if s.len() >= 8 {
            e == Error::Zero
        } else {
            e == Error::Io(IoFault::UnexpectedEof)
        }
    }

    proof fn parse_bounds(s: Seq<u8>, c: Config) {
    }

    proof fn round_trip(&self, c: Config, rest: Seq<u8>) {
        let w = self.wire(c);
        crate::numbytes::lemma_num_bytes_len(c.endian, self.0 as nat, 8);
        assert((w + rest).take(8) =~= w);
        crate::numbytes::lemma_pow256_values();
        crate::numbytes::lemma_num_round_small(c.endian, self.0 as nat, 8);
    }

    fn rcv_from<R: Receiver>(reader: &mut R, c: Config) -> (r: Result<NonZero64, Error>) {
        proof {
            crate::numbytes::lemma_pow256_values();
        }
        let w = crate::numbytes::rcv_uint(reader, c.endian, 8)?;
        let v = w as u64;
        if v == 0 {
            Err(Error::Zero)
        } else {
            Ok(NonZero64(v))
        }
    }
}

/// A span of time on the wire: its whole seconds, then its sub-second
/// nanoseconds, which stay below one second.
#[derive(PartialEq, Eq, Debug, Clone, Copy)]
pub struct Span {
    /// The whole seconds.
    pub secs: u64,
    /// The nanoseconds past the last whole second.
    pub nanos: u32,
}

impl crate::model::Model for Span {
    type M = (u64, u32);

    open spec fn model(&self) -> (u64, u32) {
        (self.secs, self.nanos)
    }
}

impl Sendable for Span {
    open spec fn wire(&self, c: Config) -> Seq<u8> {
        crate::numbytes::num_bytes(c.endian, self.secs as nat, 8) + crate::numbytes::num_bytes(
            c.endian,
            self.nanos as nat,
            4,
        )
    }

    fn snd_to<S: Sender>(&self, writer: &mut S, c: Config) -> (r: Result<(), Error>) {
        let r0 = crate::numbytes::snd_uint(writer, c.endian, self.secs as u128, 8);
        match r0 {
            Ok(()) => (),
            Err(err) => {
                return Err(err);
            },
        }
        crate::numbytes::snd_uint(writer, c.endian, self.nanos as u128, 4)
    }
}

impl Receivable for Span {
    open spec fn parse(s: Seq<u8>, c: Config) -> Option<((u64, u32), int)> {
        if s.len() >= 12 {
            Some(
                (
                    (
                        crate::numbytes::num_val(c.endian, s.take(8)) as u64,
                        crate::numbytes::num_val(c.endian, s.subrange(8, 12)) as u32,
                    ),
                    12int,
                ),
            )
        } else {
            None
        }
    }

    open spec fn parse_fault(s: Seq<u8>, c: Config, e: Error) -> bool {
        e == Error::Io(IoFault::UnexpectedEof)
    }

    proof fn parse_bounds(s: Seq<u8>, c: Config) {
    }

    proof fn round_trip(&self, c: Config, rest: Seq<u8>) {
        let ws = crate::numbytes::num_bytes(c.endian, self.secs as nat, 8);
        let wn = crate::numbytes::num_bytes(c.endian, self.nanos as nat, 4);
        crate::numbytes::lemma_num_bytes_len(c.endian, self.secs as nat, 8);
        crate::numbytes::lemma_num_bytes_len(c.endian, self.nanos as nat, 4);
        let s = self.wire(c) + rest;
        assert(s.take(8) =~= ws);
        assert(s.subrange(8, 12) =~= wn);
        crate::numbytes::lemma_pow256_values();
        crate::numbytes::lemma_num_round_small(c.endian, self.secs as nat, 8);
        crate::numbytes::lemma_num_round_small(c.endian, self.nanos as nat, 4);
    }

    fn rcv_from<R: Receiver>(reader: &mut R, c: Config) -> (r: Result<Span, Error>) {
        proof {
            crate::numbytes::lemma_pow256_values();
        }
        let ghost s0 = reader.remaining();
        let ws = crate::numbytes::rcv_uint(reader, c.endian, 8)?;
        proof {
            if s0.len() >= 12 {
                assert(s0.skip(8).take(4) =~= s0.subrange(8, 12));
                assert(s0.skip(8).skip(4) =~= s0.skip(12));
            }
        }
        let wn = crate::numbytes::rcv_uint(reader, c.endian, 4)?;
        Ok(Span { secs: ws as u64, nanos: wn as u32 })
    }
}

/// The concatenated wire forms of a sequence of elements, in order.
pub open spec fn seq_wire<T: Sendable>(items: Seq<T>, c: Config) -> Seq<u8>
    decreases items.len(),
{
    if items.len() == 0 {
        Seq::empty()
    } else {
        items[0].wire(c) + seq_wire(items.skip(1), c)
    }
}

/// Whether every element of a sequence can be sent.
pub open spec fn seq_elems_ok<T: Sendable>(items: Seq<T>, c: Config) -> bool {
    forall|i: int| 0 <= i < items.len() ==> (#[trigger] items[i]).ok_to_send(c)
}

/// Whether every element's wire form decodes back unchanged.
pub open spec fn seq_elems_faithful<T: Sendable>(items: Seq<T>, c: Config) -> bool {
    forall|i: int| 0 <= i < items.len() ==> (#[trigger] items[i]).faithful(c)
}

/// The models of a sequence of elements, in order.
pub open spec fn seq_models<T: crate::model::Model>(items: Seq<T>) -> Seq<T::M>
    decreases items.len(),
{
    if items.len() == 0 {
        Seq::empty()
    } else {
        seq![items[0].model()] + seq_models(items.skip(1))
    }
}

/// Parses exactly `count` elements from the front of `s`: their models and
/// the bytes consumed.
pub open spec fn seq_parse<T: Receivable>(s: Seq<u8>, count: nat, c: Config) -> Option<
    (Seq<T::M>, int),
>
    decreases count,
{
    if count == 0 {
        Some((Seq::empty(), 0int))
    } else {
        match T::parse(s, c) {
            Some((m, n)) => match seq_parse::<T>(s.skip(n), (count - 1) as nat, c) {
                Some((ms, n2)) => Some((seq![m] + ms, n + n2)),
                None => None,
            },
            None => None,
        }
    }
}

/// A successful element-sequence parse consumes no more than the bytes it
/// was given.
pub proof fn lemma_seq_parse_bounds<T: Receivable>(s: Seq<u8>, count: nat, c: Config)
    ensures
        seq_parse::<T>(s, count, c) matches Some((ms, n)) ==> 0 <= n <= s.len() && ms.len()
            == count,
    decreases count,
{
    if count > 0 {
        T::parse_bounds(s, c);
        match T::parse(s, c) {
            Some((m, n)) => {
                lemma_seq_parse_bounds::<T>(s.skip(n), (count - 1) as nat, c);
            },
            None => {},
        }
    }
}

/// Every sent sequence of elements is decoded back element for element:
/// the law behind the element-wise collection codec.
pub proof fn lemma_seq_round<T: Receivable>(items: Seq<T>, c: Config, rest: Seq<u8>)
    requires
        seq_elems_ok(items, c),
        seq_elems_faithful(items, c),
    ensures
        seq_parse::<T>(seq_wire(items, c) + rest, items.len(), c) == Some(
            (seq_models(items), seq_wire(items, c).len() as int),
        ),
    decreases items.len(),
{
    if items.len() > 0 {
        let w0 = items[0].wire(c);
        let tailw = seq_wire(items.skip(1), c);
        assert(seq_wire(items, c) + rest =~= w0 + (tailw + rest));
        items[0].round_trip(c, tailw + rest);
        assert((w0 + (tailw + rest)).skip(w0.len() as int) =~= tailw + rest);
        assert forall|i: int| 0 <= i < items.skip(1).len() implies (
        #[trigger] items.skip(1)[i]).ok_to_send(c) && items.skip(1)[i].faithful(c) by {
            assert(items.skip(1)[i] == items[i + 1]);
        };
        lemma_seq_round(items.skip(1), c, rest);
    }
}

/// Sends a growable sequence element-wise: its element count as a length
/// prefix, then each element's wire form in order. A double-ended queue or
/// a singly-linked list uses the same wire form, in push-back order.
#[verifier::loop_isolation(false)]
pub fn send_seq<T: Sendable, S: Sender>(items: &Vec<T>, writer: &mut S, c: Config) -> (r: Result<
    (),
    Error,
>)
    ensures
        old(writer).accepts() && items@.len() <= c.spec_max() && seq_elems_ok(items@, c) ==> (r
            matches Ok(()) && final(writer).accepts() && final(writer).sent() == old(
            writer,
        ).sent() + len_wire(items@.len(), c) + seq_wire(items@, c)),
        old(writer).accepts() && !(items@.len() <= c.spec_max() && seq_elems_ok(items@, c))
            ==> r is Err,
{
    let n = items.len();
    let len = Length(n);
    len.check(c)?;
    let r0 = len.snd_to(writer, c);
    match r0 {
        Ok(()) => (),
        Err(err) => {
            return Err(err);
        },
    }
    let mut i: usize = 0;
    proof {
        assert(items@.take(0) =~= Seq::<T>::empty());
    }
    while i < n
        invariant
            i <= n,
            old(writer).accepts() ==> (forall|j: int|
                0 <= j < i ==> (#[trigger] items@[j]).ok_to_send(c)),
            old(writer).accepts() ==> (writer.accepts() && writer.sent() == old(writer).sent()
                + len_wire(items@.len(), c) + seq_wire(items@.take(i as int), c)),
        decreases n - i,
    {
        let r1 = items[i].snd_to(writer, c);
        match r1 {
            Ok(()) => (),
            Err(err) => {
                return Err(err);
            },
        }
        proof {
            assert(items@.take(i + 1) =~= items@.take(i as int).push(items@[i as int]));
            lemma_seq_wire_push_send(items@.take(i as int), items@[i as int], c);
        }
        i = i + 1;
    }
    proof {
        assert(items@.take(n as int) =~= items@);
    }
    Ok(())
}

/// Appending one element extends the wire at the end.
pub proof fn lemma_seq_wire_push_send<T: Sendable>(items: Seq<T>, v: T, c: Config)
    ensures
        seq_wire(items.push(v), c) == seq_wire(items, c) + v.wire(c),
    decreases items.len(),
{
    let p = items.push(v);
    assert(p[0] == if items.len() == 0 { v } else { items[0] });
    if items.len() == 0 {
        assert(p.skip(1) =~= Seq::<T>::empty());
        assert(seq_wire(p, c) == v.wire(c) + seq_wire(Seq::<T>::empty(), c));
        assert(seq_wire(p, c) =~= v.wire(c));
        assert(seq_wire(items, c) + v.wire(c) =~= v.wire(c));
    } else {
        assert(p.skip(1) =~= items.skip(1).push(v));
        lemma_seq_wire_push_send(items.skip(1), v, c);
        assert(seq_wire(p, c) == items[0].wire(c) + (seq_wire(items.skip(1), c) + v.wire(c)));
        assert(seq_wire(p, c) =~= (items[0].wire(c) + seq_wire(items.skip(1), c)) + v.wire(c));
    }
}

/// Receives a growable sequence element-wise: a length prefix, then that
/// many elements; the counterpart of [`send_seq`].
#[verifier::loop_isolation(false)]
pub fn recv_seq<T: Receivable, R: Receiver>(reader: &mut R, c: Config) -> (r: Result<
    Vec<T>,
    Error,
>)
    ensures
        (match len_parse(old(reader).remaining(), c) {
            Some((cnt, k)) => match seq_parse::<T>(
                old(reader).remaining().skip(k),
                cnt as nat,
                c,
            ) {
                Some((ms, n)) => (r matches Ok(out) && seq_models(out@) == ms && final(reader).remaining() == old(reader).remaining().skip(k + n)),
                None => r is Err,
            },
            None => r is Err,
        }),
{
    let ghost s0 = reader.remaining();
    let len = Length::rcv_from(reader, c)?;
    let ghost k = (<Length as Receivable>::parse(s0, c))->Some_0.1;
    let ghost s1 = reader.remaining();
    proof {
        crate::endian::lemma_len_parse_bounds(s0, c);
        assert(s1.skip(0) =~= s1);
    }
    let cnt = len.0;
    let mut out: Vec<T> = Vec::new();
    let ghost mut used: int = 0int;
    let mut i: usize = 0;
    proof {
        assert(seq_models(out@) =~= Seq::<T::M>::empty());
    }
    while i < cnt
        invariant
            i <= cnt,
            out@.len() == i,
            reader.remaining() == s1.skip(used),
            0 <= used <= s1.len(),
            (match seq_parse::<T>(s1, cnt as nat, c) {
                Some((ms, n)) => (match seq_parse::<T>(
                    reader.remaining(),
                    (cnt - i) as nat,
                    c,
                ) {
                    Some((tail, n2)) => ms == seq_models(out@) + tail && n == used + n2,
                    None => false,
                }),
                None => (match seq_parse::<T>(reader.remaining(), (cnt - i) as nat, c) {
                    Some(_) => false,
                    None => true,
                }),
            }),
        decreases cnt - i,
    {
        let ghost rem = reader.remaining();
        let rv = T::rcv_from(reader, c);
        let v = match rv {
            Ok(v) => v,
            Err(err) => {
                proof {
                    assert(seq_parse::<T>(rem, (cnt - i) as nat, c) is None);
                }
                return Err(err);
            },
        };
        proof {
            T::parse_bounds(rem, c);
            let n = (T::parse(rem, c))->Some_0.1;
            let m = (T::parse(rem, c))->Some_0.0;
            assert(rem.skip(n) =~= s1.skip(used + n));
            lemma_seq_parse_bounds::<T>(rem.skip(n), (cnt - i - 1) as nat, c);
            lemma_seq_models_push(out@, v);
            match seq_parse::<T>(rem.skip(n), (cnt - i - 1) as nat, c) {
                Some((tail, n2)) => {
                    assert(seq_parse::<T>(rem, (cnt - i) as nat, c) == Some(
                        (seq![m] + tail, n + n2),
                    ));
                    assert(seq_models(out@) + (seq![m] + tail) =~= seq_models(out@).push(m) + tail);
                },
                None => {},
            }
            used = used + n;
        }
        out.push(v);
        i = i + 1;
    }
    proof {
        match seq_parse::<T>(s1, cnt as nat, c) {
            Some((ms, n)) => {
                assert(seq_models(out@) + Seq::<T::M>::empty() =~= seq_models(out@));
                assert(s1.skip(used) =~= s0.skip(k + used));
            },
            None => {},
        }
    }
    Ok(out)
}

/// Sends a double-ended queue element-wise, in push-back order: the same
/// wire form as [`send_seq`]. A singly-linked list follows the same rule.
#[verifier::loop_isolation(false)]
pub fn send_deque<T: Sendable, S: Sender>(
    items: &std::collections::VecDeque<T>,
    writer: &mut S,
    c: Config,
) -> (r: Result<(), Error>)
    ensures
        old(writer).accepts() && items@.len() <= c.spec_max() && seq_elems_ok(items@, c) ==> (r
            matches Ok(()) && final(writer).accepts() && final(writer).sent() == old(
            writer,
        ).sent() + len_wire(items@.len(), c) + seq_wire(items@, c)),
        old(writer).accepts() && !(items@.len() <= c.spec_max() && seq_elems_ok(items@, c))
            ==> r is Err,
{
    let n = items.len();
    let len = Length(n);
    len.check(c)?;
    let r0 = len.snd_to(writer, c);
    match r0 {
        Ok(()) => (),
        Err(err) => {
            return Err(err);
        },
    }
    let mut i: usize = 0;
    proof {
        assert(items@.take(0) =~= Seq::<T>::empty());
    }
    while i < n
        invariant
            i <= n,
            old(writer).accepts() ==> (forall|j: int|
                0 <= j < i ==> (#[trigger] items@[j]).ok_to_send(c)),
            old(writer).accepts() ==> (writer.accepts() && writer.sent() == old(writer).sent()
                + len_wire(items@.len(), c) + seq_wire(items@.take(i as int), c)),
        decreases n - i,
    {
        let r1 = items[i].snd_to(writer, c);
        match r1 {
            Ok(()) => (),
            Err(err) => {
                return Err(err);
            },
        }
        proof {
            assert(items@.take(i + 1) =~= items@.take(i as int).push(items@[i as int]));
            lemma_seq_wire_push_send(items@.take(i as int), items@[i as int], c);
        }
        i = i + 1;
    }
    proof {
        assert(items@.take(n as int) =~= items@);
    }
    Ok(())
}

/// Receives a double-ended queue element-wise, in push-back order; the
/// counterpart of [`send_deque`].
#[verifier::loop_isolation(false)]
pub fn recv_deque<T: Receivable, R: Receiver>(reader: &mut R, c: Config) -> (r: Result<
    std::collections::VecDeque<T>,
    Error,
>)
    ensures
        (match len_parse(old(reader).remaining(), c) {
            Some((cnt, k)) => match seq_parse::<T>(
                old(reader).remaining().skip(k),
                cnt as nat,
                c,
            ) {
                Some((ms, n)) => (r matches Ok(out) && seq_models(out@) == ms && final(reader).remaining() == old(reader).remaining().skip(k + n)),
                None => r is Err,
            },
            None => r is Err,
        }),
{
    let ghost s0 = reader.remaining();
    let len = Length::rcv_from(reader, c)?;
    let ghost k = (<Length as Receivable>::parse(s0, c))->Some_0.1;
    let ghost s1 = reader.remaining();
    proof {
        crate::endian::lemma_len_parse_bounds(s0, c);
        assert(s1.skip(0) =~= s1);
    }
    let cnt = len.0;
    let mut out: std::collections::VecDeque<T> = std::collections::VecDeque::new();
    let ghost mut used: int = 0int;
    let mut i: usize = 0;
    proof {
        assert(seq_models(out@) =~= Seq::<T::M>::empty());
    }
    while i < cnt
        invariant
            i <= cnt,
            out@.len() == i,
            reader.remaining() == s1.skip(used),
            0 <= used <= s1.len(),
            (match seq_parse::<T>(s1, cnt as nat, c) {
                Some((ms, n)) => (match seq_parse::<T>(
                    reader.remaining(),
                    (cnt - i) as nat,
                    c,
                ) {
                    Some((tail, n2)) => ms == seq_models(out@) + tail && n == used + n2,
                    None => false,
                }),
                None => (match seq_parse::<T>(reader.remaining(), (cnt - i) as nat, c) {
                    Some(_) => false,
                    None => true,
                }),
            }),
        decreases cnt - i,
    {
        let ghost rem = reader.remaining();
        let rv = T::rcv_from(reader, c);
        let v = match rv {
            Ok(v) => v,
            Err(err) => {
                proof {
                    assert(seq_parse::<T>(rem, (cnt - i) as nat, c) is None);
                }
                return Err(err);
            },
        };
        proof {
            T::parse_bounds(rem, c);
            let n = (T::parse(rem, c))->Some_0.1;
            let m = (T::parse(rem, c))->Some_0.0;
            assert(rem.skip(n) =~= s1.skip(used + n));
            lemma_seq_parse_bounds::<T>(rem.skip(n), (cnt - i - 1) as nat, c);
            lemma_seq_models_push(out@, v);
            match seq_parse::<T>(rem.skip(n), (cnt - i - 1) as nat, c) {
                Some((tail, n2)) => {
                    assert(seq_parse::<T>(rem, (cnt - i) as nat, c) == Some(
                        (seq![m] + tail, n + n2),
                    ));
                    assert(seq_models(out@) + (seq![m] + tail) =~= seq_models(out@).push(m) + tail);
                },
                None => {},
            }
            used = used + n;
        }
        out.push_back(v);
        i = i + 1;
    }
    proof {
        match seq_parse::<T>(s1, cnt as nat, c) {
            Some((ms, n)) => {
                assert(seq_models(out@) + Seq::<T::M>::empty() =~= seq_models(out@));
                assert(s1.skip(used) =~= s0.skip(k + used));
            },
            None => {},
        }
    }
    Ok(out)
}

/// Appending one element extends the models at the end.
pub proof fn lemma_seq_models_push<T: crate::model::Model>(items: Seq<T>, v: T)
    ensures
        seq_models(items.push(v)) == seq_models(items).push(v.model()),
    decreases items.len(),
{
    let p = items.push(v);
    assert(p[0] == if items.len() == 0 { v } else { items[0] });
    if items.len() == 0 {
        assert(p.skip(1) =~= Seq::<T>::empty());
        assert(seq_models(p) == seq![v.model()] + seq_models(Seq::<T>::empty()));
        assert(seq_models(p) =~= Seq::<T::M>::empty().push(v.model()));
    } else {
        assert(p.skip(1) =~= items.skip(1).push(v));
        lemma_seq_models_push(items.skip(1), v);
        assert(seq_models(p) == seq![items[0].model()] + seq_models(items.skip(1)).push(
            v.model(),
        ));
        assert(seq_models(p) =~= (seq![items[0].model()] + seq_models(items.skip(1))).push(
            v.model(),
        ));
    }
}

/// Whether key/value entries are in canonical order: keys strictly
/// ascending, which also rules out duplicates.
pub open spec fn keys_ascending<V>(entries: Seq<(u64, V)>) -> bool {
    forall|i: int, j: int|
        0 <= i < j < entries.len() ==> (#[trigger] entries[i]).0 < (#[trigger] entries[j]).0
}

/// Sends an ordered map as its entries in canonical key order: an entry
/// count as a length prefix, then each key/value pair. A hash map uses
/// the same wire form over whatever order its entries are handed over in.
pub fn send_entries<V: Sendable, S: Sender>(
    entries: &Vec<(u64, V)>,
    writer: &mut S,
    c: Config,
) -> (r: Result<(), Error>)
    ensures
        old(writer).accepts() && entries@.len() <= c.spec_max() && seq_elems_ok(entries@, c)
            ==> (r matches Ok(()) && final(writer).accepts() && final(writer).sent() == old(
            writer,
        ).sent() + len_wire(entries@.len(), c) + seq_wire(entries@, c)),
        old(writer).accepts() && !(entries@.len() <= c.spec_max() && seq_elems_ok(entries@, c))
            ==> r is Err,
{
    send_seq(entries, writer, c)
}

/// Receives an ordered map as its entries, insisting on the canonical
/// order: a decoded sequence whose keys are not strictly ascending fails,
/// so no duplicate key is tolerated.
#[verifier::loop_isolation(false)]
pub fn recv_entries<V: Receivable, R: Receiver>(reader: &mut R, c: Config) -> (r: Result<
    Vec<(u64, V)>,
    Error,
>)
    ensures
        (match len_parse(old(reader).remaining(), c) {
            Some((cnt, k)) => match seq_parse::<(u64, V)>(
                old(reader).remaining().skip(k),
                cnt as nat,
                c,
            ) {
                Some((ms, n)) => if keys_ascending(ms) {
                    r matches Ok(out) && seq_models(out@) == ms && final(reader).remaining()
                        == old(reader).remaining().skip(k + n)
                } else {
                    r is Err
                },
                None => r is Err,
            },
            None => r is Err,
        }),
{
    let out: Vec<(u64, V)> = recv_seq(reader, c)?;
    proof {
        lemma_entry_keys(out@);
    }
    let n = out.len();
    let mut i: usize = 1;
    while i < n
        invariant
            1 <= i,
            i <= n || n == 0,
            n == out@.len(),
            forall|a: int, b: int|
                0 <= a < b < i ==> (#[trigger] out@[a]).0 < (#[trigger] out@[b]).0,
            forall|a: int| 0 <= a < i - 1 ==> (#[trigger] out@[a]).0 < out@[a + 1].0,
        decreases n - i,
    {
        if out[i - 1].0 >= out[i].0 {
            proof {
                lemma_entry_keys(out@);
                assert(!keys_ascending(seq_models(out@))) by {
                    assert(seq_models(out@)[i - 1].0 == out@[i - 1].0);
                    assert(seq_models(out@)[i as int].0 == out@[i as int].0);
                };
            }
            return Err(Error::Other("map entries out of canonical key order"));
        }
        proof {
            assert forall|a: int, b: int| 0 <= a < b < i + 1 implies (#[trigger] out@[a]).0 < (
            #[trigger] out@[b]).0 by {
                lemma_keys_chain(out@, a, b);
            };
        }
        i = i + 1;
    }
    proof {
        lemma_entry_keys(out@);
        assert(keys_ascending(seq_models(out@))) by {
            assert forall|a: int, b: int|
                0 <= a < b < seq_models(out@).len() implies (#[trigger] seq_models(out@)[a]).0 < (
            #[trigger] seq_models(out@)[b]).0 by {
                assert(seq_models(out@)[a].0 == out@[a].0);
                assert(seq_models(out@)[b].0 == out@[b].0);
            };
        };
    }
    Ok(out)
}

/// The model of each entry carries its key unchanged.
proof fn lemma_entry_keys<V: Receivable>(entries: Seq<(u64, V)>)
    ensures
        seq_models(entries).len() == entries.len(),
        forall|i: int|
            0 <= i < entries.len() ==> (#[trigger] seq_models(entries)[i]).0 == entries[i].0,
    decreases entries.len(),
{
    if entries.len() > 0 {
        lemma_entry_keys::<V>(entries.skip(1));
        assert forall|i: int|
            0 <= i < entries.len() implies (#[trigger] seq_models(entries)[i]).0
            == entries[i].0 by {
            if i > 0 {
                assert(seq_models(entries)[i] == seq_models(entries.skip(1))[i - 1]);
                assert(entries.skip(1)[i - 1] == entries[i]);
            }
        };
    }
}

/// Strict ascent between neighbours chains into strict ascent between any
/// two positions.
proof fn lemma_keys_chain<V>(entries: Seq<(u64, V)>, a: int, b: int)
    requires
        0 <= a < b < entries.len(),
        forall|j: int| 0 <= j < b ==> (#[trigger] entries[j]).0 < entries[j + 1].0,
    ensures
        entries[a].0 < entries[b].0,
    decreases b - a,
{
    if a + 1 < b {
        lemma_keys_chain(entries, a + 1, b);
    }
}

impl<T: Sendable> Sendable for core::ops::Range<T> {
    open spec fn wire(&self, c: Config) -> Seq<u8> {
        self.start.wire(c) + self.end.wire(c)
    }

    open spec fn ok_to_send(&self, c: Config) -> bool {
        self.start.ok_to_send(c) && self.end.ok_to_send(c)
    }

    open spec fn send_fault(&self, c: Config, e: Error) -> bool {
        if !self.start.ok_to_send(c) {
            self.start.send_fault(c, e)
        } else {
            self.end.send_fault(c, e)
        }
    }

    open spec fn faithful(&self, c: Config) -> bool {
        self.start.faithful(c) && self.end.faithful(c)
    }

    fn snd_to<S: Sender>(&self, writer: &mut S, c: Config) -> (r: Result<(), Error>) {
        let r0 = self.start.snd_to(writer, c);
        match r0 {
            Ok(()) => (),
            Err(err) => {
                return Err(err);
            },
        }
        self.end.snd_to(writer, c)
    }
}

impl<T: Receivable> Receivable for core::ops::Range<T> {
    open spec fn parse(s: Seq<u8>, c: Config) -> Option<((T::M, T::M), int)> {
        match T::parse(s, c) {
            Some((ms, ns)) => match T::parse(s.skip(ns), c) {
                Some((me, ne)) => Some(((ms, me), ns + ne)),
                None => None,
            },
            None => None,
        }
    }

    open spec fn parse_fault(s: Seq<u8>, c: Config, e: Error) -> bool {
        match T::parse(s, c) {
            Some((ms, ns)) => T::parse_fault(s.skip(ns), c, e),
            None => T::parse_fault(s, c, e),
        }
    }

    proof fn parse_bounds(s: Seq<u8>, c: Config) {
        T::parse_bounds(s, c);
        match T::parse(s, c) {
            Some((ms, ns)) => {
                T::parse_bounds(s.skip(ns), c);
            },
            None => {},
        }
    }

    proof fn round_trip(&self, c: Config, rest: Seq<u8>) {
        let ws = self.start.wire(c);
        let we = self.end.wire(c);
        assert(self.wire(c) + rest =~= ws + (we + rest));
        self.start.round_trip(c, we + rest);
        assert((ws + (we + rest)).skip(ws.len() as int) =~= we + rest);
        self.end.round_trip(c, rest);
    }

    fn rcv_from<R: Receiver>(reader: &mut R, c: Config) -> (r: Result<core::ops::Range<T>, Error>) {
        let ghost s0 = reader.remaining();
        let start = T::rcv_from(reader, c)?;
        proof {
            T::parse_bounds(s0, c);
            let ns = (T::parse(s0, c))->Some_0.1;
            T::parse_bounds(s0.skip(ns), c);
            match T::parse(s0.skip(ns), c) {
                Some((me, ne)) => {
                    assert(s0.skip(ns).skip(ne) =~= s0.skip(ns + ne));
                },
                None => {},
            }
        }
        let end = T::rcv_from(reader, c)?;
        Ok(core::ops::Range { start, end })
    }
}


} // verus!
