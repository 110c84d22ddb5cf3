//! Fixed-width codecs for unwrapped multi-byte primitives: they follow the
//! configuration's default byte order, where the pinned wrappers in
//! [`crate::endian`] override it. Characters travel as their 32-bit code
//! point; `usize` and `isize` travel as 64-bit values.
use vstd::prelude::*;

verus! {

use vstd::utf8::is_scalar;
use crate::config::Config;
use crate::error::{Error, IoFault};
use crate::numbytes::{
    lemma_num_bytes_len,
    lemma_num_round_small,
    lemma_pow256_values,
    num_bytes,
    num_val,
    rcv_uint,
    snd_uint,
};
use crate::{Receivable, Receiver, Sendable, Sender};

impl Sendable for u16 {
    open spec fn wire(&self, c: Config) -> Seq<u8> {
        num_bytes(c.endian, *self as nat, 2)
    }

    fn snd_to<S: Sender>(&self, writer: &mut S, c: Config) -> (r: Result<(), Error>) {
        snd_uint(writer, c.endian, *self as u128, 2)
    }
}

impl Receivable for u16 {
    open spec fn parse(s: Seq<u8>, c: Config) -> Option<(u16, int)> {
        if s.len() >= 2 {
            Some((num_val(c.endian, s.take(2)) as u16, 2int))
        } else {
            None
        }
    }

    open spec fn parse_fault(s: Seq<u8>, c: Config, e: Error) -> bool {
        e == Error::Io(IoFault::UnexpectedEof)
    }

    proof fn parse_bounds(s: Seq<u8>, c: Config) {
    }

    proof fn round_trip(&self, c: Config, rest: Seq<u8>) {
        let w = self.wire(c);
        lemma_num_bytes_len(c.endian, *self as nat, 2);
        assert((w + rest).take(2) =~= w);
        lemma_pow256_values();
        lemma_num_round_small(c.endian, *self as nat, 2);
    }

    fn rcv_from<R: Receiver>(reader: &mut R, c: Config) -> (r: Result<u16, Error>) {
        proof {
            lemma_pow256_values();
        }
        let v = rcv_uint(reader, c.endian, 2)?;
        Ok(v as u16)
    }
}

impl Sendable for u32 {
    open spec fn wire(&self, c: Config) -> Seq<u8> {
        num_bytes(c.endian, *self as nat, 4)
    }

    fn snd_to<S: Sender>(&self, writer: &mut S, c: Config) -> (r: Result<(), Error>) {
        snd_uint(writer, c.endian, *self as u128, 4)
    }
}

impl Receivable for u32 {
    open spec fn parse(s: Seq<u8>, c: Config) -> Option<(u32, int)> {
        if s.len() >= 4 {
            Some((num_val(c.endian, s.take(4)) as u32, 4int))
        } else {
            None
        }
    }

    open spec fn parse_fault(s: Seq<u8>, c: Config, e: Error) -> bool {
        e == Error::Io(IoFault::UnexpectedEof)
    }

    proof fn parse_bounds(s: Seq<u8>, c: Config) {
    }

    proof fn round_trip(&self, c: Config, rest: Seq<u8>) {
        let w = self.wire(c);
        lemma_num_bytes_len(c.endian, *self as nat, 4);
        assert((w + rest).take(4) =~= w);
        lemma_pow256_values();
        lemma_num_round_small(c.endian, *self as nat, 4);
    }

    fn rcv_from<R: Receiver>(reader: &mut R, c: Config) -> (r: Result<u32, Error>) {
        proof {
            lemma_pow256_values();
        }
        let v = rcv_uint(reader, c.endian, 4)?;
        Ok(v as u32)
    }
}

impl Sendable for u64 {
    open spec fn wire(&self, c: Config) -> Seq<u8> {
        num_bytes(c.endian, *self as nat, 8)
    }

    fn snd_to<S: Sender>(&self, writer: &mut S, c: Config) -> (r: Result<(), Error>) {
        snd_uint(writer, c.endian, *self as u128, 8)
    }
}

impl Receivable for u64 {
    open spec fn parse(s: Seq<u8>, c: Config) -> Option<(u64, int)> {
        if s.len() >= 8 {
            Some((num_val(c.endian, s.take(8)) as u64, 8int))
        } else {
            None
        }
    }

    open spec fn parse_fault(s: Seq<u8>, c: Config, e: Error) -> bool {
        e == Error::Io(IoFault::UnexpectedEof)
    }

    proof fn parse_bounds(s: Seq<u8>, c: Config) {
    }

    proof fn round_trip(&self, c: Config, rest: Seq<u8>) {
        let w = self.wire(c);
        lemma_num_bytes_len(c.endian, *self as nat, 8);
        assert((w + rest).take(8) =~= w);
        lemma_pow256_values();
        lemma_num_round_small(c.endian, *self as nat, 8);
    }

    fn rcv_from<R: Receiver>(reader: &mut R, c: Config) -> (r: Result<u64, Error>) {
        proof {
            lemma_pow256_values();
        }
        let v = rcv_uint(reader, c.endian, 8)?;
        Ok(v as u64)
    }
}

impl Sendable for u128 {
    open spec fn wire(&self, c: Config) -> Seq<u8> {
        num_bytes(c.endian, *self as nat, 16)
    }

    fn snd_to<S: Sender>(&self, writer: &mut S, c: Config) -> (r: Result<(), Error>) {
        snd_uint(writer, c.endian, *self as u128, 16)
    }
}

impl Receivable for u128 {
    open spec fn parse(s: Seq<u8>, c: Config) -> Option<(u128, int)> {
        if s.len() >= 16 {
            Some((num_val(c.endian, s.take(16)) as u128, 16int))
        } else {
            None
        }
    }

    open spec fn parse_fault(s: Seq<u8>, c: Config, e: Error) -> bool {
        e == Error::Io(IoFault::UnexpectedEof)
    }

    proof fn parse_bounds(s: Seq<u8>, c: Config) {
    }

    proof fn round_trip(&self, c: Config, rest: Seq<u8>) {
        let w = self.wire(c);
        lemma_num_bytes_len(c.endian, *self as nat, 16);
        assert((w + rest).take(16) =~= w);
        lemma_pow256_values();
        lemma_num_round_small(c.endian, *self as nat, 16);
    }

    fn rcv_from<R: Receiver>(reader: &mut R, c: Config) -> (r: Result<u128, Error>) {
        proof {
            lemma_pow256_values();
        }
        let v = rcv_uint(reader, c.endian, 16)?;
        Ok(v as u128)
    }
}

impl Sendable for i16 {
    open spec fn wire(&self, c: Config) -> Seq<u8> {
        num_bytes(c.endian, (*self as u16) as nat, 2)
    }

    fn snd_to<S: Sender>(&self, writer: &mut S, c: Config) -> (r: Result<(), Error>) {
        snd_uint(writer, c.endian, (*self as u16) as u128, 2)
    }
}

impl Receivable for i16 {
    open spec fn parse(s: Seq<u8>, c: Config) -> Option<(i16, int)> {
        if s.len() >= 2 {
            Some(((num_val(c.endian, s.take(2)) as u16) as i16, 2int))
        } else {
            None
        }
    }

    open spec fn parse_fault(s: Seq<u8>, c: Config, e: Error) -> bool {
        e == Error::Io(IoFault::UnexpectedEof)
    }

    proof fn parse_bounds(s: Seq<u8>, c: Config) {
    }

    proof fn round_trip(&self, c: Config, rest: Seq<u8>) {
        let w = self.wire(c);
        lemma_num_bytes_len(c.endian, (*self as u16) as nat, 2);
        assert((w + rest).take(2) =~= w);
        lemma_pow256_values();
        lemma_num_round_small(c.endian, (*self as u16) as nat, 2);
        assert((*self as u16) as i16 == *self) by (bit_vector);
    }

    fn rcv_from<R: Receiver>(reader: &mut R, c: Config) -> (r: Result<i16, Error>) {
        proof {
            lemma_pow256_values();
        }
        let v = rcv_uint(reader, c.endian, 2)?;
        Ok((v as u16) as i16)
    }
}

impl Sendable for i32 {
    open spec fn wire(&self, c: Config) -> Seq<u8> {
        num_bytes(c.endian, (*self as u32) as nat, 4)
    }

    fn snd_to<S: Sender>(&self, writer: &mut S, c: Config) -> (r: Result<(), Error>) {
        snd_uint(writer, c.endian, (*self as u32) as u128, 4)
    }
}

impl Receivable for i32 {
    open spec fn parse(s: Seq<u8>, c: Config) -> Option<(i32, int)> {
        if s.len() >= 4 {
            Some(((num_val(c.endian, s.take(4)) as u32) as i32, 4int))
        } else {
            None
        }
    }

    open spec fn parse_fault(s: Seq<u8>, c: Config, e: Error) -> bool {
        e == Error::Io(IoFault::UnexpectedEof)
    }

    proof fn parse_bounds(s: Seq<u8>, c: Config) {
    }

    proof fn round_trip(&self, c: Config, rest: Seq<u8>) {
        let w = self.wire(c);
        lemma_num_bytes_len(c.endian, (*self as u32) as nat, 4);
        assert((w + rest).take(4) =~= w);
        lemma_pow256_values();
        lemma_num_round_small(c.endian, (*self as u32) as nat, 4);
        assert((*self as u32) as i32 == *self) by (bit_vector);
    }

    fn rcv_from<R: Receiver>(reader: &mut R, c: Config) -> (r: Result<i32, Error>) {
        proof {
            lemma_pow256_values();
        }
        let v = rcv_uint(reader, c.endian, 4)?;
        Ok((v as u32) as i32)
    }
}

impl Sendable for i64 {
    open spec fn wire(&self, c: Config) -> Seq<u8> {
        num_bytes(c.endian, (*self as u64) as nat, 8)
    }

    fn snd_to<S: Sender>(&self, writer: &mut S, c: Config) -> (r: Result<(), Error>) {
        snd_uint(writer, c.endian, (*self as u64) as u128, 8)
    }
}

impl Receivable for i64 {
    open spec fn parse(s: Seq<u8>, c: Config) -> Option<(i64, int)> {
        if s.len() >= 8 {
            Some(((num_val(c.endian, s.take(8)) as u64) as i64, 8int))
        } else {
            None
        }
    }

    open spec fn parse_fault(s: Seq<u8>, c: Config, e: Error) -> bool {
        e == Error::Io(IoFault::UnexpectedEof)
    }

    proof fn parse_bounds(s: Seq<u8>, c: Config) {
    }

    proof fn round_trip(&self, c: Config, rest: Seq<u8>) {
        let w = self.wire(c);
        lemma_num_bytes_len(c.endian, (*self as u64) as nat, 8);
        assert((w + rest).take(8) =~= w);
        lemma_pow256_values();
        lemma_num_round_small(c.endian, (*self as u64) as nat, 8);
        assert((*self as u64) as i64 == *self) by (bit_vector);
    }

    fn rcv_from<R: Receiver>(reader: &mut R, c: Config) -> (r: Result<i64, Error>) {
        proof {
            lemma_pow256_values();
        }
        let v = rcv_uint(reader, c.endian, 8)?;
        Ok((v as u64) as i64)
    }
}

impl Sendable for i128 {
    open spec fn wire(&self, c: Config) -> Seq<u8> {
        num_bytes(c.endian, (*self as u128) as nat, 16)
    }

    fn snd_to<S: Sender>(&self, writer: &mut S, c: Config) -> (r: Result<(), Error>) {
        snd_uint(writer, c.endian, (*self as u128) as u128, 16)
    }
}

impl Receivable for i128 {
    open spec fn parse(s: Seq<u8>, c: Config) -> Option<(i128, int)> {
        if s.len() >= 16 {
            Some(((num_val(c.endian, s.take(16)) as u128) as i128, 16int))
        } else {
            None
        }
    }

    open spec fn parse_fault(s: Seq<u8>, c: Config, e: Error) -> bool {
        e == Error::Io(IoFault::UnexpectedEof)
    }

    proof fn parse_bounds(s: Seq<u8>, c: Config) {
    }

    proof fn round_trip(&self, c: Config, rest: Seq<u8>) {
        let w = self.wire(c);
        lemma_num_bytes_len(c.endian, (*self as u128) as nat, 16);
        assert((w + rest).take(16) =~= w);
        lemma_pow256_values();
        lemma_num_round_small(c.endian, (*self as u128) as nat, 16);
        assert((*self as u128) as i128 == *self) by (bit_vector);
    }

    fn rcv_from<R: Receiver>(reader: &mut R, c: Config) -> (r: Result<i128, Error>) {
        proof {
            lemma_pow256_values();
        }
        let v = rcv_uint(reader, c.endian, 16)?;
        Ok((v as u128) as i128)
    }
}

/// Relies on char::from_u32: it returns `Some` exactly for Unicode scalar
/// values, giving the character with that code point.
#[verifier::external_body]
pub(crate) fn char_from_u32(v: u32) -> (r: Option<char>)
    ensures
        is_scalar(v) ==> r == Some(v as char),
        !is_scalar(v) ==> r is None,
{
    char::from_u32(v)
}

impl Sendable for char {
    open spec fn wire(&self, c: Config) -> Seq<u8> {
        num_bytes(c.endian, (*self as u32) as nat, 4)
    }

    fn snd_to<S: Sender>(&self, writer: &mut S, c: Config) -> (r: Result<(), Error>) {
        snd_uint(writer, c.endian, (*self as u32) as u128, 4)
    }
}

impl Receivable for char {
    open spec fn parse(s: Seq<u8>, c: Config) -> Option<(char, int)> {
        if s.len() >= 4 {
            if is_scalar(num_val(c.endian, s.take(4)) as u32) {
                Some(((num_val(c.endian, s.take(4)) as u32) as char, 4int))
            } else {
                None
            }
        } else {
            None
        }
    }

    open spec fn parse_fault(s: Seq<u8>, c: Config, e: Error) -> bool {
        if s.len() >= 4 {
            e == Error::InvalidChar(num_val(c.endian, s.take(4)) as u32)
        } else {
            e == Error::Io(IoFault::UnexpectedEof)
        }
    }

    proof fn parse_bounds(s: Seq<u8>, c: Config) {
    }

    proof fn round_trip(&self, c: Config, rest: Seq<u8>) {
        let w = self.wire(c);
        lemma_num_bytes_len(c.endian, (*self as u32) as nat, 4);
        assert((w + rest).take(4) =~= w);
        lemma_pow256_values();
        lemma_num_round_small(c.endian, (*self as u32) as nat, 4);
        vstd::utf8::char_is_scalar(*self);
        vstd::utf8::char_u32_cast(*self, *self as u32);
        assert(num_val(c.endian, (w + rest).take(4)) as u32 == *self as u32);
    }

    fn rcv_from<R: Receiver>(reader: &mut R, c: Config) -> (r: Result<char, Error>) {
        proof {
            lemma_pow256_values();
        }
        let v = rcv_uint(reader, c.endian, 4)?;
        let v32: u32 = v as u32;
        match char_from_u32(v32) {
            Some(ch) => Ok(ch),
            None => Err(Error::InvalidChar(v32)),
        }
    }
}

impl Sendable for usize {
    open spec fn wire(&self, c: Config) -> Seq<u8> {
        num_bytes(c.endian, (*self as u64) as nat, 8)
    }

    fn snd_to<S: Sender>(&self, writer: &mut S, c: Config) -> (r: Result<(), Error>) {
        snd_uint(writer, c.endian, (*self as u64) as u128, 8)
    }
}

impl Receivable for usize {
    open spec fn parse(s: Seq<u8>, c: Config) -> Option<(usize, int)> {
        if s.len() >= 8 {
            Some(((num_val(c.endian, s.take(8)) as u64) as usize, 8int))
        } else {
            None
        }
    }

    open spec fn parse_fault(s: Seq<u8>, c: Config, e: Error) -> bool {
        e == Error::Io(IoFault::UnexpectedEof)
    }

    proof fn parse_bounds(s: Seq<u8>, c: Config) {
    }

    proof fn round_trip(&self, c: Config, rest: Seq<u8>) {
        let w = self.wire(c);
        lemma_num_bytes_len(c.endian, (*self as u64) as nat, 8);
        assert((w + rest).take(8) =~= w);
        lemma_pow256_values();
        lemma_num_round_small(c.endian, (*self as u64) as nat, 8);
    }

    fn rcv_from<R: Receiver>(reader: &mut R, c: Config) -> (r: Result<usize, Error>) {
        proof {
            lemma_pow256_values();
        }
        let v = rcv_uint(reader, c.endian, 8)?;
        Ok((v as u64) as usize)
    }
}

impl Sendable for isize {
    open spec fn wire(&self, c: Config) -> Seq<u8> {
        num_bytes(c.endian, ((*self as i64) as u64) as nat, 8)
    }

    fn snd_to<S: Sender>(&self, writer: &mut S, c: Config) -> (r: Result<(), Error>) {
        snd_uint(writer, c.endian, ((*self as i64) as u64) as u128, 8)
    }
}

impl Receivable for isize {
    open spec fn parse(s: Seq<u8>, c: Config) -> Option<(isize, int)> {
        if s.len() >= 8 {
            Some((((num_val(c.endian, s.take(8)) as u64) as i64) as isize, 8int))
        } else {
            None
        }
    }

    open spec fn parse_fault(s: Seq<u8>, c: Config, e: Error) -> bool {
        e == Error::Io(IoFault::UnexpectedEof)
    }

    proof fn parse_bounds(s: Seq<u8>, c: Config) {
    }

    proof fn round_trip(&self, c: Config, rest: Seq<u8>) {
        let w = self.wire(c);
        lemma_num_bytes_len(c.endian, ((*self as i64) as u64) as nat, 8);
        assert((w + rest).take(8) =~= w);
        lemma_pow256_values();
        lemma_num_round_small(c.endian, ((*self as i64) as u64) as nat, 8);
        assert(((*self as i64) as u64) as i64 == (*self as i64)) by (bit_vector);
    }

    fn rcv_from<R: Receiver>(reader: &mut R, c: Config) -> (r: Result<isize, Error>) {
        proof {
            lemma_pow256_values();
        }
        let v = rcv_uint(reader, c.endian, 8)?;
        Ok(((v as u64) as i64) as isize)
    }
}

} // verus!
