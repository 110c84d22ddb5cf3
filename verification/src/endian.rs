//! Wrapper value types of the wire format — pinned-endian values, UTF-16
//! text, variable-length quantities, length prefixes and ASCII text — and
//! the codecs of the single-byte primitives.
use vstd::prelude::*;

pub mod big;
pub mod little;

verus! {

use vstd::arithmetic::power::pow;
use crate::config::{Config, LenMode};
use crate::error::{Error, IoFault};
use crate::{Receivable, Receiver, Sendable, Sender};

/// Pins the byte order of the wrapped value to big-endian.
#[derive(Debug)]
pub struct BE<T>(pub T);

/// Pins the byte order of the wrapped value to little-endian.
#[derive(Debug)]
pub struct LE<T>(pub T);

/// A character sent and received in UTF-16 code units.
#[derive(PartialEq, Eq, Debug)]
pub struct UTF16Char(pub char);

/// A string sent and received as UTF-16 code units, prefixed with its
/// UTF-16 byte count.
#[derive(PartialEq, Eq, Debug)]
pub struct UTF16(pub String);

/// A non-negative integer sent and received as a base-128 variable-length
/// quantity: 7-bit groups, most significant group first, the top bit set on
/// every group but the last.
#[derive(Debug)]
pub struct VLQ(pub usize);

/// The count preceding a variable-sized element on the wire. Its
/// representation and its optional maximum are fixed by the
/// [configuration](crate::config::Config).
#[derive(Debug)]
pub struct Length(pub usize);

/// A string whose content is all ASCII, one byte per character on the wire.
#[derive(PartialEq, Eq, Debug)]
pub struct Ascii(pub String);

impl<T> core::ops::Deref for BE<T> {
    type Target = T;

    fn deref(&self) -> (r: &T)
        ensures
            r == &self.0,
    {
        &self.0
    }
}

impl<T> core::ops::Deref for LE<T> {
    type Target = T;

    fn deref(&self) -> (r: &T)
        ensures
            r == &self.0,
    {
        &self.0
    }
}

impl core::ops::Deref for UTF16Char {
    type Target = char;

    fn deref(&self) -> (r: &char)
        ensures
            r == &self.0,
    {
        &self.0
    }
}

impl core::ops::Deref for UTF16 {
    type Target = String;

    fn deref(&self) -> (r: &String)
        ensures
            r == &self.0,
    {
        &self.0
    }
}

impl core::ops::Deref for Ascii {
    type Target = String;

    fn deref(&self) -> (r: &String)
        ensures
            r == &self.0,
    {
        &self.0
    }
}

impl core::ops::Deref for VLQ {
    type Target = usize;

    fn deref(&self) -> (r: &usize)
        ensures
            r == &self.0,
    {
        &self.0
    }
}

impl core::ops::Deref for Length {
    type Target = usize;

    fn deref(&self) -> (r: &usize)
        ensures
            r == &self.0,
    {
        &self.0
    }
}

impl Sendable for u8 {
    open spec fn wire(&self, c: Config) -> Seq<u8> {
        seq![*self]
    }

    fn snd_to<S: Sender>(&self, writer: &mut S, c: Config) -> (r: Result<(), Error>) {
        let buf: [u8; 1] = [*self];
        proof {
            assert(buf@ =~= seq![*self]);
        }
        writer.snd_all(buf.as_slice())
    }
}

impl Receivable for u8 {
    open spec fn parse(s: Seq<u8>, c: Config) -> Option<(u8, int)> {
        if s.len() >= 1 {
            Some((s[0], 1int))
        } else {
            None
        }
    }

    open spec fn parse_fault(s: Seq<u8>, c: Config, e: Error) -> bool {
        e == Error::Io(IoFault::UnexpectedEof)
    }

    proof fn parse_bounds(s: Seq<u8>, c: Config) {
    }

    proof fn round_trip(&self, c: Config, rest: Seq<u8>) {
        assert((self.wire(c) + rest)[0] == *self);
    }

    fn rcv_from<R: Receiver>(reader: &mut R, c: Config) -> (r: Result<u8, Error>) {
        let b = reader.rcv_all(1)?;
        Ok(b[0])
    }
}

impl Sendable for i8 {
    open spec fn wire(&self, c: Config) -> Seq<u8> {
        seq![*self as u8]
    }

    fn snd_to<S: Sender>(&self, writer: &mut S, c: Config) -> (r: Result<(), Error>) {
        let buf: [u8; 1] = [*self as u8];
        proof {
            assert(buf@ =~= seq![*self as u8]);
        }
        writer.snd_all(buf.as_slice())
    }
}

impl Receivable for i8 {
    open spec fn parse(s: Seq<u8>, c: Config) -> Option<(i8, int)> {
        if s.len() >= 1 {
            Some((s[0] as i8, 1int))
        } else {
            None
        }
    }

    open spec fn parse_fault(s: Seq<u8>, c: Config, e: Error) -> bool {
        e == Error::Io(IoFault::UnexpectedEof)
    }

    proof fn parse_bounds(s: Seq<u8>, c: Config) {
    }

    proof fn round_trip(&self, c: Config, rest: Seq<u8>) {
        assert((self.wire(c) + rest)[0] == (*self as u8));
        assert((*self as u8) as i8 == *self) by (bit_vector);
    }

    fn rcv_from<R: Receiver>(reader: &mut R, c: Config) -> (r: Result<i8, Error>) {
        let b = reader.rcv_all(1)?;
        Ok(b[0] as i8)
    }
}

impl Sendable for bool {
    open spec fn wire(&self, c: Config) -> Seq<u8> {
        seq![if *self { 1u8 } else { 0u8 }]
    }

    fn snd_to<S: Sender>(&self, writer: &mut S, c: Config) -> (r: Result<(), Error>) {
        let buf: [u8; 1] = [if *self { 1u8 } else { 0u8 }];
        proof {
            assert(buf@ =~= seq![if *self { 1u8 } else { 0u8 }]);
        }
        writer.snd_all(buf.as_slice())
    }
}

impl Receivable for bool {
    open spec fn parse(s: Seq<u8>, c: Config) -> Option<(bool, int)> {
        if s.len() >= 1 {
            Some((s[0] != 0, 1int))
        } else {
            None
        }
    }

    open spec fn parse_fault(s: Seq<u8>, c: Config, e: Error) -> bool {
        e == Error::Io(IoFault::UnexpectedEof)
    }

    proof fn parse_bounds(s: Seq<u8>, c: Config) {
    }

    proof fn round_trip(&self, c: Config, rest: Seq<u8>) {
        assert((self.wire(c) + rest)[0] == (if *self { 1u8 } else { 0u8 }));
    }

    fn rcv_from<R: Receiver>(reader: &mut R, c: Config) -> (r: Result<bool, Error>) {
        let b = reader.rcv_all(1)?;
        Ok(b[0] != 0)
    }
}

/// `128` raised to `k`: the number of values `k` seven-bit groups can hold.
pub open spec fn pow128(k: nat) -> nat {
    pow(128, k) as nat
}

/// One unfolding of `pow128`.
pub proof fn lemma_pow128_step(k: nat)
    requires
        k >= 1,
    ensures
        pow128(k) == 128 * pow128((k - 1) as nat),
        pow128(k) >= 128,
{
    reveal(pow);
    vstd::arithmetic::power::lemma_pow_positive(128, (k - 1) as nat);
}

/// The continuation groups of a variable-length quantity: the 7-bit groups
/// of `v` above the least significant one, most significant first, each with
/// its top bit set.
pub open spec fn vlq_high(v: nat) -> Seq<u8>
    decreases v,
{
    if v == 0 {
        Seq::empty()
    } else {
        vlq_high(v / 128) + seq![(v % 128 + 128) as u8]
    }
}

/// The wire form of a variable-length quantity: the continuation groups of
/// `v / 128`, then the least significant 7-bit group with its top bit clear.
pub open spec fn vlq_bytes(v: nat) -> Seq<u8> {
    vlq_high(v / 128) + seq![(v % 128) as u8]
}

/// Parses a variable-length quantity from the front of `s`, continuing the
/// value accumulated in `acc`: groups arrive most significant first, and a
/// clear top bit marks the final group.
pub open spec fn vlq_parse_acc(s: Seq<u8>, acc: nat) -> Option<(nat, int)>
    decreases s.len(),
{
    if s.len() == 0 {
        None
    } else {
        let v = acc * 128 + (s[0] % 128) as nat;
        if s[0] < 128 {
            Some((v, 1int))
        } else {
            match vlq_parse_acc(s.skip(1), v) {
                Some((val, n)) => Some((val, n + 1)),
                None => None,
            }
        }
    }
}

/// Parses a variable-length quantity from the front of `s`: the value and
/// the number of bytes consumed, or `None` when `s` ends before a group with
/// a clear top bit.
pub open spec fn vlq_parse(s: Seq<u8>) -> Option<(nat, int)> {
    vlq_parse_acc(s, 0)
}

/// `v` reduced modulo the number of `usize` values: what the accumulating
/// decoder keeps of an over-wide quantity.
pub open spec fn usize_mod(v: nat) -> nat {
    v % (usize::MAX as nat + 1)
}

/// Parsing the continuation groups of `h` folds `h` into the accumulator,
/// shifted past whatever was accumulated before them.
pub proof fn lemma_vlq_parse_high(h: nat, s: Seq<u8>, acc: nat)
    requires
        s.len() > 0,
    ensures
        vlq_parse_acc(vlq_high(h) + s, acc) == (match vlq_parse_acc(
            s,
            acc * pow128(vlq_high(h).len()) + h,
        ) {
            Some((v, n)) => Some((v, n + vlq_high(h).len())),
            None => None::<(nat, int)>,
        }),
    decreases h,
{
    if h == 0 {
        assert(vlq_high(0nat) + s =~= s);
        vstd::arithmetic::power::lemma_pow0(128);
        assert(pow128(0) == 1);
        assert(acc * pow128(0) + 0 == acc) by (nonlinear_arith)
            requires
                pow128(0) == 1,
        ;
        match vlq_parse_acc(s, acc) {
            Some((v, n)) => {
                assert(n + vlq_high(0nat).len() == n);
            },
            None => {},
        }
    } else {
        let head: u8 = (h % 128 + 128) as u8;
        let k1 = vlq_high(h / 128).len();
        let s1 = seq![head] + s;
        assert(vlq_high(h) + s =~= vlq_high(h / 128) + s1);
        lemma_vlq_parse_high(h / 128, s1, acc);
        let a1 = acc * pow128(k1) + h / 128;
        assert(s1.skip(1) =~= s);
        assert(head >= 128);
        assert((head % 128) as nat == h % 128);
        let a2 = a1 * 128 + (h % 128);
        assert(vlq_parse_acc(s1, a1) == (match vlq_parse_acc(s, a2) {
            Some((val, n)) => Some((val, n + 1)),
            None => None::<(nat, int)>,
        }));
        lemma_pow128_step((k1 + 1) as nat);
        vstd::arithmetic::div_mod::lemma_fundamental_div_mod(h as int, 128);
        assert(a1 * 128 + (h % 128) == acc * pow128((k1 + 1) as nat) + h) by (nonlinear_arith)
            requires
                a1 == acc * pow128(k1) + h / 128,
                pow128((k1 + 1) as nat) == 128 * pow128(k1),
                h as int == 128 * (h as int / 128) + h as int % 128,
        ;
        assert(vlq_high(h).len() == k1 + 1);
        match vlq_parse_acc(s, a2) {
            Some((v, n)) => {
                assert(vlq_parse_acc(s1, a1) == Some((v, n + 1)));
                assert(vlq_parse_acc(vlq_high(h) + s, acc) == Some((v, n + 1 + k1)));
            },
            None => {
                assert(vlq_parse_acc(s1, a1) is None);
                assert(vlq_parse_acc(vlq_high(h) + s, acc) is None);
            },
        }
    }
}

/// A variable-length quantity decodes back to the value it was sent with.
pub proof fn lemma_vlq_round_trip(v: nat, rest: Seq<u8>)
    ensures
        vlq_parse(vlq_bytes(v) + rest) == Some(
            (v, vlq_bytes(v).len() as int),
        ),
{
    let tail = seq![(v % 128) as u8] + rest;
    assert(vlq_bytes(v) + rest =~= vlq_high(v / 128) + tail);
    lemma_vlq_parse_high(v / 128, tail, 0);
    let k = vlq_high(v / 128).len();
    assert(0 * pow128(k) + v / 128 == v / 128) by (nonlinear_arith);
    assert(tail[0] == (v % 128) as u8);
    assert(tail[0] < 128);
    vstd::arithmetic::div_mod::lemma_fundamental_div_mod(v as int, 128);
    assert((v / 128) * 128 + (v % 128) as nat == v);
}

/// Sends the variable-length form of `v`.
fn snd_vlq<S: Sender>(writer: &mut S, v: usize) -> (r: Result<(), Error>)
    ensures
        old(writer).accepts() ==> (r matches Ok(()) && final(writer).accepts() && final(
            writer
        ).sent() == old(writer).sent() + vlq_bytes(v as nat)),
        !old(writer).accepts() ==> (r is Err && final(writer).sent() == old(writer).sent()),
{
    let mut tmp: Vec<u8> = Vec::new();
    tmp.push((v % 128) as u8);
    let mut cur: usize = v / 128;
    proof {
        assert(tmp@.reverse() =~= seq![(v as nat % 128) as u8]);
    }
    while cur > 0
        invariant
            vlq_high(cur as nat) + tmp@.reverse() == vlq_bytes(v as nat),
        decreases cur,
    {
        let b: u8 = (cur % 128 + 128) as u8;
        proof {
            assert(tmp@.push(b).reverse() =~= seq![b] + tmp@.reverse());
            assert(vlq_high(cur as nat) =~= vlq_high(cur as nat / 128) + seq![b]);
            assert(vlq_high(cur as nat / 128) + (seq![b] + tmp@.reverse()) =~= vlq_high(
                cur as nat,
            ) + tmp@.reverse());
        }
        tmp.push(b);
        cur = cur / 128;
    }
    let buf = crate::numbytes::rev_bytes(&tmp);
    proof {
        assert(vlq_high(0nat) + tmp@.reverse() =~= tmp@.reverse());
    }
    writer.snd_all(buf.as_slice())
}

/// Reads a variable-length quantity; an over-wide value wraps modulo the
/// range of `usize`, as accumulating it in a machine word does.
fn rcv_vlq<R: Receiver>(reader: &mut R) -> (r: Result<usize, Error>)
    ensures
        vlq_parse(old(reader).remaining()) matches Some((v, n)) ==> (r matches Ok(rv)
            && rv as nat == usize_mod(v) && final(reader).remaining() == old(
            reader,
        ).remaining().skip(n)),
        vlq_parse(old(reader).remaining()) is None ==> (r matches Err(e) && e == Error::Io(
            IoFault::UnexpectedEof,
        )),
{
    let ghost s0 = reader.remaining();
    let ghost m = usize::MAX as nat + 1;
    let mut v: usize = 0;
    let ghost mut acc: nat = 0nat;
    let ghost mut used: int = 0int;
    proof {
        assert(s0.skip(0) =~= s0);
    }
    loop
        invariant
            reader.remaining() == s0.skip(used),
            0 <= used <= s0.len(),
            v as nat == acc % m,
            m == usize::MAX as nat + 1,
            s0 == old(reader).remaining(),
            vlq_parse_acc(s0, 0) == (match vlq_parse_acc(s0.skip(used), acc) {
                Some((w, n)) => Some((w, n + used)),
                None => None::<(nat, int)>,
            }),
        decreases s0.len() - used,
    {
        let rb = reader.rcv_all(1);
        let b = match rb {
            Ok(b) => b,
            Err(e) => {
                proof {
                    assert(s0.skip(used).len() == 0);
                    assert(vlq_parse_acc(s0.skip(used), acc) is None);
                    assert(vlq_parse(s0) is None);
                }
                return Err(e);
            },
        };
        let g: u8 = b[0];
        let ghost rem = s0.skip(used);
        let ghost acc0: nat = acc;
        let ghost used0: int = used;
        let ghost accn: nat = acc0 * 128 + (g % 128) as nat;
        proof {
            assert(rem[0] == g);
            assert(rem.skip(1) =~= s0.skip(used0 + 1));
            vstd::arithmetic::div_mod::lemma_mul_mod_noop_left(acc0 as int, 128, m as int);
            vstd::arithmetic::div_mod::lemma_small_mod((g % 128) as nat, m);
            vstd::arithmetic::div_mod::lemma_add_mod_noop(
                (acc0 * 128) as int,
                (g % 128) as int,
                m as int,
            );
            vstd::arithmetic::div_mod::lemma_mod_bound((acc0 * 128) as int, m as int);
            let partial = (acc0 * 128) % m + (g % 128) as nat;
            assert(partial % m == accn % m);
            if partial >= m {
                vstd::arithmetic::div_mod::lemma_mod_sub_multiples_vanish(partial as int, m as int);
                vstd::arithmetic::div_mod::lemma_small_mod((partial - m) as nat, m);
            } else {
                vstd::arithmetic::div_mod::lemma_small_mod(partial, m);
            }
        }
        v = v.wrapping_mul(128).wrapping_add((g % 128) as usize);
        proof {
            assert(v as nat == accn % m);
            acc = accn;
            used = used0 + 1;
            if g < 128 {
                assert(vlq_parse_acc(rem, acc0) == Some((accn, 1int)));
                assert(vlq_parse_acc(s0, 0) == Some((accn, used0 + 1)));
            } else {
                assert(vlq_parse_acc(rem, acc0) == (match vlq_parse_acc(rem.skip(1), accn) {
                    Some((val, n)) => Some((val, n + 1)),
                    None => None::<(nat, int)>,
                }));
                match vlq_parse_acc(s0.skip(used0 + 1), accn) {
                    Some((w, n)) => {
                        assert(vlq_parse_acc(s0, 0) == Some((w, n + used0 + 1)));
                    },
                    None => {
                        assert(vlq_parse_acc(s0, 0) is None);
                    },
                }
            }
        }
        if g < 128 {
            return Ok(v);
        }
    }
}

impl Sendable for VLQ {
    open spec fn wire(&self, c: Config) -> Seq<u8> {
        vlq_bytes(self.0 as nat)
    }

    fn snd_to<S: Sender>(&self, writer: &mut S, c: Config) -> (r: Result<(), Error>) {
        snd_vlq(writer, self.0)
    }
}

impl Receivable for VLQ {
    open spec fn parse(s: Seq<u8>, c: Config) -> Option<(usize, int)> {
        match vlq_parse(s) {
            Some((v, n)) => Some((usize_mod(v) as usize, n)),
            None => None,
        }
    }

    open spec fn parse_fault(s: Seq<u8>, c: Config, e: Error) -> bool {
        e == Error::Io(IoFault::UnexpectedEof)
    }

    proof fn parse_bounds(s: Seq<u8>, c: Config) {
        lemma_vlq_parse_bounds(s, 0);
    }

    proof fn round_trip(&self, c: Config, rest: Seq<u8>) {
        lemma_vlq_round_trip(self.0 as nat, rest);
        vstd::arithmetic::div_mod::lemma_small_mod(self.0 as nat, usize::MAX as nat + 1);
    }

    fn rcv_from<R: Receiver>(reader: &mut R, c: Config) -> (r: Result<VLQ, Error>) {
        let v = rcv_vlq(reader)?;
        Ok(VLQ(v))
    }
}

/// The wire form of a count under the configured length representation.
pub open spec fn len_wire(v: nat, c: Config) -> Seq<u8> {
    match c.len_mode {
        LenMode::U32 => crate::numbytes::num_bytes(c.endian, v, 4),
        LenMode::U16 => crate::numbytes::num_bytes(c.endian, v, 2),
        LenMode::Vlq => vlq_bytes(v),
    }
}

/// Parses a count under the configured length representation, before the
/// maximum-size policy is applied.
pub open spec fn len_parse_raw(s: Seq<u8>, c: Config) -> Option<(nat, int)> {
    match c.len_mode {
        LenMode::U32 => if s.len() >= 4 {
            Some((crate::numbytes::num_val(c.endian, s.take(4)), 4int))
        } else {
            None
        },
        LenMode::U16 => if s.len() >= 2 {
            Some((crate::numbytes::num_val(c.endian, s.take(2)), 2int))
        } else {
            None
        },
        LenMode::Vlq => match vlq_parse(s) {
            Some((v, n)) => Some((usize_mod(v), n)),
            None => None,
        },
    }
}

/// Parses a count and applies the maximum-size policy: the decoded count
/// and the bytes consumed, or `None` on short data or a count above the
/// configured maximum.
pub open spec fn len_parse(s: Seq<u8>, c: Config) -> Option<(usize, int)> {
    match len_parse_raw(s, c) {
        Some((v, n)) => if v <= c.spec_max() as nat {
            Some((v as usize, n))
        } else {
            None
        },
        None => None,
    }
}

/// A successful variable-length parse consumes between one byte and the
/// whole sequence.
pub proof fn lemma_vlq_parse_bounds(s: Seq<u8>, acc: nat)
    ensures
        vlq_parse_acc(s, acc) matches Some((v, n)) ==> 1 <= n <= s.len(),
    decreases s.len(),
{
    if s.len() > 0 && s[0] >= 128 {
        lemma_vlq_parse_bounds(s.skip(1), acc * 128 + (s[0] % 128) as nat);
    }
}

/// A successful length parse consumes between one byte and the whole
/// sequence.
pub proof fn lemma_len_parse_bounds(s: Seq<u8>, c: Config)
    ensures
        len_parse(s, c) matches Some((v, n)) ==> 1 <= n <= s.len(),
        len_parse_raw(s, c) matches Some((v, n)) ==> 1 <= n <= s.len(),
{
    if c.len_mode is Vlq {
        lemma_vlq_parse_bounds(s, 0);
    }
}

/// Whether a count fits the configured length representation without
/// truncation.
pub open spec fn len_fits(n: nat, c: Config) -> bool {
    match c.len_mode {
        LenMode::U32 => n < 0x1_0000_0000,
        LenMode::U16 => n < 0x1_0000,
        LenMode::Vlq => true,
    }
}

/// A count within the maximum-size policy that fits the configured length
/// representation parses back from its own wire form.
pub proof fn lemma_len_round(n: usize, c: Config, rest: Seq<u8>)
    requires
        n <= c.spec_max(),
        len_fits(n as nat, c),
    ensures
        len_parse(len_wire(n as nat, c) + rest, c) == Some(
            (n, len_wire(n as nat, c).len() as int),
        ),
{
    let v = n as nat;
    crate::numbytes::lemma_pow256_values();
    match c.len_mode {
        LenMode::U32 => {
            crate::numbytes::lemma_num_bytes_len(c.endian, v, 4);
            assert((len_wire(v, c) + rest).take(4) =~= len_wire(v, c));
            crate::numbytes::lemma_num_round_small(c.endian, v, 4);
        },
        LenMode::U16 => {
            crate::numbytes::lemma_num_bytes_len(c.endian, v, 2);
            assert((len_wire(v, c) + rest).take(2) =~= len_wire(v, c));
            crate::numbytes::lemma_num_round_small(c.endian, v, 2);
        },
        LenMode::Vlq => {
            lemma_vlq_round_trip(v, rest);
            vstd::arithmetic::div_mod::lemma_small_mod(v, usize::MAX as nat + 1);
        },
    }
}

impl Length {
    /// Fails with [`Error::DataTooLarge`] exactly when the count exceeds the
    /// configured maximum; with no maximum configured it always succeeds.
    pub fn check(&self, c: Config) -> (r: Result<(), Error>)
        ensures
            self.0 <= c.spec_max() ==> r matches Ok(()),
            self.0 > c.spec_max() ==> (r matches Err(e) && e == Error::DataTooLarge(c.spec_max())),
    {
        match c.max_len {
            Some(m) => {
                if self.0 > m {
                    Err(Error::DataTooLarge(m))
                } else {
                    Ok(())
                }
            },
            None => Ok(()),
        }
    }

    /// Whether this count fits the configured length representation without
    /// truncation.
    pub open spec fn fits_mode(&self, c: Config) -> bool {
        len_fits(self.0 as nat, c)
    }
}

impl Sendable for Length {
    open spec fn wire(&self, c: Config) -> Seq<u8> {
        len_wire(self.0 as nat, c)
    }

    open spec fn ok_to_send(&self, c: Config) -> bool {
        self.0 <= c.spec_max()
    }

    open spec fn send_fault(&self, c: Config, e: Error) -> bool {
        e == Error::DataTooLarge(c.spec_max())
    }

    open spec fn faithful(&self, c: Config) -> bool {
        self.fits_mode(c)
    }

    fn snd_to<S: Sender>(&self, writer: &mut S, c: Config) -> (r: Result<(), Error>) {
        self.check(c)?;
        match c.len_mode {
            LenMode::U32 => crate::numbytes::snd_uint(writer, c.endian, self.0 as u128, 4),
            LenMode::U16 => crate::numbytes::snd_uint(writer, c.endian, self.0 as u128, 2),
            LenMode::Vlq => snd_vlq(writer, self.0),
        }
    }
}

impl Receivable for Length {
    open spec fn parse(s: Seq<u8>, c: Config) -> Option<(usize, int)> {
        len_parse(s, c)
    }

    open spec fn parse_fault(s: Seq<u8>, c: Config, e: Error) -> bool {
        match len_parse_raw(s, c) {
            Some((v, n)) => v > c.spec_max() as nat && e == Error::DataTooLarge(c.spec_max()),
            None => e == Error::Io(IoFault::UnexpectedEof),
        }
    }

    proof fn parse_bounds(s: Seq<u8>, c: Config) {
        lemma_len_parse_bounds(s, c);
    }

    proof fn round_trip(&self, c: Config, rest: Seq<u8>) {
        lemma_len_round(self.0, c, rest);
    }

    fn rcv_from<R: Receiver>(reader: &mut R, c: Config) -> (r: Result<Length, Error>) {
        proof {
            crate::numbytes::lemma_pow256_values();
        }
        let v: usize = match c.len_mode {
            LenMode::U32 => {
                let w = crate::numbytes::rcv_uint(reader, c.endian, 4)?;
                w as usize
            },
            LenMode::U16 => {
                let w = crate::numbytes::rcv_uint(reader, c.endian, 2)?;
                w as usize
            },
            LenMode::Vlq => rcv_vlq(reader)?,
        };
        let len = Length(v);
        len.check(c)?;
        Ok(len)
    }
}

} // verus!
