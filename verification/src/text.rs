//! The text codecs: UTF-16 characters and strings with surrogate-pair
//! handling, UTF-8 strings, ASCII strings, and the fixed-length padded and
//! truncated forms that `len`-annotated record fields use.
use vstd::prelude::*;

verus! {

use vstd::utf8::{decode_utf8, encode_utf8, is_scalar, valid_utf8};
use crate::config::{Config, Endian};
use crate::endian::big::{ReceivableBE, SendableBE};
use crate::endian::little::{ReceivableLE, SendableLE};
use crate::endian::{len_wire, Ascii, UTF16Char, UTF16};
use crate::error::{Error, IoFault};
use crate::numbytes::{
    lemma_num_bytes_len,
    lemma_num_round_small,
    lemma_pow256_values,
    num_bytes,
    num_val,
    rcv_uint,
    snd_uint,
};
use crate::{Receivable, Receiver, Sendable, Sender};

/// The number of bytes a character occupies in UTF-16: two, or four when it
/// needs a surrogate pair.
pub open spec fn utf16_char_len(ch: char) -> nat {
    if (ch as u32) <= 0xFFFF {
        2
    } else {
        4
    }
}

/// The UTF-16 bytes of one character in the given byte order: one code unit
/// for a scalar up to `0xFFFF`, else a high and a low surrogate carrying
/// the scalar less `0x10000`.
pub open spec fn utf16_char_bytes(e: Endian, ch: char) -> Seq<u8> {
    let cp = (ch as u32) as nat;
    if cp <= 0xFFFF {
        num_bytes(e, cp, 2)
    } else {
        let v = (cp - 0x10000) as nat;
        num_bytes(e, 0xD800 + v / 0x400, 2) + num_bytes(e, 0xDC00 + v % 0x400, 2)
    }
}

/// Parses one UTF-16 character from the front of `s`: a unit in the high
/// surrogate range pulls in a second unit and the pair is combined; a unit
/// that is no valid scalar on its own fails.
pub open spec fn utf16_char_parse(e: Endian, s: Seq<u8>) -> Option<(char, int)> {
    if s.len() < 2 {
        None
    } else {
        let u0 = num_val(e, s.take(2));
        if 0xD800 <= u0 <= 0xDBFF {
            if s.len() < 4 {
                None
            } else {
                let u1 = num_val(e, s.subrange(2, 4));
                let cp = ((u0 - 0xD800) * 0x400 + u1 % 0x400 + 0x10000) as u32;
                Some((cp as char, 4int))
            }
        } else {
            if is_scalar(u0 as u32) {
                Some(((u0 as u32) as char, 2int))
            } else {
                None
            }
        }
    }
}

/// The error a failed UTF-16 character parse reports: end-of-data when the
/// bytes run short, else the lone code unit that is no valid scalar.
pub open spec fn utf16_char_fault(e: Endian, s: Seq<u8>, err: Error) -> bool {
    if s.len() < 2 {
        err == Error::Io(IoFault::UnexpectedEof)
    } else {
        let u0 = num_val(e, s.take(2));
        if 0xD800 <= u0 <= 0xDBFF {
            err == Error::Io(IoFault::UnexpectedEof)
        } else {
            err == Error::InvalidChar(u0 as u32)
        }
    }
}

/// A character's UTF-16 bytes parse back to the identical character.
pub proof fn lemma_utf16_char_round(e: Endian, ch: char, rest: Seq<u8>)
    ensures
        utf16_char_parse(e, utf16_char_bytes(e, ch) + rest) == Some(
            (ch, utf16_char_bytes(e, ch).len() as int),
        ),
        utf16_char_bytes(e, ch).len() == utf16_char_len(ch),
{
    vstd::utf8::char_is_scalar(ch);
    vstd::utf8::char_u32_cast(ch, ch as u32);
    lemma_pow256_values();
    let cp = (ch as u32) as nat;
    let w = utf16_char_bytes(e, ch);
    let s = w + rest;
    if cp <= 0xFFFF {
        lemma_num_bytes_len(e, cp, 2);
        assert(s.take(2) =~= w);
        lemma_num_round_small(e, cp, 2);
        assert(!(0xD800 <= cp <= 0xDBFF));
    } else {
        let v = (cp - 0x10000) as nat;
        let hi = 0xD800 + v / 0x400;
        let lo = 0xDC00 + v % 0x400;
        lemma_num_bytes_len(e, hi, 2);
        lemma_num_bytes_len(e, lo, 2);
        assert(v < 0x100000);
        assert(v / 0x400 < 0x400) by {
            vstd::arithmetic::div_mod::lemma_div_is_ordered(v as int, 0xFFFFF, 0x400);
        }
        assert(s.take(2) =~= num_bytes(e, hi, 2));
        assert(s.subrange(2, 4) =~= num_bytes(e, lo, 2));
        lemma_num_round_small(e, hi, 2);
        lemma_num_round_small(e, lo, 2);
        vstd::arithmetic::div_mod::lemma_mod_multiples_vanish(0x37, (v % 0x400) as int, 0x400);
        vstd::arithmetic::div_mod::lemma_mod_bound(v as int, 0x400);
        vstd::arithmetic::div_mod::lemma_small_mod(v % 0x400, 0x400);
        assert(lo % 0x400 == v % 0x400);
        vstd::arithmetic::div_mod::lemma_fundamental_div_mod(v as int, 0x400);
        assert((hi - 0xD800) * 0x400 + lo % 0x400 + 0x10000 == cp);
    }
}

/// Sends one character as UTF-16 code units in the given byte order.
fn snd_utf16_char<S: Sender>(writer: &mut S, e: Endian, ch: char) -> (r: Result<(), Error>)
    ensures
        old(writer).accepts() ==> (r matches Ok(()) && final(writer).accepts() && final(
            writer
        ).sent() == old(writer).sent() + utf16_char_bytes(e, ch)),
        !old(writer).accepts() ==> (r is Err && final(writer).sent() == old(writer).sent()),
{
    proof {
        vstd::utf8::char_is_scalar(ch);
    }
    let cp = ch as u32;
    if cp <= 0xFFFF {
        snd_uint(writer, e, cp as u128, 2)
    } else {
        let v = cp - 0x10000;
        let hi: u32 = 0xD800 + v / 0x400;
        let lo: u32 = 0xDC00 + v % 0x400;
        proof {
            assert(v / 0x400 < 0x400) by {
                vstd::arithmetic::div_mod::lemma_div_is_ordered(v as int, 0xFFFFF, 0x400);
            }
        }
        let r = snd_uint(writer, e, hi as u128, 2);
        if r.is_err() {
            return r;
        }
        snd_uint(writer, e, lo as u128, 2)
    }
}

/// Reads one character from its UTF-16 code units in the given byte order.
fn rcv_utf16_char<R: Receiver>(reader: &mut R, e: Endian) -> (r: Result<char, Error>)
    ensures
        utf16_char_parse(e, old(reader).remaining()) matches Some((ch, n)) ==> (r matches Ok(rv)
            && rv == ch && final(reader).remaining() == old(reader).remaining().skip(n)),
        utf16_char_parse(e, old(reader).remaining()) is None ==> (r matches Err(err)
            && utf16_char_fault(e, old(reader).remaining(), err)),
{
    proof {
        lemma_pow256_values();
    }
    let ghost s0 = reader.remaining();
    let w0 = rcv_uint(reader, e, 2)?;
    let u0: u32 = w0 as u32;
    if 0xD800 <= u0 && u0 <= 0xDBFF {
        let ghost s1 = reader.remaining();
        let w1 = rcv_uint(reader, e, 2)?;
        let u1: u32 = w1 as u32;
        let cp: u32 = (u0 - 0xD800) * 0x400 + u1 % 0x400 + 0x10000;
        proof {
            assert(s1 =~= s0.skip(2));
            assert(s0.subrange(2, 4) =~= s1.take(2));
            assert(s0.skip(4) =~= s1.skip(2));
            assert(is_scalar(cp));
        }
        match crate::primitive::char_from_u32(cp) {
            Some(ch) => Ok(ch),
            None => Err(Error::InvalidChar(cp)),
        }
    } else {
        match crate::primitive::char_from_u32(u0) {
            Some(ch) => Ok(ch),
            None => Err(Error::InvalidChar(u0)),
        }
    }
}

/// The UTF-16 byte length of a character sequence: two bytes per code
/// unit, four for a surrogate pair.
pub open spec fn utf16_len(cs: Seq<char>) -> nat
    decreases cs.len(),
{
    if cs.len() == 0 {
        0
    } else {
        utf16_char_len(cs[0]) + utf16_len(cs.skip(1))
    }
}

/// The UTF-16 bytes of a character sequence in the given byte order.
pub open spec fn utf16_bytes(e: Endian, cs: Seq<char>) -> Seq<u8>
    decreases cs.len(),
{
    if cs.len() == 0 {
        Seq::empty()
    } else {
        utf16_char_bytes(e, cs[0]) + utf16_bytes(e, cs.skip(1))
    }
}

/// Appending one character extends the UTF-16 length and bytes at the end.
pub proof fn lemma_utf16_push(e: Endian, cs: Seq<char>, ch: char)
    ensures
        utf16_len(cs.push(ch)) == utf16_len(cs) + utf16_char_len(ch),
        utf16_bytes(e, cs.push(ch)) == utf16_bytes(e, cs) + utf16_char_bytes(e, ch),
    decreases cs.len(),
{
    let p = cs.push(ch);
    if cs.len() == 0 {
        assert(p[0] == ch);
        assert(p.skip(1) =~= Seq::<char>::empty());
        assert(utf16_len(p) == utf16_char_len(ch) + utf16_len(p.skip(1)));
        assert(utf16_len(Seq::<char>::empty()) == 0);
        assert(utf16_bytes(e, p) == utf16_char_bytes(e, ch) + utf16_bytes(e, p.skip(1)));
        assert(utf16_bytes(e, Seq::<char>::empty()) == Seq::<u8>::empty());
        assert(utf16_char_bytes(e, ch) + Seq::<u8>::empty() =~= utf16_char_bytes(e, ch));
        assert(utf16_bytes(e, cs) == Seq::<u8>::empty());
        assert(Seq::<u8>::empty() + utf16_char_bytes(e, ch) =~= utf16_char_bytes(e, ch));
    } else {
        assert(p.skip(1) =~= cs.skip(1).push(ch));
        assert(p[0] == cs[0]);
        lemma_utf16_push(e, cs.skip(1), ch);
        assert(utf16_len(p) == utf16_char_len(cs[0]) + utf16_len(p.skip(1)));
        assert(utf16_bytes(e, p) == utf16_char_bytes(e, cs[0]) + utf16_bytes(e, p.skip(1)));
        assert(utf16_char_bytes(e, cs[0]) + (utf16_bytes(e, cs.skip(1)) + utf16_char_bytes(
            e,
            ch,
        )) =~= (utf16_char_bytes(e, cs[0]) + utf16_bytes(e, cs.skip(1))) + utf16_char_bytes(
            e,
            ch,
        ));
    }
}

/// A prefix never has a larger UTF-16 length than the whole sequence.
pub proof fn lemma_utf16_len_prefix(cs: Seq<char>, i: int)
    requires
        0 <= i <= cs.len(),
    ensures
        utf16_len(cs.take(i)) <= utf16_len(cs),
    decreases cs.len() - i,
{
    if i < cs.len() {
        assert(cs.take(i + 1) =~= cs.take(i).push(cs[i]));
        lemma_utf16_push(Endian::Big, cs.take(i), cs[i]);
        lemma_utf16_len_prefix(cs, i + 1);
    } else {
        assert(cs.take(i) =~= cs);
    }
}

/// The UTF-16 bytes of a sequence are exactly as long as its UTF-16 length.
pub proof fn lemma_utf16_bytes_len(e: Endian, cs: Seq<char>)
    ensures
        utf16_bytes(e, cs).len() == utf16_len(cs),
    decreases cs.len(),
{
    if cs.len() > 0 {
        lemma_utf16_char_round(e, cs[0], Seq::empty());
        lemma_utf16_bytes_len(e, cs.skip(1));
    }
}

/// Parses UTF-16 characters from the front of `s` until exactly `budget`
/// bytes are consumed. Fails when the bytes run short, when a lone code
/// unit is no valid scalar, or when the budget ends inside a surrogate
/// pair.
pub open spec fn utf16_take(e: Endian, s: Seq<u8>, budget: nat) -> Option<Seq<char>>
    decreases budget,
{
    if budget == 0 {
        Some(Seq::empty())
    } else {
        match utf16_char_parse(e, s) {
            Some((ch, n)) => if n <= budget {
                match utf16_take(e, s.skip(n), (budget - n) as nat) {
                    Some(cs) => Some(seq![ch] + cs),
                    None => None,
                }
            } else {
                None
            },
            None => None,
        }
    }
}

/// The error a failed [`utf16_take`] reports.
pub open spec fn utf16_take_fault(e: Endian, s: Seq<u8>, budget: nat, err: Error) -> bool
    decreases budget,
{
    if budget == 0 {
        true
    } else {
        match utf16_char_parse(e, s) {
            Some((ch, n)) => if n <= budget {
                utf16_take_fault(e, s.skip(n), (budget - n) as nat, err)
            } else {
                err matches Error::Other(_)
            },
            None => utf16_char_fault(e, s, err),
        }
    }
}

/// A successful [`utf16_take`] had at least its whole budget available.
pub proof fn lemma_utf16_take_bound(e: Endian, s: Seq<u8>, budget: nat)
    ensures
        utf16_take(e, s, budget) is Some ==> budget <= s.len(),
    decreases budget,
{
    if budget > 0 {
        match utf16_char_parse(e, s) {
            Some((ch, n)) => {
                if n <= budget {
                    lemma_utf16_take_bound(e, s.skip(n), (budget - n) as nat);
                }
            },
            None => {},
        }
    }
}

/// A character sequence's UTF-16 bytes parse back to the identical
/// sequence under their own byte length.
pub proof fn lemma_utf16_take_round(e: Endian, cs: Seq<char>, rest: Seq<u8>)
    ensures
        utf16_take(e, utf16_bytes(e, cs) + rest, utf16_len(cs)) == Some(cs),
    decreases cs.len(),
{
    if cs.len() == 0 {
        assert(Seq::<char>::empty() =~= cs);
    } else {
        let b0 = utf16_char_bytes(e, cs[0]);
        let tailb = utf16_bytes(e, cs.skip(1));
        assert(utf16_bytes(e, cs) + rest =~= b0 + (tailb + rest));
        lemma_utf16_char_round(e, cs[0], tailb + rest);
        let n = b0.len() as int;
        assert((b0 + (tailb + rest)).skip(n) =~= tailb + rest);
        lemma_utf16_take_round(e, cs.skip(1), rest);
        assert(seq![cs[0]] + cs.skip(1) =~= cs);
    }
}

/// Whether the UTF-16 form of `cs` can be sent: its byte length must be
/// within the maximum-size policy and the machine's word range.
pub open spec fn utf16_ok(cs: Seq<char>, c: Config) -> bool {
    utf16_len(cs) <= c.spec_max() && utf16_len(cs) <= usize::MAX
}

/// The full wire form of a UTF-16 string: its UTF-16 byte count as a length
/// prefix, then its code units in byte order `e`.
pub open spec fn utf16_wire(c: Config, e: Endian, cs: Seq<char>) -> Seq<u8> {
    len_wire(utf16_len(cs), c) + utf16_bytes(e, cs)
}

/// Parses a UTF-16 string: a length prefix, then characters until exactly
/// that many bytes are consumed.
pub open spec fn utf16_parse(c: Config, e: Endian, s: Seq<u8>) -> Option<(Seq<char>, int)> {
    match crate::endian::len_parse(s, c) {
        Some((nb, k)) => match utf16_take(e, s.skip(k), nb as nat) {
            Some(cs) => Some((cs, k + nb)),
            None => None,
        },
        None => None,
    }
}

/// The error a failed UTF-16 string parse reports.
pub open spec fn utf16_str_fault(c: Config, e: Endian, s: Seq<u8>, err: Error) -> bool {
    match crate::endian::len_parse(s, c) {
        Some((nb, k)) => utf16_take_fault(e, s.skip(k), nb as nat, err),
        None => <crate::endian::Length as Receivable>::parse_fault(s, c, err),
    }
}

/// Computes the UTF-16 byte length of the characters in `cs`, or fails
/// with [`Error::DataTooLarge`] when it exceeds the machine's word range.
fn utf16_len_of(cs: &Vec<char>, c: Config) -> (r: Result<usize, Error>)
    ensures
        utf16_len(cs@) <= usize::MAX ==> (r matches Ok(n) && n as nat == utf16_len(cs@)),
        utf16_len(cs@) > usize::MAX ==> (r matches Err(e) && e == Error::DataTooLarge(
            c.spec_max(),
        )),
{
    let n = cs.len();
    let mut total: usize = 0;
    let mut i: usize = 0;
    proof {
        assert(cs@.take(0) =~= Seq::<char>::empty());
    }
    while i < n
        invariant
            i <= n,
            n == cs@.len(),
            total as nat == utf16_len(cs@.take(i as int)),
        decreases n - i,
    {
        let ch = cs[i];
        let add: usize = if (ch as u32) <= 0xFFFF {
            2
        } else {
            4
        };
        proof {
            assert(cs@.take(i + 1) =~= cs@.take(i as int).push(cs@[i as int]));
            lemma_utf16_push(Endian::Big, cs@.take(i as int), cs@[i as int]);
            lemma_utf16_len_prefix(cs@, i + 1);
        }
        if total > usize::MAX - add {
            return Err(Error::DataTooLarge(c.max_allowed()));
        }
        total = total + add;
        i = i + 1;
    }
    proof {
        assert(cs@.take(n as int) =~= cs@);
    }
    Ok(total)
}

/// Sends a string as UTF-16: its byte count as a length prefix, then its
/// code units in byte order `e`.
pub(crate) fn snd_utf16<S: Sender>(writer: &mut S, c: Config, e: Endian, s: &String) -> (r: Result<(), Error>)
    ensures
        old(writer).accepts() && utf16_ok(s@, c) ==> (r matches Ok(()) && final(writer).accepts()
            && final(writer).sent() == old(writer).sent() + utf16_wire(c, e, s@)),
        old(writer).accepts() && !utf16_ok(s@, c) ==> (r matches Err(err) && err
            == Error::DataTooLarge(c.spec_max()) && final(writer).sent() == old(writer).sent()),
{
    let cs = chars_vec(s.as_str());
    let total = utf16_len_of(&cs, c)?;
    let len = crate::endian::Length(total);
    len.check(c)?;
    let r0 = len.snd_to(writer, c);
    match r0 {
        Ok(()) => (),
        Err(err) => {
            return Err(err);
        },
    }
    let n = cs.len();
    let mut i: usize = 0;
    proof {
        assert(cs@.take(0) =~= Seq::<char>::empty());
    }
    while i < n
        invariant
            i <= n,
            n == cs@.len(),
            cs@ == s@,
            total as nat == utf16_len(s@),
            total <= c.spec_max(),
            old(writer).accepts() ==> (writer.accepts() && writer.sent() == old(writer).sent()
                + len_wire(utf16_len(s@), c) + utf16_bytes(e, cs@.take(i as int))),
        decreases n - i,
    {
        let ch = cs[i];
        let rr = snd_utf16_char(writer, e, ch);
        match rr {
            Ok(()) => (),
            Err(err) => {
                return Err(err);
            },
        }
        proof {
            assert(cs@.take(i + 1) =~= cs@.take(i as int).push(cs@[i as int]));
            lemma_utf16_push(e, cs@.take(i as int), cs@[i as int]);
        }
        i = i + 1;
    }
    proof {
        assert(cs@.take(n as int) =~= cs@);
        if old(writer).accepts() {
            assert(old(writer).sent() + len_wire(utf16_len(s@), c) + utf16_bytes(e, s@) =~= old(
                writer,
            ).sent() + utf16_wire(c, e, s@));
        }
    }
    Ok(())
}

/// Reads a UTF-16 string: a length prefix, then characters until exactly
/// that many bytes have been consumed.
pub(crate) fn rcv_utf16<R: Receiver>(reader: &mut R, c: Config, e: Endian) -> (r: Result<String, Error>)
    ensures
        utf16_parse(c, e, old(reader).remaining()) matches Some((cs, n)) ==> (r matches Ok(st)
            && st@ == cs && final(reader).remaining() == old(reader).remaining().skip(n)),
        utf16_parse(c, e, old(reader).remaining()) is None ==> (r matches Err(err)
            && utf16_str_fault(c, e, old(reader).remaining(), err)),
{
    let ghost s0 = reader.remaining();
    let len = crate::endian::Length::rcv_from(reader, c)?;
    let ghost k = (<crate::endian::Length as Receivable>::parse(s0, c))->Some_0.1;
    let ghost s1 = reader.remaining();
    proof {
        crate::endian::lemma_len_parse_bounds(s0, c);
        lemma_utf16_take_bound(e, s1, len.0 as nat);
    }
    let chars = rcv_utf16_budget(reader, e, len.0)?;
    proof {
        assert(s1.skip(len.0 as int) =~= s0.skip(k + len.0));
    }
    Ok(string_from_chars(chars))
}

/// Reads UTF-16 characters until exactly `nb` bytes have been consumed.
#[verifier::loop_isolation(false)]
#[verifier::rlimit(100)]
#[verifier::spinoff_prover]
pub(crate) fn rcv_utf16_budget<R: Receiver>(reader: &mut R, e: Endian, nb: usize) -> (r: Result<
    Vec<char>,
    Error,
>)
    ensures
        utf16_take(e, old(reader).remaining(), nb as nat) matches Some(cs) ==> (r matches Ok(cv)
            && cv@ == cs && final(reader).remaining() == old(reader).remaining().skip(nb as int)),
        utf16_take(e, old(reader).remaining(), nb as nat) is None ==> (r matches Err(err)
            && utf16_take_fault(e, old(reader).remaining(), nb as nat, err)),
{
    let ghost s1 = reader.remaining();
    let mut budget: usize = nb;
    let mut chars: Vec<char> = Vec::new();
    proof {
        assert(s1.skip(0) =~= s1);
    }
    while budget > 0
        invariant
            budget <= nb,
            nb - budget <= s1.len(),
            reader.remaining() == s1.skip((nb - budget) as int),
            (match utf16_take(e, s1, nb as nat) {
                Some(cs) => match utf16_take(e, reader.remaining(), budget as nat) {
                    Some(tail) => cs == chars@ + tail,
                    None => false,
                },
                None => (match utf16_take(e, reader.remaining(), budget as nat) {
                    Some(tail) => false,
                    None => true,
                }),
            }),
            forall|err2: Error|
                #[trigger] utf16_take_fault(e, reader.remaining(), budget as nat, err2)
                    ==> utf16_take_fault(e, s1, nb as nat, err2),
        decreases budget,
    {
        let ghost rem = reader.remaining();
        let rr = rcv_utf16_char(reader, e);
        let ch = match rr {
            Ok(ch) => ch,
            Err(err) => {
                proof {
                    assert(utf16_char_parse(e, rem) is None);
                    assert(utf16_take(e, rem, budget as nat) is None);
                    assert(utf16_take_fault(e, rem, budget as nat, err));
                    assert(utf16_take(e, s1, nb as nat) is None);
                }
                return Err(err);
            },
        };
        let cl: usize = if (ch as u32) <= 0xFFFF {
            2
        } else {
            4
        };
        proof {
            let pr = utf16_char_parse(e, rem);
            assert(pr is Some);
            let u0 = num_val(e, rem.take(2));
            crate::numbytes::lemma_num_val_bound(e, rem.take(2));
            crate::numbytes::lemma_pow256_values();
            assert(u0 < 0x1_0000);
            if 0xD800 <= u0 <= 0xDBFF {
                let u1 = num_val(e, rem.subrange(2, 4));
                let cpv = ((u0 - 0xD800) * 0x400 + u1 % 0x400 + 0x10000) as u32;
                vstd::arithmetic::div_mod::lemma_mod_bound(u1 as int, 0x400);
                assert(is_scalar(cpv));
                assert((cpv as char) as u32 == cpv);
                assert(ch as u32 > 0xFFFF);
            } else {
                assert(is_scalar(u0 as u32));
                assert(((u0 as u32) as char) as u32 == u0 as u32);
                assert(ch as u32 <= 0xFFFF);
            }
            assert(pr matches Some((c2, n2)) && c2 == ch && n2 == cl);
        }
        if cl > budget {
            proof {
                let err = Error::Other("length prefix ends inside a utf-16 surrogate pair");
                assert(utf16_take(e, rem, budget as nat) is None);
                assert(utf16_take_fault(e, rem, budget as nat, err));
                assert(utf16_take(e, s1, nb as nat) is None);
            }
            return Err(Error::Other("length prefix ends inside a utf-16 surrogate pair"));
        }
        proof {
            let pr = utf16_char_parse(e, rem);
            let n2 = pr->Some_0.1;
            assert(n2 <= rem.len());
            assert(rem.len() == s1.len() - (nb - budget));
            assert(reader.remaining() =~= rem.skip(n2));
            assert(s1.skip((nb - budget) as int).skip(n2) =~= s1.skip((nb - (budget - cl)) as int));
            match utf16_take(e, rem.skip(n2), (budget - cl) as nat) {
                Some(tail) => {
                    assert(utf16_take(e, rem, budget as nat) == Some(seq![ch] + tail));
                    assert(chars@ + (seq![ch] + tail) =~= chars@.push(ch) + tail);
                },
                None => {
                    assert(utf16_take(e, rem, budget as nat) is None);
                },
            }
            assert forall|err2: Error|
                #[trigger] utf16_take_fault(e, rem.skip(n2), (budget - cl) as nat, err2) implies utf16_take_fault(
                e,
                s1,
                nb as nat,
                err2,
            ) by {
                assert(utf16_take_fault(e, rem, budget as nat, err2));
            };
        }
        chars.push(ch);
        budget = budget - cl;
    }
    proof {
        assert(utf16_take(e, reader.remaining(), 0) == Some(Seq::<char>::empty()));
        match utf16_take(e, s1, nb as nat) {
            Some(cs) => {
                assert(chars@ + Seq::<char>::empty() =~= chars@);
                assert(cs == chars@);
            },
            None => {},
        }
    }
    Ok(chars)
}

/// Relies on str::chars: it yields exactly the characters of the string,
/// in order.
#[verifier::external_body]
pub(crate) fn chars_vec(s: &str) -> (r: Vec<char>)
    ensures
        r@ == s@,
{
    s.chars().collect()
}

/// Relies on String's FromIterator over characters: collecting characters
/// builds the string holding exactly those characters, in order.
#[verifier::external_body]
pub(crate) fn string_from_chars(v: Vec<char>) -> (r: String)
    ensures
        r@ == v@,
{
    v.into_iter().collect()
}

/// Relies on String::from_utf8: it succeeds exactly on valid UTF-8 and
/// returns the string those bytes spell; the error is mapped to
/// [`Error::Utf8`].
#[verifier::external_body]
pub(crate) fn string_from_utf8(v: Vec<u8>) -> (r: Result<String, Error>)
    ensures
        r is Ok <==> valid_utf8(v@),
        r matches Ok(st) ==> st@ == decode_utf8(v@),
        r matches Err(err) ==> err == Error::Utf8,
{
    match String::from_utf8(v) {
        Ok(s) => Ok(s),
        Err(_) => Err(Error::Utf8),
    }
}

/// The full wire form of a UTF-8 string: its byte count as a length
/// prefix, then its UTF-8 bytes.
pub open spec fn str_wire(cs: Seq<char>, c: Config) -> Seq<u8> {
    len_wire(encode_utf8(cs).len() as nat, c) + encode_utf8(cs)
}

/// Parses a UTF-8 string: a length prefix, then that many bytes, which
/// must be valid UTF-8.
pub open spec fn str_parse(s: Seq<u8>, c: Config) -> Option<(Seq<char>, int)> {
    match crate::endian::len_parse(s, c) {
        Some((nb, k)) => if k + nb <= s.len() && valid_utf8(s.subrange(k, k + nb)) {
            Some((decode_utf8(s.subrange(k, k + nb)), k + nb))
        } else {
            None
        },
        None => None,
    }
}

/// The error a failed UTF-8 string parse reports.
pub open spec fn str_fault(s: Seq<u8>, c: Config, err: Error) -> bool {
    match crate::endian::len_parse(s, c) {
        Some((nb, k)) => if k + nb > s.len() {
            err == Error::Io(IoFault::UnexpectedEof)
        } else {
            err == Error::Utf8
        },
        None => <crate::endian::Length as Receivable>::parse_fault(s, c, err),
    }
}

/// A UTF-8 string within the size policy, whose byte count fits the
/// configured length representation, decodes back to the identical
/// character sequence.
pub proof fn lemma_str_round(cs: Seq<char>, c: Config, rest: Seq<u8>)
    requires
        encode_utf8(cs).len() <= c.spec_max(),
        encode_utf8(cs).len() <= usize::MAX,
        crate::endian::len_fits(encode_utf8(cs).len() as nat, c),
    ensures
        str_parse(str_wire(cs, c) + rest, c) == Some((cs, str_wire(cs, c).len() as int)),
{
    let body = encode_utf8(cs);
    let nb = body.len() as usize;
    let lw = len_wire(nb as nat, c);
    assert(str_wire(cs, c) + rest =~= lw + (body + rest));
    crate::endian::lemma_len_round(nb, c, body + rest);
    let k = lw.len() as int;
    assert((lw + (body + rest)).subrange(k, k + nb as int) =~= body);
    vstd::utf8::encode_utf8_valid_utf8(cs);
    vstd::utf8::encode_utf8_decode_utf8(cs);
}

/// Sends a string as UTF-8: its byte count as a length prefix, then its
/// bytes.
pub(crate) fn snd_str<S: Sender>(writer: &mut S, c: Config, s: &str) -> (r: Result<(), Error>)
    ensures
        old(writer).accepts() && encode_utf8(s@).len() <= c.spec_max() ==> (r matches Ok(())
            && final(writer).accepts() && final(writer).sent() == old(writer).sent() + str_wire(
            s@,
            c,
        )),
        old(writer).accepts() && encode_utf8(s@).len() > c.spec_max() ==> (r matches Err(err)
            && err == Error::DataTooLarge(c.spec_max()) && final(writer).sent() == old(
            writer,
        ).sent()),
{
    let bytes: &[u8] = s.as_bytes();
    let n = bytes.len();
    let len = crate::endian::Length(n);
    len.check(c)?;
    let r0 = len.snd_to(writer, c);
    match r0 {
        Ok(()) => (),
        Err(err) => {
            return Err(err);
        },
    }
    writer.snd_all(bytes)
}

/// Reads a UTF-8 string: a length prefix, then that many bytes, validated
/// as UTF-8.
pub(crate) fn rcv_str<R: Receiver>(reader: &mut R, c: Config) -> (r: Result<String, Error>)
    ensures
        str_parse(old(reader).remaining(), c) matches Some((cs, n)) ==> (r matches Ok(st) && st@
            == cs && final(reader).remaining() == old(reader).remaining().skip(n)),
        str_parse(old(reader).remaining(), c) is None ==> (r matches Err(err) && str_fault(
            old(reader).remaining(),
            c,
            err,
        )),
{
    let ghost s0 = reader.remaining();
    let len = crate::endian::Length::rcv_from(reader, c)?;
    let ghost k = (<crate::endian::Length as Receivable>::parse(s0, c))->Some_0.1;
    proof {
        crate::endian::lemma_len_parse_bounds(s0, c);
    }
    let nb = len.0;
    let ghost s1 = reader.remaining();
    let b = reader.rcv_all(nb)?;
    proof {
        assert(b@ =~= s0.subrange(k, k + nb as int));
        assert(s1.skip(nb as int) =~= s0.skip(k + nb));
    }
    match string_from_utf8(b) {
        Ok(st) => Ok(st),
        Err(err) => Err(err),
    }
}

impl Sendable for String {
    open spec fn wire(&self, c: Config) -> Seq<u8> {
        str_wire(self@, c)
    }

    open spec fn ok_to_send(&self, c: Config) -> bool {
        encode_utf8(self@).len() <= c.spec_max()
    }

    open spec fn send_fault(&self, c: Config, e: Error) -> bool {
        e == Error::DataTooLarge(c.spec_max())
    }

    open spec fn faithful(&self, c: Config) -> bool {
        crate::endian::len_fits(encode_utf8(self@).len() as nat, c)
    }

    fn snd_to<S: Sender>(&self, writer: &mut S, c: Config) -> (r: Result<(), Error>) {
        snd_str(writer, c, self.as_str())
    }
}

impl Receivable for String {
    open spec fn parse(s: Seq<u8>, c: Config) -> Option<(Seq<char>, int)> {
        str_parse(s, c)
    }

    open spec fn parse_fault(s: Seq<u8>, c: Config, e: Error) -> bool {
        str_fault(s, c, e)
    }

    proof fn parse_bounds(s: Seq<u8>, c: Config) {
        crate::endian::lemma_len_parse_bounds(s, c);
    }

    proof fn round_trip(&self, c: Config, rest: Seq<u8>) {
        lemma_str_round(self@, c, rest);
    }

    fn rcv_from<R: Receiver>(reader: &mut R, c: Config) -> (r: Result<String, Error>) {
        rcv_str(reader, c)
    }
}

impl SendableBE for String {
    open spec fn wire_be(&self, c: Config) -> Seq<u8> {
        str_wire(self@, c)
    }

    open spec fn ok_to_send_be(&self, c: Config) -> bool {
        encode_utf8(self@).len() <= c.spec_max()
    }

    open spec fn send_fault_be(&self, c: Config, e: Error) -> bool {
        e == Error::DataTooLarge(c.spec_max())
    }

    open spec fn faithful_be(&self, c: Config) -> bool {
        crate::endian::len_fits(encode_utf8(self@).len() as nat, c)
    }

    fn send_to<W: Sender>(&self, writer: &mut W, c: Config) -> (r: Result<(), Error>) {
        snd_str(writer, c, self.as_str())
    }
}

impl ReceivableBE for String {
    open spec fn parse_be(s: Seq<u8>, c: Config) -> Option<(Seq<char>, int)> {
        str_parse(s, c)
    }

    open spec fn parse_fault_be(s: Seq<u8>, c: Config, e: Error) -> bool {
        str_fault(s, c, e)
    }

    proof fn parse_bounds_be(s: Seq<u8>, c: Config) {
        crate::endian::lemma_len_parse_bounds(s, c);
    }

    proof fn round_trip_be(&self, c: Config, rest: Seq<u8>) {
        lemma_str_round(self@, c, rest);
    }

    fn receive_from<R: Receiver>(reader: &mut R, c: Config) -> (r: Result<String, Error>) {
        rcv_str(reader, c)
    }
}

impl SendableLE for String {
    open spec fn wire_le(&self, c: Config) -> Seq<u8> {
        str_wire(self@, c)
    }

    open spec fn ok_to_send_le(&self, c: Config) -> bool {
        encode_utf8(self@).len() <= c.spec_max()
    }

    open spec fn send_fault_le(&self, c: Config, e: Error) -> bool {
        e == Error::DataTooLarge(c.spec_max())
    }

    open spec fn faithful_le(&self, c: Config) -> bool {
        crate::endian::len_fits(encode_utf8(self@).len() as nat, c)
    }

    fn send_to<W: Sender>(&self, writer: &mut W, c: Config) -> (r: Result<(), Error>) {
        snd_str(writer, c, self.as_str())
    }
}

impl ReceivableLE for String {
    open spec fn parse_le(s: Seq<u8>, c: Config) -> Option<(Seq<char>, int)> {
        str_parse(s, c)
    }

    open spec fn parse_fault_le(s: Seq<u8>, c: Config, e: Error) -> bool {
        str_fault(s, c, e)
    }

    proof fn parse_bounds_le(s: Seq<u8>, c: Config) {
        crate::endian::lemma_len_parse_bounds(s, c);
    }

    proof fn round_trip_le(&self, c: Config, rest: Seq<u8>) {
        lemma_str_round(self@, c, rest);
    }

    fn receive_from<R: Receiver>(reader: &mut R, c: Config) -> (r: Result<String, Error>) {
        rcv_str(reader, c)
    }
}

impl<'a> Sendable for &'a str {
    open spec fn wire(&self, c: Config) -> Seq<u8> {
        str_wire(self@, c)
    }

    open spec fn ok_to_send(&self, c: Config) -> bool {
        encode_utf8(self@).len() <= c.spec_max()
    }

    open spec fn send_fault(&self, c: Config, e: Error) -> bool {
        e == Error::DataTooLarge(c.spec_max())
    }

    open spec fn faithful(&self, c: Config) -> bool {
        crate::endian::len_fits(encode_utf8(self@).len() as nat, c)
    }

    fn snd_to<S: Sender>(&self, writer: &mut S, c: Config) -> (r: Result<(), Error>) {
        snd_str(writer, c, *self)
    }
}

/// The one-byte-per-character wire form of ASCII text.
pub open spec fn ascii_bytes(cs: Seq<char>) -> Seq<u8> {
    Seq::new(cs.len(), |i: int| (cs[i] as u32) as u8)
}

/// Whether every character of `cs` is ASCII.
pub open spec fn all_ascii(cs: Seq<char>) -> bool {
    forall|i: int| 0 <= i < cs.len() ==> (#[trigger] cs[i] as u32) < 0x80
}

/// Parses ASCII text: a length prefix counting characters, then one byte
/// per character, each of which must be ASCII.
pub open spec fn ascii_parse(s: Seq<u8>, c: Config) -> Option<(Seq<char>, int)> {
    match crate::endian::len_parse(s, c) {
        Some((n, k)) => if k + n <= s.len() && (forall|i: int|
            0 <= i < n ==> #[trigger] s[k + i] < 0x80) {
            Some((Seq::new(n as nat, |i: int| s[k + i] as char), k + n))
        } else {
            None
        },
        None => None,
    }
}

/// The error a failed ASCII parse reports.
pub open spec fn ascii_fault(s: Seq<u8>, c: Config, err: Error) -> bool {
    match crate::endian::len_parse(s, c) {
        Some((n, k)) => if k + n > s.len() {
            err == Error::Io(IoFault::UnexpectedEof)
        } else {
            err matches Error::InvalidAscii(_)
        },
        None => <crate::endian::Length as Receivable>::parse_fault(s, c, err),
    }
}

impl Sendable for Ascii {
    open spec fn wire(&self, c: Config) -> Seq<u8> {
        len_wire(self.0@.len(), c) + ascii_bytes(self.0@)
    }

    open spec fn ok_to_send(&self, c: Config) -> bool {
        all_ascii(self.0@) && self.0@.len() <= c.spec_max()
    }

    open spec fn send_fault(&self, c: Config, e: Error) -> bool {
        if !all_ascii(self.0@) {
            e matches Error::InvalidAscii(_)
        } else {
            e == Error::DataTooLarge(c.spec_max())
        }
    }

    open spec fn faithful(&self, c: Config) -> bool {
        crate::endian::len_fits(self.0@.len(), c)
    }

    fn snd_to<S: Sender>(&self, writer: &mut S, c: Config) -> (r: Result<(), Error>) {
        let cv = chars_vec(self.0.as_str());
        let n = cv.len();
        let mut bytes: Vec<u8> = Vec::new();
        let mut i: usize = 0;
        while i < n
            invariant
                i <= n,
                n == cv@.len(),
                cv@ == self.0@,
                bytes@ =~= ascii_bytes(cv@.take(i as int)),
                forall|j: int| 0 <= j < i ==> (cv@[j] as u32) < 0x80,
            decreases n - i,
        {
            let ch = cv[i];
            if (ch as u32) >= 0x80 {
                proof {
                    assert(!all_ascii(self.0@));
                }
                return Err(Error::InvalidAscii(self.0.clone()));
            }
            let cp32 = ch as u32;
            bytes.push(cp32 as u8);
            proof {
                assert(bytes@ =~= ascii_bytes(cv@.take(i + 1)));
            }
            i = i + 1;
        }
        proof {
            assert(cv@.take(n as int) =~= cv@);
            assert(all_ascii(self.0@));
        }
        let len = crate::endian::Length(n);
        len.check(c)?;
        let r0 = len.snd_to(writer, c);
        match r0 {
            Ok(()) => (),
            Err(err) => {
                return Err(err);
            },
        }
        writer.snd_all(bytes.as_slice())
    }
}

impl Receivable for Ascii {
    open spec fn parse(s: Seq<u8>, c: Config) -> Option<(Seq<char>, int)> {
        ascii_parse(s, c)
    }

    open spec fn parse_fault(s: Seq<u8>, c: Config, e: Error) -> bool {
        ascii_fault(s, c, e)
    }

    proof fn parse_bounds(s: Seq<u8>, c: Config) {
        crate::endian::lemma_len_parse_bounds(s, c);
    }

    proof fn round_trip(&self, c: Config, rest: Seq<u8>) {
        let cs = self.0@;
        let n = cs.len() as usize;
        let body = ascii_bytes(cs);
        let lw = len_wire(cs.len(), c);
        assert(self.wire(c) + rest =~= lw + (body + rest));
        crate::endian::lemma_len_round(n, c, body + rest);
        let k = lw.len() as int;
        let s = self.wire(c) + rest;
        assert forall|i: int| 0 <= i < n implies #[trigger] s[k + i] < 0x80 by {
            assert((cs[i] as u32) < 0x80);
            assert(s[k + i] == body[i]);
        };
        assert(Seq::new(cs.len(), |i: int| s[k + i] as char) =~= cs) by {
            assert forall|i: int| 0 <= i < cs.len() implies s[k + i] as char == cs[i] by {
                assert(s[k + i] == body[i]);
                assert((cs[i] as u32) < 0x80);
                let b = (cs[i] as u32) as u8;
                assert((b as char) as u32 == cs[i] as u32);
                vstd::utf8::char_u32_cast(cs[i], cs[i] as u32);
                vstd::utf8::char_u32_cast(b as char, (b as char) as u32);
            };
        };
    }

    fn rcv_from<R: Receiver>(reader: &mut R, c: Config) -> (r: Result<Ascii, Error>) {
        let ghost s0 = reader.remaining();
        let len = crate::endian::Length::rcv_from(reader, c)?;
        let ghost k = (<crate::endian::Length as Receivable>::parse(s0, c))->Some_0.1;
        proof {
            crate::endian::lemma_len_parse_bounds(s0, c);
        }
        let n = len.0;
        let ghost s1 = reader.remaining();
        let b = reader.rcv_all(n)?;
        proof {
            assert(s1.skip(n as int) =~= s0.skip(k + n));
        }
        let mut cv: Vec<char> = Vec::new();
        let mut ok = true;
        let mut i: usize = 0;
        while i < n
            invariant
                i <= n,
                n == b@.len(),
                cv@.len() == i,
                forall|j: int| 0 <= j < i ==> cv@[j] == b@[j] as char,
                ok <==> (forall|j: int| 0 <= j < i ==> b@[j] < 0x80),
            decreases n - i,
        {
            let byte = b[i];
            if byte >= 0x80 {
                ok = false;
            }
            cv.push(byte_to_char(byte));
            i = i + 1;
        }
        let st = string_from_chars(cv);
        if ok {
            proof {
                assert(b@ =~= s0.subrange(k, k + n as int));
                assert forall|i2: int| 0 <= i2 < n implies #[trigger] s0[k + i2] < 0x80 by {
                    assert(b@[i2] == s0[k + i2]);
                };
                assert(st@ =~= Seq::new(n as nat, |i: int| s0[k + i] as char));
            }
            Ok(Ascii(st))
        } else {
            proof {
                assert(b@ =~= s0.subrange(k, k + n as int));
                let j0 = choose|j: int| 0 <= j < n && !(b@[j] < 0x80);
                assert(s0[k + j0] == b@[j0]);
                assert(!(forall|i2: int| 0 <= i2 < n ==> #[trigger] s0[k + i2] < 0x80));
            }
            Err(Error::InvalidAscii(st))
        }
    }
}

/// Drops the trailing NUL characters of a sequence: what decoding a
/// zero-padded fixed-length text leaves after the padding is stripped.
pub open spec fn strip_nuls(cs: Seq<char>) -> Seq<char>
    decreases cs.len(),
{
    if cs.len() > 0 && cs[cs.len() - 1] == '\0' {
        strip_nuls(cs.drop_last())
    } else {
        cs
    }
}

/// Removes the trailing NUL characters of a character vector.
pub(crate) fn strip_nuls_vec(cv: &mut Vec<char>)
    ensures
        final(cv)@ == strip_nuls(old(cv)@),
{
    loop
        invariant
            strip_nuls(cv@) == strip_nuls(old(cv)@),
        decreases cv@.len(),
    {
        let n = cv.len();
        if n == 0 {
            return ;
        }
        let last = cv[n - 1];
        if last != '\0' {
            return ;
        }
        proof {
            assert(cv@.drop_last() =~= cv@.subrange(0, n - 1));
        }
        cv.pop();
    }
}

/// Produces `n` zero bytes.
pub(crate) fn zero_bytes(n: usize) -> (r: Vec<u8>)
    ensures
        r@ == Seq::new(n as nat, |i: int| 0u8),
{
    let mut r: Vec<u8> = Vec::new();
    let mut i: usize = 0;
    while i < n
        invariant
            i <= n,
            r@.len() == i,
            forall|j: int| 0 <= j < i ==> r@[j] == 0u8,
        decreases n - i,
    {
        r.push(0u8);
        i = i + 1;
    }
    proof {
        assert(r@ =~= Seq::new(n as nat, |i: int| 0u8));
    }
    r
}

impl crate::FromReader for String {
    open spec fn parse_sized(s: Seq<u8>, len: int, c: Config) -> Option<Seq<char>> {
        if len == 0 {
            Some(Seq::empty())
        } else if 0 <= len <= s.len() && valid_utf8(s.take(len)) {
            Some(strip_nuls(decode_utf8(s.take(len))))
        } else {
            None
        }
    }

    open spec fn parse_sized_fault(s: Seq<u8>, len: int, c: Config, e: Error) -> bool {
        if len > s.len() {
            e == Error::Io(IoFault::UnexpectedEof)
        } else {
            e == Error::Utf8
        }
    }

    fn from_reader<R: Receiver>(reader: &mut R, len: usize, c: Config) -> (r: Result<
        String,
        Error,
    >) {
        if len == 0 {
            let st = String::new();
            proof {
                assert(old(reader).remaining().skip(0) =~= old(reader).remaining());
            }
            return Ok(st);
        }
        let b = reader.rcv_all(len)?;
        let st = match string_from_utf8(b) {
            Ok(st) => st,
            Err(err) => {
                return Err(err);
            },
        };
        let mut cv = chars_vec(st.as_str());
        strip_nuls_vec(&mut cv);
        Ok(string_from_chars(cv))
    }
}

impl crate::IntoWriter for String {
    open spec fn wire_sized(&self, len: int, c: Config) -> Seq<u8> {
        let b = encode_utf8(self@);
        if len <= b.len() {
            b.take(len)
        } else {
            b + Seq::new((len - b.len()) as nat, |i: int| 0u8)
        }
    }

    fn into_writer<S: Sender>(&self, writer: &mut S, len: usize, c: Config) -> (r: Result<
        (),
        Error,
    >) {
        snd_str_sized(writer, self.as_str(), len, c)
    }
}

/// Writes the first `len` UTF-8 bytes of `s`, zero-padded to exactly `len`
/// bytes when the text is shorter.
pub(crate) fn snd_str_sized<S: Sender>(writer: &mut S, s: &str, len: usize, c: Config) -> (r: Result<
    (),
    Error,
>)
    ensures
        old(writer).accepts() ==> (r matches Ok(()) && final(writer).accepts() && final(
            writer
        ).sent() == old(writer).sent() + (if len <= encode_utf8(s@).len() {
            encode_utf8(s@).take(len as int)
        } else {
            encode_utf8(s@) + Seq::new((len - encode_utf8(s@).len()) as nat, |i: int| 0u8)
        })),
{
    let bytes: &[u8] = s.as_bytes();
    let n = bytes.len();
    if len <= n {
        writer.snd_all(vstd::slice::slice_subrange(bytes, 0, len))
    } else {
        let r0 = writer.snd_all(bytes);
        match r0 {
            Ok(()) => (),
            Err(err) => {
                return Err(err);
            },
        }
        let pad = zero_bytes(len - n);
        writer.snd_all(pad.as_slice())
    }
}

impl crate::FromReader for Ascii {
    open spec fn parse_sized(s: Seq<u8>, len: int, c: Config) -> Option<Seq<char>> {
        <String as crate::FromReader>::parse_sized(s, len, c)
    }

    open spec fn parse_sized_fault(s: Seq<u8>, len: int, c: Config, e: Error) -> bool {
        <String as crate::FromReader>::parse_sized_fault(s, len, c, e)
    }

    fn from_reader<R: Receiver>(reader: &mut R, len: usize, c: Config) -> (r: Result<
        Ascii,
        Error,
    >) {
        let st = String::from_reader(reader, len, c)?;
        Ok(Ascii(st))
    }
}

impl crate::IntoWriter for Ascii {
    open spec fn wire_sized(&self, len: int, c: Config) -> Seq<u8> {
        self.0.wire_sized(len, c)
    }

    fn into_writer<S: Sender>(&self, writer: &mut S, len: usize, c: Config) -> (r: Result<
        (),
        Error,
    >) {
        snd_str_sized(writer, self.0.as_str(), len, c)
    }
}

impl crate::FromReader for UTF16 {
    open spec fn parse_sized(s: Seq<u8>, len: int, c: Config) -> Option<Seq<char>> {
        if len < 0 {
            None
        } else {
            match utf16_take(c.endian, s, len as nat) {
                Some(cs) => Some(strip_nuls(cs)),
                None => None,
            }
        }
    }

    open spec fn parse_sized_fault(s: Seq<u8>, len: int, c: Config, e: Error) -> bool {
        utf16_take_fault(c.endian, s, len as nat, e)
    }

    fn from_reader<R: Receiver>(reader: &mut R, len: usize, c: Config) -> (r: Result<
        UTF16,
        Error,
    >) {
        proof {
            lemma_utf16_take_bound(c.endian, old(reader).remaining(), len as nat);
        }
        let mut cv = rcv_utf16_budget(reader, c.endian, len)?;
        strip_nuls_vec(&mut cv);
        Ok(UTF16(string_from_chars(cv)))
    }
}

/// The fixed-length UTF-16 form of a character sequence: code units until
/// the budget is filled, zero-padded when the text runs out first; a
/// surrogate pair that straddles the end is cut, which is the documented
/// lossy case.
pub open spec fn utf16_sized_bytes(e: Endian, cs: Seq<char>, len: nat) -> Seq<u8>
    decreases cs.len(),
{
    if len == 0 {
        Seq::empty()
    } else if cs.len() == 0 {
        Seq::new(len, |i: int| 0u8)
    } else {
        let b = utf16_char_bytes(e, cs[0]);
        if b.len() <= len {
            b + utf16_sized_bytes(e, cs.skip(1), (len - b.len()) as nat)
        } else {
            b.take(len as int)
        }
    }
}

/// The fixed-length UTF-16 form is exactly as long as its budget.
pub proof fn lemma_utf16_sized_len(e: Endian, cs: Seq<char>, len: nat)
    ensures
        utf16_sized_bytes(e, cs, len).len() == len,
    decreases cs.len(),
{
    if len == 0 {
    } else if cs.len() == 0 {
    } else {
        let b = utf16_char_bytes(e, cs[0]);
        lemma_utf16_char_round(e, cs[0], Seq::empty());
        if b.len() <= len {
            lemma_utf16_sized_len(e, cs.skip(1), (len - b.len()) as nat);
        }
    }
}

/// Builds the UTF-16 bytes of one character as a vector.
fn utf16_char_vec(e: Endian, ch: char) -> (r: Vec<u8>)
    ensures
        r@ == utf16_char_bytes(e, ch),
{
    proof {
        vstd::utf8::char_is_scalar(ch);
    }
    let cp = ch as u32;
    if cp <= 0xFFFF {
        crate::numbytes::uint_to_bytes(e, cp as u128, 2)
    } else {
        let v = cp - 0x10000;
        let hi: u32 = 0xD800 + v / 0x400;
        let lo: u32 = 0xDC00 + v % 0x400;
        proof {
            assert(v / 0x400 < 0x400) by {
                vstd::arithmetic::div_mod::lemma_div_is_ordered(v as int, 0xFFFFF, 0x400);
            }
        }
        let mut out = crate::numbytes::uint_to_bytes(e, hi as u128, 2);
        let mut tail = crate::numbytes::uint_to_bytes(e, lo as u128, 2);
        out.append(&mut tail);
        out
    }
}

impl crate::IntoWriter for UTF16 {
    open spec fn wire_sized(&self, len: int, c: Config) -> Seq<u8> {
        utf16_sized_bytes(c.endian, self.0@, len as nat)
    }

    fn into_writer<S: Sender>(&self, writer: &mut S, len: usize, c: Config) -> (r: Result<
        (),
        Error,
    >) {
        proof {
            lemma_utf16_sized_len(c.endian, self.0@, len as nat);
        }
        snd_utf16_sized(writer, c.endian, &self.0, len)
    }
}

/// Writes the fixed-length UTF-16 form of a string: exactly `len` bytes.
#[verifier::loop_isolation(false)]
pub(crate) fn snd_utf16_sized<S: Sender>(writer: &mut S, e: Endian, s: &String, len: usize) -> (r: Result<
    (),
    Error,
>)
    ensures
        old(writer).accepts() ==> (r matches Ok(()) && final(writer).accepts() && final(
            writer
        ).sent() == old(writer).sent() + utf16_sized_bytes(e, s@, len as nat)),
{
    let cs = chars_vec(s.as_str());
    let n = cs.len();
    let mut budget: usize = len;
    let mut i: usize = 0;
    proof {
        assert(cs@.skip(0) =~= cs@);
    }
    while budget > 0 && i < n
        invariant
            i <= n,
            n == cs@.len(),
            cs@ == s@,
            budget <= len,
            old(writer).accepts() ==> (writer.accepts() && writer.sent() + utf16_sized_bytes(
                e,
                cs@.skip(i as int),
                budget as nat,
            ) == old(writer).sent() + utf16_sized_bytes(e, s@, len as nat)),
        decreases n - i,
    {
        let ch = cs[i];
        let b = utf16_char_vec(e, ch);
        let bl = b.len();
        proof {
            assert(cs@.skip(i as int)[0] == cs@[i as int]);
            assert(cs@.skip(i as int).skip(1) =~= cs@.skip(i + 1));
        }
        if bl <= budget {
            let r0 = writer.snd_all(b.as_slice());
            match r0 {
                Ok(()) => (),
                Err(err) => {
                    return Err(err);
                },
            }
            budget = budget - bl;
            i = i + 1;
        } else {
            let r0 = writer.snd_all(vstd::slice::slice_subrange(b.as_slice(), 0, budget));
            match r0 {
                Ok(()) => (),
                Err(err) => {
                    return Err(err);
                },
            }
            proof {
                assert(b@.subrange(0, budget as int) =~= b@.take(budget as int));
            }
            return r0;
        }
    }
    if budget > 0 {
        let pad = zero_bytes(budget);
        proof {
            assert(cs@.skip(i as int) =~= Seq::<char>::empty());
        }
        writer.snd_all(pad.as_slice())
    } else {
        Ok(())
    }
}

impl crate::FromReader for Vec<u8> {
    open spec fn parse_sized(s: Seq<u8>, len: int, c: Config) -> Option<Seq<u8>> {
        if 0 <= len <= s.len() {
            Some(s.take(len))
        } else {
            None
        }
    }

    open spec fn parse_sized_fault(s: Seq<u8>, len: int, c: Config, e: Error) -> bool {
        e == Error::Io(IoFault::UnexpectedEof)
    }

    fn from_reader<R: Receiver>(reader: &mut R, len: usize, c: Config) -> (r: Result<
        Vec<u8>,
        Error,
    >) {
        reader.rcv_all(len)
    }
}

impl crate::IntoWriter for Vec<u8> {
    open spec fn wire_sized(&self, len: int, c: Config) -> Seq<u8> {
        if len <= self@.len() {
            self@.take(len)
        } else {
            self@ + Seq::new((len - self@.len()) as nat, |i: int| 0u8)
        }
    }

    fn into_writer<S: Sender>(&self, writer: &mut S, len: usize, c: Config) -> (r: Result<
        (),
        Error,
    >) {
        let n = self.len();
        if len <= n {
            writer.snd_all(vstd::slice::slice_subrange(self.as_slice(), 0, len))
        } else {
            let r0 = writer.snd_all(self.as_slice());
            match r0 {
                Ok(()) => (),
                Err(err) => {
                    return Err(err);
                },
            }
            let pad = zero_bytes(len - n);
            writer.snd_all(pad.as_slice())
        }
    }
}

/// A byte string sent with one terminating NUL byte after its content;
/// the content itself holds no NUL.
#[derive(PartialEq, Eq, Debug)]
pub struct CBytes(pub Vec<u8>);

impl core::ops::Deref for CBytes {
    type Target = Vec<u8>;

    fn deref(&self) -> (r: &Vec<u8>)
        ensures
            r == &self.0,
    {
        &self.0
    }
}

impl crate::model::Model for CBytes {
    type M = Seq<u8>;

    open spec fn model(&self) -> Seq<u8> {
        self.0@
    }
}

/// Whether a byte sequence holds no NUL byte.
pub open spec fn nul_free(bs: Seq<u8>) -> bool {
    forall|i: int| 0 <= i < bs.len() ==> (#[trigger] bs[i]) != 0
}

/// The position of the first NUL byte of `s`, if any.
pub open spec fn nul_pos(s: Seq<u8>) -> Option<int>
    decreases s.len(),
{
    if s.len() == 0 {
        None
    } else if s[0] == 0 {
        Some(0int)
    } else {
        match nul_pos(s.skip(1)) {
            Some(p) => Some(p + 1),
            None => None,
        }
    }
}

/// The first NUL of `s` is a NUL, with none before it.
pub proof fn lemma_nul_pos(s: Seq<u8>)
    ensures
        nul_pos(s) matches Some(p) ==> 0 <= p < s.len() && s[p] == 0 && (forall|i: int|
            0 <= i < p ==> (#[trigger] s[i]) != 0),
        nul_pos(s) is None ==> nul_free(s),
    decreases s.len(),
{
    if s.len() > 0 && s[0] != 0 {
        lemma_nul_pos(s.skip(1));
        match nul_pos(s.skip(1)) {
            Some(p) => {
                assert(s.skip(1)[p] == s[p + 1]);
                assert forall|i: int| 0 <= i < p + 1 implies (#[trigger] s[i]) != 0 by {
                    if i > 0 {
                        assert(s.skip(1)[i - 1] == s[i]);
                    }
                };
            },
            None => {
                assert forall|i: int| 0 <= i < s.len() implies (#[trigger] s[i]) != 0 by {
                    if i > 0 {
                        assert(s.skip(1)[i - 1] == s[i]);
                    }
                };
            },
        }
    }
}

/// A NUL-free content followed by its terminator has its first NUL exactly
/// at the end of the content.
proof fn lemma_nul_pos_of_wire(content: Seq<u8>, rest: Seq<u8>)
    requires
        nul_free(content),
    ensures
        nul_pos(content + seq![0u8] + rest) == Some(content.len() as int),
    decreases content.len(),
{
    let s = content + seq![0u8] + rest;
    if content.len() == 0 {
        assert(s[0] == 0);
    } else {
        assert(s[0] == content[0]);
        assert(s.skip(1) =~= content.skip(1) + seq![0u8] + rest);
        assert forall|i: int| 0 <= i < content.skip(1).len() implies (
        #[trigger] content.skip(1)[i]) != 0 by {
            assert(content.skip(1)[i] == content[i + 1]);
        };
        lemma_nul_pos_of_wire(content.skip(1), rest);
    }
}

impl Sendable for CBytes {
    open spec fn wire(&self, c: Config) -> Seq<u8> {
        self.0@ + seq![0u8]
    }

    open spec fn faithful(&self, c: Config) -> bool {
        nul_free(self.0@)
    }

    fn snd_to<S: Sender>(&self, writer: &mut S, c: Config) -> (r: Result<(), Error>) {
        let r0 = writer.snd_all(self.0.as_slice());
        match r0 {
            Ok(()) => (),
            Err(err) => {
                return Err(err);
            },
        }
        let term: [u8; 1] = [0u8];
        proof {
            assert(term@ =~= seq![0u8]);
        }
        writer.snd_all(term.as_slice())
    }
}

impl Receivable for CBytes {
    open spec fn parse(s: Seq<u8>, c: Config) -> Option<(Seq<u8>, int)> {
        match nul_pos(s) {
            Some(p) => Some((s.take(p), p + 1)),
            None => None,
        }
    }

    open spec fn parse_fault(s: Seq<u8>, c: Config, e: Error) -> bool {
        e == Error::Io(IoFault::UnexpectedEof)
    }

    proof fn parse_bounds(s: Seq<u8>, c: Config) {
        lemma_nul_pos(s);
    }

    proof fn round_trip(&self, c: Config, rest: Seq<u8>) {
        lemma_nul_pos_of_wire(self.0@, rest);
        assert(self.wire(c) + rest =~= self.0@ + seq![0u8] + rest);
        assert((self.0@ + seq![0u8] + rest).take(self.0@.len() as int) =~= self.0@);
    }

    #[verifier::loop_isolation(false)]
    fn rcv_from<R: Receiver>(reader: &mut R, c: Config) -> (r: Result<CBytes, Error>) {
        let ghost s0 = reader.remaining();
        let mut out: Vec<u8> = Vec::new();
        let ghost mut used: int = 0int;
        proof {
            assert(s0.skip(0) =~= s0);
        }
        loop
            invariant
                reader.remaining() == s0.skip(used),
                0 <= used <= s0.len(),
                out@ == s0.take(used),
                nul_pos(s0) == (match nul_pos(s0.skip(used)) {
                    Some(p) => Some(p + used),
                    None => None::<int>,
                }),
            decreases s0.len() - used,
        {
            let rb = reader.rcv_all(1);
            let b = match rb {
                Ok(b) => b,
                Err(e) => {
                    proof {
                        assert(s0.skip(used).len() == 0);
                        assert(nul_pos(s0) is None);
                    }
                    return Err(e);
                },
            };
            let g: u8 = b[0];
            let ghost rem = s0.skip(used);
            proof {
                assert(rem[0] == g);
                assert(rem.skip(1) =~= s0.skip(used + 1));
            }
            if g == 0 {
                proof {
                    assert(nul_pos(rem) == Some(0int));
                    assert(nul_pos(s0) == Some(used));
                    assert(out@ =~= s0.take(used));
                }
                return Ok(CBytes(out));
            }
            out.push(g);
            proof {
                assert(out@ =~= s0.take(used + 1));
                match nul_pos(s0.skip(used + 1)) {
                    Some(p) => {
                        assert(nul_pos(rem) == Some(p + 1));
                    },
                    None => {
                        assert(nul_pos(rem) is None);
                    },
                }
                used = used + 1;
            }
        }
    }
}

/// Any byte names a character directly; bytes above `0x7F` map to the
/// Latin-1 characters with the same code.
fn byte_to_char(b: u8) -> (r: char)
    ensures
        r == b as char,
{
    b as char
}

impl Sendable for UTF16 {
    open spec fn wire(&self, c: Config) -> Seq<u8> {
        utf16_wire(c, c.endian, self.0@)
    }

    open spec fn ok_to_send(&self, c: Config) -> bool {
        utf16_ok(self.0@, c)
    }

    open spec fn send_fault(&self, c: Config, e: Error) -> bool {
        e == Error::DataTooLarge(c.spec_max())
    }

    open spec fn faithful(&self, c: Config) -> bool {
        crate::endian::len_fits(utf16_len(self.0@), c)
    }

    fn snd_to<S: Sender>(&self, writer: &mut S, c: Config) -> (r: Result<(), Error>) {
        snd_utf16(writer, c, c.endian, &self.0)
    }
}

impl Receivable for UTF16 {
    open spec fn parse(s: Seq<u8>, c: Config) -> Option<(Seq<char>, int)> {
        utf16_parse(c, c.endian, s)
    }

    open spec fn parse_fault(s: Seq<u8>, c: Config, e: Error) -> bool {
        utf16_str_fault(c, c.endian, s, e)
    }

    proof fn parse_bounds(s: Seq<u8>, c: Config) {
        crate::endian::lemma_len_parse_bounds(s, c);
        match crate::endian::len_parse(s, c) {
            Some((nb, k)) => {
                lemma_utf16_take_bound(c.endian, s.skip(k), nb as nat);
            },
            None => {},
        }
    }

    proof fn round_trip(&self, c: Config, rest: Seq<u8>) {
        lemma_utf16_round(c, c.endian, self.0@, rest);
    }

    fn rcv_from<R: Receiver>(reader: &mut R, c: Config) -> (r: Result<UTF16, Error>) {
        let st = rcv_utf16(reader, c, c.endian)?;
        Ok(UTF16(st))
    }
}

impl SendableBE for UTF16 {
    open spec fn wire_be(&self, c: Config) -> Seq<u8> {
        utf16_wire(c, Endian::Big, self.0@)
    }

    open spec fn ok_to_send_be(&self, c: Config) -> bool {
        utf16_ok(self.0@, c)
    }

    open spec fn send_fault_be(&self, c: Config, e: Error) -> bool {
        e == Error::DataTooLarge(c.spec_max())
    }

    open spec fn faithful_be(&self, c: Config) -> bool {
        crate::endian::len_fits(utf16_len(self.0@), c)
    }

    fn send_to<W: Sender>(&self, writer: &mut W, c: Config) -> (r: Result<(), Error>) {
        snd_utf16(writer, c, Endian::Big, &self.0)
    }
}

impl ReceivableBE for UTF16 {
    open spec fn parse_be(s: Seq<u8>, c: Config) -> Option<(Seq<char>, int)> {
        utf16_parse(c, Endian::Big, s)
    }

    open spec fn parse_fault_be(s: Seq<u8>, c: Config, e: Error) -> bool {
        utf16_str_fault(c, Endian::Big, s, e)
    }

    proof fn parse_bounds_be(s: Seq<u8>, c: Config) {
        crate::endian::lemma_len_parse_bounds(s, c);
        match crate::endian::len_parse(s, c) {
            Some((nb, k)) => {
                lemma_utf16_take_bound(Endian::Big, s.skip(k), nb as nat);
            },
            None => {},
        }
    }

    proof fn round_trip_be(&self, c: Config, rest: Seq<u8>) {
        lemma_utf16_round(c, Endian::Big, self.0@, rest);
    }

    fn receive_from<R: Receiver>(reader: &mut R, c: Config) -> (r: Result<UTF16, Error>) {
        let st = rcv_utf16(reader, c, Endian::Big)?;
        Ok(UTF16(st))
    }
}

impl SendableLE for UTF16 {
    open spec fn wire_le(&self, c: Config) -> Seq<u8> {
        utf16_wire(c, Endian::Little, self.0@)
    }

    open spec fn ok_to_send_le(&self, c: Config) -> bool {
        utf16_ok(self.0@, c)
    }

    open spec fn send_fault_le(&self, c: Config, e: Error) -> bool {
        e == Error::DataTooLarge(c.spec_max())
    }

    open spec fn faithful_le(&self, c: Config) -> bool {
        crate::endian::len_fits(utf16_len(self.0@), c)
    }

    fn send_to<W: Sender>(&self, writer: &mut W, c: Config) -> (r: Result<(), Error>) {
        snd_utf16(writer, c, Endian::Little, &self.0)
    }
}

impl ReceivableLE for UTF16 {
    open spec fn parse_le(s: Seq<u8>, c: Config) -> Option<(Seq<char>, int)> {
        utf16_parse(c, Endian::Little, s)
    }

    open spec fn parse_fault_le(s: Seq<u8>, c: Config, e: Error) -> bool {
        utf16_str_fault(c, Endian::Little, s, e)
    }

    proof fn parse_bounds_le(s: Seq<u8>, c: Config) {
        crate::endian::lemma_len_parse_bounds(s, c);
        match crate::endian::len_parse(s, c) {
            Some((nb, k)) => {
                lemma_utf16_take_bound(Endian::Little, s.skip(k), nb as nat);
            },
            None => {},
        }
    }

    proof fn round_trip_le(&self, c: Config, rest: Seq<u8>) {
        lemma_utf16_round(c, Endian::Little, self.0@, rest);
    }

    fn receive_from<R: Receiver>(reader: &mut R, c: Config) -> (r: Result<UTF16, Error>) {
        let st = rcv_utf16(reader, c, Endian::Little)?;
        Ok(UTF16(st))
    }
}

/// A UTF-16 string within the size policy, whose byte count fits the
/// configured length representation, decodes back to the identical
/// character sequence.
pub proof fn lemma_utf16_round(c: Config, e: Endian, cs: Seq<char>, rest: Seq<u8>)
    requires
        utf16_ok(cs, c),
        crate::endian::len_fits(utf16_len(cs), c),
    ensures
        utf16_parse(c, e, utf16_wire(c, e, cs) + rest) == Some(
            (cs, utf16_wire(c, e, cs).len() as int),
        ),
{
    let total = utf16_len(cs);
    let lw = len_wire(total, c);
    let body = utf16_bytes(e, cs);
    lemma_utf16_bytes_len(e, cs);
    assert(utf16_wire(c, e, cs) + rest =~= lw + (body + rest));
    crate::endian::lemma_len_round(total as usize, c, body + rest);
    let k = lw.len() as int;
    assert((lw + (body + rest)).skip(k) =~= body + rest);
    lemma_utf16_take_round(e, cs, rest);
}

impl Sendable for UTF16Char {
    open spec fn wire(&self, c: Config) -> Seq<u8> {
        utf16_char_bytes(c.endian, self.0)
    }

    fn snd_to<S: Sender>(&self, writer: &mut S, c: Config) -> (r: Result<(), Error>) {
        snd_utf16_char(writer, c.endian, self.0)
    }
}

impl Receivable for UTF16Char {
    open spec fn parse(s: Seq<u8>, c: Config) -> Option<(char, int)> {
        utf16_char_parse(c.endian, s)
    }

    open spec fn parse_fault(s: Seq<u8>, c: Config, e: Error) -> bool {
        utf16_char_fault(c.endian, s, e)
    }

    proof fn parse_bounds(s: Seq<u8>, c: Config) {
    }

    proof fn round_trip(&self, c: Config, rest: Seq<u8>) {
        lemma_utf16_char_round(c.endian, self.0, rest);
    }

    fn rcv_from<R: Receiver>(reader: &mut R, c: Config) -> (r: Result<UTF16Char, Error>) {
        let ch = rcv_utf16_char(reader, c.endian)?;
        Ok(UTF16Char(ch))
    }
}

impl SendableBE for UTF16Char {
    open spec fn wire_be(&self, c: Config) -> Seq<u8> {
        utf16_char_bytes(Endian::Big, self.0)
    }

    fn send_to<W: Sender>(&self, writer: &mut W, c: Config) -> (r: Result<(), Error>) {
        snd_utf16_char(writer, Endian::Big, self.0)
    }
}

impl ReceivableBE for UTF16Char {
    open spec fn parse_be(s: Seq<u8>, c: Config) -> Option<(char, int)> {
        utf16_char_parse(Endian::Big, s)
    }

    open spec fn parse_fault_be(s: Seq<u8>, c: Config, e: Error) -> bool {
        utf16_char_fault(Endian::Big, s, e)
    }

    proof fn parse_bounds_be(s: Seq<u8>, c: Config) {
    }

    proof fn round_trip_be(&self, c: Config, rest: Seq<u8>) {
        lemma_utf16_char_round(Endian::Big, self.0, rest);
    }

    fn receive_from<R: Receiver>(reader: &mut R, c: Config) -> (r: Result<UTF16Char, Error>) {
        let ch = rcv_utf16_char(reader, Endian::Big)?;
        Ok(UTF16Char(ch))
    }
}

impl SendableLE for UTF16Char {
    open spec fn wire_le(&self, c: Config) -> Seq<u8> {
        utf16_char_bytes(Endian::Little, self.0)
    }

    fn send_to<W: Sender>(&self, writer: &mut W, c: Config) -> (r: Result<(), Error>) {
        snd_utf16_char(writer, Endian::Little, self.0)
    }
}

impl ReceivableLE for UTF16Char {
    open spec fn parse_le(s: Seq<u8>, c: Config) -> Option<(char, int)> {
        utf16_char_parse(Endian::Little, s)
    }

    open spec fn parse_fault_le(s: Seq<u8>, c: Config, e: Error) -> bool {
        utf16_char_fault(Endian::Little, s, e)
    }

    proof fn parse_bounds_le(s: Seq<u8>, c: Config) {
    }

    proof fn round_trip_le(&self, c: Config, rest: Seq<u8>) {
        lemma_utf16_char_round(Endian::Little, self.0, rest);
    }

    fn receive_from<R: Receiver>(reader: &mut R, c: Config) -> (r: Result<UTF16Char, Error>) {
        let ch = rcv_utf16_char(reader, Endian::Little)?;
        Ok(UTF16Char(ch))
    }
}

} // verus!
