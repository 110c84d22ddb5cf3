//! Byte representations of unsigned integers in either byte order: the
//! specification functions that every fixed-width codec is stated over, the
//! lemmas that make those representations invertible, and the two executable
//! conversions the codecs share.
use vstd::prelude::*;

verus! {

use vstd::arithmetic::div_mod::{lemma_mod_breakdown, lemma_small_mod};
use vstd::arithmetic::power::pow;
use crate::config::Endian;
use crate::error::{Error, IoFault};
use crate::{Receiver, Sender};

/// `256` raised to `n`: the number of values `n` bytes can hold.
pub open spec fn pow256(n: nat) -> nat {
    pow(256, n) as nat
}

/// The `n` little-endian bytes of `v`: least significant byte first,
/// `v` taken modulo `pow256(n)`.
pub open spec fn le_bytes(v: nat, n: nat) -> Seq<u8>
    decreases n,
{
    if n == 0 {
        Seq::empty()
    } else {
        seq![(v % 256) as u8] + le_bytes(v / 256, (n - 1) as nat)
    }
}

/// The value of a little-endian byte sequence.
pub open spec fn le_val(s: Seq<u8>) -> nat
    decreases s.len(),
{
    if s.len() == 0 {
        0
    } else {
        (s[0] as nat) + 256 * le_val(s.skip(1))
    }
}

/// The `n` big-endian bytes of `v`: most significant byte first.
pub open spec fn be_bytes(v: nat, n: nat) -> Seq<u8> {
    le_bytes(v, n).reverse()
}

/// The value of a big-endian byte sequence.
pub open spec fn be_val(s: Seq<u8>) -> nat {
    le_val(s.reverse())
}

/// The `n` bytes of `v` in the given byte order.
pub open spec fn num_bytes(e: Endian, v: nat, n: nat) -> Seq<u8> {
    match e {
        Endian::Big => be_bytes(v, n),
        Endian::Little => le_bytes(v, n),
    }
}

/// The value of a byte sequence read in the given byte order.
pub open spec fn num_val(e: Endian, s: Seq<u8>) -> nat {
    match e {
        Endian::Big => be_val(s),
        Endian::Little => le_val(s),
    }
}

/// The powers of 256 the fixed-width codecs need, as literals.
pub proof fn lemma_pow256_values()
    ensures
        pow256(0) == 1,
        pow256(1) == 0x100,
        pow256(2) == 0x1_0000,
        pow256(4) == 0x1_0000_0000,
        pow256(8) == 0x1_0000_0000_0000_0000,
        pow256(16) == 0x1_0000_0000_0000_0000_0000_0000_0000_0000,
{
    assert(pow256(0) == 1) by {
        reveal(pow);
    }
    assert(pow256(1) == 256 * pow256(0)) by {
        reveal(pow);
    }
    assert(pow256(2) == 256 * pow256(1)) by {
        reveal(pow);
    }
    assert(pow256(3) == 256 * pow256(2)) by {
        reveal(pow);
    }
    assert(pow256(4) == 256 * pow256(3)) by {
        reveal(pow);
    }
    assert(pow256(5) == 256 * pow256(4)) by {
        reveal(pow);
    }
    assert(pow256(6) == 256 * pow256(5)) by {
        reveal(pow);
    }
    assert(pow256(7) == 256 * pow256(6)) by {
        reveal(pow);
    }
    assert(pow256(8) == 256 * pow256(7)) by {
        reveal(pow);
    }
    assert(pow256(9) == 256 * pow256(8)) by {
        reveal(pow);
    }
    assert(pow256(10) == 256 * pow256(9)) by {
        reveal(pow);
    }
    assert(pow256(11) == 256 * pow256(10)) by {
        reveal(pow);
    }
    assert(pow256(12) == 256 * pow256(11)) by {
        reveal(pow);
    }
    assert(pow256(13) == 256 * pow256(12)) by {
        reveal(pow);
    }
    assert(pow256(14) == 256 * pow256(13)) by {
        reveal(pow);
    }
    assert(pow256(15) == 256 * pow256(14)) by {
        reveal(pow);
    }
    assert(pow256(16) == 256 * pow256(15)) by {
        reveal(pow);
    }
}

/// One unfolding of `pow256`.
pub proof fn lemma_pow256_step(n: nat)
    requires
        n >= 1,
    ensures
        pow256(n) == 256 * pow256((n - 1) as nat),
        pow256(n) >= 256,
{
    reveal(pow);
    vstd::arithmetic::power::lemma_pow_positive(256, (n - 1) as nat);
}

/// `le_bytes` produces exactly `n` bytes.
pub proof fn lemma_le_bytes_len(v: nat, n: nat)
    ensures
        le_bytes(v, n).len() == n,
    decreases n,
{
    if n > 0 {
        lemma_le_bytes_len(v / 256, (n - 1) as nat);
    }
}

/// `num_bytes` produces exactly `n` bytes.
pub proof fn lemma_num_bytes_len(e: Endian, v: nat, n: nat)
    ensures
        num_bytes(e, v, n).len() == n,
{
    lemma_le_bytes_len(v, n);
}

/// The value of `n` bytes is below `pow256(n)`.
pub proof fn lemma_le_val_bound(s: Seq<u8>)
    ensures
        le_val(s) < pow256(s.len()),
    decreases s.len(),
{
    if s.len() == 0 {
        reveal(pow);
    } else {
        lemma_le_val_bound(s.skip(1));
        lemma_pow256_step(s.len());
    }
}

/// The value of `n` bytes is below `pow256(n)`, in either byte order.
pub proof fn lemma_num_val_bound(e: Endian, s: Seq<u8>)
    ensures
        num_val(e, s) < pow256(s.len()),
{
    match e {
        Endian::Little => lemma_le_val_bound(s),
        Endian::Big => {
            lemma_le_val_bound(s.reverse());
        },
    }
}

/// Reading back the little-endian bytes of `v` gives `v` modulo `pow256(n)`.
pub proof fn lemma_le_round(v: nat, n: nat)
    ensures
        le_val(le_bytes(v, n)) == v % pow256(n),
    decreases n,
{
    if n == 0 {
        reveal(pow);
        assert(v % pow256(0) == 0);
    } else {
        let s = le_bytes(v, n);
        assert(s.skip(1) =~= le_bytes(v / 256, (n - 1) as nat));
        lemma_le_round(v / 256, (n - 1) as nat);
        lemma_pow256_step(n);
        lemma_mod_breakdown(v as int, 256, pow256((n - 1) as nat) as int);
    }
}

/// Reading back the bytes of `v` gives `v` modulo `pow256(n)`, in either
/// byte order.
pub proof fn lemma_num_round(e: Endian, v: nat, n: nat)
    ensures
        num_val(e, num_bytes(e, v, n)) == v % pow256(n),
{
    match e {
        Endian::Little => lemma_le_round(v, n),
        Endian::Big => {
            assert(le_bytes(v, n).reverse().reverse() =~= le_bytes(v, n));
            lemma_le_round(v, n);
        },
    }
}

/// Reading back the bytes of `v < pow256(n)` gives exactly `v`.
pub proof fn lemma_num_round_small(e: Endian, v: nat, n: nat)
    requires
        v < pow256(n),
    ensures
        num_val(e, num_bytes(e, v, n)) == v,
{
    lemma_num_round(e, v, n);
    lemma_small_mod(v, pow256(n));
}

/// Appending one byte to a big-endian sequence shifts its value up.
pub proof fn lemma_be_val_push(s: Seq<u8>, x: u8)
    ensures
        be_val(s.push(x)) == 256 * be_val(s) + x,
{
    assert(s.push(x).reverse() =~= seq![x] + s.reverse());
    assert((seq![x] + s.reverse()).skip(1) =~= s.reverse());
}

/// Reverses a byte vector.
pub(crate) fn rev_bytes(v: &Vec<u8>) -> (r: Vec<u8>)
    ensures
        r@ == v@.reverse(),
{
    let n = v.len();
    let mut r: Vec<u8> = Vec::new();
    let mut i: usize = 0;
    while i < n
        invariant
            i <= n,
            n == v@.len(),
            r@.len() == i,
            forall|j: int| 0 <= j < i ==> r@[j] == v@[n - 1 - j],
        decreases n - i,
    {
        r.push(v[n - 1 - i]);
        i = i + 1;
    }
    proof {
        assert(r@ =~= v@.reverse());
    }
    r
}

/// Produces the `n`-byte representation of `v` (taken modulo `pow256(n)`)
/// in the given byte order.
pub fn uint_to_bytes(e: Endian, v: u128, n: usize) -> (r: Vec<u8>)
    requires
        n <= 16,
    ensures
        r@ == num_bytes(e, v as nat, n as nat),
        r@.len() == n,
{
    let mut out: Vec<u8> = Vec::new();
    let mut cur: u128 = v;
    let mut i: usize = 0;
    proof {
        assert(le_bytes(v as nat, n as nat) =~= out@ + le_bytes(v as nat, n as nat));
    }
    while i < n
        invariant
            i <= n,
            out@.len() == i,
            le_bytes(v as nat, n as nat) == out@ + le_bytes(cur as nat, (n - i) as nat),
        decreases n - i,
    {
        let b: u8 = (cur % 256) as u8;
        proof {
            let m = (n - i) as nat;
            assert(le_bytes(cur as nat, m) == seq![b] + le_bytes(cur as nat / 256, (m - 1) as nat));
            assert(out@.push(b) + le_bytes(cur as nat / 256, (m - 1) as nat) =~= out@ + le_bytes(
                cur as nat,
                m,
            ));
        }
        out.push(b);
        cur = cur / 256;
        i = i + 1;
    }
    proof {
        assert(le_bytes(v as nat, n as nat) =~= out@);
        lemma_le_bytes_len(v as nat, n as nat);
    }
    match e {
        Endian::Little => out,
        Endian::Big => rev_bytes(&out),
    }
}

/// Reads the value of up to 16 bytes in the given byte order.
pub fn uint_from_bytes(e: Endian, b: &Vec<u8>) -> (r: u128)
    requires
        b@.len() <= 16,
    ensures
        r as nat == num_val(e, b@),
{
    proof {
        lemma_pow256_values();
    }
    match e {
        Endian::Little => {
            let n = b.len();
            let mut v: u128 = 0;
            let mut i: usize = n;
            proof {
                assert(b@.skip(n as int) =~= Seq::<u8>::empty());
            }
            while i > 0
                invariant
                    i <= n,
                    n == b@.len() <= 16,
                    v as nat == le_val(b@.skip(i as int)),
                    v < pow256((n - i) as nat),
                    pow256(16) == 0x1_0000_0000_0000_0000_0000_0000_0000_0000,
                decreases i,
            {
                proof {
                    let k = (n - i) as nat;
                    lemma_pow256_step((k + 1) as nat);
                    vstd::arithmetic::power::lemma_pow_increases(256, (k + 1) as nat, 16);
                    vstd::arithmetic::power::lemma_pow_positive(256, (k + 1) as nat);
                    vstd::arithmetic::power::lemma_pow_positive(256, 16);
                    assert(pow256((k + 1) as nat) <= pow256(16));
                    assert(v * 256 + 255 < pow256((k + 1) as nat));
                    assert(b@.skip(i - 1).skip(1) =~= b@.skip(i as int));
                }
                i = i - 1;
                v = v * 256 + (b[i] as u128);
            }
            proof {
                assert(b@.skip(0) =~= b@);
            }
            v
        },
        Endian::Big => {
            let n = b.len();
            let mut v: u128 = 0;
            let mut i: usize = 0;
            proof {
                assert(b@.take(0) =~= Seq::<u8>::empty());
                assert(be_val(b@.take(0)) == 0);
            }
            while i < n
                invariant
                    i <= n,
                    n == b@.len() <= 16,
                    v as nat == be_val(b@.take(i as int)),
                    v < pow256(i as nat),
                    pow256(16) == 0x1_0000_0000_0000_0000_0000_0000_0000_0000,
                decreases n - i,
            {
                proof {
                    lemma_be_val_push(b@.take(i as int), b@[i as int]);
                    assert(b@.take(i + 1) =~= b@.take(i as int).push(b@[i as int]));
                    lemma_pow256_step((i + 1) as nat);
                    vstd::arithmetic::power::lemma_pow_increases(256, (i + 1) as nat, 16);
                    vstd::arithmetic::power::lemma_pow_positive(256, (i + 1) as nat);
                    vstd::arithmetic::power::lemma_pow_positive(256, 16);
                    assert(pow256((i + 1) as nat) <= pow256(16));
                    assert(v * 256 + 255 < pow256((i + 1) as nat));
                }
                v = v * 256 + (b[i] as u128);
                i = i + 1;
            }
            proof {
                assert(b@.take(n as int) =~= b@);
            }
            v
        },
    }
}

/// Writes the `n`-byte representation of `v` in the given byte order.
pub fn snd_uint<S: Sender>(writer: &mut S, e: Endian, v: u128, n: usize) -> (r: Result<(), Error>)
    requires
        n <= 16,
    ensures
        old(writer).accepts() ==> (r matches Ok(()) && final(writer).accepts() && final(
            writer
        ).sent() == old(writer).sent() + num_bytes(e, v as nat, n as nat)),
        !old(writer).accepts() ==> (r is Err && final(writer).sent() == old(writer).sent()),
{
    let buf = uint_to_bytes(e, v, n);
    writer.snd_all(buf.as_slice())
}

/// Reads an `n`-byte value in the given byte order, or fails with
/// end-of-data when fewer than `n` bytes remain.
pub fn rcv_uint<R: Receiver>(reader: &mut R, e: Endian, n: usize) -> (r: Result<u128, Error>)
    requires
        n <= 16,
    ensures
        n <= old(reader).remaining().len() ==> (r matches Ok(v) && v as nat == num_val(
            e,
            old(reader).remaining().take(n as int),
        ) && v < pow256(n as nat) && final(reader).remaining() == old(reader).remaining().skip(
            n as int,
        )),
        n > old(reader).remaining().len() ==> (r matches Err(e2) && e2 == Error::Io(
            IoFault::UnexpectedEof,
        ) && final(reader).remaining() == old(reader).remaining()),
{
    let b = reader.rcv_all(n)?;
    let v = uint_from_bytes(e, &b);
    proof {
        lemma_num_val_bound(e, b@);
    }
    Ok(v)
}

} // verus!
