//! Unsigned LEB128 integers: the encoding as a specification, and the calls into the
//! `leb128` crate that read and write it.

use vstd::prelude::*;

verus! {

/// Why reading an unsigned LEB128 integer failed.
#[derive(Clone, Copy, Debug, PartialEq, Eq)]
pub enum Leb128Error {
    /// The input ended before the last byte of the integer.
    IoError,
    /// The integer does not fit in 64 bits.
    Overflow,
}

/// The bytes that encode `v`: seven bits per byte, least significant group first,
/// the high bit set on every byte but the last.
pub open spec fn leb128_encoding(v: nat) -> Seq<u8>
    decreases v,
{
    if v < 128 {
        seq![v as u8]
    } else {
        seq![(v % 128 + 128) as u8] + leb128_encoding(v / 128)
    }
}

/// Reads an integer from `s`, where `k` is the position of `s`'s first byte within the
/// whole encoding. Gives the value and the number of bytes consumed. The tenth byte
/// carries the top bit of a 64-bit value alone: any other value there is an overflow,
/// which is reported once a byte without the high bit has been seen.
pub open spec fn leb128_decode_at(s: Seq<u8>, k: nat) -> Result<(nat, nat), Leb128Error>
    decreases s.len(),
{
    if s.len() == 0 {
        Err(Leb128Error::IoError)
    } else if k >= 9 && s[0] > 1 {
        if exists|j: int| 0 <= j < s.len() && s[j] < 128 {
            Err(Leb128Error::Overflow)
        } else {
            Err(Leb128Error::IoError)
        }
    } else if s[0] < 128 {
        Ok((s[0] as nat, 1))
    } else {
        match leb128_decode_at(s.drop_first(), k + 1) {
            Ok((v, n)) => Ok(((s[0] - 128) as nat + 128 * v, n + 1)),
            Err(e) => Err(e),
        }
    }
}

/// Reads an unsigned LEB128 integer from the front of `s`; on success gives the value
/// and what follows it.
pub open spec fn parse_leb128(s: Seq<u8>) -> Result<(u64, Seq<u8>), Leb128Error> {
    match leb128_decode_at(s, 0) {
        Ok((v, n)) => Ok((v as u64, s.skip(n as int))),
        Err(e) => Err(e),
    }
}

/// The exclusive bound on the value that the bytes from position `k` on can carry.
pub open spec fn leb128_limit(k: nat) -> nat
    decreases 9 - k,
{
    if k >= 9 {
        2
    } else {
        128 * leb128_limit(k + 1)
    }
}

proof fn lemma_limit_u64()
    ensures
        leb128_limit(0) == 0x1_0000_0000_0000_0000,
{
    reveal_with_fuel(leb128_limit, 10);
}

proof fn lemma_decode_encoding(v: nat, k: nat, rest: Seq<u8>)
    requires
        v < leb128_limit(k),
    ensures
        leb128_decode_at(leb128_encoding(v) + rest, k) == Ok::<(nat, nat), Leb128Error>(
            (v, leb128_encoding(v).len()),
        ),
    decreases v,
{
    let s = leb128_encoding(v) + rest;
    if v < 128 {
        assert(s[0] == v as u8);
        if k >= 9 {
            assert(v < 2);
        }
    } else {
        if k >= 9 {
            assert(false);
        }
        assert(leb128_limit(k) == 128 * leb128_limit(k + 1));
        lemma_decode_encoding(v / 128, k + 1, rest);
        assert(s.drop_first() =~= leb128_encoding(v / 128) + rest);
        assert(s[0] == (v % 128 + 128) as u8);
    }
}

/// Reading the encoding of `v` gives `v` back and stops right after the encoding.
pub proof fn lemma_parse_leb128_encoding(v: u64, rest: Seq<u8>)
    ensures
        parse_leb128(leb128_encoding(v as nat) + rest) == Ok::<(u64, Seq<u8>), Leb128Error>(
            (v, rest),
        ),
{
    lemma_limit_u64();
    lemma_decode_encoding(v as nat, 0, rest);
    let s = leb128_encoding(v as nat) + rest;
    assert(s.skip(leb128_encoding(v as nat).len() as int) =~= rest);
}

proof fn lemma_encoding_len_at(v: nat, k: nat)
    requires
        v < leb128_limit(k),
        k <= 9,
    ensures
        1 <= leb128_encoding(v).len() <= 10 - k,
    decreases v,
{
    if v >= 128 {
        if k >= 9 {
            assert(false);
        }
        assert(leb128_limit(k) == 128 * leb128_limit(k + 1));
        lemma_encoding_len_at(v / 128, k + 1);
    }
}

/// The encoding of a 64-bit value takes one to ten bytes.
pub proof fn lemma_leb128_encoding_len(v: u64)
    ensures
        1 <= leb128_encoding(v as nat).len() <= 10,
{
    lemma_limit_u64();
    lemma_encoding_len_at(v as nat, 0);
}

proof fn lemma_truncated_at(v: nat, k: nat, m: nat)
    requires
        v < leb128_limit(k),
        m < leb128_encoding(v).len(),
    ensures
        leb128_decode_at(leb128_encoding(v).take(m as int), k) == Err::<(nat, nat), Leb128Error>(
            Leb128Error::IoError,
        ),
    decreases v,
{
    let s = leb128_encoding(v).take(m as int);
    if m > 0 && v >= 128 {
        if k >= 9 {
            assert(false);
        }
        assert(leb128_limit(k) == 128 * leb128_limit(k + 1));
        assert(s[0] == (v % 128 + 128) as u8);
        assert(s.drop_first() =~= leb128_encoding(v / 128).take(m - 1));
        lemma_truncated_at(v / 128, k + 1, (m - 1) as nat);
    }
}

/// A proper prefix of the encoding of a 64-bit value ends before the value does.
pub proof fn lemma_parse_leb128_truncated(v: u64, m: nat)
    requires
        m < leb128_encoding(v as nat).len(),
    ensures
        parse_leb128(leb128_encoding(v as nat).take(m as int)) == Err::<(u64, Seq<u8>), Leb128Error>(
            Leb128Error::IoError,
        ),
{
    lemma_limit_u64();
    lemma_truncated_at(v as nat, 0, m);
}

/// Relies on `leb128::write::unsigned`: it appends the encoding of `v` to the vector,
/// and writing to a `Vec<u8>` does not fail.
#[verifier::external_body]
pub(crate) fn write_leb128(buffer: &mut Vec<u8>, v: u64)
    ensures
        final(buffer)@ == old(buffer)@ + leb128_encoding(v as nat),
{
    let _written = leb128::write::unsigned(buffer, v);
}

/// Relies on `leb128::read::unsigned` reading from a byte slice: it consumes the
/// integer's bytes and leaves the slice on what follows. A slice that ends early
/// fails as an I/O error.
#[verifier::external_body]
pub(crate) fn read_leb128(bytes: &[u8]) -> (r: Result<(u64, &[u8]), Leb128Error>)
    ensures
        match parse_leb128(bytes@) {
            Ok((v, rest)) => r matches Ok((w, tail)) && w == v && tail@ == rest,
            Err(e) => r == Err::<(u64, &[u8]), Leb128Error>(e),
        },
{
    let mut cursor = bytes;
    match leb128::read::unsigned(&mut cursor) {
        Ok(v) => Ok((v, cursor)),
        Err(leb128::read::Error::IoError(_)) => Err(Leb128Error::IoError),
        Err(leb128::read::Error::Overflow) => Err(Leb128Error::Overflow),
    }
}

} // verus!
