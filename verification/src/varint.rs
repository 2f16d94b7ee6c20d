//! Variable-length integer codec: little-endian base-128 groups with a
//! continuation bit, and a zigzag transform for signed values.
//!
//! An unsigned 64-bit integer is split into 7-bit groups, least significant
//! first; every byte but the last carries the continuation bit `0x80`. At
//! most ten bytes are ever produced. A signed integer is first mapped
//! through the zigzag bijection so small-magnitude negatives stay short.

use vstd::arithmetic::div_mod::{lemma_div_denominator, lemma_div_is_ordered};
use vstd::prelude::*;

use crate::stream::{ByteReader, ByteWriter, CodecError};

verus! {

/// Largest number of bytes a varint may occupy.
pub const MAX_VARINT_LEN: usize = 10;

/// `128^n`, the weight of the `n`-th 7-bit group.
pub open spec fn pow128(n: nat) -> nat
    decreases n,
{
    if n == 0 {
        1
    } else {
        128 * pow128((n - 1) as nat)
    }
}

/// The canonical varint encoding of `n`: 7-bit groups, least significant
/// first, continuation bit on every byte but the last.
pub open spec fn uvarint_enc(n: nat) -> Seq<u8>
    decreases n,
{
    if n < 128 {
        seq![n as u8]
    } else {
        seq![(128 + n % 128) as u8] + uvarint_enc(n / 128)
    }
}

/// The zigzag bijection from signed to unsigned: non-negative `n` maps to
/// `2n`, negative `n` to `-2n - 1`, so small magnitudes stay small.
pub open spec fn zigzag(n: int) -> nat {
    if n >= 0 {
        (2 * n) as nat
    } else {
        (-2 * n - 1) as nat
    }
}

/// The inverse of [`zigzag`].
pub open spec fn unzigzag(u: nat) -> int {
    if u % 2 == 0 {
        (u / 2) as int
    } else {
        -((u / 2) as int) - 1
    }
}

/// What reading a varint whose first `i` groups have already been consumed
/// yields: the value of the remaining groups and the position after the
/// final byte. A byte below `0x80` ends the varint; the guard rejects
/// encodings that would not fit in 64 bits (more than ten bytes, or a tenth
/// byte above 1). An exhausted source is an [`CodecError::UnexpectedEndOfInput`].
pub open spec fn parse_uvarint_rec(data: Seq<u8>, pos: int, i: nat) -> Result<
    (nat, int),
    CodecError,
>
    decreases data.len() - pos,
{
    if pos < 0 || pos >= data.len() {
        Err(CodecError::UnexpectedEndOfInput)
    } else {
        let b = data[pos];
        if b < 128 {
            if i > 9 || (i == 9 && b > 1) {
                Err(CodecError::MalformedVarint)
            } else {
                Ok((b as nat, pos + 1))
            }
        } else {
            match parse_uvarint_rec(data, pos + 1, i + 1) {
                Ok((v, end)) => Ok(((b - 128) as nat + 128 * v, end)),
                Err(e) => Err(e),
            }
        }
    }
}

/// What reading an unsigned varint at `pos` of `data` yields: the decoded
/// value and the position after its final byte, or the error.
pub open spec fn parse_uvarint(data: Seq<u8>, pos: int) -> Result<(nat, int), CodecError> {
    parse_uvarint_rec(data, pos, 0)
}

/// What reading a signed varint yields: the unsigned varint, mapped back
/// through the zigzag bijection.
pub open spec fn parse_varint(data: Seq<u8>, pos: int) -> Result<(int, int), CodecError> {
    match parse_uvarint(data, pos) {
        Ok((u, end)) => Ok((unzigzag(u), end)),
        Err(e) => Err(e),
    }
}

/// `pow128` is positive.
proof fn lemma_pow128_pos(n: nat)
    ensures
        pow128(n) >= 1,
    decreases n,
{
    if n > 0 {
        lemma_pow128_pos((n - 1) as nat);
    }
}

/// Law: every `u64` has exactly one encoding, of one to
/// [`MAX_VARINT_LEN`] bytes.
pub proof fn lemma_uvarint_enc_bounded(u: u64)
    ensures
        1 <= uvarint_enc(u as nat).len() <= MAX_VARINT_LEN,
{
    assert(pow128(10) == 0x40_0000_0000_0000_0000) by {
        reveal_with_fuel(pow128, 11);
    }
    lemma_uvarint_enc_len(u as nat, 10);
}

/// The encoding of `n` is 1 to `k` bytes long whenever `n < 128^k`.
proof fn lemma_uvarint_enc_len(n: nat, k: nat)
    requires
        k >= 1,
        n < pow128(k),
    ensures
        1 <= uvarint_enc(n).len() <= k,
    decreases n,
{
    if n >= 128 {
        assert(pow128(k) == 128 * pow128((k - 1) as nat));
        lemma_uvarint_enc_len(n / 128, (k - 1) as nat);
    }
}

/// A successful parse moves forward, stays in bounds, and yields a value
/// that fits in 64 bits (scaled by the weight of the groups already read).
pub(crate) proof fn lemma_parse_rec_ok(data: Seq<u8>, pos: int, i: nat)
    requires
        parse_uvarint_rec(data, pos, i) is Ok,
    ensures
        ({
            let (v, end) = parse_uvarint_rec(data, pos, i)->Ok_0;
            &&& pos < end <= data.len()
            &&& (v + 1) * pow128(i) <= 0x1_0000_0000_0000_0000
            &&& v < 0x1_0000_0000_0000_0000
        }),
    decreases data.len() - pos,
{
    let (v, end) = parse_uvarint_rec(data, pos, i)->Ok_0;
    let b = data[pos];
    lemma_pow128_pos(i);
    if b < 128 {
        // terminal byte: i <= 9, and b <= 1 when i == 9
        if i == 9 {
            assert(pow128(9) == 0x8000_0000_0000_0000) by {
                reveal_with_fuel(pow128, 10);
            }
            assert((v + 1) * pow128(i) <= 0x1_0000_0000_0000_0000) by (nonlinear_arith)
                requires
                    v <= 1,
                    pow128(i) == 0x8000_0000_0000_0000,
            ;
        } else {
            assert(pow128(i) <= pow128(8)) by {
                lemma_pow128_increases(i, 8);
            }
            assert(pow128(8) == 0x100_0000_0000_0000) by {
                reveal_with_fuel(pow128, 9);
            }
            assert((v + 1) * pow128(i) <= 0x1_0000_0000_0000_0000) by (nonlinear_arith)
                requires
                    v < 128,
                    pow128(i) <= 0x100_0000_0000_0000,
            ;
        }
    } else {
        lemma_parse_rec_ok(data, pos + 1, i + 1);
        let (v2, _) = parse_uvarint_rec(data, pos + 1, i + 1)->Ok_0;
        let g = (b - 128) as nat;
        assert((v + 1) * pow128(i) <= (v2 + 1) * pow128(i + 1)) by (nonlinear_arith)
            requires
                v == g + 128 * v2,
                g < 128,
                pow128(i + 1) == 128 * pow128(i),
                pow128(i) >= 1,
        ;
    }
    assert(v < (v + 1) * pow128(i)) by (nonlinear_arith)
        requires
            pow128(i) >= 1,
    ;
}

/// `pow128` grows with its argument.
proof fn lemma_pow128_increases(a: nat, b: nat)
    requires
        a <= b,
    ensures
        pow128(a) <= pow128(b),
    decreases b,
{
    if a < b {
        lemma_pow128_increases(a, (b - 1) as nat);
        lemma_pow128_pos((b - 1) as nat);
    }
}

/// Past ten groups no parse can succeed: the guard fires at any terminal
/// byte from there on.
proof fn lemma_parse_rec_deep(data: Seq<u8>, pos: int, i: nat)
    requires
        i >= 10,
    ensures
        !(parse_uvarint_rec(data, pos, i) is Ok),
    decreases data.len() - pos,
{
    if 0 <= pos < data.len() && data[pos] >= 128 {
        lemma_parse_rec_deep(data, pos + 1, i + 1);
    }
}

/// Parsing the canonical encoding of `n` yields `n` and stops right after
/// it, whatever follows. The bound on `n` says the groups already consumed
/// leave room for `n` within 64 bits.
proof fn lemma_parse_rec_enc(data: Seq<u8>, pos: int, n: nat, i: nat)
    requires
        i <= 9,
        n <= 0xffff_ffff_ffff_ffff as nat / pow128(i),
        0 <= pos,
        pos + uvarint_enc(n).len() <= data.len(),
        data.subrange(pos, pos + uvarint_enc(n).len() as int) == uvarint_enc(n),
    ensures
        parse_uvarint_rec(data, pos, i) == Ok::<(nat, int), CodecError>(
            (n, pos + uvarint_enc(n).len()),
        ),
    decreases n,
{
    let enc = uvarint_enc(n);
    assert(data[pos] == enc[0]);
    if n < 128 {
        if i == 9 {
            assert(pow128(9) == 0x8000_0000_0000_0000) by {
                reveal_with_fuel(pow128, 10);
            }
            assert(n <= 1);
        }
    } else {
        let rest = uvarint_enc(n / 128);
        // the first byte carries the continuation bit
        assert(data[pos] == 128 + n % 128);
        // i + 1 <= 9: at i == 9 the bound forces n <= 1, but n >= 128 here
        if i == 9 {
            assert(pow128(9) == 0x8000_0000_0000_0000) by {
                reveal_with_fuel(pow128, 10);
            }
            assert(false);
        }
        // the tail of the encoding sits right after the first byte
        assert(data.subrange(pos + 1, pos + 1 + rest.len() as int) =~= rest) by {
            assert(forall|j: int|
                0 <= j < rest.len() ==> rest[j] == enc[j + 1] && data[pos + 1 + j] == enc[j + 1]);
        }
        // n / 128 fits the tighter bound at level i + 1
        assert(pow128(i + 1) == 128 * pow128(i));
        lemma_pow128_pos(i);
        lemma_div_is_ordered(n as int, (0xffff_ffff_ffff_ffff as nat / pow128(i)) as int, 128);
        lemma_div_denominator(0xffff_ffff_ffff_ffff as int, pow128(i) as int, 128);
        assert(n / 128 <= 0xffff_ffff_ffff_ffff as nat / pow128(i + 1));
        lemma_parse_rec_enc(data, pos + 1, n / 128, i + 1);
        assert((data[pos] - 128) as nat + 128 * (n / 128) == n);
    }
}

/// Law: varint round-trip, unsigned half. Wherever the canonical encoding
/// of `u` stands in a buffer, reading an unsigned varint there yields `u`
/// back and consumes exactly the encoding.
pub proof fn lemma_uvarint_round_trip(data: Seq<u8>, pos: int, u: u64)
    requires
        0 <= pos,
        pos + uvarint_enc(u as nat).len() <= data.len(),
        data.subrange(pos, pos + uvarint_enc(u as nat).len() as int) == uvarint_enc(u as nat),
    ensures
        parse_uvarint(data, pos) == Ok::<(nat, int), CodecError>(
            (u as nat, pos + uvarint_enc(u as nat).len()),
        ),
{
    assert(pow128(0) == 1);
    lemma_parse_rec_enc(data, pos, u as nat, 0);
}

/// The zigzag transform is reversed exactly by [`unzigzag`], and its result
/// fits in 64 bits for any 64-bit signed input.
pub proof fn lemma_zigzag_round_trip(n: int)
    requires
        -0x8000_0000_0000_0000 <= n < 0x8000_0000_0000_0000,
    ensures
        zigzag(n) < 0x1_0000_0000_0000_0000,
        unzigzag(zigzag(n)) == n,
{
}

/// Law: varint round-trip, signed half. Wherever the canonical encoding of
/// zigzagged `n` stands in a buffer, reading a signed varint there yields
/// `n` back and consumes exactly the encoding.
pub proof fn lemma_varint_round_trip(data: Seq<u8>, pos: int, n: i64)
    requires
        0 <= pos,
        pos + uvarint_enc(zigzag(n as int)).len() <= data.len(),
        data.subrange(pos, pos + uvarint_enc(zigzag(n as int)).len() as int) == uvarint_enc(
            zigzag(n as int),
        ),
    ensures
        parse_varint(data, pos) == Ok::<(int, int), CodecError>(
            (n as int, pos + uvarint_enc(zigzag(n as int)).len()),
        ),
{
    lemma_zigzag_round_trip(n as int);
    let u = zigzag(n as int) as u64;
    lemma_uvarint_round_trip(data, pos, u);
}

/// Law: a truncated varint — nothing but continuation bytes to the end of
/// the buffer — fails with [`CodecError::UnexpectedEndOfInput`].
pub proof fn lemma_uvarint_truncated(data: Seq<u8>, pos: int)
    requires
        0 <= pos <= data.len(),
        forall|j: int| pos <= j < data.len() ==> data[j] >= 128,
    ensures
        parse_uvarint(data, pos) == Err::<(nat, int), CodecError>(
            CodecError::UnexpectedEndOfInput,
        ),
{
    lemma_uvarint_truncated_rec(data, pos, 0);
}

proof fn lemma_uvarint_truncated_rec(data: Seq<u8>, pos: int, i: nat)
    requires
        0 <= pos <= data.len(),
        forall|j: int| pos <= j < data.len() ==> data[j] >= 128,
    ensures
        parse_uvarint_rec(data, pos, i) == Err::<(nat, int), CodecError>(
            CodecError::UnexpectedEndOfInput,
        ),
    decreases data.len() - pos,
{
    if pos < data.len() {
        lemma_uvarint_truncated_rec(data, pos + 1, i + 1);
    }
}

/// Law: an overlong varint — nine continuation bytes and a tenth, final
/// byte above 1 — fails with [`CodecError::MalformedVarint`].
pub proof fn lemma_uvarint_overlong(data: Seq<u8>, pos: int)
    requires
        0 <= pos,
        pos + 10 <= data.len(),
        forall|j: int| pos <= j < pos + 9 ==> data[j] >= 128,
        data[pos + 9] < 128,
        data[pos + 9] > 1,
    ensures
        parse_uvarint(data, pos) == Err::<(nat, int), CodecError>(CodecError::MalformedVarint),
{
    lemma_uvarint_overlong_rec(data, pos, 0);
}

proof fn lemma_uvarint_overlong_rec(data: Seq<u8>, pos: int, i: nat)
    requires
        i <= 9,
        0 <= pos,
        pos + (10 - i) <= data.len(),
        forall|j: int| pos <= j < pos + (9 - i) ==> data[j] >= 128,
        data[pos + (9 - i)] < 128,
        data[pos + (9 - i)] > 1,
    ensures
        parse_uvarint_rec(data, pos, i) == Err::<(nat, int), CodecError>(
            CodecError::MalformedVarint,
        ),
    decreases 9 - i,
{
    if i < 9 {
        lemma_uvarint_overlong_rec(data, pos + 1, i + 1);
    }
}

/// Extends a byte source with varint reads.
pub trait VarintReadExt: Sized {
    /// The whole underlying buffer.
    spec fn buf(&self) -> Seq<u8>;

    /// The current read position.
    spec fn cursor(&self) -> int;

    /// The source's own well-formedness.
    spec fn inv(&self) -> bool;

    /// Read an unsigned varint: accumulate 7-bit groups until a byte with
    /// the continuation bit clear, rejecting encodings that would overflow
    /// 64 bits.
    fn read_uvarint(&mut self) -> (r: Result<u64, CodecError>)
        requires
            old(self).inv(),
        ensures
            final(self).inv(),
            final(self).buf() == old(self).buf(),
            old(self).cursor() <= final(self).cursor() <= final(self).buf().len(),
            match r {
                Ok(n) => parse_uvarint(final(self).buf(), old(self).cursor()) == Ok::<
                    (nat, int),
                    CodecError,
                >((n as nat, final(self).cursor())),
                Err(e) => parse_uvarint(final(self).buf(), old(self).cursor()) == Err::<
                    (nat, int),
                    CodecError,
                >(e),
            },
    ;

    /// Read a signed varint: an unsigned varint mapped back through the
    /// zigzag bijection.
    fn read_varint(&mut self) -> (r: Result<i64, CodecError>)
        requires
            old(self).inv(),
        ensures
            final(self).inv(),
            final(self).buf() == old(self).buf(),
            old(self).cursor() <= final(self).cursor() <= final(self).buf().len(),
            match r {
                Ok(n) => parse_varint(final(self).buf(), old(self).cursor()) == Ok::<
                    (int, int),
                    CodecError,
                >((n as int, final(self).cursor())),
                Err(e) => parse_varint(final(self).buf(), old(self).cursor()) == Err::<
                    (int, int),
                    CodecError,
                >(e),
            },
    ;
}

/// Extends a byte sink with varint writes.
pub trait VarintWriteExt: Sized {
    /// Everything written so far.
    spec fn sink(&self) -> Seq<u8>;

    /// Append the canonical varint encoding of `un`. Total: every `u64` has
    /// exactly one encoding, of one to ten bytes.
    fn write_uvarint(&mut self, un: u64)
        ensures
            final(self).sink() == old(self).sink() + uvarint_enc(un as nat),
    ;

    /// Append the varint encoding of zigzagged `n`. Total.
    fn write_varint(&mut self, n: i64)
        ensures
            final(self).sink() == old(self).sink() + uvarint_enc(zigzag(n as int)),
    ;
}

impl VarintReadExt for ByteReader {
    open spec fn buf(&self) -> Seq<u8> {
        self.data()
    }

    open spec fn cursor(&self) -> int {
        self.at()
    }

    open spec fn inv(&self) -> bool {
        self.wf()
    }

    fn read_uvarint(&mut self) -> (r: Result<u64, CodecError>) {
        let ghost data = self.data();
        let ghost start = self.at();
        let mut x: u64 = 0;
        let mut p: u64 = 1;
        let mut i: usize = 0;
        loop
            invariant
                data == old(self).data(),
                start == old(self).at(),
                self.wf(),
                self.data() == data,
                0 <= start <= self.at() <= data.len(),
                i == self.at() - start,
                x < p,
                p == pow128(if i <= 9 { i as nat } else { 9 }),
                match parse_uvarint_rec(data, self.at(), i as nat) {
                    Ok((v, end)) => {
                        &&& i <= 9
                        &&& parse_uvarint(data, start) == Ok::<(nat, int), CodecError>(
                            (x as nat + v * pow128(i as nat), end),
                        )
                    },
                    Err(e) => parse_uvarint(data, start) == Err::<(nat, int), CodecError>(e),
                },
            decreases data.len() - self.at(),
        {
            let b = match self.read_byte() {
                Ok(b) => b,
                Err(e) => {
                    return Err(e);
                },
            };
            if b < 0x80 {
                if i > 9 || (i == 9 && b > 1) {
                    proof {
                        assert(parse_uvarint_rec(data, self.at() - 1, i as nat) == Err::<
                            (nat, int),
                            CodecError,
                        >(CodecError::MalformedVarint));
                    }
                    return Err(CodecError::MalformedVarint);
                }
                proof {
                    assert(parse_uvarint_rec(data, self.at() - 1, i as nat) == Ok::<
                        (nat, int),
                        CodecError,
                    >((b as nat, self.at())));
                    lemma_parse_rec_ok(data, self.at() - 1, i as nat);
                    assert(x + (b as nat) * pow128(i as nat) < 0x1_0000_0000_0000_0000)
                        by (nonlinear_arith)
                        requires
                            x < pow128(i as nat),
                            p == pow128(i as nat),
                            ((b as nat) + 1) * pow128(i as nat) <= 0x1_0000_0000_0000_0000,
                    ;
                }
                return Ok(x + (b as u64) * p);
            }
            // a continuation byte: fold in its group while the value can
            // still be returned; past the ninth group any parse fails
            proof {
                if i >= 9 {
                    lemma_parse_rec_deep(data, self.at(), (i + 1) as nat);
                } else {
                    assert(pow128(i as nat) <= pow128(8)) by {
                        lemma_pow128_increases(i as nat, 8);
                    }
                    assert(pow128(8) == 0x100_0000_0000_0000) by {
                        reveal_with_fuel(pow128, 9);
                    }
                }
            }
            if i <= 8 {
                let g = (b - 0x80) as u64;
                proof {
                    assert(x + g * p < 128 * p && 128 * p == pow128((i + 1) as nat))
                        by (nonlinear_arith)
                        requires
                            x < p,
                            g < 128,
                            p == pow128(i as nat),
                            pow128((i + 1) as nat) == 128 * pow128(i as nat),
                            p <= 0x100_0000_0000_0000,
                    ;
                    if parse_uvarint_rec(data, self.at(), (i + 1) as nat) is Ok {
                        let (v2, end) = parse_uvarint_rec(data, self.at(), (i + 1) as nat)->Ok_0;
                        assert(x as nat + ((b - 128) as nat + 128 * v2) * pow128(i as nat) == (x
                            + g * p) as nat + v2 * pow128((i + 1) as nat)) by (nonlinear_arith)
                            requires
                                g == (b - 128) as nat,
                                p == pow128(i as nat),
                                x < p,
                                pow128((i + 1) as nat) == 128 * pow128(i as nat),
                        ;
                    }
                }
                x = x + g * p;
                p = p * 128;
            }
            i = i + 1;
        }
    }

    fn read_varint(&mut self) -> (r: Result<i64, CodecError>) {
        let un = match self.read_uvarint() {
            Ok(un) => un,
            Err(e) => {
                return Err(e);
            },
        };
        let h = un / 2;
        if un % 2 == 0 {
            Ok(h as i64)
        } else {
            Ok(-(h as i64) - 1)
        }
    }
}

impl VarintWriteExt for ByteWriter {
    open spec fn sink(&self) -> Seq<u8> {
        self.out()
    }

    fn write_uvarint(&mut self, un: u64) {
        let ghost orig = un as nat;
        let mut un = un;
        while un >= 0x80
            invariant
                old(self).out() + uvarint_enc(orig) == self.out() + uvarint_enc(un as nat),
            decreases un,
        {
            proof {
                assert(old(self).out() + uvarint_enc(orig) == (self.out().push(
                    (128 + un % 128) as u8,
                )) + uvarint_enc((un / 128) as nat)) by {
                    assert(uvarint_enc(un as nat) == seq![(128 + un as nat % 128) as u8]
                        + uvarint_enc(un as nat / 128));
                    assert(self.out() + uvarint_enc(un as nat) =~= (self.out().push(
                        (128 + un % 128) as u8,
                    )) + uvarint_enc((un / 128) as nat));
                }
            }
            self.write_byte((un % 0x80 + 0x80) as u8);
            un = un / 0x80;
        }
        proof {
            assert(self.out() + uvarint_enc(un as nat) =~= self.out().push(un as u8));
        }
        self.write_byte(un as u8);
    }

    fn write_varint(&mut self, n: i64) {
        if n >= 0 {
            self.write_uvarint((n as u64) * 2);
        } else {
            self.write_uvarint(((-(n + 1)) as u64) * 2 + 1);
        }
    }
}

} // verus!
