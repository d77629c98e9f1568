//! Fixed-width numbers as bytes in either byte order, and the codec's errors.
use vstd::prelude::*;
use crate::types::Endian;
use crate::wire::{half, signed_bits, from_signed_bits};
use crate::codec::{to_signed_bits, from_bits};

verus! {

/// Errors of the codec.
#[derive(Debug, Clone, Copy, PartialEq, Eq, Structural)]
pub enum PError {
    /// The target buffer is shorter than the encoding.
    BufTooSmall,
    /// The source buffer ends before the value does.
    NotEnoughData,
    /// The value does not have the shape the schema asks for.
    InvalidValue,
    /// The bytes cannot be read as the schema asks (a negative count, a
    /// missing struct, a text type without a fixed capacity).
    InvalidData,
    /// Records are nested more deeply than the codec follows.
    TooDeep,
}

pub open spec fn pow256(w: nat) -> nat
    decreases w,
{
    if w == 0 {
        1
    } else {
        256 * pow256((w - 1) as nat)
    }
}

/// The `w` bytes of `n`, least significant first.
pub open spec fn le_bytes(n: nat, w: nat) -> Seq<u8>
    decreases w,
{
    if w == 0 {
        Seq::empty()
    } else {
        seq![(n % 256) as u8] + le_bytes(n / 256, (w - 1) as nat)
    }
}

/// The number whose bytes, least significant first, are `b`.
pub open spec fn le_value(b: Seq<u8>) -> nat
    decreases b.len(),
{
    if b.len() == 0 {
        0
    } else {
        b[0] as nat + 256 * le_value(b.drop_first())
    }
}

/// The `w` bytes of `n` in byte order `e`.
pub open spec fn uint_bytes(n: nat, w: nat, e: Endian) -> Seq<u8> {
    match e {
        Endian::Little => le_bytes(n, w),
        Endian::Big => le_bytes(n, w).reverse(),
    }
}

/// The number that the bytes `b` hold in byte order `e`.
pub open spec fn uint_value(b: Seq<u8>, e: Endian) -> nat {
    match e {
        Endian::Little => le_value(b),
        Endian::Big => le_value(b.reverse()),
    }
}

pub proof fn lemma_pow256_facts()
    ensures
        pow256(0) == 1,
        pow256(1) == 256,
        pow256(2) == 0x1_0000,
        pow256(4) == 0x1_0000_0000,
        pow256(8) == 0x1_0000_0000_0000_0000,
{
    reveal_with_fuel(pow256, 9);
}

pub proof fn lemma_pow256_pos(w: nat)
    ensures
        pow256(w) >= 1,
    decreases w,
{
    if w > 0 {
        lemma_pow256_pos((w - 1) as nat);
    }
}

pub proof fn lemma_le_bytes_len(n: nat, w: nat)
    ensures
        le_bytes(n, w).len() == w,
    decreases w,
{
    if w > 0 {
        lemma_le_bytes_len(n / 256, (w - 1) as nat);
    }
}

pub proof fn lemma_le_value_bound(b: Seq<u8>)
    ensures
        le_value(b) < pow256(b.len()),
    decreases b.len(),
{
    if b.len() > 0 {
        lemma_le_value_bound(b.drop_first());
    }
}

/// Reading back the bytes of a number that fits gives the number.
pub proof fn lemma_le_round_trip(n: nat, w: nat)
    requires
        n < pow256(w),
    ensures
        le_value(le_bytes(n, w)) == n,
    decreases w,
{
    if w > 0 {
        let rest = le_bytes(n / 256, (w - 1) as nat);
        assert(n / 256 < pow256((w - 1) as nat));
        lemma_le_round_trip(n / 256, (w - 1) as nat);
        assert(le_bytes(n, w).drop_first() =~= rest);
    }
}

/// Byte order round trip: the number written in `w` bytes in order `e`
/// is read back from them.
pub proof fn lemma_uint_round_trip(n: nat, w: nat, e: Endian)
    requires
        n < pow256(w),
    ensures
        uint_value(uint_bytes(n, w, e), e) == n,
        uint_bytes(n, w, e).len() == w,
{
    lemma_le_round_trip(n, w);
    lemma_le_bytes_len(n, w);
    assert(le_bytes(n, w).reverse().reverse() =~= le_bytes(n, w));
}

pub proof fn lemma_uint_value_bound(b: Seq<u8>, e: Endian)
    ensures
        uint_value(b, e) < pow256(b.len()),
{
    lemma_le_value_bound(b);
    lemma_le_value_bound(b.reverse());
}

/// Appends the `w` bytes of `n` in order `e` to `out`.
pub fn write_uint(out: &mut Vec<u8>, n: u64, w: usize, e: Endian)
    requires
        w <= 8,
        n < pow256(w as nat),
    ensures
        final(out)@ == old(out)@ + uint_bytes(n as nat, w as nat, e),
{
    let mut le: Vec<u8> = Vec::new();
    let mut x: u64 = n;
    let mut i: usize = 0;
    while i < w
        invariant
            i <= w,
            le@ + le_bytes(x as nat, (w - i) as nat) == le_bytes(n as nat, w as nat),
        decreases w - i,
    {
        let ghost rest = le_bytes((x / 256) as nat, (w - i - 1) as nat);
        assert(le_bytes(x as nat, (w - i) as nat) == seq![(x % 256) as u8] + rest);
        le.push((x % 256) as u8);
        x = x / 256;
        assert(le@ + rest =~= le_bytes(n as nat, w as nat));
        i = i + 1;
    }
    assert(le@ =~= le_bytes(n as nat, w as nat));
    proof {
        lemma_le_bytes_len(n as nat, w as nat);
    }
    match e {
        Endian::Little => {
            let mut j: usize = 0;
            while j < w
                invariant
                    j <= w,
                    le@.len() == w,
                    le@ == le_bytes(n as nat, w as nat),
                    out@ == old(out)@ + le@.take(j as int),
                decreases w - j,
            {
                out.push(le[j]);
                assert(le@.take(j + 1) =~= le@.take(j as int).push(le@[j as int]));
                j = j + 1;
            }
            assert(le@.take(w as int) =~= le@);
        },
        Endian::Big => {
            let mut j: usize = 0;
            while j < w
                invariant
                    j <= w,
                    le@.len() == w,
                    le@ == le_bytes(n as nat, w as nat),
                    out@ == old(out)@ + le@.reverse().take(j as int),
                decreases w - j,
            {
                out.push(le[w - 1 - j]);
                assert(le@.reverse().take(j + 1) =~= le@.reverse().take(j as int).push(
                    le@[w - 1 - j],
                ));
                j = j + 1;
            }
            assert(le@.reverse().take(w as int) =~= le@.reverse());
        },
    }
}

/// Reads the number held by `data[pos..pos + w]` in order `e`.
pub fn read_uint(data: &[u8], pos: usize, w: usize, e: Endian) -> (r: u64)
    requires
        w <= 8,
        pos + w <= data@.len(),
    ensures
        r as nat == uint_value(data@.subrange(pos as int, pos + w), e),
{
    let ghost b = data@.subrange(pos as int, pos + w);
    let ghost lb = match e {
        Endian::Little => b,
        Endian::Big => b.reverse(),
    };
    let len = data.len();
    let mut acc: u64 = 0;
    let mut i: usize = w;
    while i > 0
        invariant
            i <= w <= 8,
            pos + w <= data@.len(),
            len == data@.len(),
            b == data@.subrange(pos as int, pos + w),
            lb == (match e {
                Endian::Little => b,
                Endian::Big => b.reverse(),
            }),
            acc as nat == le_value(lb.subrange(i as int, w as int)),
        decreases i,
    {
        let byte: u8 = match e {
            Endian::Little => data[pos + i - 1],
            Endian::Big => data[pos + w - i],
        };
        assert(byte == lb[i - 1]);
        let ghost tail = lb.subrange(i as int, w as int);
        let ghost longer = lb.subrange(i - 1, w as int);
        assert(longer.drop_first() =~= tail);
        proof {
            lemma_le_value_bound(tail);
            lemma_le_value_bound(longer);
            lemma_pow256_facts();
            lemma_pow256_mono(longer.len(), 8);
        }
        acc = byte as u64 + 256 * acc;
        i = i - 1;
    }
    assert(lb.subrange(0, w as int) =~= lb);
    acc
}

pub proof fn lemma_pow256_mono(a: nat, b: nat)
    requires
        a <= b,
    ensures
        pow256(a) <= pow256(b),
    decreases b,
{
    if a < b {
        lemma_pow256_mono(a, (b - 1) as nat);
        lemma_pow256_pos((b - 1) as nat);
    }
}


/// Writes the `w` bytes of `n` in order `e` over the front of `buf`.
pub fn put_uint(buf: &mut [u8], n: u64, w: usize, e: Endian) -> (r: Result<(), PError>)
    requires
        w <= 8,
        n < pow256(w as nat),
    ensures
        old(buf)@.len() < w ==> r == Err::<(), PError>(PError::BufTooSmall) && final(buf)@ == old(
            buf,
        )@,
        old(buf)@.len() >= w ==> r == Ok::<(), PError>(()) && final(buf)@ == uint_bytes(
            n as nat,
            w as nat,
            e,
        ) + old(buf)@.subrange(w as int, old(buf)@.len() as int),
{
    if buf.len() < w {
        return Err(PError::BufTooSmall);
    }
    let mut tmp: Vec<u8> = Vec::new();
    write_uint(&mut tmp, n, w, e);
    proof {
        lemma_le_bytes_len(n as nat, w as nat);
        assert(tmp@ =~= uint_bytes(n as nat, w as nat, e));
    }
    let mut j: usize = 0;
    while j < w
        invariant
            j <= w,
            tmp@.len() == w,
            w <= old(buf)@.len(),
            buf@.len() == old(buf)@.len(),
            forall|k: int| 0 <= k < j ==> buf@[k] == tmp@[k],
            forall|k: int| w <= k < buf@.len() ==> buf@[k] == old(buf)@[k],
        decreases w - j,
    {
        buf[j] = tmp[j];
        j = j + 1;
    }
    assert(buf@ =~= tmp@ + old(buf)@.subrange(w as int, old(buf)@.len() as int));
    Ok(())
}

/// Reads the number that the first `w` bytes of `data` hold in order `e`.
pub fn get_uint(data: &[u8], w: usize, e: Endian) -> (r: Result<u64, PError>)
    requires
        w <= 8,
    ensures
        data@.len() < w ==> r == Err::<u64, PError>(PError::NotEnoughData),
        data@.len() >= w ==> (r matches Ok(n) && n as nat == uint_value(data@.subrange(0, w as int), e)),
{
    if data.len() < w {
        return Err(PError::NotEnoughData);
    }
    Ok(read_uint(data, 0, w, e))
}

/// A fixed-width number with a byte encoding in either byte order.
pub trait Primitive: Sized {
    /// Width of the encoding in bytes.
    spec fn width() -> nat;

    /// The bits that the value is written as: the number itself, or its
    /// two's complement for a signed type.
    spec fn bits(&self) -> nat;

    /// Writes the value over the front of `buf`, least significant byte first.
    fn encode_le(&self, buf: &mut [u8]) -> (r: Result<(), PError>)
        ensures
            old(buf)@.len() < Self::width() ==> r == Err::<(), PError>(PError::BufTooSmall)
                && final(buf)@ == old(buf)@,
            old(buf)@.len() >= Self::width() ==> r == Ok::<(), PError>(()) && final(buf)@
                == uint_bytes(self.bits(), Self::width(), Endian::Little) + old(buf)@.subrange(
                Self::width() as int,
                old(buf)@.len() as int,
            ),
    ;

    /// Writes the value over the front of `buf`, most significant byte first.
    fn encode_be(&self, buf: &mut [u8]) -> (r: Result<(), PError>)
        ensures
            old(buf)@.len() < Self::width() ==> r == Err::<(), PError>(PError::BufTooSmall)
                && final(buf)@ == old(buf)@,
            old(buf)@.len() >= Self::width() ==> r == Ok::<(), PError>(()) && final(buf)@
                == uint_bytes(self.bits(), Self::width(), Endian::Big) + old(buf)@.subrange(
                Self::width() as int,
                old(buf)@.len() as int,
            ),
    ;

    /// Reads the value from the front of `data`, least significant byte first.
    fn decode_le(&mut self, data: &[u8]) -> (r: Result<(), PError>)
        ensures
            data@.len() < Self::width() ==> r == Err::<(), PError>(PError::NotEnoughData)
                && *final(self) == *old(self),
            data@.len() >= Self::width() ==> r == Ok::<(), PError>(()) && final(self).bits()
                == uint_value(data@.subrange(0, Self::width() as int), Endian::Little),
    ;

    /// Reads the value from the front of `data`, most significant byte first.
    fn decode_be(&mut self, data: &[u8]) -> (r: Result<(), PError>)
        ensures
            data@.len() < Self::width() ==> r == Err::<(), PError>(PError::NotEnoughData)
                && *final(self) == *old(self),
            data@.len() >= Self::width() ==> r == Ok::<(), PError>(()) && final(self).bits()
                == uint_value(data@.subrange(0, Self::width() as int), Endian::Big),
    ;
}

impl Primitive for u8 {
    open spec fn width() -> nat {
        1
    }

    open spec fn bits(&self) -> nat {
        *self as nat
    }

    fn encode_le(&self, buf: &mut [u8]) -> (r: Result<(), PError>) {
        proof {
            lemma_pow256_facts();
        }
        put_uint(buf, *self as u64, 1, Endian::Little)
    }

    fn encode_be(&self, buf: &mut [u8]) -> (r: Result<(), PError>) {
        proof {
            lemma_pow256_facts();
        }
        put_uint(buf, *self as u64, 1, Endian::Big)
    }

    fn decode_le(&mut self, data: &[u8]) -> (r: Result<(), PError>) {
        let n = get_uint(data, 1, Endian::Little)?;
        proof {
            lemma_pow256_facts();
            lemma_uint_value_bound(data@.subrange(0, 1), Endian::Little);
        }
        *self = n as u8;
        Ok(())
    }

    fn decode_be(&mut self, data: &[u8]) -> (r: Result<(), PError>) {
        let n = get_uint(data, 1, Endian::Big)?;
        proof {
            lemma_pow256_facts();
            lemma_uint_value_bound(data@.subrange(0, 1), Endian::Big);
        }
        *self = n as u8;
        Ok(())
    }
}

impl Primitive for u16 {
    open spec fn width() -> nat {
        2
    }

    open spec fn bits(&self) -> nat {
        *self as nat
    }

    fn encode_le(&self, buf: &mut [u8]) -> (r: Result<(), PError>) {
        proof {
            lemma_pow256_facts();
        }
        put_uint(buf, *self as u64, 2, Endian::Little)
    }

    fn encode_be(&self, buf: &mut [u8]) -> (r: Result<(), PError>) {
        proof {
            lemma_pow256_facts();
        }
        put_uint(buf, *self as u64, 2, Endian::Big)
    }

    fn decode_le(&mut self, data: &[u8]) -> (r: Result<(), PError>) {
        let n = get_uint(data, 2, Endian::Little)?;
        proof {
            lemma_pow256_facts();
            lemma_uint_value_bound(data@.subrange(0, 2), Endian::Little);
        }
        *self = n as u16;
        Ok(())
    }

    fn decode_be(&mut self, data: &[u8]) -> (r: Result<(), PError>) {
        let n = get_uint(data, 2, Endian::Big)?;
        proof {
            lemma_pow256_facts();
            lemma_uint_value_bound(data@.subrange(0, 2), Endian::Big);
        }
        *self = n as u16;
        Ok(())
    }
}

impl Primitive for u32 {
    open spec fn width() -> nat {
        4
    }

    open spec fn bits(&self) -> nat {
        *self as nat
    }

    fn encode_le(&self, buf: &mut [u8]) -> (r: Result<(), PError>) {
        proof {
            lemma_pow256_facts();
        }
        put_uint(buf, *self as u64, 4, Endian::Little)
    }

    fn encode_be(&self, buf: &mut [u8]) -> (r: Result<(), PError>) {
        proof {
            lemma_pow256_facts();
        }
        put_uint(buf, *self as u64, 4, Endian::Big)
    }

    fn decode_le(&mut self, data: &[u8]) -> (r: Result<(), PError>) {
        let n = get_uint(data, 4, Endian::Little)?;
        proof {
            lemma_pow256_facts();
            lemma_uint_value_bound(data@.subrange(0, 4), Endian::Little);
        }
        *self = n as u32;
        Ok(())
    }

    fn decode_be(&mut self, data: &[u8]) -> (r: Result<(), PError>) {
        let n = get_uint(data, 4, Endian::Big)?;
        proof {
            lemma_pow256_facts();
            lemma_uint_value_bound(data@.subrange(0, 4), Endian::Big);
        }
        *self = n as u32;
        Ok(())
    }
}

impl Primitive for u64 {
    open spec fn width() -> nat {
        8
    }

    open spec fn bits(&self) -> nat {
        *self as nat
    }

    fn encode_le(&self, buf: &mut [u8]) -> (r: Result<(), PError>) {
        proof {
            lemma_pow256_facts();
        }
        put_uint(buf, *self as u64, 8, Endian::Little)
    }

    fn encode_be(&self, buf: &mut [u8]) -> (r: Result<(), PError>) {
        proof {
            lemma_pow256_facts();
        }
        put_uint(buf, *self as u64, 8, Endian::Big)
    }

    fn decode_le(&mut self, data: &[u8]) -> (r: Result<(), PError>) {
        let n = get_uint(data, 8, Endian::Little)?;
        proof {
            lemma_pow256_facts();
            lemma_uint_value_bound(data@.subrange(0, 8), Endian::Little);
        }
        *self = n as u64;
        Ok(())
    }

    fn decode_be(&mut self, data: &[u8]) -> (r: Result<(), PError>) {
        let n = get_uint(data, 8, Endian::Big)?;
        proof {
            lemma_pow256_facts();
            lemma_uint_value_bound(data@.subrange(0, 8), Endian::Big);
        }
        *self = n as u64;
        Ok(())
    }
}

impl Primitive for i8 {
    open spec fn width() -> nat {
        1
    }

    open spec fn bits(&self) -> nat {
        signed_bits(*self as int, 1)
    }

    fn encode_le(&self, buf: &mut [u8]) -> (r: Result<(), PError>) {
        proof {
            lemma_pow256_facts();
        }
        put_uint(buf, to_signed_bits(*self as i64, 1), 1, Endian::Little)
    }

    fn encode_be(&self, buf: &mut [u8]) -> (r: Result<(), PError>) {
        proof {
            lemma_pow256_facts();
        }
        put_uint(buf, to_signed_bits(*self as i64, 1), 1, Endian::Big)
    }

    fn decode_le(&mut self, data: &[u8]) -> (r: Result<(), PError>) {
        let n = get_uint(data, 1, Endian::Little)?;
        proof {
            lemma_pow256_facts();
            lemma_uint_value_bound(data@.subrange(0, 1), Endian::Little);
        }
        let x = from_bits(n, 1);
        *self = x as i8;
        proof {
            lemma_bits_round_trip(n as nat, 1);
        }
        Ok(())
    }

    fn decode_be(&mut self, data: &[u8]) -> (r: Result<(), PError>) {
        let n = get_uint(data, 1, Endian::Big)?;
        proof {
            lemma_pow256_facts();
            lemma_uint_value_bound(data@.subrange(0, 1), Endian::Big);
        }
        let x = from_bits(n, 1);
        *self = x as i8;
        proof {
            lemma_bits_round_trip(n as nat, 1);
        }
        Ok(())
    }
}

impl Primitive for i16 {
    open spec fn width() -> nat {
        2
    }

    open spec fn bits(&self) -> nat {
        signed_bits(*self as int, 2)
    }

    fn encode_le(&self, buf: &mut [u8]) -> (r: Result<(), PError>) {
        proof {
            lemma_pow256_facts();
        }
        put_uint(buf, to_signed_bits(*self as i64, 2), 2, Endian::Little)
    }

    fn encode_be(&self, buf: &mut [u8]) -> (r: Result<(), PError>) {
        proof {
            lemma_pow256_facts();
        }
        put_uint(buf, to_signed_bits(*self as i64, 2), 2, Endian::Big)
    }

    fn decode_le(&mut self, data: &[u8]) -> (r: Result<(), PError>) {
        let n = get_uint(data, 2, Endian::Little)?;
        proof {
            lemma_pow256_facts();
            lemma_uint_value_bound(data@.subrange(0, 2), Endian::Little);
        }
        let x = from_bits(n, 2);
        *self = x as i16;
        proof {
            lemma_bits_round_trip(n as nat, 2);
        }
        Ok(())
    }

    fn decode_be(&mut self, data: &[u8]) -> (r: Result<(), PError>) {
        let n = get_uint(data, 2, Endian::Big)?;
        proof {
            lemma_pow256_facts();
            lemma_uint_value_bound(data@.subrange(0, 2), Endian::Big);
        }
        let x = from_bits(n, 2);
        *self = x as i16;
        proof {
            lemma_bits_round_trip(n as nat, 2);
        }
        Ok(())
    }
}

impl Primitive for i32 {
    open spec fn width() -> nat {
        4
    }

    open spec fn bits(&self) -> nat {
        signed_bits(*self as int, 4)
    }

    fn encode_le(&self, buf: &mut [u8]) -> (r: Result<(), PError>) {
        proof {
            lemma_pow256_facts();
        }
        put_uint(buf, to_signed_bits(*self as i64, 4), 4, Endian::Little)
    }

    fn encode_be(&self, buf: &mut [u8]) -> (r: Result<(), PError>) {
        proof {
            lemma_pow256_facts();
        }
        put_uint(buf, to_signed_bits(*self as i64, 4), 4, Endian::Big)
    }

    fn decode_le(&mut self, data: &[u8]) -> (r: Result<(), PError>) {
        let n = get_uint(data, 4, Endian::Little)?;
        proof {
            lemma_pow256_facts();
            lemma_uint_value_bound(data@.subrange(0, 4), Endian::Little);
        }
        let x = from_bits(n, 4);
        *self = x as i32;
        proof {
            lemma_bits_round_trip(n as nat, 4);
        }
        Ok(())
    }

    fn decode_be(&mut self, data: &[u8]) -> (r: Result<(), PError>) {
        let n = get_uint(data, 4, Endian::Big)?;
        proof {
            lemma_pow256_facts();
            lemma_uint_value_bound(data@.subrange(0, 4), Endian::Big);
        }
        let x = from_bits(n, 4);
        *self = x as i32;
        proof {
            lemma_bits_round_trip(n as nat, 4);
        }
        Ok(())
    }
}

impl Primitive for i64 {
    open spec fn width() -> nat {
        8
    }

    open spec fn bits(&self) -> nat {
        signed_bits(*self as int, 8)
    }

    fn encode_le(&self, buf: &mut [u8]) -> (r: Result<(), PError>) {
        proof {
            lemma_pow256_facts();
        }
        put_uint(buf, to_signed_bits(*self as i64, 8), 8, Endian::Little)
    }

    fn encode_be(&self, buf: &mut [u8]) -> (r: Result<(), PError>) {
        proof {
            lemma_pow256_facts();
        }
        put_uint(buf, to_signed_bits(*self as i64, 8), 8, Endian::Big)
    }

    fn decode_le(&mut self, data: &[u8]) -> (r: Result<(), PError>) {
        let n = get_uint(data, 8, Endian::Little)?;
        proof {
            lemma_pow256_facts();
            lemma_uint_value_bound(data@.subrange(0, 8), Endian::Little);
        }
        let x = from_bits(n, 8);
        *self = x as i64;
        proof {
            lemma_bits_round_trip(n as nat, 8);
        }
        Ok(())
    }

    fn decode_be(&mut self, data: &[u8]) -> (r: Result<(), PError>) {
        let n = get_uint(data, 8, Endian::Big)?;
        proof {
            lemma_pow256_facts();
            lemma_uint_value_bound(data@.subrange(0, 8), Endian::Big);
        }
        let x = from_bits(n, 8);
        *self = x as i64;
        proof {
            lemma_bits_round_trip(n as nat, 8);
        }
        Ok(())
    }
}

/// Two's complement bits read back as a number give the same bits.
pub proof fn lemma_bits_round_trip(n: nat, w: nat)
    requires
        w == 1 || w == 2 || w == 4 || w == 8,
        n < pow256(w),
    ensures
        signed_bits(from_signed_bits(n, w), w) == n,
        -half(w) <= from_signed_bits(n, w) < half(w),
{
    lemma_pow256_facts();
}


/// Byte order of a two-byte number: little endian writes the low byte
/// first, big endian the high byte first.
pub proof fn lemma_two_byte_order(n: nat)
    requires
        n < 0x1_0000,
    ensures
        uint_bytes(n, 2, Endian::Little) == seq![(n % 256) as u8, (n / 256) as u8],
        uint_bytes(n, 2, Endian::Big) == seq![(n / 256) as u8, (n % 256) as u8],
{
    reveal_with_fuel(le_bytes, 3);
    assert((n / 256) % 256 == n / 256);
    assert(le_bytes(n, 2) =~= seq![(n % 256) as u8, (n / 256) as u8]);
    assert(le_bytes(n, 2).reverse() =~= seq![(n / 256) as u8, (n % 256) as u8]);
}

} // verus!
