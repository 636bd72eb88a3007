//! Little-endian integers in byte buffers.
//!
//! Addresses are 128 bits wide, so that the sum of any two offsets found in a
//! buffer is itself an address: one that lies past the end, and is refused there.
use vstd::prelude::*;

use crate::error::IndexError;

verus! {

/// The number that a little-endian byte string stands for.
pub open spec fn le_value(s: Seq<u8>) -> nat
    decreases s.len(),
{
    if s.len() == 0 {
        0
    } else {
        s[0] as nat + 256 * le_value(s.drop_first())
    }
}

/// The `width` lowest base-256 digits of `n`, lowest first.
pub open spec fn le_digits(n: nat, width: nat) -> Seq<u8>
    decreases width,
{
    if width == 0 {
        Seq::empty()
    } else {
        seq![(n % 256) as u8] + le_digits(n / 256, (width - 1) as nat)
    }
}

/// The `width` bytes of `buf` from `at` on, or nothing where the buffer ends before.
pub open spec fn slice_at(buf: Seq<u8>, at: int, width: int) -> Option<Seq<u8>> {
    if 0 <= at && 0 <= width && at + width <= buf.len() {
        Some(buf.subrange(at, at + width))
    } else {
        None
    }
}

/// The little-endian `u16` at `at`.
pub open spec fn u16_at(buf: Seq<u8>, at: int) -> Result<u16, IndexError> {
    match slice_at(buf, at, 2) {
        Some(s) => Ok(le_value(s) as u16),
        None => Err(IndexError::U16OutOfBounds),
    }
}

/// The little-endian `u32` at `at`.
pub open spec fn u32_at(buf: Seq<u8>, at: int) -> Result<u32, IndexError> {
    match slice_at(buf, at, 4) {
        Some(s) => Ok(le_value(s) as u32),
        None => Err(IndexError::U32OutOfBounds),
    }
}

/// The little-endian `u64` at `at`.
pub open spec fn u64_at(buf: Seq<u8>, at: int) -> Result<u64, IndexError> {
    match slice_at(buf, at, 8) {
        Some(s) => Ok(le_value(s) as u64),
        None => Err(IndexError::U64OutOfBounds),
    }
}

/// The little-endian two's complement `i64` at `at`.
pub open spec fn i64_at(buf: Seq<u8>, at: int) -> Result<i64, IndexError> {
    match u64_at(buf, at) {
        Ok(v) => Ok(v as i64),
        Err(e) => Err(e),
    }
}

/// 256 to the power `width`: the first number that `width` bytes cannot hold.
pub open spec fn le_bound(width: nat) -> nat
    decreases width,
{
    if width == 0 {
        1
    } else {
        256 * le_bound((width - 1) as nat)
    }
}

/// The bounds of the three widths in use.
pub proof fn lemma_le_bounds()
    ensures
        le_bound(1) == 0x100,
        le_bound(2) == 0x1_0000,
        le_bound(4) == 0x1_0000_0000,
        le_bound(8) == 0x1_0000_0000_0000_0000,
{
    reveal_with_fuel(le_bound, 9);
}

/// `width` digits are `width` bytes long.
pub proof fn lemma_le_digits_len(n: nat, width: nat)
    ensures
        le_digits(n, width).len() == width,
    decreases width,
{
    if width > 0 {
        lemma_le_digits_len(n / 256, (width - 1) as nat);
    }
}

/// Reading the digits of a number that fits gives the number back.
pub proof fn lemma_le_value_digits(n: nat, width: nat)
    requires
        n < le_bound(width),
    ensures
        le_value(le_digits(n, width)) == n,
    decreases width,
{
    if width > 0 {
        lemma_le_value_digits(n / 256, (width - 1) as nat);
        let d = le_digits(n, width);
        assert(d.drop_first() =~= le_digits(n / 256, (width - 1) as nat));
        assert(d[0] == (n % 256) as u8);
    }
}

/// A byte string is worth less than the bound of its length.
pub proof fn lemma_le_value_bound(s: Seq<u8>)
    ensures
        le_value(s) < le_bound(s.len()),
    decreases s.len(),
{
    if s.len() > 0 {
        lemma_le_value_bound(s.drop_first());
    }
}

/// The digits of what a byte string is worth are the byte string.
pub proof fn lemma_digits_of_value(s: Seq<u8>)
    ensures
        le_digits(le_value(s), s.len()) == s,
    decreases s.len(),
{
    if s.len() > 0 {
        let rest = s.drop_first();
        lemma_digits_of_value(rest);
        let v = le_value(s);
        assert(v % 256 == s[0] as nat && v / 256 == le_value(rest));
        assert(le_digits(v, s.len()) =~= seq![s[0]] + rest);
        assert(s =~= seq![s[0]] + rest);
    } else {
        assert(le_digits(le_value(s), s.len()) =~= s);
    }
}

/// Numbers that differ by a multiple of the bound have the same digits.
pub proof fn lemma_le_digits_wrap(n: nat, k: nat, width: nat)
    ensures
        le_digits(n + k * le_bound(width), width) == le_digits(n, width),
    decreases width,
{
    if width > 0 {
        let b = le_bound((width - 1) as nat);
        let m = n + k * le_bound(width);
        assert(k * (256 * b) == 256 * (k * b)) by (nonlinear_arith);
        assert(m % 256 == n % 256 && m / 256 == n / 256 + k * b);
        lemma_le_digits_wrap(n / 256, k, (width - 1) as nat);
    }
}

/// The digits of a number in two parts are the digits of the parts, the low part first.
pub proof fn lemma_le_digits_concat(lo: nat, hi: nat, a: nat, b: nat)
    requires
        lo < le_bound(a),
    ensures
        le_digits(lo + hi * le_bound(a), a + b) == le_digits(lo, a) + le_digits(hi, b),
    decreases a,
{
    if a == 0 {
        assert(lo + hi * le_bound(a) == hi);
        assert(le_digits(lo, a) + le_digits(hi, b) =~= le_digits(hi, b));
    } else {
        let c = le_bound((a - 1) as nat);
        let m = lo + hi * le_bound(a);
        assert(hi * (256 * c) == 256 * (hi * c)) by (nonlinear_arith);
        assert(m % 256 == lo % 256 && m / 256 == lo / 256 + hi * c);
        lemma_le_digits_concat(lo / 256, hi, (a - 1) as nat, b);
        assert(le_digits(m, a + b) =~= le_digits(lo, a) + le_digits(hi, b));
    }
}

/// Reads the little-endian `u16` at `at`.
pub fn read_u16(buf: &[u8], at: u128) -> (r: Result<u16, IndexError>)
    ensures
        r == u16_at(buf@, at as int),
{
    let len = buf.len();
    if len < 2 || at > (len - 2) as u128 {
        return Err(IndexError::U16OutOfBounds);
    }
    let i = at as usize;
    let v: u16 = buf[i] as u16 + 256 * buf[i + 1] as u16;
    proof {
        reveal_with_fuel(le_value, 3);
        let s = buf@.subrange(i as int, i + 2);
        assert(le_value(s) == v);
    }
    Ok(v)
}

/// Reads the little-endian `u32` at `at`.
pub fn read_u32(buf: &[u8], at: u128) -> (r: Result<u32, IndexError>)
    ensures
        r == u32_at(buf@, at as int),
{
    let len = buf.len();
    if len < 4 || at > (len - 4) as u128 {
        return Err(IndexError::U32OutOfBounds);
    }
    let i = at as usize;
    let v: u32 = buf[i] as u32 + 0x100 * buf[i + 1] as u32 + 0x1_0000 * buf[i + 2] as u32
        + 0x100_0000 * buf[i + 3] as u32;
    proof {
        reveal_with_fuel(le_value, 5);
        let s = buf@.subrange(i as int, i + 4);
        assert(le_value(s) == v);
    }
    Ok(v)
}

/// Reads the little-endian `u64` at `at`.
pub fn read_u64(buf: &[u8], at: u128) -> (r: Result<u64, IndexError>)
    ensures
        r == u64_at(buf@, at as int),
{
    let len = buf.len();
    if len < 8 || at > (len - 8) as u128 {
        return Err(IndexError::U64OutOfBounds);
    }
    let i = at as usize;
    let v: u64 = buf[i] as u64 + 0x100 * buf[i + 1] as u64 + 0x1_0000 * buf[i + 2] as u64
        + 0x100_0000 * buf[i + 3] as u64 + 0x1_0000_0000 * buf[i + 4] as u64 + 0x100_0000_0000
        * buf[i + 5] as u64 + 0x1_0000_0000_0000 * buf[i + 6] as u64 + 0x100_0000_0000_0000 * buf[i
        + 7] as u64;
    proof {
        reveal_with_fuel(le_value, 9);
        let s = buf@.subrange(i as int, i + 8);
        assert(le_value(s) == v);
    }
    Ok(v)
}

/// Reads the little-endian two's complement `i64` at `at`.
pub fn read_i64(buf: &[u8], at: u128) -> (r: Result<i64, IndexError>)
    ensures
        r == i64_at(buf@, at as int),
{
    match read_u64(buf, at) {
        Ok(v) => Ok(v as i64),
        Err(e) => Err(e),
    }
}

/// Appends the bytes of `more`.
pub fn push_bytes(buf: &mut Vec<u8>, more: &[u8])
    ensures
        final(buf)@ == old(buf)@ + more@,
{
    let ghost before = buf@;
    for i in 0..more.len()
        invariant
            buf@ == before + more@.take(i as int),
    {
        buf.push(more[i]);
        assert(more@.take(i + 1) =~= more@.take(i as int).push(more@[i as int]));
    }
    assert(more@.take(more@.len() as int) =~= more@);
}

/// Appends `v` as two little-endian bytes.
pub fn push_u16(buf: &mut Vec<u8>, v: u16)
    ensures
        final(buf)@ == old(buf)@ + le_digits(v as nat, 2),
{
    let ghost before = buf@;
    buf.push((v % 256) as u8);
    buf.push((v / 256) as u8);
    proof {
        reveal_with_fuel(le_digits, 3);
        assert(buf@ =~= before + le_digits(v as nat, 2));
    }
}

/// Appends `v` as four little-endian bytes.
pub fn push_u32(buf: &mut Vec<u8>, v: u32)
    ensures
        final(buf)@ == old(buf)@ + le_digits(v as nat, 4),
{
    let ghost before = buf@;
    push_u16(buf, (v % 0x1_0000) as u16);
    push_u16(buf, (v / 0x1_0000) as u16);
    proof {
        lemma_le_bounds();
        lemma_le_digits_concat((v % 0x1_0000) as nat, (v / 0x1_0000) as nat, 2, 2);
        assert(buf@ =~= before + le_digits(v as nat, 4));
    }
}

/// Appends `v` as eight little-endian bytes.
pub fn push_u64(buf: &mut Vec<u8>, v: u64)
    ensures
        final(buf)@ == old(buf)@ + le_digits(v as nat, 8),
{
    let ghost before = buf@;
    push_u32(buf, (v % 0x1_0000_0000) as u32);
    push_u32(buf, (v / 0x1_0000_0000) as u32);
    proof {
        lemma_le_bounds();
        lemma_le_digits_concat((v % 0x1_0000_0000) as nat, (v / 0x1_0000_0000) as nat, 4, 4);
        assert(buf@ =~= before + le_digits(v as nat, 8));
    }
}

/// Appends the four lowest base-256 digits of a length.
pub fn push_count(buf: &mut Vec<u8>, n: usize)
    ensures
        final(buf)@ == old(buf)@ + le_digits(n as nat, 4),
{
    let low: u64 = n as u64 % 0x1_0000_0000;
    proof {
        lemma_le_bounds();
        lemma_le_digits_wrap(low as nat, (n as u64 / 0x1_0000_0000) as nat, 4);
    }
    push_u32(buf, low as u32);
}

/// Appends the eight lowest base-256 digits of an address.
pub fn push_long(buf: &mut Vec<u8>, n: u128)
    ensures
        final(buf)@ == old(buf)@ + le_digits(n as nat, 8),
{
    let low: u128 = n % 0x1_0000_0000_0000_0000;
    proof {
        lemma_le_bounds();
        lemma_le_digits_wrap(low as nat, (n / 0x1_0000_0000_0000_0000) as nat, 8);
    }
    push_u64(buf, low as u64);
}

/// What is read as a `u16`: two bytes, the lower first; past the end, an error.
pub proof fn law_u16_at(buf: Seq<u8>, at: int)
    ensures
        0 <= at && at + 2 <= buf.len() ==> u16_at(buf, at) is Ok && u16_at(buf, at)->Ok_0 == buf[at]
            + 0x100 * buf[at + 1],
        at < 0 || at + 2 > buf.len() ==> u16_at(buf, at) == Err::<u16, IndexError>(
            IndexError::U16OutOfBounds,
        ),
{
    reveal_with_fuel(le_value, 3);
    if 0 <= at && at + 2 <= buf.len() {
        let s = buf.subrange(at, at + 2);
        assert(le_value(s) == buf[at] + 0x100 * buf[at + 1]);
    }
}

/// What is read as a `u32`: four bytes, the lowest first; past the end, an error.
pub proof fn law_u32_at(buf: Seq<u8>, at: int)
    ensures
        0 <= at && at + 4 <= buf.len() ==> u32_at(buf, at) is Ok && u32_at(buf, at)->Ok_0 == buf[at]
            + 0x100 * buf[at + 1] + 0x1_0000 * buf[at + 2] + 0x100_0000 * buf[at + 3],
        at < 0 || at + 4 > buf.len() ==> u32_at(buf, at) == Err::<u32, IndexError>(
            IndexError::U32OutOfBounds,
        ),
{
    reveal_with_fuel(le_value, 5);
    if 0 <= at && at + 4 <= buf.len() {
        let s = buf.subrange(at, at + 4);
        assert(le_value(s) == buf[at] + 0x100 * buf[at + 1] + 0x1_0000 * buf[at + 2] + 0x100_0000
            * buf[at + 3]);
    }
}

/// What is read as a `u64`: eight bytes, the lowest first; past the end, an error.
pub proof fn law_u64_at(buf: Seq<u8>, at: int)
    ensures
        0 <= at && at + 8 <= buf.len() ==> u64_at(buf, at) is Ok && u64_at(buf, at)->Ok_0 == buf[at]
            + 0x100 * buf[at + 1] + 0x1_0000 * buf[at + 2] + 0x100_0000 * buf[at + 3]
            + 0x1_0000_0000 * buf[at + 4] + 0x100_0000_0000 * buf[at + 5] + 0x1_0000_0000_0000
            * buf[at + 6] + 0x100_0000_0000_0000 * buf[at + 7],
        at < 0 || at + 8 > buf.len() ==> u64_at(buf, at) == Err::<u64, IndexError>(
            IndexError::U64OutOfBounds,
        ),
{
    reveal_with_fuel(le_value, 9);
    if 0 <= at && at + 8 <= buf.len() {
        let s = buf.subrange(at, at + 8);
        assert(le_value(s) == buf[at] + 0x100 * buf[at + 1] + 0x1_0000 * buf[at + 2] + 0x100_0000
            * buf[at + 3] + 0x1_0000_0000 * buf[at + 4] + 0x100_0000_0000 * buf[at + 5]
            + 0x1_0000_0000_0000 * buf[at + 6] + 0x100_0000_0000_0000 * buf[at + 7]);
    }
}

/// What is read as an `i64`: the `u64` there, less 2^64 where its highest bit is set.
pub proof fn law_i64_at(buf: Seq<u8>, at: int)
    ensures
        match (u64_at(buf, at), i64_at(buf, at)) {
            (Ok(u), Ok(i)) => i as int == (if u < 0x8000_0000_0000_0000 {
                u as int
            } else {
                u - 0x1_0000_0000_0000_0000
            }),
            (Err(e), Err(f)) => e == f,
            _ => false,
        },
{
    match u64_at(buf, at) {
        Ok(u) => {
            assert(u < 0x8000_0000_0000_0000 ==> (u as i64) as int == u as int) by (bit_vector);
            assert(u >= 0x8000_0000_0000_0000 ==> (u as i64) as int == u as int
                - 0x1_0000_0000_0000_0000) by (bit_vector);
        },
        Err(_) => {},
    }
}

} // verus!
