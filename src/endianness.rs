//! Bytes to values conversions according to endianness.
//!
//! Under little endian order the first byte is the least significant; under
//! big endian order it is the most significant. A single byte reads the same
//! either way, and bytes to bytes is the identity.
use vstd::arithmetic::power2::{lemma2_to64, lemma_pow2_adds, lemma_pow2_strictly_increases, pow2};
use vstd::prelude::*;
use vstd::slice::slice_subrange;

use crate::common::{
    as_nats, chunks, lemma_chunks_prefix, AsPrimitive, LengthError, Layout, Sequence,
};

verus! {

/// The number whose little endian bytes are `s`.
pub open spec fn le_value(s: Seq<u8>) -> nat
    decreases s.len(),
{
    if s.len() == 0 {
        0
    } else {
        (s[0] + 256 * le_value(s.drop_first())) as nat
    }
}

/// The number whose big endian bytes are `s`.
pub open spec fn be_value(s: Seq<u8>) -> nat
    decreases s.len(),
{
    if s.len() == 0 {
        0
    } else {
        (be_value(s.drop_last()) * 256 + s.last()) as nat
    }
}

/// `n` bytes hold a number below 2^(8n), in either order.
pub proof fn lemma_value_bound(s: Seq<u8>)
    ensures
        le_value(s) < pow2(8 * s.len()),
        be_value(s) < pow2(8 * s.len()),
    decreases s.len(),
{
    lemma2_to64();
    if s.len() > 0 {
        lemma_value_bound(s.drop_first());
        lemma_value_bound(s.drop_last());
        let m = (8 * (s.len() - 1)) as nat;
        lemma_pow2_adds(m, 8);
        assert(8 * s.len() == m + 8);
    }
}

proof fn lemma_pow2_bytes(k: nat)
    requires
        k <= 16,
    ensures
        pow2(8 * k) <= 0x1_0000_0000_0000_0000_0000_0000_0000_0000nat,
{
    lemma2_to64();
    lemma_pow2_adds(64, 64);
    if k < 16 {
        lemma_pow2_strictly_increases(8 * k, 128);
    }
}

/// Reads up to 16 bytes as a little endian number.
fn le_uint(bytes: &[u8]) -> (r: u128)
    requires
        bytes@.len() <= 16,
    ensures
        r == le_value(bytes@),
{
    let n = bytes.len();
    let mut acc: u128 = 0;
    let mut k: usize = n;
    assert(bytes@.skip(n as int) =~= seq![]);
    while k > 0
        invariant
            n == bytes@.len(),
            n <= 16,
            k <= n,
            acc == le_value(bytes@.skip(k as int)),
        decreases k,
    {
        proof {
            let s = bytes@.skip(k - 1);
            assert(s.drop_first() =~= bytes@.skip(k as int));
            lemma_value_bound(s);
            lemma_pow2_bytes(s.len());
        }
        acc = bytes[k - 1] as u128 + 256 * acc;
        k = k - 1;
    }
    assert(bytes@.skip(0) =~= bytes@);
    acc
}

/// Reads up to 16 bytes as a big endian number.
fn be_uint(bytes: &[u8]) -> (r: u128)
    requires
        bytes@.len() <= 16,
    ensures
        r == be_value(bytes@),
{
    let n = bytes.len();
    let mut acc: u128 = 0;
    let mut i: usize = 0;
    assert(bytes@.take(0) =~= seq![]);
    while i < n
        invariant
            n == bytes@.len(),
            n <= 16,
            i <= n,
            acc == be_value(bytes@.take(i as int)),
        decreases n - i,
    {
        proof {
            let s = bytes@.take(i + 1);
            assert(s.drop_last() =~= bytes@.take(i as int));
            lemma_value_bound(s);
            lemma_pow2_bytes(s.len());
        }
        acc = acc * 256 + bytes[i] as u128;
        i = i + 1;
    }
    assert(bytes@.take(n as int) =~= bytes@);
    acc
}

/// Word `i` of `bytes` cut into little endian words of `size` bytes; 0 where
/// the bytes run out before the word is complete.
pub open spec fn le_words(bytes: Seq<u8>, size: nat, count: nat) -> Seq<nat> {
    Seq::new(
        count,
        |i: int|
            if (i + 1) * size <= bytes.len() {
                le_value(bytes.subrange(i * size, (i + 1) * size))
            } else {
                0
            },
    )
}

/// Word `i` of `bytes` cut into big endian words of `size` bytes; 0 where
/// the bytes run out before the word is complete.
pub open spec fn be_words(bytes: Seq<u8>, size: nat, count: nat) -> Seq<nat> {
    Seq::new(
        count,
        |i: int|
            if (i + 1) * size <= bytes.len() {
                be_value(bytes.subrange(i * size, (i + 1) * size))
            } else {
                0
            },
    )
}

proof fn lemma_words_bound(bytes: Seq<u8>, size: nat, count: nat, i: int)
    requires
        0 <= i < count,
    ensures
        le_words(bytes, size, count)[i] < pow2(8 * size),
        be_words(bytes, size, count)[i] < pow2(8 * size),
{
    lemma2_to64();
    if (i + 1) * size <= bytes.len() {
        assert(0 <= i * size <= (i + 1) * size) by (nonlinear_arith)
            requires
                0 <= i,
        ;
        assert((i + 1) * size - i * size == size) by (nonlinear_arith);
        lemma_value_bound(bytes.subrange(i * size, (i + 1) * size));
    } else {
        vstd::arithmetic::power2::lemma_pow2_pos(8 * size);
    }
}

/// Cuts `bytes` into `count` words of `size` bytes and reads each in the
/// given order; a word that the bytes do not complete reads as 0.
fn read_words(bytes: &[u8], size: usize, count: usize, little: bool) -> (r: Vec<u128>)
    requires
        1 <= size <= 16,
    ensures
        r@.len() == count,
        little ==> as_nats(r@) == le_words(bytes@, size as nat, count as nat),
        !little ==> as_nats(r@) == be_words(bytes@, size as nat, count as nat),
{
    let len = bytes.len();
    let full = len / size;
    let mut out: Vec<u128> = Vec::new();
    let mut i: usize = 0;
    while i < count
        invariant
            len == bytes@.len(),
            1 <= size <= 16,
            full == len / size,
            i <= count,
            out@.len() == i,
            little ==> forall|j: int|
                0 <= j < i ==> out@[j] == #[trigger] le_words(bytes@, size as nat, count as nat)[j],
            !little ==> forall|j: int|
                0 <= j < i ==> out@[j] == #[trigger] be_words(bytes@, size as nat, count as nat)[j],
        decreases count - i,
    {
        if i < full {
            assert((i + 1) * size <= len && i * size + size == (i + 1) * size) by (nonlinear_arith)
                requires
                    i < full,
                    full == len / size,
                    size >= 1,
            ;
            let start = i * size;
            let word = slice_subrange(bytes, start, start + size);
            let w = if little {
                le_uint(word)
            } else {
                be_uint(word)
            };
            out.push(w);
        } else {
            assert((i + 1) * size > len) by (nonlinear_arith)
                requires
                    i >= full,
                    full == len / size,
                    size >= 1,
            ;
            out.push(0);
        }
        i = i + 1;
    }
    proof {
        if little {
            assert(as_nats(out@) =~= le_words(bytes@, size as nat, count as nat));
        } else {
            assert(as_nats(out@) =~= be_words(bytes@, size as nat, count as nat));
        }
    }
    out
}

/// Fills an array with the words, each converted to the element type.
fn fill_array<T: Copy + Default, const M: usize>(words: &Vec<u128>) -> (r: [T; M]) where
    u128: AsPrimitive<T>,

    requires
        words@.len() == M,
    ensures
        forall|i: int| 0 <= i < M ==> r@[i] == #[trigger] words@[i].spec_as_primitive(),
{
    let mut out: [T; M] = [T::default(); M];
    let mut i: usize = 0;
    while i < M
        invariant
            words@.len() == M,
            i <= M,
            forall|j: int| 0 <= j < i ==> out@[j] == #[trigger] words@[j].spec_as_primitive(),
        decreases M - i,
    {
        out[i] = words[i].as_primitive();
        i = i + 1;
    }
    out
}

/// Little endian bytes to value conversion.
///
/// It is the reciprocal of [LeBytesInto].
pub trait FromLeBytes<const N: usize>: Sized {
    /// Whether `r` is what the bytes decode to.
    spec fn le_decodes(bytes: Seq<u8>, r: Self) -> bool;

    fn from_le_bytes(bytes: [u8; N]) -> (r: Self)
        ensures
            Self::le_decodes(bytes@, r),
    ;
}

/// Little endian bytes to value conversion that consumes the input bytes.
///
/// The opposite of [FromLeBytes]; implement [FromLeBytes] instead.
pub trait LeBytesInto<T>: Sized {
    /// Whether `r` is what `self` decodes to.
    spec fn le_bytes_into_decodes(self, r: T) -> bool;

    fn le_bytes_into(self) -> (r: T)
        ensures
            self.le_bytes_into_decodes(r),
    ;
}

impl<T: FromLeBytes<N>, const N: usize> LeBytesInto<T> for [u8; N] {
    open spec fn le_bytes_into_decodes(self, r: T) -> bool {
        T::le_decodes(self@, r)
    }

    fn le_bytes_into(self) -> (r: T) {
        T::from_le_bytes(self)
    }
}

/// One byte array conversion.
impl FromLeBytes<1> for u8 {
    open spec fn le_decodes(bytes: Seq<u8>, r: u8) -> bool {
        r == le_value(bytes)
    }

    fn from_le_bytes(bytes: [u8; 1]) -> (r: u8) {
        proof {
            assert(bytes@.drop_first() =~= seq![]);
            assert(bytes@.drop_last() =~= seq![]);
            assert(le_value(bytes@.drop_first()) == 0);
            assert(be_value(bytes@.drop_last()) == 0);
        }
        bytes[0]
    }
}

/// Bytes to bytes (no) conversion.
impl<const N: usize> FromLeBytes<N> for [u8; N] {
    open spec fn le_decodes(bytes: Seq<u8>, r: [u8; N]) -> bool {
        r@ == bytes
    }

    fn from_le_bytes(bytes: [u8; N]) -> (r: [u8; N]) {
        bytes
    }
}

impl FromLeBytes<2> for u16 {
    open spec fn le_decodes(bytes: Seq<u8>, r: u16) -> bool {
        r == le_value(bytes)
    }

    fn from_le_bytes(bytes: [u8; 2]) -> (r: u16) {
        let v = le_uint(bytes.as_slice());
        proof {
            lemma_value_bound(bytes@);
            lemma2_to64();
        }
        v as u16
    }
}

/// Consecutive words of 2 bytes; a word that the bytes do not
/// complete reads as 0, and bytes past the last word are ignored.
impl<const N: usize, const M: usize> FromLeBytes<N> for [u16; M] {
    open spec fn le_decodes(bytes: Seq<u8>, r: [u16; M]) -> bool {
        forall|i: int| 0 <= i < M ==> r@[i] == #[trigger] le_words(bytes, 2, M as nat)[i]
    }

    fn from_le_bytes(bytes: [u8; N]) -> (r: [u16; M]) {
        let words = read_words(bytes.as_slice(), 2, M, true);
        let r: [u16; M] = fill_array(&words);
        proof {
            lemma2_to64();
            assert forall|i: int| 0 <= i < M implies r@[i] == #[trigger] le_words(
                bytes@,
                2,
                M as nat,
            )[i] by {
                lemma_words_bound(bytes@, 2, M as nat, i);
                assert(words@[i] == as_nats(words@)[i]);
                assert(r@[i] == <u128 as AsPrimitive<u16>>::spec_as_primitive(words@[i]));
                assert(words@[i] < 0x1_0000);
                assert(<u128 as AsPrimitive<u16>>::spec_as_primitive(words@[i]) == (words@[i] % 0x1_0000) as u16);
            }
        }
        r
    }
}

impl FromLeBytes<4> for u32 {
    open spec fn le_decodes(bytes: Seq<u8>, r: u32) -> bool {
        r == le_value(bytes)
    }

    fn from_le_bytes(bytes: [u8; 4]) -> (r: u32) {
        let v = le_uint(bytes.as_slice());
        proof {
            lemma_value_bound(bytes@);
            lemma2_to64();
        }
        v as u32
    }
}

/// Consecutive words of 4 bytes; a word that the bytes do not
/// complete reads as 0, and bytes past the last word are ignored.
impl<const N: usize, const M: usize> FromLeBytes<N> for [u32; M] {
    open spec fn le_decodes(bytes: Seq<u8>, r: [u32; M]) -> bool {
        forall|i: int| 0 <= i < M ==> r@[i] == #[trigger] le_words(bytes, 4, M as nat)[i]
    }

    fn from_le_bytes(bytes: [u8; N]) -> (r: [u32; M]) {
        let words = read_words(bytes.as_slice(), 4, M, true);
        let r: [u32; M] = fill_array(&words);
        proof {
            lemma2_to64();
            assert forall|i: int| 0 <= i < M implies r@[i] == #[trigger] le_words(
                bytes@,
                4,
                M as nat,
            )[i] by {
                lemma_words_bound(bytes@, 4, M as nat, i);
                assert(words@[i] == as_nats(words@)[i]);
                assert(r@[i] == <u128 as AsPrimitive<u32>>::spec_as_primitive(words@[i]));
                assert(words@[i] < 0x1_0000_0000);
                assert(<u128 as AsPrimitive<u32>>::spec_as_primitive(words@[i]) == (words@[i] % 0x1_0000_0000) as u32);
            }
        }
        r
    }
}

impl FromLeBytes<8> for u64 {
    open spec fn le_decodes(bytes: Seq<u8>, r: u64) -> bool {
        r == le_value(bytes)
    }

    fn from_le_bytes(bytes: [u8; 8]) -> (r: u64) {
        let v = le_uint(bytes.as_slice());
        proof {
            lemma_value_bound(bytes@);
            lemma2_to64();
        }
        v as u64
    }
}

/// Consecutive words of 8 bytes; a word that the bytes do not
/// complete reads as 0, and bytes past the last word are ignored.
impl<const N: usize, const M: usize> FromLeBytes<N> for [u64; M] {
    open spec fn le_decodes(bytes: Seq<u8>, r: [u64; M]) -> bool {
        forall|i: int| 0 <= i < M ==> r@[i] == #[trigger] le_words(bytes, 8, M as nat)[i]
    }

    fn from_le_bytes(bytes: [u8; N]) -> (r: [u64; M]) {
        let words = read_words(bytes.as_slice(), 8, M, true);
        let r: [u64; M] = fill_array(&words);
        proof {
            lemma2_to64();
            assert forall|i: int| 0 <= i < M implies r@[i] == #[trigger] le_words(
                bytes@,
                8,
                M as nat,
            )[i] by {
                lemma_words_bound(bytes@, 8, M as nat, i);
                assert(words@[i] == as_nats(words@)[i]);
                assert(r@[i] == <u128 as AsPrimitive<u64>>::spec_as_primitive(words@[i]));
                assert(words@[i] < 0x1_0000_0000_0000_0000);
                assert(<u128 as AsPrimitive<u64>>::spec_as_primitive(words@[i]) == (words@[i] % 0x1_0000_0000_0000_0000) as u64);
            }
        }
        r
    }
}

impl FromLeBytes<16> for u128 {
    open spec fn le_decodes(bytes: Seq<u8>, r: u128) -> bool {
        r == le_value(bytes)
    }

    fn from_le_bytes(bytes: [u8; 16]) -> (r: u128) {
        let v = le_uint(bytes.as_slice());
        proof {
            lemma_value_bound(bytes@);
            lemma2_to64();
        }
        v as u128
    }
}

/// Consecutive words of 16 bytes; a word that the bytes do not
/// complete reads as 0, and bytes past the last word are ignored.
impl<const N: usize, const M: usize> FromLeBytes<N> for [u128; M] {
    open spec fn le_decodes(bytes: Seq<u8>, r: [u128; M]) -> bool {
        forall|i: int| 0 <= i < M ==> r@[i] == #[trigger] le_words(bytes, 16, M as nat)[i]
    }

    fn from_le_bytes(bytes: [u8; N]) -> (r: [u128; M]) {
        let words = read_words(bytes.as_slice(), 16, M, true);
        let r: [u128; M] = fill_array(&words);
        proof {
            lemma2_to64();
            assert forall|i: int| 0 <= i < M implies r@[i] == #[trigger] le_words(
                bytes@,
                16,
                M as nat,
            )[i] by {
                assert(words@[i] == as_nats(words@)[i]);
                assert(r@[i] == <u128 as AsPrimitive<u128>>::spec_as_primitive(words@[i]));
            }
        }
        r
    }
}

/// Eight bytes as a `usize`, keeping the bits that fit in it (all of them
/// where `usize` is 64 bits wide).
impl FromLeBytes<8> for usize {
    open spec fn le_decodes(bytes: Seq<u8>, r: usize) -> bool {
        r == le_value(bytes) % (usize::MAX as nat + 1)
    }

    fn from_le_bytes(bytes: [u8; 8]) -> (r: usize) {
        let v = le_uint(bytes.as_slice());
        (v % (usize::MAX as u128 + 1)) as usize
    }
}

/// Consecutive words of 8 bytes, each keeping the bits that fit in a
/// `usize`; a word that the bytes do not
/// complete reads as 0, and bytes past the last word are ignored.
impl<const N: usize, const M: usize> FromLeBytes<N> for [usize; M] {
    open spec fn le_decodes(bytes: Seq<u8>, r: [usize; M]) -> bool {
        forall|i: int|
            0 <= i < M ==> r@[i] == #[trigger] le_words(bytes, 8, M as nat)[i] % (usize::MAX as nat + 1)
    }

    fn from_le_bytes(bytes: [u8; N]) -> (r: [usize; M]) {
        let words = read_words(bytes.as_slice(), 8, M, true);
        let r: [usize; M] = fill_array(&words);
        proof {
            lemma2_to64();
            assert forall|i: int| 0 <= i < M implies r@[i] == #[trigger] le_words(
                bytes@,
                8,
                M as nat,
            )[i] % (usize::MAX as nat + 1) by {
                assert(words@[i] == as_nats(words@)[i]);
                assert(r@[i] == <u128 as AsPrimitive<usize>>::spec_as_primitive(words@[i]));
            }
        }
        r
    }
}

/// Little endian bytes slice to value conversion that may fail.
///
/// It is the reciprocal of [LeBytesTryInto].
pub trait TryFromLeBytes<const N: usize>: Sized + FromLeBytes<N> {
    /// Decodes the first `N` bytes of `slice` and keeps the rest as the
    /// tail; fails when the slice is shorter than `N`.
    fn try_from_le_bytes(slice: &[u8]) -> (r: Result<Sequence<Self, &[u8]>, LengthError>)
        ensures
            r is Ok <==> N <= slice@.len(),
            r matches Ok(s) ==> Self::le_decodes(slice@.take(N as int), s.head) && s.tail@
                == slice@.skip(N as int),
            r matches Err(e) ==> e.needed == N && e.available == slice@.len(),
    ;
}

impl<T: FromLeBytes<N>, const N: usize> TryFromLeBytes<N> for T {
    fn try_from_le_bytes(slice: &[u8]) -> (r: Result<Sequence<Self, &[u8]>, LengthError>) {
        match Sequence::<[u8; N], &[u8]>::try_from_slice(slice) {
            Ok(s) => Ok(Sequence { head: T::from_le_bytes(s.head), tail: s.tail }),
            Err(e) => Err(e),
        }
    }
}

/// Little endian bytes slice to value attempted conversion.
///
/// The opposite of [TryFromLeBytes]; implement [TryFromLeBytes] instead.
pub trait LeBytesTryInto<'a, T: FromLeBytes<N>, const N: usize> {
    /// Performs the conversion.
    fn le_bytes_try_into(self) -> (r: Result<Sequence<T, &'a [u8]>, LengthError>);
}

impl<'a, T: TryFromLeBytes<N>, const N: usize> LeBytesTryInto<'a, T, N> for &'a [u8] {
    fn le_bytes_try_into(self) -> (r: Result<Sequence<T, &'a [u8]>, LengthError>)
        ensures
            r is Ok <==> N <= self@.len(),
            r matches Ok(s) ==> T::le_decodes(self@.take(N as int), s.head) && s.tail@
                == self@.skip(N as int),
    {
        T::try_from_le_bytes(self)
    }
}

/// Type wrapper for little endian bytes value.
#[derive(Debug, Clone, PartialEq, Eq)]
pub struct Le<T>(pub T);

impl<T> Le<T> {
    /// Decodes `bytes` in little endian order and wraps the result.
    pub fn decode<const N: usize>(bytes: [u8; N]) -> (r: Self) where T: FromLeBytes<N>
        ensures
            T::le_decodes(bytes@, r.0),
    {
        Le(T::from_le_bytes(bytes))
    }
}

/// Big endian bytes to value conversion.
///
/// It is the reciprocal of [BeBytesInto].
pub trait FromBeBytes<const N: usize>: Sized {
    /// Whether `r` is what the bytes decode to.
    spec fn be_decodes(bytes: Seq<u8>, r: Self) -> bool;

    fn from_be_bytes(bytes: [u8; N]) -> (r: Self)
        ensures
            Self::be_decodes(bytes@, r),
    ;
}

/// Big endian bytes to value conversion that consumes the input bytes.
///
/// The opposite of [FromBeBytes]; implement [FromBeBytes] instead.
pub trait BeBytesInto<T>: Sized {
    /// Whether `r` is what `self` decodes to.
    spec fn be_bytes_into_decodes(self, r: T) -> bool;

    fn be_bytes_into(self) -> (r: T)
        ensures
            self.be_bytes_into_decodes(r),
    ;
}

impl<T: FromBeBytes<N>, const N: usize> BeBytesInto<T> for [u8; N] {
    open spec fn be_bytes_into_decodes(self, r: T) -> bool {
        T::be_decodes(self@, r)
    }

    fn be_bytes_into(self) -> (r: T) {
        T::from_be_bytes(self)
    }
}

/// One byte array conversion.
impl FromBeBytes<1> for u8 {
    open spec fn be_decodes(bytes: Seq<u8>, r: u8) -> bool {
        r == be_value(bytes)
    }

    fn from_be_bytes(bytes: [u8; 1]) -> (r: u8) {
        proof {
            assert(bytes@.drop_first() =~= seq![]);
            assert(bytes@.drop_last() =~= seq![]);
            assert(le_value(bytes@.drop_first()) == 0);
            assert(be_value(bytes@.drop_last()) == 0);
        }
        bytes[0]
    }
}

/// Bytes to bytes (no) conversion.
impl<const N: usize> FromBeBytes<N> for [u8; N] {
    open spec fn be_decodes(bytes: Seq<u8>, r: [u8; N]) -> bool {
        r@ == bytes
    }

    fn from_be_bytes(bytes: [u8; N]) -> (r: [u8; N]) {
        bytes
    }
}

impl FromBeBytes<2> for u16 {
    open spec fn be_decodes(bytes: Seq<u8>, r: u16) -> bool {
        r == be_value(bytes)
    }

    fn from_be_bytes(bytes: [u8; 2]) -> (r: u16) {
        let v = be_uint(bytes.as_slice());
        proof {
            lemma_value_bound(bytes@);
            lemma2_to64();
        }
        v as u16
    }
}

/// Consecutive words of 2 bytes; a word that the bytes do not
/// complete reads as 0, and bytes past the last word are ignored.
impl<const N: usize, const M: usize> FromBeBytes<N> for [u16; M] {
    open spec fn be_decodes(bytes: Seq<u8>, r: [u16; M]) -> bool {
        forall|i: int| 0 <= i < M ==> r@[i] == #[trigger] be_words(bytes, 2, M as nat)[i]
    }

    fn from_be_bytes(bytes: [u8; N]) -> (r: [u16; M]) {
        let words = read_words(bytes.as_slice(), 2, M, false);
        let r: [u16; M] = fill_array(&words);
        proof {
            lemma2_to64();
            assert forall|i: int| 0 <= i < M implies r@[i] == #[trigger] be_words(
                bytes@,
                2,
                M as nat,
            )[i] by {
                lemma_words_bound(bytes@, 2, M as nat, i);
                assert(words@[i] == as_nats(words@)[i]);
                assert(r@[i] == <u128 as AsPrimitive<u16>>::spec_as_primitive(words@[i]));
                assert(words@[i] < 0x1_0000);
                assert(<u128 as AsPrimitive<u16>>::spec_as_primitive(words@[i]) == (words@[i] % 0x1_0000) as u16);
            }
        }
        r
    }
}

impl FromBeBytes<4> for u32 {
    open spec fn be_decodes(bytes: Seq<u8>, r: u32) -> bool {
        r == be_value(bytes)
    }

    fn from_be_bytes(bytes: [u8; 4]) -> (r: u32) {
        let v = be_uint(bytes.as_slice());
        proof {
            lemma_value_bound(bytes@);
            lemma2_to64();
        }
        v as u32
    }
}

/// Consecutive words of 4 bytes; a word that the bytes do not
/// complete reads as 0, and bytes past the last word are ignored.
impl<const N: usize, const M: usize> FromBeBytes<N> for [u32; M] {
    open spec fn be_decodes(bytes: Seq<u8>, r: [u32; M]) -> bool {
        forall|i: int| 0 <= i < M ==> r@[i] == #[trigger] be_words(bytes, 4, M as nat)[i]
    }

    fn from_be_bytes(bytes: [u8; N]) -> (r: [u32; M]) {
        let words = read_words(bytes.as_slice(), 4, M, false);
        let r: [u32; M] = fill_array(&words);
        proof {
            lemma2_to64();
            assert forall|i: int| 0 <= i < M implies r@[i] == #[trigger] be_words(
                bytes@,
                4,
                M as nat,
            )[i] by {
                lemma_words_bound(bytes@, 4, M as nat, i);
                assert(words@[i] == as_nats(words@)[i]);
                assert(r@[i] == <u128 as AsPrimitive<u32>>::spec_as_primitive(words@[i]));
                assert(words@[i] < 0x1_0000_0000);
                assert(<u128 as AsPrimitive<u32>>::spec_as_primitive(words@[i]) == (words@[i] % 0x1_0000_0000) as u32);
            }
        }
        r
    }
}

impl FromBeBytes<8> for u64 {
    open spec fn be_decodes(bytes: Seq<u8>, r: u64) -> bool {
        r == be_value(bytes)
    }

    fn from_be_bytes(bytes: [u8; 8]) -> (r: u64) {
        let v = be_uint(bytes.as_slice());
        proof {
            lemma_value_bound(bytes@);
            lemma2_to64();
        }
        v as u64
    }
}

/// Consecutive words of 8 bytes; a word that the bytes do not
/// complete reads as 0, and bytes past the last word are ignored.
impl<const N: usize, const M: usize> FromBeBytes<N> for [u64; M] {
    open spec fn be_decodes(bytes: Seq<u8>, r: [u64; M]) -> bool {
        forall|i: int| 0 <= i < M ==> r@[i] == #[trigger] be_words(bytes, 8, M as nat)[i]
    }

    fn from_be_bytes(bytes: [u8; N]) -> (r: [u64; M]) {
        let words = read_words(bytes.as_slice(), 8, M, false);
        let r: [u64; M] = fill_array(&words);
        proof {
            lemma2_to64();
            assert forall|i: int| 0 <= i < M implies r@[i] == #[trigger] be_words(
                bytes@,
                8,
                M as nat,
            )[i] by {
                lemma_words_bound(bytes@, 8, M as nat, i);
                assert(words@[i] == as_nats(words@)[i]);
                assert(r@[i] == <u128 as AsPrimitive<u64>>::spec_as_primitive(words@[i]));
                assert(words@[i] < 0x1_0000_0000_0000_0000);
                assert(<u128 as AsPrimitive<u64>>::spec_as_primitive(words@[i]) == (words@[i] % 0x1_0000_0000_0000_0000) as u64);
            }
        }
        r
    }
}

impl FromBeBytes<16> for u128 {
    open spec fn be_decodes(bytes: Seq<u8>, r: u128) -> bool {
        r == be_value(bytes)
    }

    fn from_be_bytes(bytes: [u8; 16]) -> (r: u128) {
        let v = be_uint(bytes.as_slice());
        proof {
            lemma_value_bound(bytes@);
            lemma2_to64();
        }
        v as u128
    }
}

/// Consecutive words of 16 bytes; a word that the bytes do not
/// complete reads as 0, and bytes past the last word are ignored.
impl<const N: usize, const M: usize> FromBeBytes<N> for [u128; M] {
    open spec fn be_decodes(bytes: Seq<u8>, r: [u128; M]) -> bool {
        forall|i: int| 0 <= i < M ==> r@[i] == #[trigger] be_words(bytes, 16, M as nat)[i]
    }

    fn from_be_bytes(bytes: [u8; N]) -> (r: [u128; M]) {
        let words = read_words(bytes.as_slice(), 16, M, false);
        let r: [u128; M] = fill_array(&words);
        proof {
            lemma2_to64();
            assert forall|i: int| 0 <= i < M implies r@[i] == #[trigger] be_words(
                bytes@,
                16,
                M as nat,
            )[i] by {
                assert(words@[i] == as_nats(words@)[i]);
                assert(r@[i] == <u128 as AsPrimitive<u128>>::spec_as_primitive(words@[i]));
            }
        }
        r
    }
}

/// Eight bytes as a `usize`, keeping the bits that fit in it (all of them
/// where `usize` is 64 bits wide).
impl FromBeBytes<8> for usize {
    open spec fn be_decodes(bytes: Seq<u8>, r: usize) -> bool {
        r == be_value(bytes) % (usize::MAX as nat + 1)
    }

    fn from_be_bytes(bytes: [u8; 8]) -> (r: usize) {
        let v = be_uint(bytes.as_slice());
        (v % (usize::MAX as u128 + 1)) as usize
    }
}

/// Consecutive words of 8 bytes, each keeping the bits that fit in a
/// `usize`; a word that the bytes do not
/// complete reads as 0, and bytes past the last word are ignored.
impl<const N: usize, const M: usize> FromBeBytes<N> for [usize; M] {
    open spec fn be_decodes(bytes: Seq<u8>, r: [usize; M]) -> bool {
        forall|i: int|
            0 <= i < M ==> r@[i] == #[trigger] be_words(bytes, 8, M as nat)[i] % (usize::MAX as nat + 1)
    }

    fn from_be_bytes(bytes: [u8; N]) -> (r: [usize; M]) {
        let words = read_words(bytes.as_slice(), 8, M, false);
        let r: [usize; M] = fill_array(&words);
        proof {
            lemma2_to64();
            assert forall|i: int| 0 <= i < M implies r@[i] == #[trigger] be_words(
                bytes@,
                8,
                M as nat,
            )[i] % (usize::MAX as nat + 1) by {
                assert(words@[i] == as_nats(words@)[i]);
                assert(r@[i] == <u128 as AsPrimitive<usize>>::spec_as_primitive(words@[i]));
            }
        }
        r
    }
}

/// Big endian bytes slice to value conversion that may fail.
///
/// It is the reciprocal of [BeBytesTryInto].
pub trait TryFromBeBytes<const N: usize>: Sized + FromBeBytes<N> {
    /// Decodes the first `N` bytes of `slice` and keeps the rest as the
    /// tail; fails when the slice is shorter than `N`.
    fn try_from_be_bytes(slice: &[u8]) -> (r: Result<Sequence<Self, &[u8]>, LengthError>)
        ensures
            r is Ok <==> N <= slice@.len(),
            r matches Ok(s) ==> Self::be_decodes(slice@.take(N as int), s.head) && s.tail@
                == slice@.skip(N as int),
            r matches Err(e) ==> e.needed == N && e.available == slice@.len(),
    ;
}

impl<T: FromBeBytes<N>, const N: usize> TryFromBeBytes<N> for T {
    fn try_from_be_bytes(slice: &[u8]) -> (r: Result<Sequence<Self, &[u8]>, LengthError>) {
        match Sequence::<[u8; N], &[u8]>::try_from_slice(slice) {
            Ok(s) => Ok(Sequence { head: T::from_be_bytes(s.head), tail: s.tail }),
            Err(e) => Err(e),
        }
    }
}

/// Big endian bytes slice to value attempted conversion.
///
/// The opposite of [TryFromBeBytes]; implement [TryFromBeBytes] instead.
pub trait BeBytesTryInto<'a, T: FromBeBytes<N>, const N: usize> {
    /// Performs the conversion.
    fn be_bytes_try_into(self) -> (r: Result<Sequence<T, &'a [u8]>, LengthError>);
}

impl<'a, T: TryFromBeBytes<N>, const N: usize> BeBytesTryInto<'a, T, N> for &'a [u8] {
    fn be_bytes_try_into(self) -> (r: Result<Sequence<T, &'a [u8]>, LengthError>)
        ensures
            r is Ok <==> N <= self@.len(),
            r matches Ok(s) ==> T::be_decodes(self@.take(N as int), s.head) && s.tail@
                == self@.skip(N as int),
    {
        T::try_from_be_bytes(self)
    }
}

/// Type wrapper for big endian bytes value.
#[derive(Debug, Clone, PartialEq, Eq)]
pub struct Be<T>(pub T);

impl<T> Be<T> {
    /// Decodes `bytes` in big endian order and wraps the result.
    pub fn decode<const N: usize>(bytes: [u8; N]) -> (r: Self) where T: FromBeBytes<N>
        ensures
            T::be_decodes(bytes@, r.0),
    {
        Be(T::from_be_bytes(bytes))
    }
}

/// The little endian numbers held by the pieces that `widths` cut from `bytes`.
pub open spec fn le_fields(bytes: Seq<u8>, widths: Seq<usize>) -> Seq<nat> {
    Seq::new(widths.len(), |i: int| le_value(chunks(bytes, widths)[i]))
}

/// The big endian numbers held by the pieces that `widths` cut from `bytes`.
pub open spec fn be_fields(bytes: Seq<u8>, widths: Seq<usize>) -> Seq<nat> {
    Seq::new(widths.len(), |i: int| be_value(chunks(bytes, widths)[i]))
}

/// There is one piece per width.
proof fn lemma_chunks_count<T>(s: Seq<T>, widths: Seq<usize>)
    ensures
        chunks(s, widths).len() == widths.len(),
    decreases widths.len(),
{
    if widths.len() > 0 {
        lemma_chunks_count(s.skip(widths[0] as int), widths.drop_first());
    }
}

/// Every piece is as long as its width.
proof fn lemma_chunks_len<T>(s: Seq<T>, widths: Seq<usize>, i: int)
    requires
        0 <= i < widths.len(),
        crate::common::width_sum(widths) <= s.len(),
    ensures
        chunks(s, widths)[i].len() == widths[i],
    decreases widths.len(),
{
    let w = widths[0] as int;
    assert(w <= s.len());
    let rest = chunks(s.skip(w), widths.drop_first());
    assert(chunks(s, widths) == seq![s.take(w)] + rest);
    lemma_chunks_count(s.skip(w), widths.drop_first());
    if i > 0 {
        lemma_chunks_len(s.skip(w), widths.drop_first(), i - 1);
        assert(chunks(s, widths)[i] == rest[i - 1]);
    }
}

fn read_fields(bytes: &[u8], layout: &Layout, little: bool) -> (r: Vec<u128>)
    requires
        bytes@.len() == layout@.0,
        forall|i: int| 0 <= i < layout@.1.len() ==> layout@.1[i] <= 16,
    ensures
        little ==> as_nats(r@) == le_fields(bytes@, layout@.1),
        !little ==> as_nats(r@) == be_fields(bytes@, layout@.1),
{
    let widths = layout.widths();
    let pieces = layout.split(bytes);
    let n = pieces.len();
    let mut out: Vec<u128> = Vec::new();
    let mut i: usize = 0;
    while i < n
        invariant
            n == pieces@.len(),
            n == layout@.1.len(),
            bytes@.len() == layout@.0,
            crate::common::width_sum(layout@.1) == layout@.0,
            forall|j: int| 0 <= j < layout@.1.len() ==> layout@.1[j] <= 16,
            forall|j: int| 0 <= j < n ==> #[trigger] pieces@[j]@ == chunks(bytes@, layout@.1)[j],
            i <= n,
            out@.len() == i,
            little ==> forall|j: int|
                0 <= j < i ==> out@[j] == #[trigger] le_fields(bytes@, layout@.1)[j],
            !little ==> forall|j: int|
                0 <= j < i ==> out@[j] == #[trigger] be_fields(bytes@, layout@.1)[j],
        decreases n - i,
    {
        proof {
            lemma_chunks_len(bytes@, layout@.1, i as int);
        }
        let piece = pieces[i].as_slice();
        let w = if little {
            le_uint(piece)
        } else {
            be_uint(piece)
        };
        out.push(w);
        i = i + 1;
    }
    proof {
        if little {
            assert(as_nats(out@) =~= le_fields(bytes@, layout@.1));
        } else {
            assert(as_nats(out@) =~= be_fields(bytes@, layout@.1));
        }
    }
    out
}

/// Splits `bytes` by `layout` and reads each piece as a little endian number.
/// Each width is at most 16 bytes, the size of the widest integer.
pub fn le_bytes_fields(bytes: &[u8], layout: &Layout) -> (r: Vec<u128>)
    requires
        bytes@.len() == layout@.0,
        forall|i: int| 0 <= i < layout@.1.len() ==> layout@.1[i] <= 16,
    ensures
        as_nats(r@) == le_fields(bytes@, layout@.1),
{
    read_fields(bytes, layout, true)
}

/// Splits `bytes` by `layout` and reads each piece as a big endian number.
/// Each width is at most 16 bytes, the size of the widest integer.
pub fn be_bytes_fields(bytes: &[u8], layout: &Layout) -> (r: Vec<u128>)
    requires
        bytes@.len() == layout@.0,
        forall|i: int| 0 <= i < layout@.1.len() ==> layout@.1[i] <= 16,
    ensures
        as_nats(r@) == be_fields(bytes@, layout@.1),
{
    read_fields(bytes, layout, false)
}

fn try_read_fields<'a>(slice: &'a [u8], layout: &Layout, little: bool) -> (r: Result<
    Sequence<Vec<u128>, &'a [u8]>,
    LengthError,
>)
    requires
        forall|i: int| 0 <= i < layout@.1.len() ==> layout@.1[i] <= 16,
    ensures
        r is Ok <==> layout@.0 <= slice@.len(),
        r matches Ok(s) ==> {
            &&& little ==> as_nats(s.head@) == le_fields(slice@, layout@.1)
            &&& !little ==> as_nats(s.head@) == be_fields(slice@, layout@.1)
            &&& s.tail@ == slice@.skip(layout@.0 as int)
        },
        r matches Err(e) ==> e.needed == layout@.0 && e.available == slice@.len(),
{
    let total = layout.total();
    let widths = layout.widths();
    if slice.len() < total {
        return Err(LengthError { needed: total, available: slice.len() });
    }
    let (front, tail) = slice.split_at(total);
    proof {
        lemma_chunks_prefix(slice@, layout@.1, total as int);
        assert(le_fields(front@, layout@.1) =~= le_fields(slice@, layout@.1));
        assert(be_fields(front@, layout@.1) =~= be_fields(slice@, layout@.1));
    }
    let head = read_fields(front, layout, little);
    Ok(Sequence { head, tail })
}

/// Reads the front of `slice` as little endian fields of the layout's widths
/// and keeps what follows as the tail. Fails when the slice is shorter than
/// the layout. Each width is at most 16 bytes, the size of the widest integer.
pub fn try_le_bytes_fields<'a>(slice: &'a [u8], layout: &Layout) -> (r: Result<
    Sequence<Vec<u128>, &'a [u8]>,
    LengthError,
>)
    requires
        forall|i: int| 0 <= i < layout@.1.len() ==> layout@.1[i] <= 16,
    ensures
        r is Ok <==> layout@.0 <= slice@.len(),
        r matches Ok(s) ==> as_nats(s.head@) == le_fields(slice@, layout@.1) && s.tail@
            == slice@.skip(layout@.0 as int),
        r matches Err(e) ==> e.needed == layout@.0 && e.available == slice@.len(),
{
    try_read_fields(slice, layout, true)
}

/// Reads the front of `slice` as big endian fields of the layout's widths
/// and keeps what follows as the tail. Fails when the slice is shorter than
/// the layout. Each width is at most 16 bytes, the size of the widest integer.
pub fn try_be_bytes_fields<'a>(slice: &'a [u8], layout: &Layout) -> (r: Result<
    Sequence<Vec<u128>, &'a [u8]>,
    LengthError,
>)
    requires
        forall|i: int| 0 <= i < layout@.1.len() ==> layout@.1[i] <= 16,
    ensures
        r is Ok <==> layout@.0 <= slice@.len(),
        r matches Ok(s) ==> as_nats(s.head@) == be_fields(slice@, layout@.1) && s.tail@
            == slice@.skip(layout@.0 as int),
        r matches Err(e) ==> e.needed == layout@.0 && e.available == slice@.len(),
{
    try_read_fields(slice, layout, false)
}

} // verus!
