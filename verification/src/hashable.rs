//! The placement-hash capability and its implementations for primitive keys.

use vstd::arithmetic::div_mod::{lemma_fundamental_div_mod, lemma_fundamental_div_mod_converse};
use vstd::prelude::*;
use vstd::string::*;
use vstd::utf8::{encode_utf8, encode_utf8_decode_utf8};

verus! {

/// Reduction of an unbounded integer to the unsigned machine-word range:
/// the mathematical counterpart of a wrapping cast to `usize`.
pub open spec fn usize_wrap(x: int) -> usize {
    (x % (usize::MAX as int + 1)) as usize
}

/// One step of the classic djb2 string hash: multiply the accumulator by 33
/// (as a shift and an add, wrapping on overflow) and add the byte, wrapping.
pub open spec fn djb2_step(h: usize, b: u8) -> usize {
    (h << 5).wrapping_add(h).wrapping_add(b as usize)
}

/// The djb2 fold over a byte sequence, starting from accumulator `h`.
pub open spec fn djb2_from(h: usize, bytes: Seq<u8>) -> usize
    decreases bytes.len(),
{
    if bytes.len() == 0 {
        h
    } else {
        djb2_from(djb2_step(h, bytes[0]), bytes.drop_first())
    }
}

/// The classic djb2 hash of a byte sequence.
pub open spec fn djb2(bytes: Seq<u8>) -> usize {
    djb2_from(5381, bytes)
}

/// The capability a key type must provide for the table to place it: a
/// deterministic, non-negative placement hash and an equality test, both
/// agreeing with the key's abstract value.  No collision resistance is
/// promised or required.  Any user type can implement this without touching
/// the table.
pub trait Hashable: View + Sized {
    /// The hash as a function of the key's abstract value alone.
    spec fn spec_hash(v: Self::V) -> usize;

    /// Computes the placement hash.
    fn hash(&self) -> (r: usize)
        ensures
            r == Self::spec_hash(self@),
    ;

    /// Decides whether two keys have the same abstract value.
    fn key_eq(&self, other: &Self) -> (r: bool)
        ensures
            r == (self@ == other@),
    ;
}

/// Reduces a magnitude, negated when `neg` is set, modulo one more than
/// `usize::MAX`: the value a wrapping cast to `usize` produces.
fn wrap_to_usize(mag: u128, neg: bool) -> (r: usize)
    ensures
        !neg ==> r == usize_wrap(mag as int),
        neg ==> r == usize_wrap(-(mag as int)),
{
    let m: u128 = usize::MAX as u128 + 1;
    let rem: u128 = mag % m;
    if neg {
        proof {
            let a = mag as int;
            let mi = m as int;
            lemma_fundamental_div_mod(a, mi);
            let q = a / mi;
            assert((-q - 1) * mi == -(q * mi) - mi) by (nonlinear_arith);
            assert((-q) * mi == -(q * mi)) by (nonlinear_arith);
            if rem == 0 {
                lemma_fundamental_div_mod_converse(-a, mi, -q, 0);
            } else {
                lemma_fundamental_div_mod_converse(-a, mi, -q - 1, mi - rem as int);
            }
        }
        if rem == 0 {
            0
        } else {
            (m - rem) as usize
        }
    } else {
        rem as usize
    }
}

impl Hashable for usize {
    open spec fn spec_hash(v: usize) -> usize {
        v
    }

    fn hash(&self) -> (r: usize) {
        *self
    }

    fn key_eq(&self, other: &Self) -> (r: bool) {
        *self == *other
    }
}

impl Hashable for u8 {
    open spec fn spec_hash(v: u8) -> usize {
        v as usize
    }

    fn hash(&self) -> (r: usize) {
        *self as usize
    }

    fn key_eq(&self, other: &Self) -> (r: bool) {
        *self == *other
    }
}

impl Hashable for u16 {
    open spec fn spec_hash(v: u16) -> usize {
        v as usize
    }

    fn hash(&self) -> (r: usize) {
        *self as usize
    }

    fn key_eq(&self, other: &Self) -> (r: bool) {
        *self == *other
    }
}

impl Hashable for u32 {
    open spec fn spec_hash(v: u32) -> usize {
        v as usize
    }

    fn hash(&self) -> (r: usize) {
        *self as usize
    }

    fn key_eq(&self, other: &Self) -> (r: bool) {
        *self == *other
    }
}

impl Hashable for u64 {
    open spec fn spec_hash(v: u64) -> usize {
        usize_wrap(v as int)
    }

    fn hash(&self) -> (r: usize) {
        wrap_to_usize(*self as u128, false)
    }

    fn key_eq(&self, other: &Self) -> (r: bool) {
        *self == *other
    }
}

impl Hashable for u128 {
    open spec fn spec_hash(v: u128) -> usize {
        usize_wrap(v as int)
    }

    fn hash(&self) -> (r: usize) {
        wrap_to_usize(*self, false)
    }

    fn key_eq(&self, other: &Self) -> (r: bool) {
        *self == *other
    }
}

impl Hashable for i8 {
    open spec fn spec_hash(v: i8) -> usize {
        usize_wrap(v as int)
    }

    fn hash(&self) -> (r: usize) {
        let v = *self;
        if v < 0 {
            wrap_to_usize((-(v as i128)) as u128, true)
        } else {
            wrap_to_usize(v as u128, false)
        }
    }

    fn key_eq(&self, other: &Self) -> (r: bool) {
        *self == *other
    }
}

impl Hashable for i16 {
    open spec fn spec_hash(v: i16) -> usize {
        usize_wrap(v as int)
    }

    fn hash(&self) -> (r: usize) {
        let v = *self;
        if v < 0 {
            wrap_to_usize((-(v as i128)) as u128, true)
        } else {
            wrap_to_usize(v as u128, false)
        }
    }

    fn key_eq(&self, other: &Self) -> (r: bool) {
        *self == *other
    }
}

impl Hashable for i32 {
    open spec fn spec_hash(v: i32) -> usize {
        usize_wrap(v as int)
    }

    fn hash(&self) -> (r: usize) {
        let v = *self;
        if v < 0 {
            wrap_to_usize((-(v as i128)) as u128, true)
        } else {
            wrap_to_usize(v as u128, false)
        }
    }

    fn key_eq(&self, other: &Self) -> (r: bool) {
        *self == *other
    }
}

impl Hashable for isize {
    open spec fn spec_hash(v: isize) -> usize {
        usize_wrap(v as int)
    }

    fn hash(&self) -> (r: usize) {
        let v = *self;
        if v < 0 {
            wrap_to_usize((-(v as i128)) as u128, true)
        } else {
            wrap_to_usize(v as u128, false)
        }
    }

    fn key_eq(&self, other: &Self) -> (r: bool) {
        *self == *other
    }
}

impl Hashable for i64 {
    /// The sign-magnitude oddity of the 64-bit signed mapping is deliberate:
    /// the hash is the absolute value, wrapping at the minimum-representable
    /// value, cast to the unsigned machine width.
    open spec fn spec_hash(v: i64) -> usize {
        if v == i64::MIN {
            usize_wrap(0x8000_0000_0000_0000)
        } else if v < 0 {
            usize_wrap(-(v as int))
        } else {
            usize_wrap(v as int)
        }
    }

    fn hash(&self) -> (r: usize) {
        let v = *self;
        if v == i64::MIN {
            wrap_to_usize(0x8000_0000_0000_0000u128, false)
        } else if v < 0 {
            wrap_to_usize((-(v as i128)) as u128, false)
        } else {
            wrap_to_usize(v as u128, false)
        }
    }

    fn key_eq(&self, other: &Self) -> (r: bool) {
        *self == *other
    }
}

impl Hashable for i128 {
    open spec fn spec_hash(v: i128) -> usize {
        usize_wrap(v as int)
    }

    fn hash(&self) -> (r: usize) {
        let v = *self;
        if v == i128::MIN {
            wrap_to_usize(0x8000_0000_0000_0000_0000_0000_0000_0000u128, true)
        } else if v < 0 {
            wrap_to_usize((-v) as u128, true)
        } else {
            wrap_to_usize(v as u128, false)
        }
    }

    fn key_eq(&self, other: &Self) -> (r: bool) {
        *self == *other
    }
}

impl Hashable for char {
    open spec fn spec_hash(v: char) -> usize {
        v as usize
    }

    fn hash(&self) -> (r: usize) {
        *self as usize
    }

    fn key_eq(&self, other: &Self) -> (r: bool) {
        *self == *other
    }
}

impl Hashable for bool {
    open spec fn spec_hash(v: bool) -> usize {
        if v {
            1
        } else {
            0
        }
    }

    fn hash(&self) -> (r: usize) {
        if *self {
            1
        } else {
            0
        }
    }

    fn key_eq(&self, other: &Self) -> (r: bool) {
        *self == *other
    }
}

/// Computes the djb2 hash of the UTF-8 bytes of a string slice.
fn djb2_of_str(s: &str) -> (r: usize)
    ensures
        r == djb2(s.spec_bytes()),
{
    let bytes = s.as_bytes_vec();
    let n = bytes.len();
    let mut h: usize = 5381;
    let mut i: usize = 0;
    proof {
        assert(bytes@.skip(0) =~= bytes@);
    }
    while i < n
        invariant
            n == bytes@.len(),
            i <= n,
            djb2(bytes@) == djb2_from(h, bytes@.skip(i as int)),
        decreases n - i,
    {
        let b = bytes[i];
        proof {
            assert(bytes@.skip(i as int).drop_first() =~= bytes@.skip(i as int + 1));
        }
        h = (h << 5).wrapping_add(h).wrapping_add(b as usize);
        i = i + 1;
    }
    proof {
        assert(bytes@.skip(n as int) =~= Seq::<u8>::empty());
    }
    h
}

/// Decides whether two string slices hold the same characters, by comparing
/// their UTF-8 bytes.
fn str_chars_eq(a: &str, b: &str) -> (r: bool)
    ensures
        r == (a@ == b@),
{
    let av = a.as_bytes_vec();
    let bv = b.as_bytes_vec();
    if av.len() != bv.len() {
        return false;
    }
    let n = av.len();
    let mut i: usize = 0;
    while i < n
        invariant
            n == av.len() == bv.len(),
            i <= n,
            av@ == a.spec_bytes(),
            bv@ == b.spec_bytes(),
            forall|t: int| 0 <= t < i ==> av@[t] == bv@[t],
        decreases n - i,
    {
        if av[i] != bv[i] {
            return false;
        }
        i = i + 1;
    }
    proof {
        assert(av@ =~= bv@);
        encode_utf8_decode_utf8(a@);
        encode_utf8_decode_utf8(b@);
    }
    true
}

impl Hashable for String {
    /// Text keys hash by the classic djb2 fold over their UTF-8 bytes.
    open spec fn spec_hash(v: Seq<char>) -> usize {
        djb2(encode_utf8(v))
    }

    fn hash(&self) -> (r: usize) {
        djb2_of_str(self.as_str())
    }

    fn key_eq(&self, other: &Self) -> (r: bool) {
        str_chars_eq(self.as_str(), other.as_str())
    }
}

impl<'a> Hashable for &'a str {
    /// Text keys hash by the classic djb2 fold over their UTF-8 bytes.
    open spec fn spec_hash(v: Seq<char>) -> usize {
        djb2(encode_utf8(v))
    }

    fn hash(&self) -> (r: usize) {
        djb2_of_str(*self)
    }

    fn key_eq(&self, other: &Self) -> (r: bool) {
        str_chars_eq(*self, *other)
    }
}

} // verus!
