//! A cursor over bytes that hands out little-endian integers, one after the
//! other, and never goes back.

use vstd::prelude::*;
use vstd::slice::slice_subrange;

use crate::error::WadError;
use crate::le::le_signed;
use crate::le::le_unsigned;
use crate::le::lemma_le_unsigned_bound;
use crate::le::lemma_le_unsigned_push;
use crate::le::lemma_pow256_monotone;
use crate::le::lemma_pow256_values;
use crate::le::pow256;

verus! {

/// The bytes that are still to be read. Its view is those bytes.
pub struct WadDeserializer<'de> {
    input: &'de [u8],
}

impl<'de> View for WadDeserializer<'de> {
    type V = Seq<u8>;

    closed spec fn view(&self) -> Seq<u8> {
        self.input@
    }
}

/// A read of `n` bytes went through: `after` is `before` less its first `n`.
pub open spec fn advanced(before: Seq<u8>, after: Seq<u8>, n: nat) -> bool {
    before.len() >= n && after == before.skip(n as int)
}

/// A read of `n` bytes ran dry: `before` held fewer, and none is left.
pub open spec fn ran_dry(before: Seq<u8>, after: Seq<u8>, n: nat) -> bool {
    before.len() < n && after.len() == 0
}

/// `num_traits::zero` at `u64`: the additive identity of the type, which is 0.
#[verifier::external_body]
fn zero_u64() -> (r: u64)
    ensures
        r == 0,
{
    num_traits::zero::<u64>()
}

/// `num_traits::cast` from `u8` to `u64`: a value that the target type can
/// hold comes back unchanged, and `u64` holds every byte.
#[verifier::external_body]
fn byte_to_u64(b: u8) -> (r: Option<u64>)
    ensures
        r == Some(b as u64),
{
    num_traits::cast::<u8, u64>(b)
}

/// 256 to the power `width`, for the widths that fit.
fn radix(width: usize) -> (r: u128)
    requires
        width <= 8,
    ensures
        r == pow256(width as nat),
{
    let mut r: u128 = 1;
    let mut i: usize = 0;
    while i < width
        invariant
            i <= width <= 8,
            r == pow256(i as nat),
        decreases width - i,
    {
        proof {
            lemma_pow256_monotone((i + 1) as nat, 8);
            lemma_pow256_values();
        }
        r = r * 256;
        i = i + 1;
    }
    r
}

impl<'de> WadDeserializer<'de> {
    /// A cursor at the start of `input`.
    pub fn from_bytes(input: &'de [u8]) -> (r: Self)
        ensures
            r@ == input@,
    {
        Self { input }
    }

    /// How many bytes are still to be read.
    pub fn remaining(&self) -> (n: usize)
        ensures
            n == self@.len(),
    {
        self.input.len()
    }

    /// The next byte, which stays where it is.
    pub fn peek_byte(&self) -> (r: Result<u8, WadError>)
        ensures
            match r {
                Ok(b) => self@.len() > 0 && b == self@[0],
                Err(e) => self@.len() == 0 && e is UnexpectedEof,
            },
    {
        if self.input.len() > 0 {
            Ok(self.input[0])
        } else {
            Err(WadError::UnexpectedEof)
        }
    }

    /// The next byte, which the cursor then leaves behind.
    pub fn next_byte(&mut self) -> (r: Result<u8, WadError>)
        ensures
            match r {
                Ok(b) => old(self)@.len() > 0 && b == old(self)@[0] && final(self)@ == old(
                    self,
                )@.skip(1),
                Err(e) => old(self)@.len() == 0 && e is UnexpectedEof && final(self)@ == old(
                    self,
                )@,
            },
    {
        match self.peek_byte() {
            Ok(b) => {
                self.input = slice_subrange(self.input, 1, self.input.len());
                Ok(b)
            },
            Err(e) => Err(e),
        }
    }

    /// The positional sum of the next `width` bytes. Where fewer are left,
    /// they are all used up and the read fails.
    fn parse_unsigned(&mut self, width: usize) -> (r: Result<u64, WadError>)
        requires
            width <= 8,
        ensures
            match r {
                Ok(v) => old(self)@.len() >= width && v == le_unsigned(
                    old(self)@.take(width as int),
                ) && final(self)@ == old(self)@.skip(width as int),
                Err(e) => old(self)@.len() < width && e is UnexpectedEof && final(self)@.len()
                    == 0,
            },
    {
        let ghost start = self@;
        let mut result: u64 = zero_u64();
        let mut scale: u64 = 1;
        let mut i: usize = 0;
        assert(start.take(0) =~= Seq::<u8>::empty());
        while i < width
            invariant
                i <= width <= 8,
                start == old(self)@,
                start.len() >= i,
                self@ == start.skip(i as int),
                result == le_unsigned(start.take(i as int)),
                i < width ==> scale == pow256(i as nat),
            decreases width - i,
        {
            let b = match self.next_byte() {
                Ok(b) => b,
                Err(e) => {
                    return Err(e);
                },
            };
            let digit = byte_to_u64(b).unwrap();
            proof {
                let sofar = start.take(i as int);
                assert(start.take(i + 1) =~= sofar.push(b));
                lemma_le_unsigned_push(sofar, b);
                lemma_le_unsigned_bound(sofar);
                lemma_pow256_monotone((i + 1) as nat, 8);
                lemma_pow256_monotone(i as nat, 7);
                lemma_pow256_values();
                assert(digit * scale <= 255 * scale) by (nonlinear_arith)
                    requires
                        digit <= 255,
                        scale >= 0,
                ;
                assert(start.skip(i as int).skip(1) =~= start.skip(i + 1));
            }
            result = result + digit * scale;
            if i + 1 < width {
                scale = scale * 256;
            }
            i = i + 1;
        }
        Ok(result)
    }

    /// The two's complement reading of the next `width` bytes. Where fewer
    /// are left, they are all used up and the read fails.
    fn parse_signed(&mut self, width: usize) -> (r: Result<i64, WadError>)
        requires
            1 <= width <= 8,
        ensures
            match r {
                Ok(v) => old(self)@.len() >= width && v == le_signed(
                    old(self)@.take(width as int),
                ) && final(self)@ == old(self)@.skip(width as int),
                Err(e) => old(self)@.len() < width && e is UnexpectedEof && final(self)@.len()
                    == 0,
            },
    {
        let ghost start = self@;
        let v = match self.parse_unsigned(width) {
            Ok(v) => v,
            Err(e) => {
                return Err(e);
            },
        };
        let full = radix(width);
        proof {
            lemma_le_unsigned_bound(start.take(width as int));
            lemma_pow256_monotone(width as nat, 8);
            lemma_pow256_monotone(1, width as nat);
            lemma_pow256_values();
        }
        if 2 * (v as u128) >= full {
            Ok(((v as i128) - (full as i128)) as i64)
        } else {
            Ok(v as i64)
        }
    }

    /// An unsigned 8-bit integer from the next 1 byte.
    pub fn read_u8(&mut self) -> (r: Result<u8, WadError>)
        ensures
            match r {
                Ok(v) => advanced(old(self)@, final(self)@, 1) && v == le_unsigned(
                    old(self)@.take(1),
                ),
                Err(e) => e is UnexpectedEof && ran_dry(old(self)@, final(self)@, 1),
            },
    {
        let ghost start = self@;
        match self.parse_unsigned(1) {
            Ok(v) => {
                proof {
                    lemma_le_unsigned_bound(start.take(1));
                    lemma_pow256_values();
                }
                Ok(v as u8)
            },
            Err(e) => Err(e),
        }
    }

    /// An unsigned 16-bit integer from the next 2 bytes.
    pub fn read_u16(&mut self) -> (r: Result<u16, WadError>)
        ensures
            match r {
                Ok(v) => advanced(old(self)@, final(self)@, 2) && v == le_unsigned(
                    old(self)@.take(2),
                ),
                Err(e) => e is UnexpectedEof && ran_dry(old(self)@, final(self)@, 2),
            },
    {
        let ghost start = self@;
        match self.parse_unsigned(2) {
            Ok(v) => {
                proof {
                    lemma_le_unsigned_bound(start.take(2));
                    lemma_pow256_values();
                }
                Ok(v as u16)
            },
            Err(e) => Err(e),
        }
    }

    /// An unsigned 32-bit integer from the next 4 bytes.
    pub fn read_u32(&mut self) -> (r: Result<u32, WadError>)
        ensures
            match r {
                Ok(v) => advanced(old(self)@, final(self)@, 4) && v == le_unsigned(
                    old(self)@.take(4),
                ),
                Err(e) => e is UnexpectedEof && ran_dry(old(self)@, final(self)@, 4),
            },
    {
        let ghost start = self@;
        match self.parse_unsigned(4) {
            Ok(v) => {
                proof {
                    lemma_le_unsigned_bound(start.take(4));
                    lemma_pow256_values();
                }
                Ok(v as u32)
            },
            Err(e) => Err(e),
        }
    }

    /// An unsigned 64-bit integer from the next 8 bytes.
    pub fn read_u64(&mut self) -> (r: Result<u64, WadError>)
        ensures
            match r {
                Ok(v) => advanced(old(self)@, final(self)@, 8) && v == le_unsigned(
                    old(self)@.take(8),
                ),
                Err(e) => e is UnexpectedEof && ran_dry(old(self)@, final(self)@, 8),
            },
    {
        let ghost start = self@;
        match self.parse_unsigned(8) {
            Ok(v) => {
                proof {
                    lemma_le_unsigned_bound(start.take(8));
                    lemma_pow256_values();
                }
                Ok(v)
            },
            Err(e) => Err(e),
        }
    }

    /// A signed 8-bit integer, in two's complement, from the next 1 byte.
    pub fn read_i8(&mut self) -> (r: Result<i8, WadError>)
        ensures
            match r {
                Ok(v) => advanced(old(self)@, final(self)@, 1) && v == le_signed(
                    old(self)@.take(1),
                ),
                Err(e) => e is UnexpectedEof && ran_dry(old(self)@, final(self)@, 1),
            },
    {
        let ghost start = self@;
        match self.parse_signed(1) {
            Ok(v) => {
                proof {
                    lemma_le_unsigned_bound(start.take(1));
                    lemma_pow256_values();
                }
                Ok(v as i8)
            },
            Err(e) => Err(e),
        }
    }

    /// A signed 16-bit integer, in two's complement, from the next 2 bytes.
    pub fn read_i16(&mut self) -> (r: Result<i16, WadError>)
        ensures
            match r {
                Ok(v) => advanced(old(self)@, final(self)@, 2) && v == le_signed(
                    old(self)@.take(2),
                ),
                Err(e) => e is UnexpectedEof && ran_dry(old(self)@, final(self)@, 2),
            },
    {
        let ghost start = self@;
        match self.parse_signed(2) {
            Ok(v) => {
                proof {
                    lemma_le_unsigned_bound(start.take(2));
                    lemma_pow256_values();
                }
                Ok(v as i16)
            },
            Err(e) => Err(e),
        }
    }

    /// A signed 32-bit integer, in two's complement, from the next 4 bytes.
    pub fn read_i32(&mut self) -> (r: Result<i32, WadError>)
        ensures
            match r {
                Ok(v) => advanced(old(self)@, final(self)@, 4) && v == le_signed(
                    old(self)@.take(4),
                ),
                Err(e) => e is UnexpectedEof && ran_dry(old(self)@, final(self)@, 4),
            },
    {
        let ghost start = self@;
        match self.parse_signed(4) {
            Ok(v) => {
                proof {
                    lemma_le_unsigned_bound(start.take(4));
                    lemma_pow256_values();
                }
                Ok(v as i32)
            },
            Err(e) => Err(e),
        }
    }

    /// A signed 64-bit integer, in two's complement, from the next 8 bytes.
    pub fn read_i64(&mut self) -> (r: Result<i64, WadError>)
        ensures
            match r {
                Ok(v) => advanced(old(self)@, final(self)@, 8) && v == le_signed(
                    old(self)@.take(8),
                ),
                Err(e) => e is UnexpectedEof && ran_dry(old(self)@, final(self)@, 8),
            },
    {
        let ghost start = self@;
        match self.parse_signed(8) {
            Ok(v) => {
                proof {
                    lemma_le_unsigned_bound(start.take(8));
                    lemma_pow256_values();
                }
                Ok(v)
            },
            Err(e) => Err(e),
        }
    }

    /// The next `N` bytes, as they stand.
    pub fn read_array<const N: usize>(&mut self) -> (r: Result<[u8; N], WadError>)
        ensures
            match r {
                Ok(a) => advanced(old(self)@, final(self)@, N as nat) && a@ == old(self)@.take(
                    N as int,
                ),
                Err(e) => e is UnexpectedEof && ran_dry(old(self)@, final(self)@, N as nat),
            },
    {
        let ghost start = self@;
        let mut out = [0u8; N];
        let mut i: usize = 0;
        while i < N
            invariant
                i <= N,
                start == old(self)@,
                start.len() >= i,
                self@ == start.skip(i as int),
                out@.len() == N,
                out@.take(i as int) == start.take(i as int),
            decreases N - i,
        {
            let b = match self.next_byte() {
                Ok(b) => b,
                Err(e) => {
                    return Err(e);
                },
            };
            let ghost before = out@;
            out[i] = b;
            proof {
                assert(out@ == before.update(i as int, b));
                assert(out@.take(i + 1) =~= start.take(i + 1));
                assert(start.skip(i as int).skip(1) =~= start.skip(i + 1));
            }
            i = i + 1;
        }
        assert(out@.take(N as int) =~= out@);
        Ok(out)
    }

    /// That nothing is left: a decode that must use up its buffer ends here.
    pub fn end(&self) -> (r: Result<(), WadError>)
        ensures
            match r {
                Ok(_) => self@.len() == 0,
                Err(e) => self@.len() > 0 && e is TrailingBytes,
            },
    {
        if self.input.len() == 0 {
            Ok(())
        } else {
            Err(WadError::TrailingBytes)
        }
    }
}

/// A record of fixed width that can be read off a cursor, field by field.
pub trait Decode: Sized {
    /// The number of bytes that one record takes.
    spec fn width() -> nat;

    /// That `bytes`, one record wide, hold a record.
    spec fn holds_record(bytes: Seq<u8>) -> bool;

    /// That `self` is the record which `bytes` hold.
    spec fn is_record_of(&self, bytes: Seq<u8>) -> bool;

    /// That `e` is the failure owed to `bytes`, which hold no record.
    spec fn is_fault_of(e: WadError, bytes: Seq<u8>) -> bool;

    /// Reads one record. With too few bytes left it fails with
    /// `UnexpectedEof`, whatever those bytes are.
    fn decode(de: &mut WadDeserializer<'_>) -> (r: Result<Self, WadError>)
        ensures
            match r {
                Ok(v) => advanced(old(de)@, final(de)@, Self::width()) && Self::holds_record(
                    old(de)@.take(Self::width() as int),
                ) && v.is_record_of(old(de)@.take(Self::width() as int)),
                Err(e) => if old(de)@.len() < Self::width() {
                    e is UnexpectedEof && final(de)@.len() == 0
                } else {
                    advanced(old(de)@, final(de)@, Self::width()) && !Self::holds_record(
                        old(de)@.take(Self::width() as int),
                    ) && Self::is_fault_of(e, old(de)@.take(Self::width() as int))
                },
            },
    ;
}

/// How the decoding of a whole buffer as one record ends.
pub enum Outcome {
    /// The buffer is one record, and nothing more.
    Record,
    /// The buffer is shorter than a record.
    UnexpectedEof,
    /// The buffer is long enough, and its first bytes hold no record.
    Fault,
    /// A record, and bytes behind it.
    TrailingBytes,
}

/// The outcome that decoding `bytes` as one record of type `T` must have.
pub open spec fn outcome<T: Decode>(bytes: Seq<u8>) -> Outcome {
    if bytes.len() < T::width() {
        Outcome::UnexpectedEof
    } else if !T::holds_record(bytes.take(T::width() as int)) {
        Outcome::Fault
    } else if bytes.len() > T::width() {
        Outcome::TrailingBytes
    } else {
        Outcome::Record
    }
}

/// Decodes `s` as one record, which has to use up all of `s`.
pub fn from_bytes<T: Decode>(s: &[u8]) -> (r: Result<T, WadError>)
    ensures
        match r {
            Ok(v) => outcome::<T>(s@) is Record && v.is_record_of(s@),
            Err(e) => match outcome::<T>(s@) {
                Outcome::Record => false,
                Outcome::UnexpectedEof => e is UnexpectedEof,
                Outcome::Fault => T::is_fault_of(e, s@.take(T::width() as int)),
                Outcome::TrailingBytes => e is TrailingBytes,
            },
        },
{
    let mut deserializer = WadDeserializer::from_bytes(s);
    let t = match T::decode(&mut deserializer) {
        Ok(t) => t,
        Err(e) => {
            return Err(e);
        },
    };
    match deserializer.end() {
        Ok(_) => {
            assert(s@.take(T::width() as int) =~= s@);
            Ok(t)
        },
        Err(e) => Err(e),
    }
}

/// A buffer that is exactly one record decodes, and with one more byte
/// behind it the same buffer is refused for its trailing bytes.
pub proof fn lemma_exact_consumption<T: Decode>(bytes: Seq<u8>, extra: u8)
    requires
        bytes.len() == T::width(),
        T::holds_record(bytes),
    ensures
        outcome::<T>(bytes) is Record,
        outcome::<T>(bytes.push(extra)) is TrailingBytes,
{
    assert(bytes.take(T::width() as int) =~= bytes);
    assert(bytes.push(extra).take(T::width() as int) =~= bytes);
}

/// A buffer shorter than a record never decodes: it ends in `UnexpectedEof`.
pub proof fn lemma_truncation<T: Decode>(bytes: Seq<u8>)
    requires
        bytes.len() < T::width(),
    ensures
        outcome::<T>(bytes) is UnexpectedEof,
{
}

impl Decode for u8 {
    open spec fn width() -> nat {
        1
    }

    open spec fn holds_record(bytes: Seq<u8>) -> bool {
        true
    }

    open spec fn is_record_of(&self, bytes: Seq<u8>) -> bool {
        *self == le_unsigned(bytes)
    }

    open spec fn is_fault_of(e: WadError, bytes: Seq<u8>) -> bool {
        false
    }

    fn decode(de: &mut WadDeserializer<'_>) -> (r: Result<Self, WadError>) {
        de.read_u8()
    }
}

impl Decode for u16 {
    open spec fn width() -> nat {
        2
    }

    open spec fn holds_record(bytes: Seq<u8>) -> bool {
        true
    }

    open spec fn is_record_of(&self, bytes: Seq<u8>) -> bool {
        *self == le_unsigned(bytes)
    }

    open spec fn is_fault_of(e: WadError, bytes: Seq<u8>) -> bool {
        false
    }

    fn decode(de: &mut WadDeserializer<'_>) -> (r: Result<Self, WadError>) {
        de.read_u16()
    }
}

impl Decode for u32 {
    open spec fn width() -> nat {
        4
    }

    open spec fn holds_record(bytes: Seq<u8>) -> bool {
        true
    }

    open spec fn is_record_of(&self, bytes: Seq<u8>) -> bool {
        *self == le_unsigned(bytes)
    }

    open spec fn is_fault_of(e: WadError, bytes: Seq<u8>) -> bool {
        false
    }

    fn decode(de: &mut WadDeserializer<'_>) -> (r: Result<Self, WadError>) {
        de.read_u32()
    }
}

impl Decode for u64 {
    open spec fn width() -> nat {
        8
    }

    open spec fn holds_record(bytes: Seq<u8>) -> bool {
        true
    }

    open spec fn is_record_of(&self, bytes: Seq<u8>) -> bool {
        *self == le_unsigned(bytes)
    }

    open spec fn is_fault_of(e: WadError, bytes: Seq<u8>) -> bool {
        false
    }

    fn decode(de: &mut WadDeserializer<'_>) -> (r: Result<Self, WadError>) {
        de.read_u64()
    }
}

impl Decode for i8 {
    open spec fn width() -> nat {
        1
    }

    open spec fn holds_record(bytes: Seq<u8>) -> bool {
        true
    }

    open spec fn is_record_of(&self, bytes: Seq<u8>) -> bool {
        *self == le_signed(bytes)
    }

    open spec fn is_fault_of(e: WadError, bytes: Seq<u8>) -> bool {
        false
    }

    fn decode(de: &mut WadDeserializer<'_>) -> (r: Result<Self, WadError>) {
        de.read_i8()
    }
}

impl Decode for i16 {
    open spec fn width() -> nat {
        2
    }

    open spec fn holds_record(bytes: Seq<u8>) -> bool {
        true
    }

    open spec fn is_record_of(&self, bytes: Seq<u8>) -> bool {
        *self == le_signed(bytes)
    }

    open spec fn is_fault_of(e: WadError, bytes: Seq<u8>) -> bool {
        false
    }

    fn decode(de: &mut WadDeserializer<'_>) -> (r: Result<Self, WadError>) {
        de.read_i16()
    }
}

impl Decode for i32 {
    open spec fn width() -> nat {
        4
    }

    open spec fn holds_record(bytes: Seq<u8>) -> bool {
        true
    }

    open spec fn is_record_of(&self, bytes: Seq<u8>) -> bool {
        *self == le_signed(bytes)
    }

    open spec fn is_fault_of(e: WadError, bytes: Seq<u8>) -> bool {
        false
    }

    fn decode(de: &mut WadDeserializer<'_>) -> (r: Result<Self, WadError>) {
        de.read_i32()
    }
}

impl Decode for i64 {
    open spec fn width() -> nat {
        8
    }

    open spec fn holds_record(bytes: Seq<u8>) -> bool {
        true
    }

    open spec fn is_record_of(&self, bytes: Seq<u8>) -> bool {
        *self == le_signed(bytes)
    }

    open spec fn is_fault_of(e: WadError, bytes: Seq<u8>) -> bool {
        false
    }

    fn decode(de: &mut WadDeserializer<'_>) -> (r: Result<Self, WadError>) {
        de.read_i64()
    }
}

} // verus!
