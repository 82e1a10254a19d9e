//! Big-endian integers in byte sequences, and a source of bytes to read them
//! from.

use crate::error::{invalid_seek, ParserError, ParserResult};
use vstd::prelude::*;

verus! {

/// The natural number that `bytes` spell in base 256, most significant byte first.
pub open spec fn be_value(bytes: Seq<u8>) -> nat
    decreases bytes.len(),
{
    if bytes.len() == 0 {
        0
    } else {
        be_value(bytes.drop_last()) * 256 + bytes.last() as nat
    }
}

/// 256 to the power `count`: how many values `count` bytes can spell.
pub open spec fn radix(count: nat) -> nat
    decreases count,
{
    if count == 0 {
        1
    } else {
        256 * radix((count - 1) as nat)
    }
}

/// The whole number that `bytes` spell in two's complement, most significant
/// byte first.
pub open spec fn be_signed(bytes: Seq<u8>) -> int {
    if 2 * be_value(bytes) >= radix(bytes.len()) {
        be_value(bytes) - radix(bytes.len())
    } else {
        be_value(bytes) as int
    }
}

/// The values of [`radix`] for the widths that integers are stored in.
pub proof fn lemma_radix_values()
    ensures
        radix(0) == 1,
        radix(1) == 0x100,
        radix(2) == 0x1_0000,
        radix(3) == 0x100_0000,
        radix(4) == 0x1_0000_0000,
        radix(5) == 0x100_0000_0000,
        radix(6) == 0x1_0000_0000_0000,
        radix(7) == 0x100_0000_0000_0000,
        radix(8) == 0x1_0000_0000_0000_0000,
        radix(16) == 0x1_0000_0000_0000_0000_0000_0000_0000_0000,
{
    reveal_with_fuel(radix, 9);
    lemma_radix_adds(8, 8);
}

/// [`radix`] turns a sum into a product.
pub proof fn lemma_radix_adds(a: nat, b: nat)
    ensures
        radix(a + b) == radix(a) * radix(b),
    decreases b,
{
    if b > 0 {
        lemma_radix_adds(a, (b - 1) as nat);
        assert(radix(a + b) == 256 * radix((a + b - 1) as nat));
        assert(radix(b) == 256 * radix((b - 1) as nat));
        assert(256 * (radix(a) * radix((b - 1) as nat)) == radix(a) * (256 * radix((b - 1) as nat)))
            by (nonlinear_arith);
    } else {
        assert(radix(a) * 1 == radix(a));
    }
}

/// What bytes spell is less than what as many bytes can spell.
pub proof fn lemma_be_value_bound(bytes: Seq<u8>)
    ensures
        be_value(bytes) < radix(bytes.len()),
    decreases bytes.len(),
{
    if bytes.len() > 0 {
        lemma_be_value_bound(bytes.drop_last());
        assert(radix(bytes.len()) == 256 * radix((bytes.len() - 1) as nat));
    }
}

/// What two runs of bytes spell when one follows the other.
pub proof fn lemma_be_value_concat(high: Seq<u8>, low: Seq<u8>)
    ensures
        be_value(high + low) == be_value(high) * radix(low.len()) + be_value(low),
    decreases low.len(),
{
    if low.len() == 0 {
        assert(high + low =~= high);
        assert(be_value(high) * 1 == be_value(high));
    } else {
        let front = low.drop_last();
        assert((high + low).drop_last() =~= high + front);
        assert((high + low).last() == low.last());
        lemma_be_value_concat(high, front);
        assert(radix(low.len()) == 256 * radix(front.len()));
        assert((be_value(high) * radix(front.len()) + be_value(front)) * 256 == be_value(high) * (
        256 * radix(front.len())) + be_value(front) * 256) by (nonlinear_arith);
    }
}

/// Whether `count` bytes can be read at place `at` of `content`. Nothing can
/// always be read, even past the end.
pub open spec fn readable(content: Seq<u8>, at: int, count: int) -> bool {
    count == 0 || (0 <= at && 0 < count && at + count <= content.len())
}

/// The `count` bytes at place `at` of `content`.
pub open spec fn span(content: Seq<u8>, at: int, count: int) -> Seq<u8> {
    if count == 0 {
        Seq::empty()
    } else {
        content.subrange(at, at + count)
    }
}

/// The natural number that the `count` bytes at place `at` of `content` spell.
pub open spec fn field(content: Seq<u8>, at: int, count: int) -> nat {
    be_value(span(content, at, count))
}

/// Bytes held in memory, with a place in them that reading moves forward.
/// The place may lie past the end.
pub struct Source {
    bytes: Vec<u8>,
    pos: u64,
}

impl Source {
    /// The bytes.
    pub closed spec fn content(&self) -> Seq<u8> {
        self.bytes@
    }

    /// The place that the next read starts at.
    pub closed spec fn place(&self) -> nat {
        self.pos as nat
    }

    /// A source over `bytes`, standing at their start.
    pub fn new(bytes: Vec<u8>) -> (source: Source)
        ensures
            source.content() == bytes@,
            source.place() == 0,
    {
        Source { bytes, pos: 0 }
    }

    /// The number of bytes.
    pub fn len(&self) -> (n: usize)
        ensures
            n == self.content().len(),
    {
        self.bytes.len()
    }

    /// The place that the next read starts at.
    pub fn position(&self) -> (at: u64)
        ensures
            at == self.place(),
    {
        self.pos
    }

    /// The bytes, given back.
    pub fn into_bytes(self) -> (bytes: Vec<u8>)
        ensures
            bytes@ == self.content(),
    {
        self.bytes
    }

    /// Moves to place `at`, counted from the start.
    pub fn seek(&mut self, at: u64) -> (now: u64)
        ensures
            final(self).content() == old(self).content(),
            final(self).place() == at,
            now == at,
    {
        self.pos = at;
        at
    }

    /// Moves to the place `back` bytes before the end. There is no such place
    /// where the source is shorter than that.
    pub fn seek_from_end(&mut self, back: u64) -> (r: ParserResult<u64>)
        ensures
            final(self).content() == old(self).content(),
            match r {
                Ok(now) => {
                    &&& back <= old(self).content().len()
                    &&& now == old(self).content().len() - back
                    &&& final(self).place() == now
                },
                Err(error) => {
                    &&& back > old(self).content().len()
                    &&& error is Io
                    &&& final(self).place() == old(self).place()
                },
            },
    {
        let len = self.bytes.len() as u64;
        if back > len {
            Err(ParserError::from(invalid_seek()))
        } else {
            self.pos = len - back;
            Ok(self.pos)
        }
    }

    /// Reads `count` bytes and moves past them, or fails, without moving,
    /// where fewer are left.
    pub fn read_exact(&mut self, count: usize) -> (r: ParserResult<Vec<u8>>)
        ensures
            final(self).content() == old(self).content(),
            match r {
                Ok(bytes) => {
                    &&& readable(old(self).content(), old(self).place() as int, count as int)
                    &&& bytes@ == span(old(self).content(), old(self).place() as int, count as int)
                    &&& final(self).place() == old(self).place() + count
                },
                Err(error) => {
                    &&& !readable(old(self).content(), old(self).place() as int, count as int)
                    &&& error is UnexpectedEof
                    &&& final(self).place() == old(self).place()
                },
            },
    {
        let mut out: Vec<u8> = Vec::new();
        if count == 0 {
            return Ok(out);
        }
        let len = self.bytes.len();
        if self.pos > len as u64 || len as u64 - self.pos < count as u64 {
            return Err(ParserError::UnexpectedEof);
        }
        let start = self.pos as usize;
        let mut i: usize = 0;
        while i < count
            invariant
                start + count <= len,
                len == self.bytes@.len(),
                i <= count,
                out@ == self.bytes@.subrange(start as int, start + i),
            decreases count - i,
        {
            out.push(self.bytes[start + i]);
            i += 1;
            assert(out@ =~= self.bytes@.subrange(start as int, start + i));
        }
        self.pos = self.pos + count as u64;
        Ok(out)
    }

    /// Reads an unsigned integer of `width` bytes, most significant byte first.
    pub(crate) fn read_uint(&mut self, width: usize) -> (r: ParserResult<u64>)
        requires
            1 <= width <= 8,
        ensures
            final(self).content() == old(self).content(),
            match r {
                Ok(value) => {
                    &&& readable(old(self).content(), old(self).place() as int, width as int)
                    &&& value == field(old(self).content(), old(self).place() as int, width as int)
                    &&& final(self).place() == old(self).place() + width
                },
                Err(error) => {
                    &&& !readable(old(self).content(), old(self).place() as int, width as int)
                    &&& error is UnexpectedEof
                    &&& final(self).place() == old(self).place()
                },
            },
    {
        let len = self.bytes.len();
        if self.pos > len as u64 || len as u64 - self.pos < width as u64 {
            return Err(ParserError::UnexpectedEof);
        }
        let start = self.pos as usize;
        let ghost all = self.bytes@.subrange(start as int, start + width);
        let mut value: u64 = 0;
        let mut i: usize = 0;
        while i < width
            invariant
                start + width <= len,
                len == self.bytes@.len(),
                i <= width <= 8,
                all == self.bytes@.subrange(start as int, start + width),
                value == be_value(all.take(i as int)),
                value < radix(i as nat),
            decreases width - i,
        {
            proof {
                lemma_radix_values();
                assert(all.take(i + 1).drop_last() =~= all.take(i as int));
                assert(all.take(i + 1).last() == self.bytes@[start + i]);
                assert(radix((i + 1) as nat) == 256 * radix(i as nat));
                assert(radix((i + 1) as nat) <= radix(8)) by {
                    lemma_radix_monotonic((i + 1) as nat, 8);
                }
            }
            value = value * 256 + self.bytes[start + i] as u64;
            i += 1;
        }
        proof {
            assert(all.take(width as int) =~= all);
        }
        self.pos = self.pos + width as u64;
        Ok(value)
    }

    /// Reads one byte.
    pub fn read_u8(&mut self) -> (r: ParserResult<u8>)
        ensures
            final(self).content() == old(self).content(),
            match r {
                Ok(value) => {
                    &&& readable(old(self).content(), old(self).place() as int, 1)
                    &&& value == old(self).content()[old(self).place() as int]
                    &&& value == field(old(self).content(), old(self).place() as int, 1)
                    &&& final(self).place() == old(self).place() + 1
                },
                Err(error) => {
                    &&& !readable(old(self).content(), old(self).place() as int, 1)
                    &&& error is UnexpectedEof
                    &&& final(self).place() == old(self).place()
                },
            },
    {
        let len = self.bytes.len();
        if self.pos >= len as u64 {
            return Err(ParserError::UnexpectedEof);
        }
        let value = self.bytes[self.pos as usize];
        proof {
            let one = span(self.bytes@, self.pos as int, 1);
            assert(one.drop_last() =~= Seq::<u8>::empty());
            assert(be_value(one) == be_value(one.drop_last()) * 256 + one.last() as nat);
            assert(be_value(one.drop_last()) == 0);
        }
        self.pos = self.pos + 1;
        Ok(value)
    }

    /// Reads an unsigned integer of two bytes, most significant byte first.
    pub fn read_be_u16(&mut self) -> (r: ParserResult<u16>)
        ensures
            final(self).content() == old(self).content(),
            match r {
                Ok(value) => {
                    &&& readable(old(self).content(), old(self).place() as int, 2)
                    &&& value == field(old(self).content(), old(self).place() as int, 2)
                    &&& final(self).place() == old(self).place() + 2
                },
                Err(error) => {
                    &&& !readable(old(self).content(), old(self).place() as int, 2)
                    &&& error is UnexpectedEof
                    &&& final(self).place() == old(self).place()
                },
            },
    {
        proof {
            lemma_radix_values();
            lemma_be_value_bound(span(self.content(), self.place() as int, 2));
        }
        let value = self.read_uint(2)?;
        Ok(value as u16)
    }

    /// Reads an unsigned integer of four bytes, most significant byte first.
    pub fn read_be_u32(&mut self) -> (r: ParserResult<u32>)
        ensures
            final(self).content() == old(self).content(),
            match r {
                Ok(value) => {
                    &&& readable(old(self).content(), old(self).place() as int, 4)
                    &&& value == field(old(self).content(), old(self).place() as int, 4)
                    &&& final(self).place() == old(self).place() + 4
                },
                Err(error) => {
                    &&& !readable(old(self).content(), old(self).place() as int, 4)
                    &&& error is UnexpectedEof
                    &&& final(self).place() == old(self).place()
                },
            },
    {
        proof {
            lemma_radix_values();
            lemma_be_value_bound(span(self.content(), self.place() as int, 4));
        }
        let value = self.read_uint(4)?;
        Ok(value as u32)
    }

    /// Reads an unsigned integer of eight bytes, most significant byte first.
    pub fn read_be_u64(&mut self) -> (r: ParserResult<u64>)
        ensures
            final(self).content() == old(self).content(),
            match r {
                Ok(value) => {
                    &&& readable(old(self).content(), old(self).place() as int, 8)
                    &&& value == field(old(self).content(), old(self).place() as int, 8)
                    &&& final(self).place() == old(self).place() + 8
                },
                Err(error) => {
                    &&& !readable(old(self).content(), old(self).place() as int, 8)
                    &&& error is UnexpectedEof
                    &&& final(self).place() == old(self).place()
                },
            },
    {
        self.read_uint(8)
    }

    /// Reads a two's complement integer of eight bytes, most significant byte
    /// first.
    pub fn read_be_i64(&mut self) -> (r: ParserResult<i64>)
        ensures
            final(self).content() == old(self).content(),
            match r {
                Ok(value) => {
                    &&& readable(old(self).content(), old(self).place() as int, 8)
                    &&& value == be_signed(span(old(self).content(), old(self).place() as int, 8))
                    &&& final(self).place() == old(self).place() + 8
                },
                Err(error) => {
                    &&& !readable(old(self).content(), old(self).place() as int, 8)
                    &&& error is UnexpectedEof
                    &&& final(self).place() == old(self).place()
                },
            },
    {
        proof {
            lemma_radix_values();
        }
        let value = self.read_uint(8)?;
        if value >= 0x8000_0000_0000_0000u64 {
            let low: u64 = value - 0x8000_0000_0000_0000u64;
            Ok(low as i64 - 0x4000_0000_0000_0000i64 - 0x4000_0000_0000_0000i64)
        } else {
            Ok(value as i64)
        }
    }

    /// Reads a two's complement integer of sixteen bytes, most significant byte
    /// first.
    pub fn read_be_i128(&mut self) -> (r: ParserResult<i128>)
        ensures
            final(self).content() == old(self).content(),
            match r {
                Ok(value) => {
                    &&& readable(old(self).content(), old(self).place() as int, 16)
                    &&& value == be_signed(span(old(self).content(), old(self).place() as int, 16))
                    &&& final(self).place() == old(self).place() + 16
                },
                Err(error) => {
                    &&& !readable(old(self).content(), old(self).place() as int, 16)
                    &&& error is UnexpectedEof
                    &&& final(self).place() == old(self).place()
                },
            },
    {
        let len = self.bytes.len();
        if self.pos > len as u64 || len as u64 - self.pos < 16 {
            return Err(ParserError::UnexpectedEof);
        }
        let ghost at = self.pos as int;
        let ghost all = span(self.bytes@, at, 16);
        let high = self.read_uint(8)?;
        let low = self.read_uint(8)?;
        proof {
            lemma_radix_values();
            let a = span(self.bytes@, at, 8);
            let b = span(self.bytes@, at + 8, 8);
            assert(all =~= a + b);
            lemma_be_value_concat(a, b);
        }
        if high >= 0x8000_0000_0000_0000u64 {
            let top: i128 = high as i128 - 0x1_0000_0000_0000_0000i128;
            Ok(top * 0x1_0000_0000_0000_0000i128 + low as i128)
        } else {
            Ok(high as i128 * 0x1_0000_0000_0000_0000i128 + low as i128)
        }
    }
}

/// [`radix`] grows with its argument.
pub proof fn lemma_radix_monotonic(a: nat, b: nat)
    requires
        a <= b,
    ensures
        0 < radix(a) <= radix(b),
    decreases b,
{
    if a < b {
        lemma_radix_monotonic(a, (b - 1) as nat);
        assert(radix(b) == 256 * radix((b - 1) as nat));
    } else if a > 0 {
        lemma_radix_monotonic((a - 1) as nat, (a - 1) as nat);
        assert(radix(a) == 256 * radix((a - 1) as nat));
    }
}

} // verus!
