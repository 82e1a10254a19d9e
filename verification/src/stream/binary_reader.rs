//! The decoder of binary property lists.

use crate::bytes::{field, Source};
use crate::date::Date;
use crate::error::{ParserError, ParserResult};
use crate::event::{pull_view, reversed, EventStream, PlistEvent, Pull};
use crate::number::{Integer, Real};
use crate::stream::format::{
    array_object, blob, date_object, dictionary_object, has_magic, header, integer_object, integers,
    interleave, lemma_object_in_table, length, magic, object, real_object, table, utf16_object,
    valid_width, Layout, Node, MAGIC_BYTES, TRAILER_BYTES,
};
use crate::stream::walk::{
    advance, distinct, events, lemma_depth_bounded, lemma_end_is_final, lemma_failure_is_final,
    lemma_step_wf, on_stack, settle, step, visit, Decoding, Frame, Walk,
};
use crate::text::{decode_ascii, decode_utf16};
use vstd::prelude::*;

verus! {

/// A container that the decoder is inside of.
struct StackItem {
    object_ref: u64,
    /// The objects still to be visited, the next one last.
    child_object_refs: Vec<u64>,
}

/// What one object of the source is. The objects in a container are given in
/// the reverse of the order in which they are to be visited.
enum Parsed {
    Leaf(PlistEvent),
    Array(Vec<u64>),
    Dictionary(Vec<u64>),
}

impl Parsed {
    /// The node that this stands for.
    spec fn node(&self) -> Node {
        match self {
            Parsed::Leaf(event) => Node::Leaf(event@),
            Parsed::Array(refs) => Node::Array(refs@.reverse()),
            Parsed::Dictionary(refs) => Node::Dictionary(refs@.reverse()),
        }
    }
}

/// The containers that a stack of the decoder stands for.
spec fn frames(stack: Seq<StackItem>) -> Seq<Frame> {
    Seq::new(
        stack.len(),
        |i: int| Frame { object: stack[i].object_ref, pending: stack[i].child_object_refs@.reverse() },
    )
}

/// Decodes a binary property list into events, one at each request.
///
/// Nothing is read before the first request. After a failure, and after the
/// event that ends the description of the root object, nothing more is handed
/// out.
pub struct BinaryReader {
    stack: Vec<StackItem>,
    object_offsets: Vec<u64>,
    object_on_stack: Vec<bool>,
    reader: Source,
    ref_size: u8,
    root_object: u64,
    // The largest single allocation allowed for this plist.
    // Equal to the number of bytes in the plist minus the magic number and trailer.
    max_allocation_bytes: usize,
    started: bool,
}

impl View for BinaryReader {
    type V = Decoding;

    closed spec fn view(&self) -> Decoding {
        Decoding {
            source: self.reader.content(),
            walk: if !self.started {
                Walk::Fresh
            } else {
                settle(self.layout(), frames(self.stack@))
            },
        }
    }
}

impl BinaryReader {
    /// What the decoder has learnt of the layout of its source.
    closed spec fn layout(&self) -> Layout {
        Layout {
            offsets: self.object_offsets@,
            ref_size: self.ref_size,
            ceiling: self.max_allocation_bytes as nat,
        }
    }

    /// Whether the marks that tell which objects the decoder is inside of agree
    /// with its stack: there is a mark for each object of the table, and it is
    /// set for exactly the containers of the stack.
    pub closed spec fn marks_match(&self) -> bool {
        &&& self.object_on_stack@.len() == self.object_offsets@.len()
        &&& forall|i: int|
            0 <= i < self.object_on_stack@.len() ==> (#[trigger] self.object_on_stack@[i]
                <==> on_stack(frames(self.stack@), i as u64))
    }

    /// Whether the decoder is in a state that it can reach.
    pub closed spec fn wf(&self) -> bool {
        &&& !self.started ==> self.stack@.len() == 0
        &&& self@.wf()
        &&& self.marks_match()
        &&& self.in_table()
    }

    /// How many containers the decoder is inside of.
    pub closed spec fn depth(&self) -> nat {
        self.stack@.len()
    }

    /// How many objects the table of offsets holds, once it has been read.
    pub closed spec fn object_count(&self) -> nat {
        self.object_offsets@.len()
    }

    /// Whether nothing but the place in the source differs from `before`.
    closed spec fn unmoved(&self, before: &BinaryReader) -> bool {
        &&& self.stack == before.stack
        &&& self.object_offsets == before.object_offsets
        &&& self.object_on_stack == before.object_on_stack
        &&& self.reader.content() == before.reader.content()
        &&& self.ref_size == before.ref_size
        &&& self.root_object == before.root_object
        &&& self.max_allocation_bytes == before.max_allocation_bytes
        &&& self.started == before.started
    }

    /// The place in the source that the next read starts at.
    pub closed spec fn position(&self) -> nat {
        self.reader.place()
    }

    /// A decoder of the bytes `reader`. Nothing is read yet: the decoder stands
    /// at the start of the source, is inside of no container, and its table of
    /// offsets is empty.
    pub fn new(reader: Vec<u8>) -> (r: BinaryReader)
        ensures
            r.wf(),
            r@ == (Decoding { source: reader@, walk: Walk::Fresh }),
            r.depth() == 0,
            r.object_count() == 0,
            r.position() == 0,
            r.marks_match(),
    {
        BinaryReader {
            stack: Vec::new(),
            object_offsets: Vec::new(),
            object_on_stack: Vec::new(),
            reader: Source::new(reader),
            ref_size: 0,
            root_object: 0,
            max_allocation_bytes: 0,
            started: false,
        }
    }

    /// Whether `len` items of `size` bytes each take up no more than the ceiling.
    fn can_allocate(&self, len: u64, size: usize) -> (r: bool)
        ensures
            r == (len * size <= self.max_allocation_bytes),
    {
        match len.checked_mul(size as u64) {
            Some(byte_len) => byte_len <= self.max_allocation_bytes as u64,
            None => false,
        }
    }

    /// An empty list with room for `len` items of `size` bytes each, where
    /// they take up no more than the ceiling.
    fn allocate_vec<T>(&self, len: u64, size: usize) -> (r: Result<Vec<T>, ParserError>)
        requires
            size >= 1,
        ensures
            match r {
                Ok(list) => list@.len() == 0 && len * size <= self.max_allocation_bytes,
                Err(error) => error is InvalidData && len * size > self.max_allocation_bytes,
            },
    {
        if self.can_allocate(len, size) {
            assert(len <= len * size) by (nonlinear_arith)
                requires
                    size >= 1,
                    len >= 0,
            ;
            Ok(Vec::with_capacity(len as usize))
        } else {
            Err(ParserError::InvalidData)
        }
    }

    /// Reads `len` integers of `size` bytes each. Where they would take up
    /// more than the ceiling, nothing is read.
    fn read_ints(&mut self, len: u64, size: u8) -> (r: ParserResult<Vec<u64>>)
        requires
            valid_width(size),
        ensures
            final(self).unmoved(old(self)),
            len * size > old(self).max_allocation_bytes ==> final(self).reader.place() == old(
                self,
            ).reader.place(),
            match integers(
                old(self).reader.content(),
                old(self).reader.place() as int,
                len as nat,
                size as int,
                old(self).max_allocation_bytes as nat,
            ) {
                Ok(values) => {
                    &&& r matches Ok(ints)
                    &&& ints@ == values
                    &&& final(self).reader.place() == old(self).reader.place() + len * size
                },
                Err(class) => r matches Err(error) && error.class_of() == class,
            },
    {
        let mut ints: Vec<u64> = self.allocate_vec(len, size as usize)?;
        let ghost at = self.reader.place() as int;
        let ghost content = self.reader.content();
        let mut i: u64 = 0;
        while i < len
            invariant
                self.unmoved(old(self)),
                valid_width(size),
                i <= len,
                content == self.reader.content(),
                at == old(self).reader.place(),
                at >= 0,
                self.reader.place() == at + i * size,
                i > 0 ==> at + i * size <= content.len(),
                len * size <= self.max_allocation_bytes,
                ints@ == table(content, at, i as nat, size as int),
            decreases len - i,
        {
            let ghost here = self.reader.place();
            let value = match self.reader.read_uint(size as usize) {
                Ok(value) => value,
                Err(error) => {
                    proof {
                        assert((i + 1) * size <= len * size) by (nonlinear_arith)
                            requires
                                i + 1 <= len,
                                size >= 0,
                        ;
                        assert((i + 1) * size == i * size + size) by (nonlinear_arith);
                    }
                    return Err(error);
                },
            };
            ints.push(value);
            proof {
                assert((i + 1) * size == i * size + size) by (nonlinear_arith);
                assert(ints@ =~= table(content, at, (i + 1) as nat, size as int));
            }
            i += 1;
        }
        Ok(ints)
    }

    /// Reads `len` references to objects.
    fn read_refs(&mut self, len: u64) -> (r: ParserResult<Vec<u64>>)
        requires
            valid_width(old(self).ref_size),
        ensures
            final(self).unmoved(old(self)),
            match integers(
                old(self).reader.content(),
                old(self).reader.place() as int,
                len as nat,
                old(self).ref_size as int,
                old(self).max_allocation_bytes as nat,
            ) {
                Ok(values) => {
                    &&& r matches Ok(ints)
                    &&& ints@ == values
                    &&& final(self).reader.place() == old(self).reader.place() + len * old(
                        self,
                    ).ref_size
                },
                Err(class) => r matches Err(error) && error.class_of() == class,
            },
    {
        let ref_size = self.ref_size;
        self.read_ints(len, ref_size)
    }

    /// Reads the length that an object declares, `size` being the low half of
    /// the object's first byte.
    fn read_object_len(&mut self, size: u8) -> (r: ParserResult<u64>)
        requires
            size < 16,
        ensures
            final(self).unmoved(old(self)),
            match length(old(self).reader.content(), old(self).reader.place() as int, size) {
                Ok((count, body)) => {
                    &&& r matches Ok(len)
                    &&& len == count
                    &&& final(self).reader.place() == body
                },
                Err(class) => r matches Err(error) && error.class_of() == class,
            },
    {
        if size == 0x0f {
            let len_power_of_two = self.reader.read_u8()? % 4;
            Ok(
                match len_power_of_two {
                    0 => self.reader.read_u8()? as u64,
                    1 => self.reader.read_be_u16()? as u64,
                    2 => self.reader.read_be_u32()? as u64,
                    _ => self.reader.read_be_u64()?,
                },
            )
        } else {
            Ok(size as u64)
        }
    }

    /// Reads `len` bytes. Where that is more than the ceiling, or more than
    /// the source holds, nothing is read.
    fn read_data(&mut self, len: u64) -> (r: ParserResult<Vec<u8>>)
        ensures
            final(self).unmoved(old(self)),
            r is Err ==> final(self).reader.place() == old(self).reader.place(),
            match blob(
                old(self).reader.content(),
                old(self).reader.place() as int,
                len,
                old(self).max_allocation_bytes as nat,
            ) {
                Ok(bytes) => {
                    &&& r matches Ok(data)
                    &&& data@ == bytes
                    &&& final(self).reader.place() == old(self).reader.place() + len
                },
                Err(class) => r matches Err(error) && error.class_of() == class,
            },
    {
        if !self.can_allocate(len, 1) {
            return Err(ParserError::InvalidData);
        }
        self.reader.read_exact(len as usize)
    }

    /// Moves to the place of the object with number `object_ref`.
    fn seek_to_object(&mut self, object_ref: u64) -> (r: ParserResult<u64>)
        ensures
            final(self).unmoved(old(self)),
            object_ref < old(self).object_offsets@.len() ==> {
                &&& r matches Ok(offset)
                &&& offset == old(self).object_offsets@[object_ref as int]
                &&& final(self).reader.place() == offset
            },
            object_ref >= old(self).object_offsets@.len() ==> {
                &&& r matches Err(ParserError::InvalidData)
                &&& final(self).reader.place() == old(self).reader.place()
            },
    {
        if object_ref >= self.object_offsets.len() as u64 {
            return Err(ParserError::InvalidData);
        }
        let offset = self.object_offsets[object_ref as usize];
        Ok(self.reader.seek(offset))
    }

    /// Reads the trailer and the table of offsets.
    fn read_trailer(&mut self) -> (r: ParserResult<()>)
        requires
            old(self).stack@.len() == 0,
        ensures
            final(self).stack == old(self).stack,
            final(self).started == old(self).started,
            final(self).reader.content() == old(self).reader.content(),
            r is Err ==> final(self).object_offsets == old(self).object_offsets,
            r is Err ==> final(self).object_on_stack == old(self).object_on_stack,
            match header(old(self).reader.content()) {
                Ok((layout, root)) => {
                    &&& r is Ok
                    &&& final(self).layout() == layout
                    &&& final(self).root_object == root
                    &&& final(self).marks_match()
                    &&& valid_width(final(self).ref_size)
                },
                Err(class) => r matches Err(error) && error.class_of() == class,
            },
    {
        self.reader.seek(0);
        let magic = self.reader.read_exact(8)?;
        assert(magic@.subrange(0, 8) =~= magic@);
        if !has_magic(&magic) {
            return Err(ParserError::InvalidData);
        }
        // Trailer starts with 6 bytes of padding

        let trailer_start = self.reader.seek_from_end(TRAILER_BYTES)?;

        let offset_size = self.reader.read_u8()?;
        match offset_size {
            1 | 2 | 4 | 8 => (),
            _ => {
                return Err(ParserError::InvalidData);
            },
        }

        self.ref_size = self.reader.read_u8()?;
        match self.ref_size {
            1 | 2 | 4 | 8 => (),
            _ => {
                return Err(ParserError::InvalidData);
            },
        }

        let num_objects = self.reader.read_be_u64()?;
        self.root_object = self.reader.read_be_u64()?;
        let offset_table_offset = self.reader.read_be_u64()?;

        // File size minus trailer and header
        let source_len = self.reader.len();
        assert(trailer_start <= source_len);
        self.max_allocation_bytes = trailer_start.saturating_sub(MAGIC_BYTES) as usize;

        // Read offset table
        self.reader.seek(offset_table_offset);
        self.object_offsets = self.read_ints(num_objects, offset_size)?;
        self.object_on_stack = vec![false; self.object_offsets.len()];

        Ok(())
    }

    /// Reads a whole number, `size` telling its width.
    fn read_integer(&mut self, size: u8) -> (r: ParserResult<PlistEvent>)
        ensures
            final(self).unmoved(old(self)),
            match integer_object(old(self).reader.content(), old(self).reader.place() as int, size) {
                Ok(event) => r matches Ok(got) && got@ == event,
                Err(class) => r matches Err(error) && error.class_of() == class,
            },
    {
        match size {
            0 => Ok(PlistEvent::IntegerValue(Integer::from_unsigned(self.reader.read_u8()? as u64))),
            1 => Ok(
                PlistEvent::IntegerValue(Integer::from_unsigned(self.reader.read_be_u16()? as u64)),
            ),
            2 => Ok(
                PlistEvent::IntegerValue(Integer::from_unsigned(self.reader.read_be_u32()? as u64)),
            ),
            3 => Ok(PlistEvent::IntegerValue(Integer::from_signed(self.reader.read_be_i64()?))),
            4 => {
                let value = self.reader.read_be_i128()?;
                if value < 0 || value > 0xffff_ffff_ffff_ffffi128 {
                    return Err(ParserError::InvalidData);
                }
                Ok(PlistEvent::IntegerValue(Integer::from_unsigned(value as u64)))
            },
            // variable length int
            _ => Err(ParserError::InvalidData),
        }
    }

    /// Reads a floating-point number, `size` telling its width.
    fn read_real(&mut self, size: u8) -> (r: ParserResult<PlistEvent>)
        ensures
            final(self).unmoved(old(self)),
            match real_object(old(self).reader.content(), old(self).reader.place() as int, size) {
                Ok(event) => r matches Ok(got) && got@ == event,
                Err(class) => r matches Err(error) && error.class_of() == class,
            },
    {
        match size {
            2 => Ok(PlistEvent::RealValue(Real::from_single_bits(self.reader.read_be_u32()?))),
            3 => Ok(PlistEvent::RealValue(Real::from_bits(self.reader.read_be_u64()?))),
            // odd length float
            _ => Err(ParserError::InvalidData),
        }
    }

    /// Reads an instant.
    fn read_date(&mut self, size: u8) -> (r: ParserResult<PlistEvent>)
        ensures
            final(self).unmoved(old(self)),
            match date_object(old(self).reader.content(), old(self).reader.place() as int, size) {
                Ok(event) => r matches Ok(got) && got@ == event,
                Err(class) => r matches Err(error) && error.class_of() == class,
            },
    {
        if size != 3 {
            return Err(ParserError::InvalidData);
        }
        // Date. Seconds since 1/1/2001 00:00:00.
        let secs = self.reader.read_be_u64()?;
        match Date::from_seconds_since_plist_epoch(secs) {
            Some(date) => Ok(PlistEvent::DateValue(date)),
            None => Err(ParserError::InvalidData),
        }
    }

    /// Reads a string stored in UTF-16.
    fn read_utf16(&mut self, size: u8) -> (r: ParserResult<PlistEvent>)
        requires
            size < 16,
        ensures
            final(self).unmoved(old(self)),
            match utf16_object(
                old(self).reader.content(),
                old(self).layout(),
                old(self).reader.place() as int,
                size,
            ) {
                Ok(event) => r matches Ok(got) && got@ == event,
                Err(class) => r matches Err(error) && error.class_of() == class,
            },
    {
        let len_utf16_codepoints = self.read_object_len(size)?;
        let mut raw_utf16: Vec<u16> = self.allocate_vec(len_utf16_codepoints, 2)?;
        let ghost at = self.reader.place() as int;
        let ghost content = self.reader.content();
        let mut i: u64 = 0;
        while i < len_utf16_codepoints
            invariant
                self.unmoved(old(self)),
                i <= len_utf16_codepoints,
                content == self.reader.content(),
                at >= 0,
                content == old(self).reader.content(),
                length(content, old(self).reader.place() as int, size) == Ok::<
                    (u64, int),
                    crate::error::ErrorClass,
                >((len_utf16_codepoints, at)),
                len_utf16_codepoints * 2 <= old(self).max_allocation_bytes,
                self.reader.place() == at + i * 2,
                i > 0 ==> at + i * 2 <= content.len(),
                raw_utf16@ == Seq::new(i as nat, |j: int| field(content, at + j * 2, 2) as u16),
            decreases len_utf16_codepoints - i,
        {
            let unit = match self.reader.read_be_u16() {
                Ok(unit) => unit,
                Err(error) => {
                    return Err(error);
                },
            };
            raw_utf16.push(unit);
            proof {
                assert(raw_utf16@ =~= Seq::new(
                    (i + 1) as nat,
                    |j: int| field(content, at + j * 2, 2) as u16,
                ));
            }
            i += 1;
        }
        let string = decode_utf16(&raw_utf16)?;
        Ok(PlistEvent::StringValue(string))
    }

    /// Reads the references of an array, and gives them last to first.
    fn read_array(&mut self, size: u8) -> (r: ParserResult<Vec<u64>>)
        requires
            size < 16,
            valid_width(old(self).ref_size),
        ensures
            final(self).unmoved(old(self)),
            match array_object(
                old(self).reader.content(),
                old(self).layout(),
                old(self).reader.place() as int,
                size,
            ) {
                Ok(children) => r matches Ok(refs) && refs@.reverse() == children,
                Err(class) => r matches Err(error) && error.class_of() == class,
            },
    {
        let len = self.read_object_len(size)?;
        let child_object_refs = self.read_refs(len)?;
        // Reverse so we can pop off the end of the stack in order
        let r = reversed(child_object_refs);
        proof {
            assert(r@.reverse() =~= child_object_refs@);
        }
        Ok(r)
    }

    /// Reads the references of a dictionary, and gives them last to first, each
    /// value before its key.
    fn read_dictionary(&mut self, size: u8) -> (r: ParserResult<Vec<u64>>)
        requires
            size < 16,
            valid_width(old(self).ref_size),
        ensures
            final(self).unmoved(old(self)),
            match dictionary_object(
                old(self).reader.content(),
                old(self).layout(),
                old(self).reader.place() as int,
                size,
            ) {
                Ok(children) => r matches Ok(refs) && refs@.reverse() == children,
                Err(class) => r matches Err(error) && error.class_of() == class,
            },
    {
        let len = self.read_object_len(size)?;
        let key_refs = self.read_refs(len)?;
        let value_refs = self.read_refs(len)?;

        let keys_and_values_len = match len.checked_mul(2) {
            Some(doubled) => doubled,
            None => {
                proof {
                    assert(2 * len * self.ref_size >= 2 * len) by (nonlinear_arith)
                        requires
                            self.ref_size >= 1,
                            len >= 0,
                    ;
                }
                return Err(ParserError::InvalidData);
            },
        };
        proof {
            assert(keys_and_values_len * self.ref_size == 2 * len * self.ref_size)
                by (nonlinear_arith)
                requires
                    keys_and_values_len == 2 * len,
            ;
        }
        let mut child_object_refs: Vec<u64> = self.allocate_vec(
            keys_and_values_len,
            self.ref_size as usize,
        )?;
        let len = key_refs.len();
        let mut i: usize = 0;
        while i < len
            invariant
                i <= len,
                len == key_refs@.len(),
                len == value_refs@.len(),
                child_object_refs@.len() == 2 * i,
                forall|k: int|
                    0 <= k < 2 * i ==> #[trigger] child_object_refs@[k] == (if k % 2 == 0 {
                        value_refs@[len - 1 - k / 2]
                    } else {
                        key_refs@[len - 1 - k / 2]
                    }),
            decreases len - i,
        {
            // Reverse so we can pop off the end of the stack in order
            child_object_refs.push(value_refs[len - 1 - i]);
            child_object_refs.push(key_refs[len - 1 - i]);
            i += 1;
        }
        proof {
            let pairs = interleave(key_refs@, value_refs@);
            let turned = child_object_refs@.reverse();
            assert(turned.len() == pairs.len());
            assert forall|k: int| 0 <= k < pairs.len() implies turned[k] == pairs[k] by {
                let from_end = 2 * len - 1 - k;
                assert(turned[k] == child_object_refs@[from_end]);
                assert(from_end / 2 == len - 1 - k / 2);
                assert((from_end % 2 == 0) == (k % 2 != 0));
            }
            assert(turned =~= pairs);
        }
        Ok(child_object_refs)
    }

    /// Reads the object with number `object_ref`.
    fn read_object(&mut self, object_ref: u64) -> (r: ParserResult<Parsed>)
        requires
            valid_width(old(self).ref_size),
        ensures
            final(self).unmoved(old(self)),
            match object(old(self).reader.content(), old(self).layout(), object_ref) {
                Ok(node) => r matches Ok(parsed) && parsed.node() == node,
                Err(class) => r matches Err(error) && error.class_of() == class,
            },
    {
        proof {
            reveal(object);
        }
        self.seek_to_object(object_ref)?;

        let token = self.reader.read_u8()?;
        let ty = token / 16;
        let size = token % 16;

        match ty {
            0x0 => match size {
                0x08 => Ok(Parsed::Leaf(PlistEvent::BooleanValue(false))),
                0x09 => Ok(Parsed::Leaf(PlistEvent::BooleanValue(true))),
                // null, fill
                _ => Err(ParserError::InvalidData),
            },
            0x1 => Ok(Parsed::Leaf(self.read_integer(size)?)),
            0x2 => Ok(Parsed::Leaf(self.read_real(size)?)),
            0x3 => Ok(Parsed::Leaf(self.read_date(size)?)),
            0x4 => {
                // Data
                let len = self.read_object_len(size)?;
                Ok(Parsed::Leaf(PlistEvent::DataValue(self.read_data(len)?)))
            },
            0x5 => {
                // ASCII string
                let len = self.read_object_len(size)?;
                let raw = self.read_data(len)?;
                let string = decode_ascii(raw)?;
                Ok(Parsed::Leaf(PlistEvent::StringValue(string)))
            },
            0x6 => Ok(Parsed::Leaf(self.read_utf16(size)?)),
            0xa => Ok(Parsed::Array(self.read_array(size)?)),
            0xd => Ok(Parsed::Dictionary(self.read_dictionary(size)?)),
            _ => Err(ParserError::InvalidData),
        }
    }

    /// Whether nothing but the stack and the marks differs from `before`.
    closed spec fn same_source(&self, before: &BinaryReader) -> bool {
        &&& self.object_offsets == before.object_offsets
        &&& self.reader == before.reader
        &&& self.ref_size == before.ref_size
        &&& self.root_object == before.root_object
        &&& self.max_allocation_bytes == before.max_allocation_bytes
        &&& self.started == before.started
    }

    /// Whether every container of the stack is an object of the source.
    closed spec fn in_table(&self) -> bool {
        forall|i: int|
            0 <= i < self.stack@.len() ==> (#[trigger] self.stack@[i]).object_ref
                < self.object_offsets@.len()
    }

    /// Enters a container, unless the decoder is inside of it already.
    fn push_stack_item_and_check_for_recursion(&mut self, item: StackItem) -> (r: ParserResult<()>)
        requires
            item.object_ref < old(self).object_offsets@.len(),
            old(self).marks_match(),
        ensures
            final(self).same_source(old(self)),
            on_stack(frames(old(self).stack@), item.object_ref) ==> {
                &&& r matches Err(ParserError::InvalidData)
                &&& final(self).stack == old(self).stack
                &&& final(self).object_on_stack == old(self).object_on_stack
            },
            !on_stack(frames(old(self).stack@), item.object_ref) ==> {
                &&& r is Ok
                &&& final(self).stack@ == old(self).stack@.push(item)
                &&& final(self).marks_match()
            },
    {
        let marks = self.object_on_stack.len();
        let object_ref = item.object_ref as usize;
        let ghost before = frames(self.stack@);
        assert(self.object_on_stack@[object_ref as int] <==> on_stack(before, object_ref as u64));
        if self.object_on_stack[object_ref] {
            return Err(ParserError::InvalidData);
        }
        self.object_on_stack[object_ref] = true;
        self.stack.push(item);
        proof {
            let after = frames(self.stack@);
            assert(after.len() == before.len() + 1);
            assert forall|k: int| 0 <= k < before.len() implies #[trigger] after[k].object
                == before[k].object by {
                assert(self.stack@[k] == old(self).stack@[k]);
            }
            assert(after[before.len() as int].object == item.object_ref);
            assert forall|i: int| 0 <= i < self.object_on_stack@.len() implies (
            #[trigger] self.object_on_stack@[i] <==> on_stack(after, i as u64)) by {
                assert(old(self).object_on_stack@[i] <==> on_stack(before, i as u64));
                if i == object_ref {
                    assert(after[before.len() as int].object == i as u64);
                } else {
                    if on_stack(before, i as u64) {
                        let k = choose|k: int|
                            0 <= k < before.len() && #[trigger] before[k].object == i as u64;
                        assert(after[k].object == i as u64);
                    }
                    if on_stack(after, i as u64) {
                        let k = choose|k: int|
                            0 <= k < after.len() && #[trigger] after[k].object == i as u64;
                        assert(k < before.len());
                        assert(before[k].object == i as u64);
                    }
                }
            }
        }
        Ok(())
    }

    /// Leaves the innermost container.
    fn pop_stack_item(&mut self) -> (item: StackItem)
        requires
            old(self).stack@.len() > 0,
            old(self).marks_match(),
            old(self).in_table(),
            distinct(frames(old(self).stack@)),
        ensures
            final(self).same_source(old(self)),
            final(self).stack@ == old(self).stack@.drop_last(),
            item == old(self).stack@.last(),
            final(self).marks_match(),
    {
        let marks = self.object_on_stack.len();
        let ghost before = frames(self.stack@);
        let item = self.stack.pop().unwrap();
        assert(item == old(self).stack@[old(self).stack@.len() - 1]);
        let object_ref = item.object_ref as usize;
        self.object_on_stack[object_ref] = false;
        proof {
            let after = frames(self.stack@);
            assert(after.len() + 1 == before.len());
            assert forall|k: int| 0 <= k < after.len() implies #[trigger] after[k].object
                == before[k].object by {
                assert(self.stack@[k] == old(self).stack@[k]);
            }
            assert(before[after.len() as int].object == object_ref as u64);
            assert forall|i: int| 0 <= i < self.object_on_stack@.len() implies (
            #[trigger] self.object_on_stack@[i] <==> on_stack(after, i as u64)) by {
                assert(old(self).object_on_stack@[i] <==> on_stack(before, i as u64));
                if on_stack(after, i as u64) {
                    let k = choose|k: int|
                        0 <= k < after.len() && #[trigger] after[k].object == i as u64;
                    assert(before[k].object == i as u64);
                    assert(before[k].object != before[after.len() as int].object);
                }
                if i != object_ref && on_stack(before, i as u64) {
                    let k = choose|k: int|
                        0 <= k < before.len() && #[trigger] before[k].object == i as u64;
                    assert(k < after.len());
                    assert(after[k].object == i as u64);
                }
            }
        }
        item
    }

    /// Takes the next object to visit from the innermost container, if one is
    /// left there.
    fn next_child(&mut self) -> (child: Option<u64>)
        requires
            old(self).stack@.len() > 0,
            old(self).marks_match(),
            old(self).in_table(),
        ensures
            final(self).same_source(old(self)),
            final(self).object_on_stack == old(self).object_on_stack,
            final(self).marks_match(),
            final(self).in_table(),
            final(self).stack@.len() == old(self).stack@.len(),
            match child {
                Some(object_ref) => {
                    &&& frames(old(self).stack@).last().pending.len() > 0
                    &&& object_ref == frames(old(self).stack@).last().pending[0]
                    &&& frames(final(self).stack@) == advance(frames(old(self).stack@))
                },
                None => {
                    &&& frames(old(self).stack@).last().pending.len() == 0
                    &&& frames(final(self).stack@) == frames(old(self).stack@)
                },
            },
    {
        let ghost before = frames(self.stack@);
        let mut stack_item = self.stack.pop().unwrap();
        assert(stack_item == old(self).stack@[old(self).stack@.len() - 1]);
        let ghost refs = stack_item.child_object_refs@;
        let child = stack_item.child_object_refs.pop();
        self.stack.push(stack_item);
        proof {
            let after = frames(self.stack@);
            assert(after.len() == before.len());
            assert forall|k: int| 0 <= k < before.len() implies #[trigger] after[k].object
                == before[k].object && (k < before.len() - 1 ==> after[k] == before[k]) by {
                if k < before.len() - 1 {
                    assert(self.stack@[k] == old(self).stack@[k]);
                }
            }
            assert forall|k: int| 0 <= k < self.stack@.len() implies (
            #[trigger] self.stack@[k]).object_ref < self.object_offsets@.len() by {
                assert(self.stack@[k].object_ref == old(self).stack@[k].object_ref);
            }
            assert forall|i: int| 0 <= i < self.object_on_stack@.len() implies (
            #[trigger] self.object_on_stack@[i] <==> on_stack(after, i as u64)) by {
                assert(old(self).object_on_stack@[i] <==> on_stack(before, i as u64));
                if on_stack(after, i as u64) {
                    let k = choose|k: int|
                        0 <= k < after.len() && #[trigger] after[k].object == i as u64;
                    assert(before[k].object == i as u64);
                }
                if on_stack(before, i as u64) {
                    let k = choose|k: int|
                        0 <= k < before.len() && #[trigger] before[k].object == i as u64;
                    assert(after[k].object == i as u64);
                }
            }
            if child is Some {
                assert(refs.drop_last().reverse() =~= refs.reverse().skip(1));
                assert(after =~= advance(before));
            } else {
                assert(stack_item.child_object_refs@ =~= refs);
                assert(after =~= before);
            }
        }
        child
    }

    /// Visits the object with number `object_ref`: hands out the event that
    /// describes it or opens it, and enters it where it is a container.
    fn visit_object(&mut self, object_ref: u64) -> (r: ParserResult<PlistEvent>)
        requires
            valid_width(old(self).ref_size),
            old(self).marks_match(),
            old(self).in_table(),
        ensures
            final(self).reader.content() == old(self).reader.content(),
            final(self).layout() == old(self).layout(),
            final(self).started == old(self).started,
            match visit(
                old(self).reader.content(),
                old(self).layout(),
                frames(old(self).stack@),
                object_ref,
            ) {
                (Ok(event), walk) => {
                    &&& r matches Ok(got)
                    &&& got@ == event
                    &&& settle(final(self).layout(), frames(final(self).stack@)) == walk
                    &&& final(self).marks_match()
                    &&& final(self).in_table()
                },
                (Err(class), _) => r matches Err(error) && error.class_of() == class,
            },
    {
        let ghost stack = frames(self.stack@);
        proof {
            if object(self.reader.content(), self.layout(), object_ref) is Ok {
                lemma_object_in_table(self.reader.content(), self.layout(), object_ref);
            }
        }
        let parsed = self.read_object(object_ref)?;
        match parsed {
            Parsed::Leaf(event) => Ok(event),
            Parsed::Array(child_object_refs) => {
                let len = child_object_refs.len() as u64;
                self.push_stack_item_and_check_for_recursion(
                    StackItem { object_ref, child_object_refs },
                )?;
                assert(frames(self.stack@) =~= stack.push(
                    Frame { object: object_ref, pending: child_object_refs@.reverse() },
                ));
                Ok(PlistEvent::StartArray(Some(len)))
            },
            Parsed::Dictionary(child_object_refs) => {
                let len = (child_object_refs.len() / 2) as u64;
                self.push_stack_item_and_check_for_recursion(
                    StackItem { object_ref, child_object_refs },
                )?;
                assert(frames(self.stack@) =~= stack.push(
                    Frame { object: object_ref, pending: child_object_refs@.reverse() },
                ));
                Ok(PlistEvent::StartDictionary(Some(len)))
            },
        }
    }

    /// The next event, or `None` once the root object has been described in
    /// full.
    fn read_next(&mut self) -> (r: Result<Option<PlistEvent>, ParserError>)
        requires
            old(self).wf(),
        ensures
            final(self).reader.content() == old(self).reader.content(),
            match step(old(self)@).0 {
                None => r matches Ok(None) && final(self).wf() && final(self)@ == old(self)@,
                Some(Ok(event)) => {
                    &&& r matches Ok(Some(got))
                    &&& got@ == event
                    &&& final(self).wf()
                    &&& final(self)@ == step(old(self)@).1
                },
                Some(Err(class)) => {
                    &&& r matches Err(error)
                    &&& error.class_of() == class
                    &&& final(self).started
                },
            },
    {
        proof {
            lemma_step_wf(self@);
        }
        if !self.started {
            // Initialise here rather than in new
            self.started = true;
            self.read_trailer()?;
            let root_object = self.root_object;
            assert(frames(self.stack@) =~= Seq::<Frame>::empty());
            let event = self.visit_object(root_object)?;
            Ok(Some(event))
        } else if self.stack.len() == 0 {
            // Finished reading the plist
            Ok(None)
        } else {
            assert(self@.walk == Walk::Open {
                layout: self.layout(),
                stack: frames(self.stack@),
            });
            match self.next_child() {
                Some(object_ref) => {
                    let event = self.visit_object(object_ref)?;
                    Ok(Some(event))
                },
                None => {
                    // We're at the end of an array or dict. Pop the top stack item and return.
                    let stack_item = self.pop_stack_item();
                    assert(frames(self.stack@) =~= frames(old(self).stack@).drop_last());
                    Ok(Some(PlistEvent::EndCollection))
                },
            }
        }
    }
}

/// What a request gave, as mathematics sees it.
pub open spec fn handed_out(item: Option<ParserResult<PlistEvent>>) -> Option<Pull> {
    match item {
        Some(item) => Some(pull_view(item)),
        None => None,
    }
}

impl EventStream for BinaryReader {
    open spec fn wf(&self) -> bool {
        BinaryReader::wf(self)
    }

    open spec fn pending(&self) -> Seq<Pull> {
        events(self@)
    }

    fn next(&mut self) -> (item: Option<ParserResult<PlistEvent>>)
        ensures
            handed_out(item) == step(old(self)@).0,
            final(self)@ == step(old(self)@).1,
            item matches Some(Err(_)) ==> final(self).pending() == Seq::<Pull>::empty(),
    {
        proof {
            self.lemma_view_wf();
            lemma_step_wf(self@);
        }
        let ghost before = self@;
        let item = match self.read_next() {
            Ok(Some(event)) => Some(Ok(event)),
            Err(err) => {
                // Mark the plist as finished
                self.stack.clear();
                self.object_on_stack = vec![false; self.object_offsets.len()];
                Some(Err(err))
            },
            Ok(None) => None,
        };
        proof {
            assert(self@ == step(before).1);
            if step(before).0 matches Some(Err(_)) {
                lemma_failure_is_final(before);
                lemma_end_is_final(self@);
            }
            if step(before).0 is Some {
                assert(events(before) == seq![step(before).0->Some_0] + events(step(before).1));
                assert(events(before).skip(1) =~= events(step(before).1));
            } else {
                assert(events(before) == Seq::<Pull>::empty());
            }
        }
        item
    }
}

impl BinaryReader {
    /// A decoder that can be reached stands for a decoding that can be reached.
    pub proof fn lemma_view_wf(&self)
        requires
            self.wf(),
        ensures
            self@.wf(),
    {
    }

    /// In every state that a decoder can reach, before and after an event, a
    /// failure or the end, the marks agree with the stack, and the decoder is
    /// inside of no more containers than the table holds objects.
    pub proof fn lemma_marks_and_depth(&self)
        requires
            self.wf(),
        ensures
            self.marks_match(),
            self.depth() <= self.object_count(),
            self.depth() == self@.depth(),
    {
        lemma_depth_bounded(self@);
    }
}

} // verus!
