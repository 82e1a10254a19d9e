//! The layout of a binary property list, as a reading of its bytes.
//!
//! A binary property list starts with an eight-byte tag and ends with a
//! trailer. The trailer tells the widths of the integers used, the number of
//! objects, which object is the root, and where the table stands that gives
//! each object's place. An object starts with a byte whose high half tells its
//! kind and whose low half its size, or that its size follows.

use crate::bytes::{be_signed, field, readable, span};
use crate::date::instant_from_offset;
use crate::error::ErrorClass;
use crate::event::EventView;
use crate::number::widen_single;
use crate::text::utf16_decode;
use vstd::prelude::*;
use vstd::utf8::{decode_utf8, valid_utf8};

verus! {

/// The tag that a binary property list starts with: `bplist00`.
pub open spec fn magic() -> Seq<u8> {
    seq![0x62u8, 0x70u8, 0x6cu8, 0x69u8, 0x73u8, 0x74u8, 0x30u8, 0x30u8]
}

/// Whether `bytes` start with the tag of a binary property list.
pub fn has_magic(bytes: &Vec<u8>) -> (r: bool)
    ensures
        r == (bytes@.len() >= MAGIC_BYTES && bytes@.subrange(0, MAGIC_BYTES as int) == magic()),
{
    let r = bytes.len() >= 8 && bytes[0] == 0x62 && bytes[1] == 0x70 && bytes[2] == 0x6c
        && bytes[3] == 0x69 && bytes[4] == 0x73 && bytes[5] == 0x74 && bytes[6] == 0x30
        && bytes[7] == 0x30;
    proof {
        if bytes@.len() >= 8 {
            let head = bytes@.subrange(0, 8);
            assert(head[0] == bytes@[0] && head[1] == bytes@[1] && head[2] == bytes@[2]
                && head[3] == bytes@[3] && head[4] == bytes@[4] && head[5] == bytes@[5]
                && head[6] == bytes@[6] && head[7] == bytes@[7]);
            assert(magic()[0] == 0x62 && magic()[1] == 0x70 && magic()[2] == 0x6c && magic()[3]
                == 0x69 && magic()[4] == 0x73 && magic()[5] == 0x74 && magic()[6] == 0x30
                && magic()[7] == 0x30);
            if r {
                assert(head =~= magic());
            }
        }
    }
    r
}

/// The bytes of the trailer that come after its padding.
pub const TRAILER_BYTES: u64 = 26;

/// The bytes of the tag.
pub const MAGIC_BYTES: u64 = 8;

/// Whether an integer in the offset table or a reference to an object can be
/// `width` bytes wide.
pub open spec fn valid_width(width: u8) -> bool {
    width == 1 || width == 2 || width == 4 || width == 8
}

/// What the trailer and the offset table tell of a source.
pub struct Layout {
    /// The place of each object, by the object's number.
    pub offsets: Seq<u64>,
    /// The width in bytes of a reference to an object.
    pub ref_size: u8,
    /// The most bytes that one object's contents may take up: what the source
    /// holds between its tag and its trailer.
    pub ceiling: nat,
}

/// The `count` integers of `width` bytes each that stand at place `at`.
pub open spec fn table(source: Seq<u8>, at: int, count: nat, width: int) -> Seq<u64> {
    Seq::new(count, |i: int| field(source, at + i * width, width) as u64)
}

/// The `count` integers of `width` bytes each that stand at place `at`, where
/// they take up no more than `ceiling` bytes and the source holds them all.
pub open spec fn integers(source: Seq<u8>, at: int, count: nat, width: int, ceiling: nat) -> Result<
    Seq<u64>,
    ErrorClass,
> {
    if count * width > ceiling {
        Err(ErrorClass::InvalidData)
    } else if !readable(source, at, count * width) {
        Err(ErrorClass::UnexpectedEof)
    } else {
        Ok(table(source, at, count, width))
    }
}

/// The layout of a source and the number of its root object.
pub open spec fn header(source: Seq<u8>) -> Result<(Layout, u64), ErrorClass> {
    if source.len() < MAGIC_BYTES {
        Err(ErrorClass::UnexpectedEof)
    } else if source.subrange(0, MAGIC_BYTES as int) != magic() {
        Err(ErrorClass::InvalidData)
    } else if source.len() < TRAILER_BYTES {
        Err(ErrorClass::Io)
    } else {
        let trailer = source.len() - TRAILER_BYTES;
        let offset_size = source[trailer];
        let ref_size = source[trailer + 1];
        let count = field(source, trailer + 2, 8);
        let root = field(source, trailer + 10, 8);
        let table_at = field(source, trailer + 18, 8);
        let ceiling: nat = if trailer >= MAGIC_BYTES {
            (trailer - MAGIC_BYTES) as nat
        } else {
            0
        };
        if !valid_width(offset_size) || !valid_width(ref_size) {
            Err(ErrorClass::InvalidData)
        } else {
            match integers(source, table_at as int, count, offset_size as int, ceiling) {
                Err(class) => Err(class),
                Ok(offsets) => Ok((Layout { offsets, ref_size, ceiling }, root as u64)),
            }
        }
    }
}

/// The length that an object declares, and the place where its contents
/// start. `size` is the low half of the object's first byte, and `at` the
/// place after that byte. Fifteen says that the length follows: a byte whose
/// low two bits give the width of the length as a power of two, and the
/// length itself.
pub open spec fn length(source: Seq<u8>, at: int, size: u8) -> Result<(u64, int), ErrorClass> {
    if size != 0xf {
        Ok((size as u64, at))
    } else if !readable(source, at, 1) {
        Err(ErrorClass::UnexpectedEof)
    } else {
        let power = source[at] % 4;
        let width: int = if power == 0 {
            1
        } else if power == 1 {
            2
        } else if power == 2 {
            4
        } else {
            8
        };
        if !readable(source, at + 1, width) {
            Err(ErrorClass::UnexpectedEof)
        } else {
            Ok((field(source, at + 1, width) as u64, at + 1 + width))
        }
    }
}

/// The `count` bytes at place `at`, where they are no more than `ceiling` and
/// the source holds them all.
pub open spec fn blob(source: Seq<u8>, at: int, count: u64, ceiling: nat) -> Result<
    Seq<u8>,
    ErrorClass,
> {
    if count > ceiling {
        Err(ErrorClass::InvalidData)
    } else if !readable(source, at, count as int) {
        Err(ErrorClass::UnexpectedEof)
    } else {
        Ok(span(source, at, count as int))
    }
}

/// The `count` UTF-16 code units at place `at`, where they take up no more
/// than `ceiling` bytes and the source holds them all.
pub open spec fn code_units(source: Seq<u8>, at: int, count: u64, ceiling: nat) -> Result<
    Seq<u16>,
    ErrorClass,
> {
    if count * 2 > ceiling {
        Err(ErrorClass::InvalidData)
    } else if !readable(source, at, count * 2) {
        Err(ErrorClass::UnexpectedEof)
    } else {
        Ok(Seq::new(count as nat, |i: int| field(source, at + i * 2, 2) as u16))
    }
}

/// What one object of a source is: a value that one event describes, or a
/// container with the numbers of the objects in it, in the order in which
/// they are to be visited. In a dictionary each key is followed by its value.
pub enum Node {
    Leaf(EventView),
    Array(Seq<u64>),
    Dictionary(Seq<u64>),
}

/// The keys and values of a dictionary, each key followed by its value.
pub open spec fn interleave(keys: Seq<u64>, values: Seq<u64>) -> Seq<u64> {
    Seq::new(
        2 * keys.len(),
        |i: int|
            if i % 2 == 0 {
                keys[i / 2]
            } else {
                values[i / 2]
            },
    )
}

/// The whole number stored at place `at`, `size` telling its width as a power
/// of two. One, two and four bytes hold a number without sign, eight bytes a
/// number in two's complement, and sixteen bytes a number in two's complement
/// that must not be negative nor exceed what a `u64` holds.
pub open spec fn integer_object(source: Seq<u8>, at: int, size: u8) -> Result<EventView, ErrorClass> {
    if size == 0 || size == 1 || size == 2 {
        let width: int = if size == 0 {
            1
        } else if size == 1 {
            2
        } else {
            4
        };
        if !readable(source, at, width) {
            Err(ErrorClass::UnexpectedEof)
        } else {
            Ok(EventView::Integer(field(source, at, width) as int))
        }
    } else if size == 3 {
        if !readable(source, at, 8) {
            Err(ErrorClass::UnexpectedEof)
        } else {
            Ok(EventView::Integer(be_signed(span(source, at, 8))))
        }
    } else if size == 4 {
        if !readable(source, at, 16) {
            Err(ErrorClass::UnexpectedEof)
        } else {
            let value = be_signed(span(source, at, 16));
            if 0 <= value <= u64::MAX {
                Ok(EventView::Integer(value))
            } else {
                Err(ErrorClass::InvalidData)
            }
        }
    } else {
        Err(ErrorClass::InvalidData)
    }
}

/// The floating-point number stored at place `at`: in four bytes where `size`
/// is two, in eight where it is three.
pub open spec fn real_object(source: Seq<u8>, at: int, size: u8) -> Result<EventView, ErrorClass> {
    if size == 2 {
        if !readable(source, at, 4) {
            Err(ErrorClass::UnexpectedEof)
        } else {
            Ok(EventView::Real(widen_single(field(source, at, 4) as u32)))
        }
    } else if size == 3 {
        if !readable(source, at, 8) {
            Err(ErrorClass::UnexpectedEof)
        } else {
            Ok(EventView::Real(field(source, at, 8) as u64))
        }
    } else {
        Err(ErrorClass::InvalidData)
    }
}

/// The instant stored at place `at`, in eight bytes.
pub open spec fn date_object(source: Seq<u8>, at: int, size: u8) -> Result<EventView, ErrorClass> {
    if size != 3 {
        Err(ErrorClass::InvalidData)
    } else if !readable(source, at, 8) {
        Err(ErrorClass::UnexpectedEof)
    } else {
        match instant_from_offset(field(source, at, 8) as u64) {
            Some(instant) => Ok(EventView::Date(instant)),
            None => Err(ErrorClass::InvalidData),
        }
    }
}

/// The bytes of a data object whose declaration of length starts at place `at`.
pub open spec fn data_object(source: Seq<u8>, layout: Layout, at: int, size: u8) -> Result<
    Seq<u8>,
    ErrorClass,
> {
    match length(source, at, size) {
        Err(class) => Err(class),
        Ok((count, body)) => blob(source, body, count, layout.ceiling),
    }
}

/// The text of a string object stored in UTF-8.
pub open spec fn ascii_object(source: Seq<u8>, layout: Layout, at: int, size: u8) -> Result<
    EventView,
    ErrorClass,
> {
    match data_object(source, layout, at, size) {
        Err(class) => Err(class),
        Ok(bytes) => if valid_utf8(bytes) {
            Ok(EventView::String(decode_utf8(bytes)))
        } else {
            Err(ErrorClass::InvalidData)
        },
    }
}

/// The text of a string object stored in UTF-16, its length counted in code
/// units.
pub open spec fn utf16_object(source: Seq<u8>, layout: Layout, at: int, size: u8) -> Result<
    EventView,
    ErrorClass,
> {
    match length(source, at, size) {
        Err(class) => Err(class),
        Ok((count, body)) => match code_units(source, body, count, layout.ceiling) {
            Err(class) => Err(class),
            Ok(units) => match utf16_decode(units) {
                Some(text) => Ok(EventView::String(text)),
                None => Err(ErrorClass::InvalidData),
            },
        },
    }
}

/// The references that an array object holds, in order.
pub open spec fn array_object(source: Seq<u8>, layout: Layout, at: int, size: u8) -> Result<
    Seq<u64>,
    ErrorClass,
> {
    match length(source, at, size) {
        Err(class) => Err(class),
        Ok((count, body)) => integers(
            source,
            body,
            count as nat,
            layout.ref_size as int,
            layout.ceiling,
        ),
    }
}

/// The references that a dictionary object holds: it stores those to its keys,
/// then as many to its values; they come out each key followed by its value.
/// All of them together must take up no more than the ceiling.
pub open spec fn dictionary_object(source: Seq<u8>, layout: Layout, at: int, size: u8) -> Result<
    Seq<u64>,
    ErrorClass,
> {
    match length(source, at, size) {
        Err(class) => Err(class),
        Ok((count, body)) => {
            let width = layout.ref_size as int;
            match integers(source, body, count as nat, width, layout.ceiling) {
                Err(class) => Err(class),
                Ok(keys) => match integers(
                    source,
                    body + count * width,
                    count as nat,
                    width,
                    layout.ceiling,
                ) {
                    Err(class) => Err(class),
                    Ok(values) => if 2 * count * width > layout.ceiling {
                        Err(ErrorClass::InvalidData)
                    } else {
                        Ok(interleave(keys, values))
                    },
                },
            }
        },
    }
}

/// What the object is whose first byte has `kind` as its high half and `size`
/// as its low half, `at` being the place after that byte.
pub open spec fn contents(source: Seq<u8>, layout: Layout, kind: u8, size: u8, at: int) -> Result<
    Node,
    ErrorClass,
> {
    if kind == 0x0 {
        if size == 0x8 {
            Ok(Node::Leaf(EventView::Boolean(false)))
        } else if size == 0x9 {
            Ok(Node::Leaf(EventView::Boolean(true)))
        } else {
            Err(ErrorClass::InvalidData)
        }
    } else if kind == 0x1 {
        match integer_object(source, at, size) {
            Ok(event) => Ok(Node::Leaf(event)),
            Err(class) => Err(class),
        }
    } else if kind == 0x2 {
        match real_object(source, at, size) {
            Ok(event) => Ok(Node::Leaf(event)),
            Err(class) => Err(class),
        }
    } else if kind == 0x3 {
        match date_object(source, at, size) {
            Ok(event) => Ok(Node::Leaf(event)),
            Err(class) => Err(class),
        }
    } else if kind == 0x4 {
        match data_object(source, layout, at, size) {
            Ok(bytes) => Ok(Node::Leaf(EventView::Data(bytes))),
            Err(class) => Err(class),
        }
    } else if kind == 0x5 {
        match ascii_object(source, layout, at, size) {
            Ok(event) => Ok(Node::Leaf(event)),
            Err(class) => Err(class),
        }
    } else if kind == 0x6 {
        match utf16_object(source, layout, at, size) {
            Ok(event) => Ok(Node::Leaf(event)),
            Err(class) => Err(class),
        }
    } else if kind == 0xa {
        match array_object(source, layout, at, size) {
            Ok(children) => Ok(Node::Array(children)),
            Err(class) => Err(class),
        }
    } else if kind == 0xd {
        match dictionary_object(source, layout, at, size) {
            Ok(children) => Ok(Node::Dictionary(children)),
            Err(class) => Err(class),
        }
    } else {
        Err(ErrorClass::InvalidData)
    }
}

/// What the object with number `index` is.
#[verifier::opaque]
pub open spec fn object(source: Seq<u8>, layout: Layout, index: u64) -> Result<Node, ErrorClass> {
    if index >= layout.offsets.len() {
        Err(ErrorClass::InvalidData)
    } else {
        let at = layout.offsets[index as int] as int;
        if !readable(source, at, 1) {
            Err(ErrorClass::UnexpectedEof)
        } else {
            contents(source, layout, source[at] / 16, source[at] % 16, at + 1)
        }
    }
}

/// The numbers of the objects in the container that a node is, in the order in
/// which they are to be visited.
pub open spec fn children(node: Node) -> Seq<u64> {
    match node {
        Node::Leaf(_) => Seq::empty(),
        Node::Array(children) => children,
        Node::Dictionary(children) => children,
    }
}

/// A container holds no more objects than the ceiling is.
pub proof fn lemma_children_bound(source: Seq<u8>, layout: Layout, index: u64)
    requires
        valid_width(layout.ref_size),
        object(source, layout, index) is Ok,
    ensures
        index < layout.offsets.len(),
        children(object(source, layout, index)->Ok_0).len() <= layout.ceiling,
{
    reveal(object);
    let at = layout.offsets[index as int] as int;
    let size = source[at] % 16;
    let width = layout.ref_size as int;
    match object(source, layout, index)->Ok_0 {
        Node::Leaf(_) => {},
        Node::Array(refs) => {
            let (count, body) = length(source, at + 1, size)->Ok_0;
            assert(count <= count * width) by (nonlinear_arith)
                requires
                    width >= 1,
                    count >= 0,
            ;
        },
        Node::Dictionary(refs) => {
            let (count, body) = length(source, at + 1, size)->Ok_0;
            assert(2 * count <= 2 * count * width) by (nonlinear_arith)
                requires
                    width >= 1,
                    count >= 0,
            ;
        },
    }
}

/// An object that is no container is described by an event that describes a
/// value by itself.
pub proof fn lemma_leaf_is_value(source: Seq<u8>, layout: Layout, index: u64)
    requires
        object(source, layout, index) matches Ok(Node::Leaf(_)),
    ensures
        object(source, layout, index)->Ok_0->Leaf_0.is_value(),
{
    reveal(object);
}

/// Reading the trailer and the table of offsets fails as malformed, as cut
/// short, or for want of a place to move to, and in no other way. A source
/// too short to hold the tag is cut short; one that holds another tag is
/// malformed; one that holds the tag and is too short to hold the trailer
/// leaves no place to move to.
pub proof fn lemma_header_failures(source: Seq<u8>)
    ensures
        header(source) matches Err(class) ==> class == ErrorClass::InvalidData || class
            == ErrorClass::UnexpectedEof || class == ErrorClass::Io,
        source.len() < MAGIC_BYTES ==> header(source) == Err::<(Layout, u64), ErrorClass>(
            ErrorClass::UnexpectedEof,
        ),
        MAGIC_BYTES <= source.len() < TRAILER_BYTES ==> header(source) == Err::<
            (Layout, u64),
            ErrorClass,
        >(
            if source.subrange(0, MAGIC_BYTES as int) == magic() {
                ErrorClass::Io
            } else {
                ErrorClass::InvalidData
            },
        ),
{
}

/// Reading an object fails as malformed or as cut short, and in no other way;
/// an object whose place lies at or past the end of the source is cut short.
pub proof fn lemma_object_failures(source: Seq<u8>, layout: Layout, index: u64)
    ensures
        object(source, layout, index) matches Err(class) ==> class == ErrorClass::InvalidData
            || class == ErrorClass::UnexpectedEof,
        index < layout.offsets.len() && layout.offsets[index as int] >= source.len() ==> object(
            source,
            layout,
            index,
        ) == Err::<Node, ErrorClass>(ErrorClass::UnexpectedEof),
{
    reveal(object);
}

/// Only an object of the table can be read.
pub proof fn lemma_object_in_table(source: Seq<u8>, layout: Layout, index: u64)
    requires
        object(source, layout, index) is Ok,
    ensures
        index < layout.offsets.len(),
{
    reveal(object);
}

/// The bytes that an object of `kind` asks room for when it declares the
/// length `count`: data and a string in UTF-8 a byte for each, a string in
/// UTF-16 two, an array a reference for each, a dictionary two references.
pub open spec fn implied_bytes(layout: Layout, kind: u8, count: u64) -> int {
    if kind == 0x4 || kind == 0x5 {
        count as int
    } else if kind == 0x6 {
        count * 2
    } else if kind == 0xa {
        count * layout.ref_size
    } else if kind == 0xd {
        2 * count * layout.ref_size
    } else {
        0
    }
}

/// Whether the object with number `index` is data, a string or a container
/// that declares a length for which there is no room under the ceiling.
pub open spec fn declares_beyond_ceiling(source: Seq<u8>, layout: Layout, index: u64) -> bool {
    &&& index < layout.offsets.len()
    &&& readable(source, layout.offsets[index as int] as int, 1)
    &&& length(
        source,
        layout.offsets[index as int] + 1,
        source[layout.offsets[index as int] as int] % 16,
    ) matches Ok((count, _)) && implied_bytes(
        layout,
        source[layout.offsets[index as int] as int] / 16,
        count,
    ) > layout.ceiling
}

/// An object that declares a length for which there is no room under the
/// ceiling is rejected, however large the length: as malformed, or, where it
/// is a dictionary whose keys alone would have had room, as malformed or as
/// not all there.
pub proof fn lemma_length_beyond_ceiling(source: Seq<u8>, layout: Layout, index: u64, count: u64)
    requires
        index < layout.offsets.len(),
        readable(source, layout.offsets[index as int] as int, 1),
        length(
            source,
            layout.offsets[index as int] + 1,
            source[layout.offsets[index as int] as int] % 16,
        ) matches Ok((declared, _)) && declared == count,
        implied_bytes(layout, source[layout.offsets[index as int] as int] / 16, count)
            > layout.ceiling,
    ensures
        object(source, layout, index) matches Err(class) && (class == ErrorClass::InvalidData || (
        class == ErrorClass::UnexpectedEof && source[layout.offsets[index as int] as int] / 16
            == 0xd && count * layout.ref_size <= layout.ceiling)),
{
    reveal(object);
    let at = layout.offsets[index as int] as int;
    let kind = source[at] / 16;
    let size = source[at] % 16;
    let width = layout.ref_size as int;
    assert(object(source, layout, index) == contents(source, layout, kind, size, at + 1));
    if kind == 0xd {
        assert(2 * count * width == 2 * (count * width)) by (nonlinear_arith);
    }
}

/// The event that opens the container that a node is, if it is one.
pub open spec fn opening(node: Node) -> EventView {
    match node {
        Node::Leaf(event) => event,
        Node::Array(children) => EventView::StartArray(Some(children.len() as u64)),
        Node::Dictionary(children) => EventView::StartDictionary(Some((children.len() / 2) as u64)),
    }
}

} // verus!
