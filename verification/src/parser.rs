//! The choice of a decoder by the first bytes of a source.

use crate::builder::{document, BuildFailure, Builder};
use crate::description::{tree_of, Outline};
use crate::error::{ErrorClass, ParserError, ParserResult};
use crate::event::{EventStream, EventView, PlistEvent, Pull};
use crate::stream::binary_reader::BinaryReader;
use crate::stream::format::{has_magic, header, magic, MAGIC_BYTES};
use crate::stream::meaning::{describes, lemma_value_of_source};
use crate::stream::walk::{events, Decoding, Walk};
use crate::value::Tree;
use vstd::prelude::*;

verus! {

/// Whether a source starts with the tag of a binary property list.
pub open spec fn is_binary_source(source: Seq<u8>) -> bool {
    source.len() >= MAGIC_BYTES && source.subrange(0, MAGIC_BYTES as int) == magic()
}

/// A source that is no binary property list, kept for a decoder of the
/// textual form. This library has no such decoder: asked for events, the
/// source reports once that it is not supported, and then nothing.
pub struct TextSource {
    bytes: Vec<u8>,
    refused: bool,
}

impl TextSource {
    /// The bytes of the source.
    pub closed spec fn content(&self) -> Seq<u8> {
        self.bytes@
    }

    /// Whether the source has reported that it is not supported.
    pub closed spec fn refused(&self) -> bool {
        self.refused
    }

    /// The bytes of the source, given back.
    pub fn into_bytes(self) -> (bytes: Vec<u8>)
        ensures
            bytes@ == self.content(),
    {
        self.bytes
    }
}

impl EventStream for TextSource {
    open spec fn wf(&self) -> bool {
        true
    }

    open spec fn pending(&self) -> Seq<Pull> {
        if self.refused() {
            Seq::empty()
        } else {
            seq![Err(ErrorClass::UnsupportedType)]
        }
    }

    fn next(&mut self) -> (item: Option<ParserResult<PlistEvent>>)
        ensures
            item matches Some(Err(_)) ==> final(self).pending() == Seq::<Pull>::empty(),
    {
        if self.refused {
            None
        } else {
            self.refused = true;
            assert(seq![Err::<EventView, ErrorClass>(ErrorClass::UnsupportedType)].skip(1)
                =~= Seq::<Pull>::empty());
            Some(Err(ParserError::UnsupportedType))
        }
    }
}

/// A decoder chosen by the first bytes of its source.
pub enum StreamingParser {
    Xml(TextSource),
    Binary(BinaryReader),
}

/// All that the decoder chosen for `source` hands out, in order.
pub open spec fn source_events(source: Seq<u8>) -> Seq<Pull> {
    if is_binary_source(source) {
        events(Decoding { source, walk: Walk::Fresh })
    } else {
        seq![Err(ErrorClass::UnsupportedType)]
    }
}

/// A source whose trailer and table of offsets can be read, and whose root
/// object writes down an outline, is taken for a binary property list, and
/// what is built from its events is the value that the outline stands for:
/// the shape is the outline's, and each leaf is what the source holds.
pub proof fn lemma_decode_then_build(source: Seq<u8>, outline: Outline)
    requires
        header(source) matches Ok((layout, root)) && describes(source, layout, root, outline),
    ensures
        is_binary_source(source),
        document(source_events(source)) == Ok::<Tree, BuildFailure>(tree_of(outline)),
{
    lemma_value_of_source(source, outline);
}

impl StreamingParser {
    /// The decoder for `reader`: the binary one where the source starts with
    /// the tag of a binary property list.
    pub fn new(reader: Vec<u8>) -> (parser: StreamingParser)
        ensures
            parser.wf(),
            parser.pending() == source_events(reader@),
            match parser {
                StreamingParser::Binary(binary) => is_binary_source(reader@) && binary@ == (
                Decoding { source: reader@, walk: Walk::Fresh }),
                StreamingParser::Xml(text) => !is_binary_source(reader@) && text.content()
                    == reader@ && !text.refused(),
            },
    {
        if StreamingParser::is_binary(&reader) {
            StreamingParser::Binary(BinaryReader::new(reader))
        } else {
            StreamingParser::Xml(TextSource { bytes: reader, refused: false })
        }
    }

    /// Whether `reader` starts with the tag of a binary property list.
    fn is_binary(reader: &Vec<u8>) -> (r: bool)
        ensures
            r == is_binary_source(reader@),
    {
        has_magic(reader)
    }
}

impl EventStream for StreamingParser {
    open spec fn wf(&self) -> bool {
        match self {
            StreamingParser::Xml(text) => text.wf(),
            StreamingParser::Binary(binary) => binary.wf(),
        }
    }

    open spec fn pending(&self) -> Seq<Pull> {
        match self {
            StreamingParser::Xml(text) => text.pending(),
            StreamingParser::Binary(binary) => binary.pending(),
        }
    }

    fn next(&mut self) -> (item: Option<ParserResult<PlistEvent>>)
        ensures
            item matches Some(Err(_)) ==> final(self).pending() == Seq::<Pull>::empty(),
    {
        match self {
            StreamingParser::Xml(parser) => parser.next(),
            StreamingParser::Binary(parser) => parser.next(),
        }
    }
}

impl Builder<StreamingParser> {
    /// A builder that will take its events from the decoder for `reader`.
    pub fn new(reader: Vec<u8>) -> (builder: Builder<StreamingParser>)
        ensures
            builder.wf(),
            builder.pending() == source_events(reader@),
    {
        Builder::from_event_stream(StreamingParser::new(reader))
    }
}

} // verus!
