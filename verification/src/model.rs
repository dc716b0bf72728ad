//! The element model: the kinds of element, the entries they group into, and
//! the tag byte that announces each element on the wire.

use vstd::prelude::*;
use vstd::utf8::encode_utf8;

verus! {

/// One element of a TPK stream.
///
/// Elements are the building blocks of a TPK stream: each holds a single piece
/// of data or of structure.
#[derive(Debug)]
pub enum Element {
    /// A marker: it names the entry that follows.
    Marker(String),
    /// A folder.
    Folder,
    /// A collection.
    Collection,
    /// A signed 8-bit integer.
    Integer8(i8),
    /// A signed 16-bit integer.
    Integer16(i16),
    /// A signed 32-bit integer.
    Integer32(i32),
    /// A signed 64-bit integer.
    Integer64(i64),
    /// An unsigned 8-bit integer.
    UInteger8(u8),
    /// An unsigned 16-bit integer.
    UInteger16(u16),
    /// An unsigned 32-bit integer.
    UInteger32(u32),
    /// An unsigned 64-bit integer.
    UInteger64(u64),
    /// A single precision number, held as its IEEE-754 bit pattern.
    Float32(u32),
    /// A double precision number, held as its IEEE-754 bit pattern.
    Float64(u64),
    /// A boolean.
    Boolean(bool),
    /// A UTF-8 string.
    String(String),
    /// A binary blob.
    Blob(Vec<u8>),
}

/// What an [`Element`] holds, as mathematical values.
pub enum ElementView {
    Marker(Seq<char>),
    Folder,
    Collection,
    Integer8(i8),
    Integer16(i16),
    Integer32(i32),
    Integer64(i64),
    UInteger8(u8),
    UInteger16(u16),
    UInteger32(u32),
    UInteger64(u64),
    Float32(u32),
    Float64(u64),
    Boolean(bool),
    String(Seq<char>),
    Blob(Seq<u8>),
}

impl View for Element {
    type V = ElementView;

    open spec fn view(&self) -> ElementView {
        match *self {
            Element::Marker(name) => ElementView::Marker(name@),
            Element::Folder => ElementView::Folder,
            Element::Collection => ElementView::Collection,
            Element::Integer8(value) => ElementView::Integer8(value),
            Element::Integer16(value) => ElementView::Integer16(value),
            Element::Integer32(value) => ElementView::Integer32(value),
            Element::Integer64(value) => ElementView::Integer64(value),
            Element::UInteger8(value) => ElementView::UInteger8(value),
            Element::UInteger16(value) => ElementView::UInteger16(value),
            Element::UInteger32(value) => ElementView::UInteger32(value),
            Element::UInteger64(value) => ElementView::UInteger64(value),
            Element::Float32(bits) => ElementView::Float32(bits),
            Element::Float64(bits) => ElementView::Float64(bits),
            Element::Boolean(value) => ElementView::Boolean(value),
            Element::String(text) => ElementView::String(text@),
            Element::Blob(bytes) => ElementView::Blob(bytes@),
        }
    }
}

/// A named group of elements: a marker's name and the elements that follow the
/// marker, up to the next marker or the end of the stream.
pub struct Entry {
    pub name: String,
    pub elements: Vec<Element>,
}

/// What an [`Entry`] holds, as mathematical values.
pub struct EntryView {
    pub name: Seq<char>,
    pub elements: Seq<ElementView>,
}

/// The views of the elements of `elements`, in order.
pub open spec fn element_views(elements: Seq<Element>) -> Seq<ElementView> {
    Seq::new(elements.len(), |i: int| elements[i]@)
}

impl View for Entry {
    type V = EntryView;

    open spec fn view(&self) -> EntryView {
        EntryView { name: self.name@, elements: element_views(self.elements@) }
    }
}

/// The two low bits of a string's or a blob's tag: they select the narrowest
/// length field, of 1, 2, 4 or 8 bytes, that can hold `len`.
pub open spec fn size_class(len: nat) -> u8 {
    if len <= 0xFF {
        0
    } else if len <= 0xFFFF {
        1
    } else if len <= 0xFFFF_FFFF {
        2
    } else {
        3
    }
}

/// The tag of a marker whose name takes `len` bytes: bit 7 set, bit 6 set
/// when the length does not fit in the six low bits, and the six low bits of
/// the length.
pub open spec fn marker_tag(len: nat) -> u8 {
    if len > 63 {
        (192 + len % 64) as u8
    } else {
        (128 + len) as u8
    }
}

impl ElementView {
    /// The tag byte of the element.
    pub open spec fn type_byte(self) -> u8 {
        match self {
            ElementView::Marker(name) => marker_tag(encode_utf8(name).len()),
            ElementView::Folder => 0x00,
            ElementView::Collection => 0x01,
            ElementView::UInteger8(_) => 0x20,
            ElementView::UInteger16(_) => 0x21,
            ElementView::UInteger32(_) => 0x22,
            ElementView::UInteger64(_) => 0x23,
            ElementView::Integer8(_) => 0x24,
            ElementView::Integer16(_) => 0x25,
            ElementView::Integer32(_) => 0x26,
            ElementView::Integer64(_) => 0x27,
            ElementView::Float32(_) => 0x2E,
            ElementView::Float64(_) => 0x2F,
            ElementView::Boolean(value) => if value {
                0x31
            } else {
                0x30
            },
            ElementView::String(text) => (0x10 + size_class(encode_utf8(text).len())) as u8,
            ElementView::Blob(bytes) => (0x14 + size_class(bytes.len())) as u8,
        }
    }
}

/// The two bits that select the width of the length field for a payload of
/// `size` bytes.
pub fn size_byte(size: usize) -> (class: u8)
    ensures
        class == size_class(size as nat),
{
    if size <= 255 {
        0b00u8
    } else if size <= 65535 {
        0b01u8
    } else if size <= 4294967295 {
        0b10u8
    } else {
        0b11u8
    }
}

/// The tag byte of a marker whose name takes `size` bytes.
pub fn marker_type_byte(size: usize) -> (tag: u8)
    ensures
        tag == marker_tag(size as nat),
{
    let low = (size & 0b0011_1111) as u8;
    assert(size & 0b0011_1111 == size % 64) by (bit_vector);
    if size > 63 {
        assert(0b1000_0000u8 | 0b0100_0000u8 | low == 192 + low) by (bit_vector)
            requires
                low < 64,
        ;
        0b1000_0000u8 | 0b0100_0000u8 | low
    } else {
        assert(0b1000_0000u8 | 0u8 | low == 128 + low) by (bit_vector)
            requires
                low < 64,
        ;
        0b1000_0000u8 | 0u8 | low
    }
}

/// The tag byte of a string of `size` bytes.
pub fn string_type_byte(size: usize) -> (tag: u8)
    ensures
        tag == 0x10 + size_class(size as nat),
{
    let class = size_byte(size);
    assert(0b0001_0000u8 | class == 0x10 + class) by (bit_vector)
        requires
            class < 4,
    ;
    0b0001_0000u8 | class
}

/// The tag byte of a blob of `size` bytes.
pub fn blob_type_byte(size: usize) -> (tag: u8)
    ensures
        tag == 0x14 + size_class(size as nat),
{
    let class = size_byte(size);
    assert(0b0001_0100u8 | class == 0x14 + class) by (bit_vector)
        requires
            class < 4,
    ;
    0b0001_0100u8 | class
}

impl Element {
    /// The tag byte of this element.
    pub fn get_type_byte(&self) -> (tag: u8)
        ensures
            tag == self@.type_byte(),
    {
        match self {
            Element::Marker(val) => marker_type_byte(val.as_str().as_bytes().len()),
            Element::Folder => 0u8,
            Element::Collection => 1u8,
            Element::Integer8(_) => 0b0010_0100u8,
            Element::Integer16(_) => 0b0010_0101u8,
            Element::Integer32(_) => 0b0010_0110u8,
            Element::Integer64(_) => 0b0010_0111u8,
            Element::UInteger8(_) => 0b0010_0000u8,
            Element::UInteger16(_) => 0b0010_0001u8,
            Element::UInteger32(_) => 0b0010_0010u8,
            Element::UInteger64(_) => 0b0010_0011u8,
            Element::Float32(_) => 0b0010_1110u8,
            Element::Float64(_) => 0b0010_1111u8,
            Element::Boolean(val) => {
                if *val {
                    0b0011_0001u8
                } else {
                    0b0011_0000u8
                }
            },
            Element::String(val) => string_type_byte(val.as_str().as_bytes().len()),
            Element::Blob(val) => blob_type_byte(val.len()),
        }
    }
}

} // verus!
