//! The wire format, stated as mathematics: the bytes that an element becomes,
//! and what a sequence of bytes says when it is read from a given offset.

use crate::model::{size_class, ElementView};
use crate::read::{ErrorView, EXTENSION, REDUNDANT_LENGTH, UNEXPECTED_EOF};
use vstd::prelude::*;
use vstd::utf8::{decode_utf8, encode_utf8, valid_utf8};

verus! {

/// 256 to the power `width`: the number of values that `width` bytes can hold.
pub open spec fn radix(width: nat) -> nat
    decreases width,
{
    if width == 0 {
        1
    } else {
        256 * radix((width - 1) as nat)
    }
}

/// The unsigned number that `bytes` hold, least significant byte first.
pub open spec fn le_value(bytes: Seq<u8>) -> nat
    decreases bytes.len(),
{
    if bytes.len() == 0 {
        0
    } else {
        bytes[0] as nat + 256 * le_value(bytes.drop_first())
    }
}

/// The `width` low bytes of `value`, least significant byte first.
pub open spec fn le_bytes(value: nat, width: nat) -> Seq<u8>
    decreases width,
{
    if width == 0 {
        Seq::empty()
    } else {
        seq![(value % 256) as u8] + le_bytes(value / 256, (width - 1) as nat)
    }
}

/// The unsigned number that stands for `value` in two's complement on `width`
/// bytes.
pub open spec fn unsigned_of(value: int, width: nat) -> nat {
    if value < 0 {
        (value + radix(width)) as nat
    } else {
        value as nat
    }
}

/// The signed number that `value` stands for in two's complement on `width`
/// bytes.
pub open spec fn signed_of(value: nat, width: nat) -> int {
    if 2 * value >= radix(width) {
        value - radix(width)
    } else {
        value as int
    }
}

/// The width in bytes of the narrowest length field, of 1, 2, 4 or 8 bytes,
/// that can hold `len`.
pub open spec fn size_width(len: nat) -> nat {
    field_width(size_class(len))
}

/// The width in bytes of the length field that the two low bits of a string's
/// or a blob's tag select.
pub open spec fn field_width(class: u8) -> nat {
    if class == 0 {
        1
    } else if class == 1 {
        2
    } else if class == 2 {
        4
    } else {
        8
    }
}

/// `value` in groups of seven bits, least significant group first, one group
/// to a byte; bit 7 of a byte says that another group follows.
pub open spec fn length_groups(value: nat) -> Seq<u8>
    decreases value,
{
    if value < 128 {
        seq![value as u8]
    } else {
        seq![(128 + value % 128) as u8] + length_groups(value / 128)
    }
}

/// The number that the seven low bits of each of `groups` make up, least
/// significant group first.
pub open spec fn groups_value(groups: Seq<u8>) -> nat
    decreases groups.len(),
{
    if groups.len() == 0 {
        0
    } else {
        (groups[0] % 128) as nat + 128 * groups_value(groups.drop_first())
    }
}

/// The number of bytes from offset `at` up to and including the first byte
/// with bit 7 clear; `None` where the input ends before such a byte.
pub open spec fn group_run(input: Seq<u8>, at: int) -> Option<nat>
    decreases input.len() - at,
{
    if at < 0 || at >= input.len() {
        None
    } else if input[at] < 128 {
        Some(1)
    } else {
        match group_run(input, at + 1) {
            Some(run) => Some(run + 1),
            None => None,
        }
    }
}

/// `n` is the length of the longest prefix of `bytes` that is valid UTF-8.
pub open spec fn is_valid_up_to(bytes: Seq<u8>, n: int) -> bool {
    &&& 0 <= n <= bytes.len()
    &&& valid_utf8(bytes.subrange(0, n))
    &&& forall|m: int| n < m <= bytes.len() ==> !valid_utf8(#[trigger] bytes.subrange(0, m))
}

/// The length of the longest prefix of `bytes` that is valid UTF-8: where
/// `bytes` are not valid UTF-8, the index of the first byte at fault.
pub open spec fn valid_up_to(bytes: Seq<u8>) -> nat {
    choose|n: nat| is_valid_up_to(bytes, n as int)
}

impl ElementView {
    /// The bytes between the tag and the payload: the rest of a marker's
    /// length, or the length of a string or of a blob.
    pub open spec fn length_field(self) -> Seq<u8> {
        match self {
            ElementView::Marker(name) => {
                let len = encode_utf8(name).len();
                if len > 63 {
                    length_groups(len / 64)
                } else {
                    Seq::empty()
                }
            },
            ElementView::String(text) => {
                let len = encode_utf8(text).len();
                le_bytes(len, size_width(len))
            },
            ElementView::Blob(bytes) => le_bytes(bytes.len(), size_width(bytes.len())),
            _ => Seq::empty(),
        }
    }

    /// The bytes of the value itself.
    pub open spec fn payload(self) -> Seq<u8> {
        match self {
            ElementView::Marker(name) => encode_utf8(name),
            ElementView::Folder => Seq::empty(),
            ElementView::Collection => Seq::empty(),
            ElementView::Integer8(value) => le_bytes(unsigned_of(value as int, 1), 1),
            ElementView::Integer16(value) => le_bytes(unsigned_of(value as int, 2), 2),
            ElementView::Integer32(value) => le_bytes(unsigned_of(value as int, 4), 4),
            ElementView::Integer64(value) => le_bytes(unsigned_of(value as int, 8), 8),
            ElementView::UInteger8(value) => le_bytes(value as nat, 1),
            ElementView::UInteger16(value) => le_bytes(value as nat, 2),
            ElementView::UInteger32(value) => le_bytes(value as nat, 4),
            ElementView::UInteger64(value) => le_bytes(value as nat, 8),
            ElementView::Float32(bits) => le_bytes(bits as nat, 4),
            ElementView::Float64(bits) => le_bytes(bits as nat, 8),
            ElementView::Boolean(_) => Seq::empty(),
            ElementView::String(text) => encode_utf8(text),
            ElementView::Blob(bytes) => bytes,
        }
    }

    /// The element can be put on the wire: the length of a string or of a
    /// blob fits in the eight bytes of the widest length field. This holds of
    /// every [`crate::model::Element`], whose payload sits in memory.
    pub open spec fn encodable(self) -> bool {
        match self {
            ElementView::String(text) => encode_utf8(text).len() < radix(8),
            ElementView::Blob(bytes) => bytes.len() < radix(8),
            _ => true,
        }
    }

    /// The element on the wire: its tag, its length field, its payload.
    pub open spec fn encoding(self) -> Seq<u8> {
        seq![self.type_byte()] + self.length_field() + self.payload()
    }
}

/// The elements of `elements` on the wire, one behind the other.
pub open spec fn encodings(elements: Seq<ElementView>) -> Seq<u8>
    decreases elements.len(),
{
    if elements.len() == 0 {
        Seq::empty()
    } else {
        elements[0].encoding() + encodings(elements.drop_first())
    }
}

/// What reading one element from an input, at a given offset, comes to.
pub enum Decoded {
    /// No byte is left at the offset.
    End,
    /// An element; `next` is the offset of the byte after it.
    Element { element: ElementView, next: int },
    /// The input is malformed; `next` is the offset up to which it was
    /// consumed before the error was found.
    Failure { error: ErrorView, next: int },
}

/// The outcome of a read that asks for more bytes than the input has left:
/// all that is left is consumed, and the error points behind it.
pub open spec fn truncated(input: Seq<u8>) -> Decoded {
    Decoded::Failure {
        error: ErrorView::Syntax(input.len() as int, UNEXPECTED_EOF@),
        next: input.len() as int,
    }
}

/// The outcome for the tag `tag`, read at offset `at`, where it is no tag of
/// the format; `next` is the offset up to which the input was consumed.
pub open spec fn unknown(tag: u8, at: int, next: int) -> Decoded {
    Decoded::Failure { error: ErrorView::UnknownType(at, tag), next }
}

/// A text of `size` bytes read at offset `body`: a marker's name where
/// `marker` holds, else a string. The bytes must be there, and be UTF-8.
pub open spec fn decode_text(input: Seq<u8>, body: int, size: nat, marker: bool) -> Decoded {
    if body + size > input.len() {
        truncated(input)
    } else {
        let bytes = input.subrange(body, body + size);
        if valid_utf8(bytes) {
            let text = decode_utf8(bytes);
            Decoded::Element {
                element: if marker {
                    ElementView::Marker(text)
                } else {
                    ElementView::String(text)
                },
                next: body + size,
            }
        } else {
            Decoded::Failure {
                error: ErrorView::InvalidString(body + valid_up_to(bytes)),
                next: body + size,
            }
        }
    }
}

/// A marker whose tag stands at offset `start`. The six low bits of the tag
/// are the low bits of the name's length. Where bit 6 is set, groups of seven
/// more bits follow, and must add something to the length.
pub open spec fn decode_marker(input: Seq<u8>, start: int) -> Decoded {
    let tag = input[start];
    let low = (tag % 64) as nat;
    if tag < 0xC0 {
        decode_text(input, start + 1, low, true)
    } else {
        match group_run(input, start + 1) {
            None => truncated(input),
            Some(run) => {
                let body = start + 1 + run;
                let high = groups_value(input.subrange(start + 1, body));
                if high == 0 {
                    Decoded::Failure {
                        error: ErrorView::Syntax(body, REDUNDANT_LENGTH@),
                        next: body,
                    }
                } else {
                    decode_text(input, body, low + 64 * high, true)
                }
            },
        }
    }
}

/// A folder or a collection: the tag says which.
pub open spec fn decode_structural(tag: u8, start: int) -> Decoded {
    if tag == 0x00 {
        Decoded::Element { element: ElementView::Folder, next: start + 1 }
    } else if tag == 0x01 {
        Decoded::Element { element: ElementView::Collection, next: start + 1 }
    } else {
        unknown(tag, start, start + 1)
    }
}

/// A boolean: the low bit of the tag is the value.
pub open spec fn decode_boolean(tag: u8, start: int) -> Decoded {
    if tag == 0x30 {
        Decoded::Element { element: ElementView::Boolean(false), next: start + 1 }
    } else if tag == 0x31 {
        Decoded::Element { element: ElementView::Boolean(true), next: start + 1 }
    } else {
        unknown(tag, start, start + 1)
    }
}

/// The number of payload bytes of the number that `tag` announces; `None`
/// where `tag` announces no number.
pub open spec fn number_width(tag: u8) -> Option<nat> {
    if tag == 0x20 || tag == 0x24 {
        Some(1)
    } else if tag == 0x21 || tag == 0x25 {
        Some(2)
    } else if tag == 0x22 || tag == 0x26 || tag == 0x2E {
        Some(4)
    } else if tag == 0x23 || tag == 0x27 || tag == 0x2F {
        Some(8)
    } else {
        None
    }
}

/// The number that `tag` announces, its payload holding the unsigned value
/// `value`.
pub open spec fn number_of(tag: u8, value: nat) -> ElementView {
    if tag == 0x20 {
        ElementView::UInteger8(value as u8)
    } else if tag == 0x21 {
        ElementView::UInteger16(value as u16)
    } else if tag == 0x22 {
        ElementView::UInteger32(value as u32)
    } else if tag == 0x23 {
        ElementView::UInteger64(value as u64)
    } else if tag == 0x24 {
        ElementView::Integer8(signed_of(value, 1) as i8)
    } else if tag == 0x25 {
        ElementView::Integer16(signed_of(value, 2) as i16)
    } else if tag == 0x26 {
        ElementView::Integer32(signed_of(value, 4) as i32)
    } else if tag == 0x27 {
        ElementView::Integer64(signed_of(value, 8) as i64)
    } else if tag == 0x2E {
        ElementView::Float32(value as u32)
    } else {
        ElementView::Float64(value as u64)
    }
}

/// A number whose tag stands at offset `start`: a payload of fixed width,
/// least significant byte first.
pub open spec fn decode_number(input: Seq<u8>, start: int) -> Decoded {
    let tag = input[start];
    match number_width(tag) {
        None => unknown(tag, start, start + 1),
        Some(width) => {
            let end = start + 1 + width;
            if end > input.len() {
                truncated(input)
            } else {
                Decoded::Element {
                    element: number_of(tag, le_value(input.subrange(start + 1, end))),
                    next: end,
                }
            }
        },
    }
}

/// A string or a blob whose tag stands at offset `start`. Bits 2 and 3 of
/// the tag say which of the two it is, or that it is neither: the tag is
/// then refused as it stands, and nothing behind it is read. The two low
/// bits give the width of the length field.
pub open spec fn decode_sized(input: Seq<u8>, start: int) -> Decoded {
    let tag = input[start];
    let body = start + 1 + field_width(tag % 4);
    if tag >= 0x18 {
        unknown(tag, start, start + 1)
    } else if body > input.len() {
        truncated(input)
    } else {
        let size = le_value(input.subrange(start + 1, body));
        if tag < 0x14 {
            decode_text(input, body, size, false)
        } else if body + size > input.len() {
            truncated(input)
        } else {
            Decoded::Element {
                element: ElementView::Blob(input.subrange(body, body + size)),
                next: body + size,
            }
        }
    }
}

/// What reading one element at offset `start` of `input` comes to.
pub open spec fn decode_at(input: Seq<u8>, start: int) -> Decoded {
    if start < 0 || start >= input.len() {
        Decoded::End
    } else {
        let tag = input[start];
        if tag >= 0x80 {
            decode_marker(input, start)
        } else if tag < 0x10 {
            decode_structural(tag, start)
        } else if tag < 0x20 {
            decode_sized(input, start)
        } else if tag < 0x30 {
            decode_number(input, start)
        } else if tag < 0x40 {
            decode_boolean(tag, start)
        } else if tag >= 0x70 {
            Decoded::Failure {
                error: ErrorView::UnsupportedType(start, EXTENSION@),
                next: start + 1,
            }
        } else {
            unknown(tag, start, start + 1)
        }
    }
}

/// The format gives the byte a meaning as a tag: that of a marker, a folder,
/// a collection, a number, a boolean, a string or a blob.
pub open spec fn is_tag(byte: u8) -> bool {
    ||| byte >= 0x80
    ||| byte <= 0x01
    ||| 0x10 <= byte < 0x18
    ||| number_width(byte) is Some
    ||| 0x30 <= byte <= 0x31
}

/// The offset at which the element whose tag stands at `start` ends by its
/// own framing: behind the payload that its tag and its length field
/// announce. `None` where no payload is announced: there is no tag, the tag
/// is not that of a marker, a number, a string or a blob, or the length field
/// is cut short or adds nothing.
pub open spec fn framed_end(input: Seq<u8>, start: int) -> Option<int> {
    if start < 0 || start >= input.len() {
        None
    } else {
        let tag = input[start];
        if tag >= 0xC0 {
            match group_run(input, start + 1) {
                None => None,
                Some(run) => {
                    let body = start + 1 + run;
                    let high = groups_value(input.subrange(start + 1, body));
                    if high == 0 {
                        None
                    } else {
                        Some(body + tag % 64 + 64 * high)
                    }
                },
            }
        } else if tag >= 0x80 {
            Some(start + 1 + tag % 64)
        } else if 0x10 <= tag < 0x18 {
            let body = start + 1 + field_width(tag % 4);
            if body > input.len() {
                None
            } else {
                Some(body + le_value(input.subrange(start + 1, body)))
            }
        } else {
            match number_width(tag) {
                Some(width) => Some(start + 1 + width),
                None => None,
            }
        }
    }
}

/// How many bytes lie between the end of the input and the offset `end`;
/// none where the input reaches that far.
pub open spec fn short_of(input: Seq<u8>, end: int) -> nat {
    if end > input.len() {
        (end - input.len()) as nat
    } else {
        0
    }
}

/// How many more bytes the input has to hold before the element at `start`
/// can be read, as far as the bytes that it holds tell. What is asked for
/// is, in turn: the tag; the length, group by group for a marker and as one
/// field for a string or a blob; the payload. It is zero where the element
/// is there in full, and where what is there is refused already.
pub open spec fn missing(input: Seq<u8>, start: int) -> nat {
    if start < 0 || start >= input.len() {
        1
    } else {
        let tag = input[start];
        if tag >= 0xC0 {
            match group_run(input, start + 1) {
                None => 1,
                Some(run) => {
                    let body = start + 1 + run;
                    let high = groups_value(input.subrange(start + 1, body));
                    if high == 0 {
                        0
                    } else {
                        short_of(input, body + tag % 64 + 64 * high)
                    }
                },
            }
        } else if tag >= 0x80 {
            short_of(input, start + 1 + tag % 64)
        } else if 0x10 <= tag < 0x18 {
            let body = start + 1 + field_width(tag % 4);
            if body > input.len() {
                short_of(input, body)
            } else {
                short_of(input, body + le_value(input.subrange(start + 1, body)))
            }
        } else {
            match number_width(tag) {
                Some(width) => short_of(input, start + 1 + width),
                None => 0,
            }
        }
    }
}

/// A run of groups that ends does so inside the input.
pub proof fn lemma_group_run_bound(input: Seq<u8>, at: int)
    ensures
        group_run(input, at) matches Some(run) ==> 0 <= at && 1 <= run && at + run <= input.len(),
    decreases input.len() - at,
{
    if 0 <= at < input.len() && input[at] >= 128 {
        lemma_group_run_bound(input, at + 1);
    }
}

/// Reading an element moves forward, and never beyond the input's end: an
/// element or an error takes at least the tag, and at most what is left.
pub proof fn lemma_decode_advances(input: Seq<u8>, start: int)
    ensures
        decode_at(input, start) matches Decoded::Element { next, .. } ==> start < next
            <= input.len(),
        decode_at(input, start) matches Decoded::Failure { next, .. } ==> start < next
            <= input.len(),
{
    if 0 <= start < input.len() {
        lemma_group_run_bound(input, start + 1);
    }
}

/// Why reading stopped gathering the elements of an entry.
pub enum Stop {
    /// The input ended.
    End,
    /// A marker came: it opens the next entry.
    Marker(Seq<char>),
    /// The input is malformed.
    Failure(ErrorView),
}

/// The elements read from an offset on up to the next marker, the end of the
/// input or the first error.
pub struct Gathered {
    /// The elements before the stop, in order.
    pub elements: Seq<ElementView>,
    /// The offset up to which the input was consumed, the marker included
    /// where one came.
    pub next: int,
    /// Why reading stopped.
    pub stop: Stop,
}

/// What reading element after element from offset `start` gathers, until a
/// marker comes, the input ends, or an error is found.
pub open spec fn gather(input: Seq<u8>, start: int) -> Gathered
    decreases input.len() - start,
{
    match decode_at(input, start) {
        Decoded::End => Gathered { elements: Seq::empty(), next: start, stop: Stop::End },
        Decoded::Failure { error, next } => Gathered {
            elements: Seq::empty(),
            next,
            stop: Stop::Failure(error),
        },
        Decoded::Element { element: ElementView::Marker(name), next } => Gathered {
            elements: Seq::empty(),
            next,
            stop: Stop::Marker(name),
        },
        Decoded::Element { element, next } => {
            proof {
                lemma_decode_advances(input, start);
            }
            let rest = gather(input, next);
            Gathered { elements: seq![element] + rest.elements, next: rest.next, stop: rest.stop }
        },
    }
}

/// Gathering moves forward, and never beyond the input's end.
pub proof fn lemma_gather_within(input: Seq<u8>, start: int)
    requires
        0 <= start <= input.len(),
    ensures
        start <= gather(input, start).next <= input.len(),
    decreases input.len() - start,
{
    lemma_decode_advances(input, start);
    match decode_at(input, start) {
        Decoded::Element { element, next } => {
            if !(element is Marker) {
                lemma_gather_within(input, next);
            }
        },
        _ => {},
    }
}

} // verus!
