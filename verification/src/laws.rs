//! What holds of the codec as a whole: reading gives back what was written,
//! length fields are as narrow as can be, and an input that ends too early
//! is reported at its end.

use crate::lemmas::{
    lemma_group_run_local, lemma_group_run_skip, lemma_le_bytes_len, lemma_le_round_trip,
    lemma_length_groups, lemma_length_groups_run, lemma_radix_values, lemma_valid_up_to_exists,
};
use crate::model::{ElementView, EntryView};
use crate::read::{ErrorView, ReaderView, EXTENSION, ROOT_NAME};
use crate::wire::{
    decode_at, decode_marker, decode_number, decode_sized, decode_text, encodings, field_width,
    framed_end, gather, is_tag, lemma_decode_advances, lemma_gather_within,
    lemma_group_run_bound, length_groups, missing, number_width, radix, size_width, truncated, unknown, unsigned_of, valid_up_to,
    Decoded, Gathered,
};
use vstd::prelude::*;
use vstd::utf8::{encode_utf8, encode_utf8_decode_utf8, encode_utf8_valid_utf8, valid_utf8};

verus! {

/// The parts of an encoding that an input holds at `start`: the tag, the
/// length field behind it, the payload behind that.
proof fn lemma_parts(element: ElementView, input: Seq<u8>, start: int)
    requires
        0 <= start,
        start + element.encoding().len() <= input.len(),
        input.subrange(start, start + element.encoding().len()) == element.encoding(),
    ensures
        input[start] == element.type_byte(),
        input.subrange(start + 1, start + 1 + element.length_field().len())
            == element.length_field(),
        input.subrange(
            start + 1 + element.length_field().len(),
            start + element.encoding().len(),
        ) == element.payload(),
        element.encoding().len() == 1 + element.length_field().len() + element.payload().len(),
{
    let encoding = element.encoding();
    let field = element.length_field();
    let body = 1 + field.len() as int;
    let held = input.subrange(start, start + encoding.len());
    assert(input[start] == held[0]);
    assert(held.subrange(1, body) =~= field);
    assert(held.subrange(body, encoding.len() as int) =~= element.payload());
}

/// A text of the wire, read back: the bytes of a text are valid UTF-8 and
/// decode to the text.
proof fn lemma_text_round_trip(input: Seq<u8>, body: int, text: Seq<char>, marker: bool)
    requires
        0 <= body,
        body + encode_utf8(text).len() <= input.len(),
        input.subrange(body, body + encode_utf8(text).len()) == encode_utf8(text),
    ensures
        decode_text(input, body, encode_utf8(text).len(), marker) == (Decoded::Element {
            element: if marker {
                ElementView::Marker(text)
            } else {
                ElementView::String(text)
            },
            next: body + encode_utf8(text).len(),
        }),
{
    encode_utf8_valid_utf8(text);
    encode_utf8_decode_utf8(text);
}

proof fn lemma_round_trip_number(element: ElementView, input: Seq<u8>, start: int)
    requires
        number_width(element.type_byte()) is Some,
        !(element is Marker),
        0 <= start,
        start + element.encoding().len() <= input.len(),
        input.subrange(start, start + element.encoding().len()) == element.encoding(),
    ensures
        decode_number(input, start) == (Decoded::Element {
            element,
            next: start + element.encoding().len(),
        }),
{
    lemma_parts(element, input, start);
    lemma_radix_values();
    match element {
        ElementView::UInteger8(value) => {
            lemma_le_bytes_len(value as nat, 1);
            lemma_le_round_trip(value as nat, 1);
        },
        ElementView::UInteger16(value) => {
            lemma_le_bytes_len(value as nat, 2);
            lemma_le_round_trip(value as nat, 2);
        },
        ElementView::UInteger32(value) => {
            lemma_le_bytes_len(value as nat, 4);
            lemma_le_round_trip(value as nat, 4);
        },
        ElementView::UInteger64(value) => {
            lemma_le_bytes_len(value as nat, 8);
            lemma_le_round_trip(value as nat, 8);
        },
        ElementView::Integer8(value) => {
            lemma_le_bytes_len(unsigned_of(value as int, 1), 1);
            lemma_le_round_trip(unsigned_of(value as int, 1), 1);
        },
        ElementView::Integer16(value) => {
            lemma_le_bytes_len(unsigned_of(value as int, 2), 2);
            lemma_le_round_trip(unsigned_of(value as int, 2), 2);
        },
        ElementView::Integer32(value) => {
            lemma_le_bytes_len(unsigned_of(value as int, 4), 4);
            lemma_le_round_trip(unsigned_of(value as int, 4), 4);
        },
        ElementView::Integer64(value) => {
            lemma_le_bytes_len(unsigned_of(value as int, 8), 8);
            lemma_le_round_trip(unsigned_of(value as int, 8), 8);
        },
        ElementView::Float32(bits) => {
            lemma_le_bytes_len(bits as nat, 4);
            lemma_le_round_trip(bits as nat, 4);
        },
        ElementView::Float64(bits) => {
            lemma_le_bytes_len(bits as nat, 8);
            lemma_le_round_trip(bits as nat, 8);
        },
        _ => {},
    }
}

proof fn lemma_round_trip_sized(element: ElementView, input: Seq<u8>, start: int)
    requires
        element is String || element is Blob,
        element.encodable(),
        0 <= start,
        start + element.encoding().len() <= input.len(),
        input.subrange(start, start + element.encoding().len()) == element.encoding(),
    ensures
        decode_sized(input, start) == (Decoded::Element {
            element,
            next: start + element.encoding().len(),
        }),
{
    lemma_parts(element, input, start);
    lemma_radix_values();
    let len = element.payload().len();
    lemma_le_bytes_len(len, size_width(len));
    lemma_le_round_trip(len, size_width(len));
    let body = start + 1 + size_width(len);
    match element {
        ElementView::String(text) => {
            lemma_text_round_trip(input, body, text, false);
        },
        _ => {},
    }
}

proof fn lemma_round_trip_marker(element: ElementView, input: Seq<u8>, start: int)
    requires
        element is Marker,
        0 <= start,
        start + element.encoding().len() <= input.len(),
        input.subrange(start, start + element.encoding().len()) == element.encoding(),
    ensures
        decode_marker(input, start) == (Decoded::Element {
            element,
            next: start + element.encoding().len(),
        }),
{
    lemma_parts(element, input, start);
    let name = element->Marker_0;
    let len = encode_utf8(name).len();
    if len > 63 {
        let groups = length_groups(len / 64);
        lemma_length_groups(len / 64);
        lemma_length_groups_run(input, start + 1, len / 64);
        lemma_text_round_trip(input, start + 1 + groups.len(), name, true);
    } else {
        lemma_text_round_trip(input, start + 1, name, true);
    }
}

/// Round trip: where an input holds the encoding of an element at an offset,
/// reading at that offset gives that element, and moves just behind the
/// encoding. What comes before the encoding and what comes behind it make no
/// difference.
pub proof fn lemma_round_trip(element: ElementView, input: Seq<u8>, start: int)
    requires
        element.encodable(),
        0 <= start,
        start + element.encoding().len() <= input.len(),
        input.subrange(start, start + element.encoding().len()) == element.encoding(),
    ensures
        decode_at(input, start) == (Decoded::Element {
            element,
            next: start + element.encoding().len(),
        }),
{
    lemma_parts(element, input, start);
    match element {
        ElementView::Marker(_) => {
            lemma_round_trip_marker(element, input, start);
        },
        ElementView::String(_) => {
            lemma_round_trip_sized(element, input, start);
        },
        ElementView::Blob(_) => {
            lemma_round_trip_sized(element, input, start);
        },
        ElementView::Folder => {},
        ElementView::Collection => {},
        ElementView::Boolean(_) => {},
        _ => {
            lemma_round_trip_number(element, input, start);
        },
    }
}

/// Round trip, in the plainest case: the encoding of an element, read from
/// its first byte, gives the element and is used up; the tag read is the
/// element's tag.
pub proof fn lemma_decode_encoding(element: ElementView)
    requires
        element.encodable(),
    ensures
        decode_at(element.encoding(), 0) == (Decoded::Element {
            element,
            next: element.encoding().len() as int,
        }),
        element.encoding()[0] == element.type_byte(),
{
    let encoding = element.encoding();
    assert(encoding.subrange(0, encoding.len() as int) =~= encoding);
    lemma_round_trip(element, encoding, 0);
}

/// The length field of a string or of a blob is as narrow as can be: it
/// holds the length, and no field of 1, 2, 4 or 8 bytes that holds the
/// length is narrower.
pub proof fn lemma_length_field_minimal(len: nat, width: nat)
    requires
        len < radix(8),
        width == 1 || width == 2 || width == 4 || width == 8,
        len < radix(width),
    ensures
        len < radix(size_width(len)),
        size_width(len) <= width,
{
    lemma_radix_values();
}

/// The size of a string or of a blob on the wire: one byte of tag, the
/// narrowest length field, and the payload. The two low bits of the tag
/// tell the width of the field.
pub proof fn lemma_sized_encoding_len(element: ElementView)
    requires
        element is String || element is Blob,
    ensures
        element.length_field().len() == size_width(element.payload().len()),
        element.length_field().len() == field_width(element.type_byte() % 4),
        element.encoding().len() == 1 + size_width(element.payload().len())
            + element.payload().len(),
{
    let len = element.payload().len();
    lemma_le_bytes_len(len, size_width(len));
}

/// The length of a marker on the wire. A name of up to 63 bytes has its
/// length in the tag, and no byte between the tag and the name. A longer
/// name of less than 8192 bytes has one byte there: its length without the
/// six low bits, with bit 7 clear.
pub proof fn lemma_marker_length_field(name: Seq<char>)
    ensures
        encode_utf8(name).len() <= 63 ==> {
            &&& ElementView::Marker(name).length_field().len() == 0
            &&& ElementView::Marker(name).type_byte() == 128 + encode_utf8(name).len()
        },
        64 <= encode_utf8(name).len() < 8192 ==> {
            &&& ElementView::Marker(name).length_field() == seq![
                (encode_utf8(name).len() / 64) as u8,
            ]
            &&& encode_utf8(name).len() / 64 < 128
            &&& ElementView::Marker(name).type_byte() == 192 + encode_utf8(name).len() % 64
        },
        ElementView::Marker(name).encoding().len() == 1 + ElementView::Marker(
            name,
        ).length_field().len() + encode_utf8(name).len(),
{
}

/// Truncation: where the framing of an element announces a payload that
/// ends beyond the end of the input, reading the element consumes the input
/// to its end and reports a syntax error at that offset.
pub proof fn lemma_truncated_payload(input: Seq<u8>, start: int)
    requires
        framed_end(input, start) is Some,
        framed_end(input, start)->Some_0 > input.len(),
    ensures
        decode_at(input, start) == truncated(input),
{
}

/// Truncation of what was written: an input that ends inside the encoding
/// of an element, behind its tag, reads as a syntax error at the end of the
/// input, wherever the cut falls.
pub proof fn lemma_truncated_encoding(element: ElementView, input: Seq<u8>, start: int)
    requires
        element.encodable(),
        0 <= start < input.len(),
        input.len() - start < element.encoding().len(),
        input.subrange(start, input.len() as int) == element.encoding().subrange(
            0,
            input.len() - start,
        ),
    ensures
        decode_at(input, start) == truncated(input),
{
    match element {
        ElementView::Marker(_) => {
            lemma_truncated_marker(element, input, start);
        },
        ElementView::String(_) => {
            lemma_truncated_sized(element, input, start);
        },
        ElementView::Blob(_) => {
            lemma_truncated_sized(element, input, start);
        },
        ElementView::Folder => {},
        ElementView::Collection => {},
        ElementView::Boolean(_) => {},
        _ => {
            lemma_truncated_number(element, input, start);
        },
    }
}

proof fn lemma_truncated_number(element: ElementView, input: Seq<u8>, start: int)
    requires
        number_width(element.type_byte()) is Some,
        !(element is Marker),
        0 <= start < input.len(),
        input.len() - start < element.encoding().len(),
        input.subrange(start, input.len() as int) == element.encoding().subrange(
            0,
            input.len() - start,
        ),
    ensures
        decode_number(input, start) == truncated(input),
        input[start] == element.type_byte(),
{
    let held = input.subrange(start, input.len() as int);
    assert(input[start] == held[0]);
    lemma_le_bytes_len(le_value_of(element), number_width(element.type_byte())->Some_0);
}

/// The unsigned number that the payload of a number holds.
spec fn le_value_of(element: ElementView) -> nat {
    match element {
        ElementView::Integer8(value) => unsigned_of(value as int, 1),
        ElementView::Integer16(value) => unsigned_of(value as int, 2),
        ElementView::Integer32(value) => unsigned_of(value as int, 4),
        ElementView::Integer64(value) => unsigned_of(value as int, 8),
        ElementView::UInteger8(value) => value as nat,
        ElementView::UInteger16(value) => value as nat,
        ElementView::UInteger32(value) => value as nat,
        ElementView::UInteger64(value) => value as nat,
        ElementView::Float32(bits) => bits as nat,
        ElementView::Float64(bits) => bits as nat,
        _ => 0,
    }
}

proof fn lemma_truncated_marker(element: ElementView, input: Seq<u8>, start: int)
    requires
        element is Marker,
        0 <= start < input.len(),
        input.len() - start < element.encoding().len(),
        input.subrange(start, input.len() as int) == element.encoding().subrange(
            0,
            input.len() - start,
        ),
    ensures
        decode_marker(input, start) == truncated(input),
        input[start] == element.type_byte(),
{
    let field = element.length_field();
    let held = input.subrange(start, input.len() as int);
    let len = encode_utf8(element->Marker_0).len();
    assert(input[start] == held[0]);
    assert(forall|j: int| start <= j < input.len() ==> input[j] == held[j - start]);
    if len > 63 {
        lemma_length_groups(len / 64);
        if input.len() - start - 1 < field.len() {
            // The cut falls inside the groups: all that are left announce
            // another.
            assert(forall|j: int| start + 1 <= j < input.len() ==> input[j] >= 128);
            lemma_group_run_skip(input, start + 1, input.len() as int);
        } else {
            assert(input.subrange(start + 1, start + 1 + field.len()) =~= field);
            lemma_length_groups_run(input, start + 1, len / 64);
        }
    }
}

proof fn lemma_truncated_sized(element: ElementView, input: Seq<u8>, start: int)
    requires
        element is String || element is Blob,
        element.encodable(),
        0 <= start < input.len(),
        input.len() - start < element.encoding().len(),
        input.subrange(start, input.len() as int) == element.encoding().subrange(
            0,
            input.len() - start,
        ),
    ensures
        decode_sized(input, start) == truncated(input),
        input[start] == element.type_byte(),
{
    lemma_radix_values();
    let field = element.length_field();
    let len = element.payload().len();
    let held = input.subrange(start, input.len() as int);
    lemma_le_bytes_len(len, size_width(len));
    lemma_le_round_trip(len, size_width(len));
    assert(input[start] == held[0]);
    if input.len() - start - 1 >= field.len() {
        assert(input.subrange(start + 1, start + 1 + field.len()) =~= held.subrange(
            1,
            1 + field.len() as int,
        ));
        assert(held.subrange(1, 1 + field.len() as int) =~= field);
    }
}

/// No reading ahead: an element is read from its own bytes alone. An input
/// that holds the same bytes from the tag to the end of the element reads as
/// the same element, whatever else it holds.
pub proof fn lemma_decode_local(input: Seq<u8>, other: Seq<u8>, start: int)
    requires
        decode_at(input, start) is Element,
        decode_at(input, start)->Element_next <= other.len(),
        other.subrange(start, decode_at(input, start)->Element_next) == input.subrange(
            start,
            decode_at(input, start)->Element_next,
        ),
    ensures
        decode_at(other, start) == decode_at(input, start),
{
    lemma_decode_advances(input, start);
    let next = decode_at(input, start)->Element_next;
    assert forall|j: int| start <= j < next implies other[j] == input[j] by {
        assert(other[j] == other.subrange(start, next)[j - start]);
    }
    assert forall|from: int, to: int| start <= from <= to <= next implies #[trigger] other.subrange(
        from,
        to,
    ) == input.subrange(from, to) by {
        assert(other.subrange(from, to) =~= input.subrange(from, to));
    }
    let tag = input[start];
    if tag >= 0xC0 {
        lemma_group_run_bound(input, start + 1);
        lemma_group_run_local(input, other, start + 1);
    }
}

/// The position of a reader lies within its input, and stays there:
/// reading an element or an entry moves it forward, and not beyond the end.
/// A new reader stands at the start, and supplying bytes moves the end only.
pub proof fn lemma_position_within(reader: ReaderView)
    requires
        0 <= reader.position <= reader.input.len(),
    ensures
        reader.next_element().0.input == reader.input,
        reader.position <= reader.next_element().0.position <= reader.input.len(),
        reader.next_entry().0.input == reader.input,
        reader.position <= reader.next_entry().0.position <= reader.input.len(),
{
    lemma_decode_advances(reader.input, reader.position);
    lemma_gather_within(reader.input, reader.next_element().0.position);
}

/// Reading piece by piece, when to read: where nothing is missing of the
/// element at `start`, there is something to read there, and it reads the
/// same whatever bytes are appended to the input. So the element can be read
/// before a byte behind it has been fetched.
pub proof fn lemma_nothing_missing(input: Seq<u8>, more: Seq<u8>, start: int)
    requires
        0 <= start,
        missing(input, start) == 0,
    ensures
        !(decode_at(input, start) is End),
        decode_at(input + more, start) == decode_at(input, start),
{
    let longer = input + more;
    assert forall|from: int, to: int| 0 <= from <= to <= input.len() implies #[trigger] longer.subrange(
        from,
        to,
    ) == input.subrange(from, to) by {
        assert(longer.subrange(from, to) =~= input.subrange(from, to));
    }
    if input[start] >= 0xC0 {
        lemma_group_run_bound(input, start + 1);
        lemma_group_run_local(input, longer, start + 1);
    }
}

/// Reading piece by piece, when to fetch: where something is missing of the
/// element at `start`, reading finds the input at its end there, or cut
/// short. That is the right outcome where the source has no more bytes, and
/// only there: else the missing bytes are to be fetched first.
pub proof fn lemma_something_missing(input: Seq<u8>, start: int)
    requires
        0 <= start <= input.len(),
        missing(input, start) > 0,
    ensures
        start == input.len() ==> decode_at(input, start) is End,
        start < input.len() ==> decode_at(input, start) == truncated(input),
        missing(input, start) >= 1,
{
}

/// Reading piece by piece, on the reader: a reader that misses nothing
/// reads its next element as it would with any bytes appended to its input.
pub proof fn lemma_supplied_reads_alike(reader: ReaderView, more: Seq<u8>)
    requires
        0 <= reader.position,
        reader.missing() == 0,
    ensures
        (ReaderView { input: reader.input + more, ..reader }).next_element() == (
            ReaderView { input: reader.input + more, ..reader.next_element().0 },
            reader.next_element().1,
        ),
{
    if reader.retained is None {
        lemma_nothing_missing(reader.input, more, reader.position);
    }
}

/// A byte that is no tag, read where a tag is due, is reported as it is and
/// where it stands, whatever follows it, and reading stops behind it. A byte
/// of the reserved category is reported in the same way, as unsupported.
pub proof fn lemma_no_tag(input: Seq<u8>, start: int)
    requires
        0 <= start < input.len(),
        !is_tag(input[start]),
    ensures
        0x70 <= input[start] ==> decode_at(input, start) == (Decoded::Failure {
            error: ErrorView::UnsupportedType(start, EXTENSION@),
            next: start + 1,
        }),
        input[start] < 0x70 ==> decode_at(input, start) == unknown(input[start], start, start + 1),
{
}

/// Where errors point. An unknown or unsupported tag is reported at its own
/// offset, and with its own value. Bytes that are not UTF-8 are reported at
/// an offset inside the element, behind its tag. A syntax error is reported
/// at the offset up to which the input was consumed.
pub proof fn lemma_error_offsets(input: Seq<u8>, start: int)
    requires
        decode_at(input, start) is Failure,
    ensures
        match decode_at(input, start)->Failure_error {
            ErrorView::UnknownType(at, tag) => at == start && tag == input[start],
            ErrorView::UnsupportedType(at, _) => at == start,
            ErrorView::InvalidString(at) => start < at < decode_at(input, start)->Failure_next,
            ErrorView::Syntax(at, _) => at == decode_at(input, start)->Failure_next,
            _ => false,
        },
{
    lemma_decode_advances(input, start);
    let tag = input[start];
    if tag >= 0xC0 {
        lemma_group_run_bound(input, start + 1);
    }
    assert forall|bytes: Seq<u8>| !valid_utf8(bytes) implies #[trigger] valid_up_to(bytes)
        < bytes.len() by {
        lemma_valid_up_to_exists(bytes);
        assert(bytes.subrange(0, bytes.len() as int) =~= bytes);
    }
}

/// Where the encoding of the element at `index` stands in an input that
/// holds the encodings of `elements` from `start` on.
proof fn lemma_encoding_within(
    elements: Seq<ElementView>,
    input: Seq<u8>,
    start: int,
    index: int,
)
    requires
        0 <= start,
        start + encodings(elements).len() <= input.len(),
        input.subrange(start, start + encodings(elements).len()) == encodings(elements),
        0 <= index < elements.len(),
    ensures
        encodings(elements.take(index + 1)) == encodings(elements.take(index))
            + elements[index].encoding(),
        start + encodings(elements.take(index + 1)).len() <= input.len(),
        input.subrange(
            start + encodings(elements.take(index)).len(),
            start + encodings(elements.take(index + 1)).len(),
        ) == elements[index].encoding(),
    decreases index,
{
    let whole = encodings(elements);
    let first = elements[0].encoding();
    let rest = elements.drop_first();
    reveal_with_fuel(encodings, 2);
    if index == 0 {
    } else {
        assert(input.subrange(start + first.len(), start + first.len() + encodings(rest).len())
            =~= whole.subrange(first.len() as int, whole.len() as int));
        assert(whole.subrange(first.len() as int, whole.len() as int) =~= encodings(rest));
        lemma_encoding_within(rest, input, start + first.len(), index - 1);
        assert(elements.take(index).drop_first() =~= rest.take(index - 1));
        assert(elements.take(index + 1).drop_first() =~= rest.take(index));
    }
}

/// A stream written is the stream read: where an input holds the encodings
/// of some elements one behind the other, from `start` on, reading at the
/// offset where the encoding of one of them begins gives that element, and
/// moves to the offset where the next begins.
pub proof fn lemma_stream_round_trip(
    elements: Seq<ElementView>,
    input: Seq<u8>,
    start: int,
    index: int,
)
    requires
        forall|i: int| 0 <= i < elements.len() ==> (#[trigger] elements[i]).encodable(),
        0 <= start,
        start + encodings(elements).len() <= input.len(),
        input.subrange(start, start + encodings(elements).len()) == encodings(elements),
        0 <= index < elements.len(),
    ensures
        decode_at(input, start + encodings(elements.take(index)).len()) == (Decoded::Element {
            element: elements[index],
            next: start + encodings(elements.take(index + 1)).len(),
        }),
        encodings(elements.take(index + 1)) == encodings(elements.take(index))
            + elements[index].encoding(),
        start + encodings(elements.take(index + 1)).len() <= input.len(),
{
    lemma_encoding_within(elements, input, start, index);
    lemma_round_trip(elements[index], input, start + encodings(elements.take(index)).len());
}

/// Elements written behind a marker are the elements gathered: where an
/// input holds, from `start` on, the encodings of elements none of which is
/// a marker, gathering from `start` takes them all, in order, and then goes
/// on as gathering behind them does.
pub proof fn lemma_gather_written(elements: Seq<ElementView>, input: Seq<u8>, start: int)
    requires
        forall|i: int|
            0 <= i < elements.len() ==> (#[trigger] elements[i]).encodable() && !(elements[i]
                is Marker),
        0 <= start,
        start + encodings(elements).len() <= input.len(),
        input.subrange(start, start + encodings(elements).len()) == encodings(elements),
    ensures
        gather(input, start) == (Gathered {
            elements: elements + gather(input, start + encodings(elements).len()).elements,
            next: gather(input, start + encodings(elements).len()).next,
            stop: gather(input, start + encodings(elements).len()).stop,
        }),
    decreases elements.len(),
{
    if elements.len() == 0 {
    } else {
        let whole = encodings(elements);
        let first = elements[0].encoding();
        let rest = elements.drop_first();
        assert(input.subrange(start, start + first.len()) =~= whole.subrange(
            0,
            first.len() as int,
        ));
        assert(whole.subrange(0, first.len() as int) =~= first);
        lemma_round_trip(elements[0], input, start);
        assert(input.subrange(start + first.len(), start + first.len() + encodings(rest).len())
            =~= whole.subrange(first.len() as int, whole.len() as int));
        assert(whole.subrange(first.len() as int, whole.len() as int) =~= encodings(rest));
        lemma_gather_written(rest, input, start + first.len());
        let behind = gather(input, start + whole.len());
        assert(seq![elements[0]] + (rest + behind.elements) =~= elements + behind.elements);
    }
}

/// Entry grouping: a marker and elements written behind it, none of them a
/// marker, are read back as one entry, which has the marker's name and these
/// elements, in order. Here the input ends behind them: the reader is then
/// at the end, and retains nothing.
pub proof fn lemma_entry_round_trip(name: Seq<char>, elements: Seq<ElementView>, input: Seq<u8>)
    requires
        forall|i: int|
            0 <= i < elements.len() ==> (#[trigger] elements[i]).encodable() && !(elements[i]
                is Marker),
        input == ElementView::Marker(name).encoding() + encodings(elements),
    ensures
        (ReaderView { input, position: 0, current_name: ROOT_NAME@, retained: None }).next_entry()
            == (
            ReaderView { input, position: input.len() as int, current_name: name, retained: None },
            Ok::<Option<EntryView>, ErrorView>(Some(EntryView { name, elements })),
        ),
{
    let marker = ElementView::Marker(name);
    let head = marker.encoding();
    assert(input.subrange(0, head.len() as int) =~= head);
    lemma_round_trip(marker, input, 0);
    assert(input.subrange(head.len() as int, input.len() as int) =~= encodings(elements));
    lemma_gather_written(elements, input, head.len() as int);
    assert(decode_at(input, input.len() as int) is End);
    assert(gather(input, input.len() as int).elements =~= Seq::<ElementView>::empty());
    assert(elements + Seq::<ElementView>::empty() =~= elements);
}

/// Entries follow one another: where reading an entry stops at a marker, the
/// marker is retained and names what comes next. The next element read is
/// that marker, and no byte is read for it; the next entry read has its
/// name.
pub proof fn lemma_entries_chain(reader: ReaderView)
    requires
        reader.next_entry().0.retained is Some,
    ensures
        reader.next_entry().0.retained->Some_0 is Marker,
        reader.next_entry().0.current_name == reader.next_entry().0.retained->Some_0->Marker_0,
        reader.next_entry().0.next_element() == (
            ReaderView { retained: None, ..reader.next_entry().0 },
            Ok::<Option<ElementView>, ErrorView>(reader.next_entry().0.retained),
        ),
        reader.next_entry().0.next_entry().1 matches Ok(Some(entry)) ==> entry.name
            == reader.next_entry().0.current_name,
        reader.next_entry().0.next_entry().1 matches Ok(entry) ==> entry is Some,
{
}

/// An entry without a marker of its own: where the first element read for
/// an entry is not a marker, the entry has the name of the last marker read
/// before, which is `"/"` for a reader that has read none, and that first
/// element is the entry's first.
pub proof fn lemma_implicit_entry(reader: ReaderView)
    requires
        reader.next_element().1 matches Ok(Some(first)) && !(first is Marker),
        reader.next_entry().1 is Ok,
    ensures
        reader.next_entry().1 matches Ok(Some(entry)) && entry.name == reader.current_name
            && entry.elements.len() >= 1 && entry.elements[0]
            == reader.next_element().1->Ok_0->Some_0,
{
}

} // verus!
