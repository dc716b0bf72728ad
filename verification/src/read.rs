//! The decoder: it reads elements, one by one or grouped into entries, from a
//! TPK stream held in memory.
//!
//! The stream may be there from the start, or come piece by piece: the
//! reader tells how many bytes it misses for its next element, and takes
//! the bytes that it is supplied with. It reads no source itself.

use crate::lemmas::{
    lemma_group_run_skip, lemma_groups_value_step, lemma_le_value_single,
    lemma_valid_up_to_unique,
};
use crate::model::{Element, ElementView, Entry, EntryView};
use crate::trusted::{
    le_read_i16, le_read_i32, le_read_i64, le_read_u16, le_read_u32, le_read_u64,
    string_from_utf8, utf8_error, valid_up_to_index,
};
use crate::wire::{
    decode_at, decode_boolean, decode_marker, decode_number, decode_sized, decode_structural,
    field_width, gather, groups_value, le_value, lemma_decode_advances, lemma_gather_within,
    missing, short_of, valid_up_to, Decoded, Stop,
};
use std::string::FromUtf8Error;
use vstd::prelude::*;
use vstd::slice::{slice_subrange, slice_to_vec};
use vstd::utf8::{decode_utf8, encode_utf8_decode_utf8, valid_utf8};

verus! {

/// The message of the syntax error that reports an input that ends inside an
/// element.
pub const UNEXPECTED_EOF: &'static str = "expected more, got EOF";

/// The message of the syntax error that reports a marker whose tag announces
/// more length bytes when those bytes add nothing to the length.
pub const REDUNDANT_LENGTH: &'static str = "redundant marker length continuation";

/// The label of the reserved category of tags that the decoder refuses.
pub const EXTENSION: &'static str = "extension";

/// The name that entries have before any marker was met.
pub const ROOT_NAME: &'static str = "/";

/// A bound on the part of a marker's length that the bytes behind its tag
/// hold, up to which it is computed. A length that reaches the bound is
/// beyond any input, and beyond any number of bytes that can be asked for.
const LENGTH_CAP: u128 = 0x10_0000_0000_0000_0000_0000_0000;

/// The least that the bytes behind a marker's tag can hold for the marker
/// not to fit in sixty-four bits of length.
const LENGTH_LIMIT: u128 = 0x0400_0000_0000_0000;

/// What can go wrong when reading TPK data.
#[derive(Debug)]
#[allow(inconsistent_fields)]
pub enum Error {
    /// A failure that fits no other case. The decoder never reports it.
    Unknown,
    /// The source of the bytes failed. The decoder reads from memory and
    /// never reports it: it is for those who fetch the bytes.
    Io { source: std::io::Error },
    /// The end of the input has been reached. The decoder says so by
    /// handing out `None`, never by this error.
    Eof,
    /// The input is malformed at the given offset; the text says how.
    Syntax(usize, &'static str),
    /// The byte at the given offset is no known tag.
    UnknownType(usize, u8),
    /// A marker or a string holds bytes that are not UTF-8; `pos` is the
    /// offset of the first such byte.
    InvalidString { pos: usize, source: FromUtf8Error },
    /// The tag at the given offset belongs to the named category, which the
    /// decoder does not support.
    UnsupportedType(usize, &'static str),
}

/// What an [`Error`] says, as mathematical values.
pub enum ErrorView {
    Unknown,
    Io,
    Eof,
    Syntax(int, Seq<char>),
    UnknownType(int, u8),
    InvalidString(int),
    UnsupportedType(int, Seq<char>),
}

impl View for Error {
    type V = ErrorView;

    open spec fn view(&self) -> ErrorView {
        match *self {
            Error::Unknown => ErrorView::Unknown,
            Error::Io { .. } => ErrorView::Io,
            Error::Eof => ErrorView::Eof,
            Error::Syntax(at, message) => ErrorView::Syntax(at as int, message@),
            Error::UnknownType(at, tag) => ErrorView::UnknownType(at as int, tag),
            Error::InvalidString { pos, .. } => ErrorView::InvalidString(pos as int),
            Error::UnsupportedType(at, label) => ErrorView::UnsupportedType(at as int, label@),
        }
    }
}

/// A decoder over a TPK stream held in memory.
///
/// It keeps the input, how far it has read, the name of the last marker that
/// it met, and at most one element that it has decoded but not handed out.
/// The input can grow: see [`Reader::missing`] and [`Reader::supply`].
pub struct Reader {
    read: Vec<u8>,
    previous_bytes_read: usize,
    bytes_read: usize,
    current_name: String,
    retained_element: Option<Element>,
}

/// What a [`Reader`] holds, as mathematical values.
pub struct ReaderView {
    /// The whole input.
    pub input: Seq<u8>,
    /// The offset of the next byte to read.
    pub position: int,
    /// The name of the last marker met; `"/"` before the first.
    pub current_name: Seq<char>,
    /// The element that the next read hands out before it reads on.
    pub retained: Option<ElementView>,
}

/// What reading an element hands out, as mathematical values.
pub open spec fn element_outcome(r: Result<Option<Element>, Error>) -> Result<
    Option<ElementView>,
    ErrorView,
> {
    match r {
        Ok(Some(element)) => Ok(Some(element@)),
        Ok(None) => Ok(None),
        Err(error) => Err(error@),
    }
}

/// What reading an entry hands out, as mathematical values.
pub open spec fn entry_outcome(r: Result<Option<Entry>, Error>) -> Result<
    Option<EntryView>,
    ErrorView,
> {
    match r {
        Ok(Some(entry)) => Ok(Some(entry@)),
        Ok(None) => Ok(None),
        Err(error) => Err(error@),
    }
}

impl ReaderView {
    /// How many more bytes the input has to hold before the next element can
    /// be read: none where an element is retained, else what is missing of
    /// the element at the position.
    pub open spec fn missing(self) -> nat {
        if self.retained is Some {
            0
        } else {
            missing(self.input, self.position)
        }
    }

    /// The entry that `first` opens: the first element read for an entry
    /// names it where it is a marker, and else is its first element, under
    /// the current name.
    pub open spec fn opened(self, first: ElementView) -> EntryView {
        match first {
            ElementView::Marker(name) => EntryView { name, elements: Seq::empty() },
            _ => EntryView { name: self.current_name, elements: seq![first] },
        }
    }

    /// Reading one element: the reader afterwards, and what is handed out.
    ///
    /// A retained element goes out first, and nothing is read. Else one
    /// element is decoded at the position. At the end of the input nothing
    /// changes. A marker's name becomes the current name.
    pub open spec fn next_element(self) -> (ReaderView, Result<Option<ElementView>, ErrorView>) {
        match self.retained {
            Some(element) => (ReaderView { retained: None, ..self }, Ok(Some(element))),
            None => match decode_at(self.input, self.position) {
                Decoded::End => (self, Ok(None)),
                Decoded::Element { element, next } => (
                    ReaderView {
                        position: next,
                        current_name: match element {
                            ElementView::Marker(name) => name,
                            _ => self.current_name,
                        },
                        ..self
                    },
                    Ok(Some(element)),
                ),
                Decoded::Failure { error, next } => (
                    ReaderView { position: next, ..self },
                    Err(error),
                ),
            },
        }
    }

    /// Reading one entry: the reader afterwards, and what is handed out.
    ///
    /// The first element read names the entry where it is a marker; where it
    /// is not, the entry has the current name and the element is its first.
    /// The elements that follow join the entry, up to the end of the input or
    /// to the next marker, which is retained for the entry after this one.
    /// An error ends the read, and no entry is handed out.
    pub open spec fn next_entry(self) -> (ReaderView, Result<Option<EntryView>, ErrorView>) {
        let (first_read, first) = self.next_element();
        match first {
            Err(error) => (first_read, Err(error)),
            Ok(None) => (first_read, Ok(None)),
            Ok(Some(element)) => {
                let rest = gather(first_read.input, first_read.position);
                let entry = match element {
                    ElementView::Marker(name) => EntryView { name, elements: rest.elements },
                    _ => EntryView {
                        name: first_read.current_name,
                        elements: seq![element] + rest.elements,
                    },
                };
                match rest.stop {
                    Stop::End => (
                        ReaderView { position: rest.next, ..first_read },
                        Ok(Some(entry)),
                    ),
                    Stop::Marker(name) => (
                        ReaderView {
                            position: rest.next,
                            current_name: name,
                            retained: Some(ElementView::Marker(name)),
                            ..first_read
                        },
                        Ok(Some(entry)),
                    ),
                    Stop::Failure(error) => (
                        ReaderView { position: rest.next, ..first_read },
                        Err(error),
                    ),
                }
            },
        }
    }
}

impl View for Reader {
    type V = ReaderView;

    closed spec fn view(&self) -> ReaderView {
        ReaderView {
            input: self.read@,
            position: self.bytes_read as int,
            current_name: self.current_name@,
            retained: match self.retained_element {
                Some(element) => Some(element@),
                None => None,
            },
        }
    }
}

impl Reader {
    #[verifier::type_invariant]
    spec fn well_formed(&self) -> bool {
        self.previous_bytes_read <= self.bytes_read <= self.read@.len()
    }

    /// The reader `after` differs from this reader by its position at most.
    spec fn same_stream(&self, after: &Reader) -> bool {
        &&& after.read == self.read
        &&& after.current_name == self.current_name
        &&& after.retained_element == self.retained_element
    }

    /// The reader `after` is this reader after a read that began at this
    /// reader's position and ended at `position`.
    spec fn moved(&self, after: &Reader, position: int) -> bool {
        &&& self.same_stream(after)
        &&& after.previous_bytes_read == self.bytes_read
        &&& after.bytes_read == position
    }

    /// A reader at the start of `read`.
    pub fn new(read: Vec<u8>) -> (reader: Reader)
        ensures
            reader@ == (ReaderView {
                input: read@,
                position: 0,
                current_name: ROOT_NAME@,
                retained: None,
            }),
    {
        Reader {
            read,
            previous_bytes_read: 0,
            bytes_read: 0,
            current_name: ROOT_NAME.to_owned(),
            retained_element: None,
        }
    }

    /// The offset of the next byte to read. It lies within the input.
    pub fn position(&self) -> (position: usize)
        ensures
            position == self@.position,
            position <= self@.input.len(),
    {
        proof {
            use_type_invariant(self);
        }
        self.bytes_read
    }

    /// Appends `bytes` to the input.
    pub fn supply(&mut self, bytes: &[u8])
        ensures
            final(self)@ == (ReaderView { input: old(self)@.input + bytes@, ..old(self)@ }),
            final(self)@.position <= final(self)@.input.len(),
    {
        proof {
            use_type_invariant(&*self);
        }
        // The input is taken out to be extended. The reader stands at the
        // start meanwhile, where an empty input can hold it.
        let previous_bytes_read = self.previous_bytes_read;
        let bytes_read = self.bytes_read;
        self.previous_bytes_read = 0;
        self.bytes_read = 0;
        let mut read = Vec::new();
        std::mem::swap(&mut read, &mut self.read);
        read.extend_from_slice(bytes);
        assert(read@ =~= old(self).read@ + bytes@);
        std::mem::swap(&mut read, &mut self.read);
        self.bytes_read = bytes_read;
        self.previous_bytes_read = previous_bytes_read;
    }

    /// How many more bytes the reader has to be supplied with before it can
    /// read the next element; zero where it can. Where that is more than a
    /// `usize` holds, the greatest `usize`.
    ///
    /// One who fetches the input piece by piece fetches this many bytes,
    /// supplies what came, and asks again, until nothing is missing or the
    /// source has no more: the element is then read as it would be from the
    /// whole input, and no byte behind it has been fetched.
    pub fn missing(&self) -> (count: usize)
        ensures
            count == if self@.missing() > usize::MAX {
                usize::MAX as nat
            } else {
                self@.missing()
            },
    {
        proof {
            use_type_invariant(self);
        }
        if self.retained_element.is_some() {
            return 0;
        }
        let input_len = self.read.len();
        let start = self.bytes_read;
        if start >= input_len {
            return 1;
        }
        let tag = self.read[start];
        assert(tag & 0b1000_0000 != 0 <==> tag >= 0x80) by (bit_vector);
        assert(tag & 0b0100_0000 != 0 <==> tag >= 0xC0 || 0x40 <= tag < 0x80) by (bit_vector);
        assert(tag & 0b0011_1111 == tag % 64) by (bit_vector);
        assert(tag & 0b11 == tag % 4) by (bit_vector);
        if tag & 0b1000_0000 != 0 {
            let low = (tag & 0b0011_1111) as u128;
            if tag & 0b0100_0000 == 0 {
                return self.short_of(start + 1, low);
            }
            let mut at = start + 1;
            while at < input_len && self.read[at] >= 128
                invariant
                    start + 1 <= at <= input_len,
                    input_len == self.read@.len(),
                    forall|j: int| start + 1 <= j < at ==> self.read@[j] >= 128,
                decreases input_len - at,
            {
                at += 1;
            }
            proof {
                lemma_group_run_skip(self.read@, start + 1, at as int);
            }
            if at >= input_len {
                return 1;
            }
            let body = at + 1;
            let high = self.groups_value_capped(start + 1, body);
            if high == 0 {
                0
            } else if high >= LENGTH_CAP {
                usize::MAX
            } else {
                self.short_of(body, low + 64 * high)
            }
        } else if 0x10 <= tag && tag < 0x18 {
            let class = tag & 0b11;
            let width: usize = if class == 0 {
                1
            } else if class == 1 {
                2
            } else if class == 2 {
                4
            } else {
                8
            };
            if input_len - start - 1 < width {
                return width - (input_len - start - 1);
            }
            let body = start + 1 + width;
            let field = slice_subrange(self.read.as_slice(), start + 1, body);
            assert(field@.subrange(0, width as int) =~= field@);
            let size = if class == 0 {
                proof {
                    lemma_le_value_single(field@);
                }
                field[0] as u128
            } else if class == 1 {
                le_read_u16(field) as u128
            } else if class == 2 {
                le_read_u32(field) as u128
            } else {
                le_read_u64(field) as u128
            };
            self.short_of(body, size)
        } else {
            match tag {
                0b0010_0000 | 0b0010_0100 => self.short_of(start + 1, 1),
                0b0010_0001 | 0b0010_0101 => self.short_of(start + 1, 2),
                0b0010_0010 | 0b0010_0110 | 0b0010_1110 => self.short_of(start + 1, 4),
                0b0010_0011 | 0b0010_0111 | 0b0010_1111 => self.short_of(start + 1, 8),
                _ => 0,
            }
        }
    }

    /// How many bytes the input lacks of `size` bytes from offset `body` on,
    /// or the greatest `usize` where that is more.
    fn short_of(&self, body: usize, size: u128) -> (count: usize)
        requires
            body <= self.read@.len(),
            size < 0x1000_0000_0000_0000_0000_0000_0000,
        ensures
            count == if short_of(self.read@, body + size) > usize::MAX {
                usize::MAX as nat
            } else {
                short_of(self.read@, body + size)
            },
    {
        let available = (self.read.len() - body) as u128;
        if size <= available {
            0
        } else if size - available > usize::MAX as u128 {
            usize::MAX
        } else {
            (size - available) as usize
        }
    }

    /// Opens an entry with the first element read for it: a marker names
    /// the entry; another element is its first, under the name of the last
    /// marker read.
    pub fn open_entry(&self, first: Element) -> (entry: Entry)
        ensures
            entry@ == self@.opened(first@),
    {
        let mut elements = Vec::with_capacity(1);  // Entries usually have one element.
        let name = match first {
            Element::Marker(name) => name,
            element => {
                elements.push(element);
                self.current_name.clone()
            },
        };
        let entry = Entry { name, elements };
        assert(entry@.elements =~= self@.opened(first@).elements);
        entry
    }

    /// Takes what was read next for an entry, and tells whether the entry
    /// is complete. An element that is no marker joins the entry. A marker
    /// ends it and is retained, to open the next entry; the end of the
    /// input ends it too.
    pub fn extend_entry(&mut self, entry: &mut Entry, next: Option<Element>) -> (complete: bool)
        ensures
            match next {
                None => complete && final(self)@ == old(self)@ && final(entry)@ == old(entry)@,
                Some(element) => if element@ is Marker {
                    &&& complete
                    &&& final(self)@ == (ReaderView {
                        retained: Some(element@),
                        ..old(self)@
                    })
                    &&& final(entry)@ == old(entry)@
                } else {
                    &&& !complete
                    &&& final(self)@ == old(self)@
                    &&& final(entry)@ == (EntryView {
                        name: old(entry)@.name,
                        elements: old(entry)@.elements.push(element@),
                    })
                },
            },
    {
        match next {
            None => true,
            Some(Element::Marker(name)) => {
                proof {
                    use_type_invariant(&*self);
                }
                self.retained_element = Some(Element::Marker(name));
                true
            },
            Some(element) => {
                entry.elements.push(element);
                assert(final(entry)@.elements =~= old(entry)@.elements.push(element@));
                false
            },
        }
    }

    /// Reads one element.
    ///
    /// Hands out the retained element where there is one. Else decodes the
    /// element at the position and moves behind it; at the end of the input
    /// it returns `None`.
    pub fn read_element(&mut self) -> (r: Result<Option<Element>, Error>)
        ensures
            final(self)@ == old(self)@.next_element().0,
            element_outcome(r) == old(self)@.next_element().1,
            final(self)@.position <= final(self)@.input.len(),
    {
        proof {
            use_type_invariant(&*self);
            lemma_decode_advances(self.read@, self.bytes_read as int);
        }
        let mut retained_element = None;
        std::mem::swap(&mut retained_element, &mut self.retained_element);
        if let Some(retained_element) = retained_element {
            return Ok(Some(retained_element));
        }
        if self.bytes_read >= self.read.len() {
            return Ok(None);
        }
        let type_byte = self.read[self.bytes_read];
        self.previous_bytes_read = self.bytes_read;
        self.bytes_read += 1;
        assert(type_byte & 0b1000_0000 != 0 <==> type_byte >= 0x80) by (bit_vector);
        assert((type_byte & 0xF0) >> 4 == type_byte / 16) by (bit_vector);
        if type_byte & 0b1000_0000 != 0 {
            let element = self.read_marker(type_byte)?;
            return Ok(Some(element));
        }

        let element = match (type_byte & 0xF0) >> 4 {
            0b0000 => self.read_folder(type_byte),
            0b0010 => self.read_number(type_byte),
            0b0011 => self.read_boolean(type_byte),
            0b0001 => self.read_string_or_blob(type_byte),
            0b0111 => Err(Error::UnsupportedType(self.previous_bytes_read, EXTENSION)),
            _ => Err(Error::UnknownType(self.previous_bytes_read, type_byte)),
        }?;
        Ok(Some(element))
    }

    /// Reads one entry: a marker and the elements that follow it, up to the
    /// next marker or to the end of the input.
    ///
    /// The marker may have been read before, by [`Reader::read_element`]: an
    /// entry that does not begin with a marker has the name of the last
    /// marker read, or `"/"` where there was none. The marker that ends the
    /// entry is kept for the next read. At the end of the input the result
    /// is `None`.
    pub fn read_entry(&mut self) -> (r: Result<Option<Entry>, Error>)
        ensures
            final(self)@ == old(self)@.next_entry().0,
            entry_outcome(r) == old(self)@.next_entry().1,
            final(self)@.position <= final(self)@.input.len(),
    {
        proof {
            use_type_invariant(&*self);
            lemma_decode_advances(self.read@, self.bytes_read as int);
            lemma_gather_within(self.read@, self@.next_element().0.position);
        }
        let first = match self.read_element()? {
            Some(first) => first,
            None => {
                return Ok(None);
            },
        };
        let ghost first_read = self@;
        let ghost opened = first_read.opened(first@);
        let ghost whole = gather(first_read.input, first_read.position);
        let mut entry = self.open_entry(first);

        loop
            invariant_except_break
                self@ == (ReaderView { position: self.bytes_read as int, ..first_read }),
                first_read.position <= self.bytes_read,
                whole.next == gather(first_read.input, self.bytes_read as int).next,
                whole.stop == gather(first_read.input, self.bytes_read as int).stop,
                opened.elements + whole.elements == entry@.elements + gather(
                    first_read.input,
                    self.bytes_read as int,
                ).elements,
            invariant
                old(self)@.next_element().0 == first_read,
                old(self)@.next_element().1 matches Ok(Some(first)) && opened == first_read.opened(
                    first,
                ),
                first_read.retained is None,
                whole == gather(first_read.input, first_read.position),
                entry@.name == opened.name,
            ensures
                !(whole.stop is Failure),
                opened.elements + whole.elements == entry@.elements,
                whole.stop is End ==> self@ == (ReaderView { position: whole.next, ..first_read }),
                whole.stop matches Stop::Marker(name) ==> self@ == (ReaderView {
                    position: whole.next,
                    current_name: name,
                    retained: Some(ElementView::Marker(name)),
                    ..first_read
                }),
            decreases first_read.input.len() - self.bytes_read,
        {
            proof {
                lemma_decode_advances(first_read.input, self.bytes_read as int);
            }
            let next = match self.read_element() {
                Ok(next) => next,
                Err(e) => {
                    return Err(e);
                },
            };
            if self.extend_entry(&mut entry, next) {
                break ;
            }
        }

        Ok(Some(entry))
    }

    /// Reads `N` bytes. Where the input has fewer left, it consumes those and
    /// reports the offset of the input's end.
    fn expect<const N: usize>(&mut self) -> (r: Result<[u8; N], Error>)
        ensures
            match r {
                Ok(buf) => {
                    &&& old(self).bytes_read + N <= old(self).read@.len()
                    &&& buf@ == old(self).read@.subrange(
                        old(self).bytes_read as int,
                        old(self).bytes_read + N,
                    )
                    &&& old(self).moved(final(self), old(self).bytes_read + N)
                },
                Err(e) => {
                    &&& old(self).bytes_read + N > old(self).read@.len()
                    &&& e@ == ErrorView::Syntax(old(self).read@.len() as int, UNEXPECTED_EOF@)
                    &&& old(self).moved(final(self), old(self).read@.len() as int)
                },
            },
    {
        proof {
            use_type_invariant(&*self);
        }
        let available = self.read.len() - self.bytes_read;
        let bytes_read = if N <= available {
            N
        } else {
            available
        };
        let start = self.bytes_read;
        let mut buf = [0u8; N];
        let mut i: usize = 0;
        while i < bytes_read
            invariant
                i <= bytes_read <= N,
                start + bytes_read <= self.read@.len() <= usize::MAX,
                forall|j: int| 0 <= j < i ==> buf@[j] == self.read@[start + j],
            decreases bytes_read - i,
        {
            buf[i] = self.read[start + i];
            i += 1;
        }
        self.previous_bytes_read = self.bytes_read;
        self.bytes_read += bytes_read;
        if bytes_read != N {
            return Err(Error::Syntax(self.bytes_read, UNEXPECTED_EOF));
        }
        Ok(buf)
    }

    /// Reads `count` bytes. Where the input has fewer left, it consumes those
    /// and reports the offset of the input's end.
    fn expect_heap(&mut self, count: u64) -> (r: Result<Vec<u8>, Error>)
        ensures
            match r {
                Ok(buf) => {
                    &&& old(self).bytes_read + count <= old(self).read@.len()
                    &&& buf@ == old(self).read@.subrange(
                        old(self).bytes_read as int,
                        old(self).bytes_read + count,
                    )
                    &&& old(self).moved(final(self), old(self).bytes_read + count)
                },
                Err(e) => {
                    &&& old(self).bytes_read + count > old(self).read@.len()
                    &&& e@ == ErrorView::Syntax(old(self).read@.len() as int, UNEXPECTED_EOF@)
                    &&& old(self).moved(final(self), old(self).read@.len() as int)
                },
            },
    {
        proof {
            use_type_invariant(&*self);
        }
        let available = self.read.len() - self.bytes_read;
        let bytes_read = if count <= available as u64 {
            count as usize
        } else {
            available
        };
        let buf = slice_to_vec(
            slice_subrange(self.read.as_slice(), self.bytes_read, self.bytes_read + bytes_read),
        );
        self.previous_bytes_read = self.bytes_read;
        self.bytes_read += bytes_read;
        if bytes_read as u64 != count {
            return Err(Error::Syntax(self.bytes_read, UNEXPECTED_EOF));
        }
        Ok(buf)
    }

    /// The tag `type_byte` has just been read: it is the last byte consumed.
    spec fn at_tag(&self, type_byte: u8) -> bool {
        &&& 1 <= self.bytes_read <= self.read@.len()
        &&& self.previous_bytes_read == self.bytes_read - 1
        &&& self.read@[self.bytes_read - 1] == type_byte
    }

    /// The reader `after` and the result `r` are what `outcome` asks for of
    /// the reader `self`.
    spec fn settles(&self, after: &Reader, r: Result<Element, Error>, outcome: Decoded) -> bool {
        &&& after.read == self.read
        &&& after.retained_element == self.retained_element
        &&& match outcome {
            Decoded::End => false,
            Decoded::Element { element, next } => {
                &&& r is Ok
                &&& r->Ok_0@ == element
                &&& after.bytes_read == next
                &&& after.current_name@ == match element {
                    ElementView::Marker(name) => name,
                    _ => self.current_name@,
                }
            },
            Decoded::Failure { error, next } => {
                &&& r is Err
                &&& r->Err_0@ == error
                &&& after.bytes_read == next
                &&& after.current_name@ == self.current_name@
            },
        }
    }

    /// The reader `after` and the result `r` are what reading a text of
    /// `size` bytes comes to for the reader `self`.
    spec fn settles_text(&self, after: &Reader, r: Result<String, Error>, size: nat) -> bool {
        let input = self.read@;
        let body = self.bytes_read as int;
        &&& after.read == self.read
        &&& after.retained_element == self.retained_element
        &&& after.current_name == self.current_name
        &&& if body + size > input.len() {
            &&& r is Err
            &&& r->Err_0@ == ErrorView::Syntax(input.len() as int, UNEXPECTED_EOF@)
            &&& after.bytes_read == input.len()
        } else {
            let bytes = input.subrange(body, body + size);
            &&& after.bytes_read == body + size
            &&& if valid_utf8(bytes) {
                &&& r is Ok
                &&& r->Ok_0@ == decode_utf8(bytes)
            } else {
                &&& r is Err
                &&& r->Err_0@ == ErrorView::InvalidString(body + valid_up_to(bytes))
            }
        }
    }

    fn read_folder(&self, type_byte: u8) -> (r: Result<Element, Error>)
        requires
            self.at_tag(type_byte),
        ensures
            self.settles(self, r, decode_structural(type_byte, self.bytes_read - 1)),
    {
        match type_byte {
            0 => Ok(Element::Folder),
            1 => Ok(Element::Collection),
            _ => Err(Error::UnknownType(self.previous_bytes_read, type_byte)),
        }
    }

    fn read_boolean(&self, type_byte: u8) -> (r: Result<Element, Error>)
        requires
            self.at_tag(type_byte),
        ensures
            self.settles(self, r, decode_boolean(type_byte, self.bytes_read - 1)),
    {
        match type_byte {
            0b0011_0000 => Ok(Element::Boolean(false)),
            0b0011_0001 => Ok(Element::Boolean(true)),
            _ => Err(Error::UnknownType(self.previous_bytes_read, type_byte)),
        }
    }

    fn read_number(&mut self, type_byte: u8) -> (r: Result<Element, Error>)
        requires
            old(self).at_tag(type_byte),
        ensures
            old(self).settles(
                final(self),
                r,
                decode_number(old(self).read@, old(self).bytes_read - 1),
            ),
    {
        match type_byte {
            0b0010_0000 => {
                let buf = self.expect::<1>()?;
                proof {
                    lemma_le_value_single(buf@);
                }
                Ok(Element::UInteger8(buf[0]))
            },
            0b0010_0001 => {
                let buf = self.expect::<2>()?;
                assert(buf@.subrange(0, 2) =~= buf@);
                Ok(Element::UInteger16(le_read_u16(buf.as_slice())))
            },
            0b0010_0010 => {
                let buf = self.expect::<4>()?;
                assert(buf@.subrange(0, 4) =~= buf@);
                Ok(Element::UInteger32(le_read_u32(buf.as_slice())))
            },
            0b0010_0011 => {
                let buf = self.expect::<8>()?;
                assert(buf@.subrange(0, 8) =~= buf@);
                Ok(Element::UInteger64(le_read_u64(buf.as_slice())))
            },
            0b0010_0100 => {
                let buf = self.expect::<1>()?;
                let byte = buf[0];
                proof {
                    lemma_le_value_single(buf@);
                    assert((byte as i8) as int == if byte >= 128 {
                        byte - 256
                    } else {
                        byte as int
                    }) by (bit_vector);
                }
                Ok(Element::Integer8(#[verifier::truncate] (byte as i8)))
            },
            0b0010_0101 => {
                let buf = self.expect::<2>()?;
                assert(buf@.subrange(0, 2) =~= buf@);
                Ok(Element::Integer16(le_read_i16(buf.as_slice())))
            },
            0b0010_0110 => {
                let buf = self.expect::<4>()?;
                assert(buf@.subrange(0, 4) =~= buf@);
                Ok(Element::Integer32(le_read_i32(buf.as_slice())))
            },
            0b0010_0111 => {
                let buf = self.expect::<8>()?;
                assert(buf@.subrange(0, 8) =~= buf@);
                Ok(Element::Integer64(le_read_i64(buf.as_slice())))
            },
            0b0010_1110 => {
                let buf = self.expect::<4>()?;
                assert(buf@.subrange(0, 4) =~= buf@);
                Ok(Element::Float32(le_read_u32(buf.as_slice())))
            },
            0b0010_1111 => {
                let buf = self.expect::<8>()?;
                assert(buf@.subrange(0, 8) =~= buf@);
                Ok(Element::Float64(le_read_u64(buf.as_slice())))
            },
            _ => Err(Error::UnknownType(self.previous_bytes_read, type_byte)),
        }
    }

    /// Reads a text of `size` bytes and checks that it is UTF-8.
    fn read_utf8_string(&mut self, size: u64) -> (r: Result<String, Error>)
        ensures
            old(self).settles_text(final(self), r, size as nat),
    {
        let string_bytes = self.expect_heap(size)?;
        let ghost bytes = string_bytes@;
        match string_from_utf8(string_bytes) {
            Ok(text) => {
                proof {
                    encode_utf8_decode_utf8(text@);
                }
                Ok(text)
            },
            Err(e) => {
                let index = valid_up_to_index(&utf8_error(&e));
                proof {
                    lemma_valid_up_to_unique(bytes, index as int);
                }
                Err(Error::InvalidString { pos: self.previous_bytes_read + index, source: e })
            },
        }
    }

    /// Reads the length field that the two low bits of `type_byte` announce.
    fn read_bundled_size(&mut self, type_byte: u8) -> (r: Result<u64, Error>)
        ensures
            match r {
                Ok(size) => {
                    let body = old(self).bytes_read + field_width(type_byte % 4);
                    &&& body <= old(self).read@.len()
                    &&& size == le_value(
                        old(self).read@.subrange(old(self).bytes_read as int, body),
                    )
                    &&& old(self).moved(final(self), body)
                },
                Err(e) => {
                    &&& old(self).bytes_read + field_width(type_byte % 4) > old(self).read@.len()
                    &&& e@ == ErrorView::Syntax(old(self).read@.len() as int, UNEXPECTED_EOF@)
                    &&& old(self).moved(final(self), old(self).read@.len() as int)
                },
            },
    {
        let class = type_byte & 0b11;
        assert(type_byte & 0b11 == type_byte % 4) by (bit_vector);
        if class == 0b00 {
            let buf = self.expect::<1>()?;
            proof {
                lemma_le_value_single(buf@);
            }
            Ok(buf[0] as u64)
        } else if class == 0b01 {
            let buf = self.expect::<2>()?;
            assert(buf@.subrange(0, 2) =~= buf@);
            Ok(le_read_u16(buf.as_slice()) as u64)
        } else if class == 0b10 {
            let buf = self.expect::<4>()?;
            assert(buf@.subrange(0, 4) =~= buf@);
            Ok(le_read_u32(buf.as_slice()) as u64)
        } else {
            let buf = self.expect::<8>()?;
            assert(buf@.subrange(0, 8) =~= buf@);
            Ok(le_read_u64(buf.as_slice()))
        }
    }

    fn read_string_or_blob(&mut self, type_byte: u8) -> (r: Result<Element, Error>)
        requires
            old(self).at_tag(type_byte),
            0x10 <= type_byte < 0x20,
        ensures
            old(self).settles(
                final(self),
                r,
                decode_sized(old(self).read@, old(self).bytes_read - 1),
            ),
    {
        let sub_type_byte = type_byte & 0b1100;
        assert(type_byte & 0b1100 == 0b0000 <==> type_byte < 0x14) by (bit_vector)
            requires
                0x10 <= type_byte < 0x20,
        ;
        assert(type_byte & 0b1100 == 0b0100 <==> 0x14 <= type_byte < 0x18) by (bit_vector)
            requires
                0x10 <= type_byte < 0x20,
        ;

        // The tag is judged before anything behind it is read: a tag that
        // is neither that of a string nor that of a blob has no length
        // field to read.
        match sub_type_byte {
            0b0000 => {
                let size = self.read_bundled_size(type_byte)?;
                match self.read_utf8_string(size) {
                    Ok(text) => Ok(Element::String(text)),
                    Err(e) => Err(e),
                }
            },
            0b0100 => {
                let size = self.read_bundled_size(type_byte)?;
                match self.expect_heap(size) {
                    Ok(bytes) => Ok(Element::Blob(bytes)),
                    Err(e) => Err(e),
                }
            },
            _ => Err(Error::UnknownType(self.previous_bytes_read, type_byte)),
        }
    }

    /// The number that the groups of a marker's length make up, from offset
    /// `from` up to offset `to`, or [`LENGTH_CAP`] where it is beyond that.
    fn groups_value_capped(&self, from: usize, to: usize) -> (high: u128)
        requires
            from <= to <= self.read@.len(),
        ensures
            high <= LENGTH_CAP,
            high == LENGTH_CAP || high == groups_value(self.read@.subrange(from as int, to as int)),
            high == LENGTH_CAP ==> groups_value(self.read@.subrange(from as int, to as int))
                >= LENGTH_CAP,
    {
        let mut high: u128 = 0;
        let mut i = to;
        while i > from
            invariant
                from <= i <= to <= self.read@.len(),
                high <= LENGTH_CAP,
                high == LENGTH_CAP || high == groups_value(
                    self.read@.subrange(i as int, to as int),
                ),
                high == LENGTH_CAP ==> groups_value(self.read@.subrange(i as int, to as int))
                    >= LENGTH_CAP,
            decreases i - from,
        {
            i -= 1;
            let byte = self.read[i];
            let group = (byte & 0b0111_1111) as u128;
            assert(byte & 0b0111_1111 == byte % 128) by (bit_vector);
            proof {
                lemma_groups_value_step(self.read@, i as int, to as int);
            }
            high = if high >= LENGTH_CAP / 128 {
                LENGTH_CAP
            } else {
                128 * high + group
            };
        }
        high
    }

    fn read_marker(&mut self, type_byte: u8) -> (r: Result<Element, Error>)
        requires
            old(self).at_tag(type_byte),
            type_byte >= 0x80,
        ensures
            old(self).settles(
                final(self),
                r,
                decode_marker(old(self).read@, old(self).bytes_read - 1),
            ),
    {
        let ghost input = self.read@;
        let groups_start = self.bytes_read;
        let mut has_more = type_byte & 0b0100_0000 != 0;
        assert(type_byte & 0b0100_0000 != 0 <==> type_byte >= 0xC0) by (bit_vector)
            requires
                type_byte >= 0x80,
        ;
        let low = (type_byte & 0b0011_1111) as u64;
        assert(type_byte & 0b0011_1111 == type_byte % 64) by (bit_vector);
        while has_more
            invariant
                old(self).same_stream(self),
                old(self).at_tag(type_byte),
                has_more ==> type_byte >= 0xC0,
                type_byte < 0xC0 ==> self.bytes_read == groups_start,
                self.read@ == input,
                groups_start <= self.bytes_read <= input.len(),
                groups_start == old(self).bytes_read,
                has_more ==> forall|j: int| groups_start <= j < self.bytes_read ==> input[j] >= 128,
                !has_more && type_byte >= 0xC0 ==> {
                    &&& groups_start < self.bytes_read
                    &&& input[self.bytes_read - 1] < 128
                    &&& forall|j: int| groups_start <= j < self.bytes_read - 1 ==> input[j] >= 128
                },
            decreases input.len() - self.bytes_read,
        {
            let read = self.expect::<1>();
            proof {
                if read is Err {
                    lemma_group_run_skip(input, groups_start as int, input.len() as int);
                }
            }
            let byte = read?[0];
            has_more = byte & 0b1000_0000 != 0;
            assert(byte & 0b1000_0000 != 0 <==> byte >= 128) by (bit_vector);
        }
        let size = if type_byte & 0b0100_0000 != 0 {
            proof {
                lemma_group_run_skip(input, groups_start as int, self.bytes_read - 1);
            }
            let high = self.groups_value_capped(groups_start, self.bytes_read);
            if high == 0 {
                return Err(Error::Syntax(self.bytes_read, REDUNDANT_LENGTH));
            }
            if high >= LENGTH_LIMIT {
                u64::MAX
            } else {
                low + 64 * (high as u64)
            }
        } else {
            low
        };

        let name = match self.read_utf8_string(size) {
            Ok(name) => name,
            Err(e) => {
                return Err(e);
            },
        };
        proof {
            use_type_invariant(&*self);
        }
        self.current_name = name.clone();
        Ok(Element::Marker(name))
    }
}

} // verus!
