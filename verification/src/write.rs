//! The encoder: it appends elements, in the wire format, to a buffer in
//! memory.

use crate::lemmas::lemma_radix_values;
use crate::model::Element;
use crate::wire::{le_bytes, length_groups, size_width};
use vstd::prelude::*;

verus! {

/// What can go wrong when writing TPK data.
#[derive(Debug)]
pub enum Error {
    /// A failure that fits no other case. The encoder never reports it.
    Unknown,
    /// The destination of the bytes failed. The encoder writes to memory and
    /// never reports it: it is for those who send the bytes on.
    Io { source: std::io::Error },
}

/// An encoder that appends to a buffer in memory.
pub struct Writer {
    write: Vec<u8>,
}

impl View for Writer {
    type V = Seq<u8>;

    /// The bytes of the buffer.
    closed spec fn view(&self) -> Seq<u8> {
        self.write@
    }
}

impl Writer {
    /// A writer that appends to `write`.
    pub fn new(write: Vec<u8>) -> (writer: Writer)
        ensures
            writer@ == write@,
    {
        Writer { write }
    }

    /// The buffer, with all that was written.
    pub fn into_inner(self) -> (write: Vec<u8>)
        ensures
            write@ == self@,
    {
        self.write
    }

    /// Appends `buf` to the buffer.
    fn write_all(&mut self, buf: &[u8])
        ensures
            final(self)@ == old(self)@ + buf@,
    {
        self.write.extend_from_slice(buf);
    }

    /// Writes `element`: its tag, then its length field and its payload
    /// where it has them. Writing to memory cannot fail, and what is written
    /// can be read back: every element is encodable.
    pub fn write_element(&mut self, element: &Element) -> (r: Result<(), Error>)
        ensures
            r is Ok,
            final(self)@ == old(self)@ + element@.encoding(),
            element@.encodable(),
    {
        let tag = [element.get_type_byte()];
        self.write_all(tag.as_slice());
        proof {
            lemma_radix_values();
        }

        match element {
            Element::Marker(val) => {
                let bytes = val.as_str().as_bytes();
                let size = bytes.len();
                if size > 63 {
                    let remaining_size = size >> 6;
                    assert(size >> 6 == size / 64) by (bit_vector);
                    let dynsize = dyn_size(remaining_size);
                    self.write_all(dynsize.as_slice());
                }
                self.write_all(bytes);
            },
            Element::Integer8(val) => {
                let val = *val;
                assert((val as u8) as int == if val < 0 {
                    val + 0x100
                } else {
                    val as int
                }) by (bit_vector);
                self.write_all(to_le_bytes(#[verifier::truncate] (val as u8) as u64, 1).as_slice());
            },
            Element::Integer16(val) => {
                let val = *val;
                assert((val as u16) as int == if val < 0 {
                    val + 0x1_0000
                } else {
                    val as int
                }) by (bit_vector);
                self.write_all(
                    to_le_bytes(#[verifier::truncate] (val as u16) as u64, 2).as_slice(),
                );
            },
            Element::Integer32(val) => {
                let val = *val;
                assert((val as u32) as int == if val < 0 {
                    val + 0x1_0000_0000
                } else {
                    val as int
                }) by (bit_vector);
                self.write_all(
                    to_le_bytes(#[verifier::truncate] (val as u32) as u64, 4).as_slice(),
                );
            },
            Element::Integer64(val) => {
                let val = *val;
                assert((val as u64) as int == if val < 0 {
                    val + 0x1_0000_0000_0000_0000
                } else {
                    val as int
                }) by (bit_vector);
                self.write_all(to_le_bytes(#[verifier::truncate] (val as u64), 8).as_slice());
            },
            Element::UInteger8(val) => {
                self.write_all(to_le_bytes(*val as u64, 1).as_slice());
            },
            Element::UInteger16(val) => {
                self.write_all(to_le_bytes(*val as u64, 2).as_slice());
            },
            Element::UInteger32(val) => {
                self.write_all(to_le_bytes(*val as u64, 4).as_slice());
            },
            Element::UInteger64(val) => {
                self.write_all(to_le_bytes(*val, 8).as_slice());
            },
            Element::Float32(val) => {
                self.write_all(to_le_bytes(*val as u64, 4).as_slice());
            },
            Element::Float64(val) => {
                self.write_all(to_le_bytes(*val, 8).as_slice());
            },
            Element::String(val) => {
                let bytes = val.as_str().as_bytes();
                self.write_all(static_size(bytes.len()).as_slice());
                self.write_all(bytes);
            },
            Element::Blob(val) => {
                self.write_all(static_size(val.len()).as_slice());
                self.write_all(val.as_slice());
            },
            _ => (),
        };
        Ok(())
    }
}

/// The `width` low bytes of `value`, least significant byte first.
fn to_le_bytes(value: u64, width: usize) -> (bytes: Vec<u8>)
    ensures
        bytes@ == le_bytes(value as nat, width as nat),
{
    let mut bytes = Vec::with_capacity(width);
    let mut rest = value;
    let mut written: usize = 0;
    while written < width
        invariant
            written <= width,
            bytes@ + le_bytes(rest as nat, (width - written) as nat) == le_bytes(
                value as nat,
                width as nat,
            ),
        decreases width - written,
    {
        assert(rest & 0xFF == rest % 256) by (bit_vector);
        assert(rest >> 8 == rest / 256) by (bit_vector);
        bytes.push((rest & 0xFF) as u8);
        rest = rest >> 8;
        written += 1;
    }
    bytes
}

/// The length field of a string or of a blob of `size` bytes: `size` on 1,
/// 2, 4 or 8 bytes, whichever is the least that holds it, least significant
/// byte first.
pub fn static_size(size: usize) -> (field: Vec<u8>)
    ensures
        field@ == le_bytes(size as nat, size_width(size as nat)),
{
    if size <= 255 {
        to_le_bytes(size as u64, 1)
    } else if size <= 65535 {
        to_le_bytes(size as u64, 2)
    } else if size <= 4294967295 {
        to_le_bytes(size as u64, 4)
    } else {
        to_le_bytes(size as u64, 8)
    }
}

/// `size` in groups of seven bits, least significant group first, one group
/// to a byte, bit 7 set on every byte but the last. Zero takes one byte.
pub fn dyn_size(size: usize) -> (groups: Vec<u8>)
    ensures
        groups@ == length_groups(size as nat),
{
    if size == 0 {
        let mut ret = Vec::new();
        ret.push(0u8);
        return ret;
    }
    let mut ret = Vec::new();

    let ghost whole = size;
    let mut size = size;
    while size > 0
        invariant
            size > 0 ==> ret@ + length_groups(size as nat) == length_groups(whole as nat),
            size == 0 ==> ret@ == length_groups(whole as nat),
        decreases size,
    {
        assert(size & 0x7F == size % 128) by (bit_vector);
        assert(size >> 7 == size / 128) by (bit_vector);
        let low = (size & 0x7F) as u8;
        if size > 0x7F {
            assert(low | 0b1000_0000u8 == 128 + low) by (bit_vector)
                requires
                    low < 128,
            ;
            ret.push(low | 0b1000_0000u8);
        } else {
            assert(low | 0u8 == low) by (bit_vector);
            ret.push(low | 0u8);
        }
        size >>= 7;
    }
    ret
}

} // verus!
