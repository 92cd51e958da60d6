use vstd::prelude::*;

use crate::error::{PngError, PngResult};
use crate::headers::{be_bytes_u16, be_bytes_u32, be_u16, be_u32, lemma_be_u16_roundtrip, lemma_be_u32_roundtrip, push_all, push_be_u16, push_be_u32, read_be_u16, read_be_u32};

verus! {

/// Animated PNG frame
#[derive(Debug, Clone)]
pub struct Frame {
    /// Width of the frame
    pub width: u32,
    /// Height of the frame
    pub height: u32,
    /// X offset of the frame
    pub x_offset: u32,
    /// Y offset of the frame
    pub y_offset: u32,
    /// Frame delay numerator
    pub delay_num: u16,
    /// Frame delay denominator
    pub delay_den: u16,
    /// Frame disposal operation
    pub dispose_op: u8,
    /// Frame blend operation
    pub blend_op: u8,
    /// Frame data, from fdAT chunks
    pub data: Vec<u8>,
}

/// The contents of a fcTL chunk for a frame with these fields.
pub open spec fn fctl_bytes(f: Frame, sequence_number: u32) -> Seq<u8> {
    be_bytes_u32(sequence_number) + be_bytes_u32(f.width) + be_bytes_u32(f.height) + be_bytes_u32(
        f.x_offset,
    ) + be_bytes_u32(f.y_offset) + be_bytes_u16(f.delay_num) + be_bytes_u16(f.delay_den) + seq![
        f.dispose_op,
        f.blend_op,
    ]
}

/// The fields of a frame read from the data of its fcTL chunk.
pub open spec fn fctl_fields(f: Frame, b: Seq<u8>) -> bool {
    &&& f.width == be_u32(b, 4)
    &&& f.height == be_u32(b, 8)
    &&& f.x_offset == be_u32(b, 12)
    &&& f.y_offset == be_u32(b, 16)
    &&& f.delay_num == be_u16(b, 20)
    &&& f.delay_den == be_u16(b, 22)
    &&& f.dispose_op == b[24]
    &&& f.blend_op == b[25]
}

impl Frame {
    /// Construct a new Frame from the data in a fcTL chunk
    pub fn from_fctl_data(byte_data: &[u8]) -> (r: PngResult<Self>)
        ensures
            byte_data.len() < 26 ==> r matches Err(PngError::TruncatedData),
            byte_data.len() >= 26 ==> (r matches Ok(f) && fctl_fields(f, byte_data@) && f.data@.len() == 0),
    {
        if byte_data.len() < 26 {
            return Err(PngError::TruncatedData);
        }
        Ok(Frame {
            width: read_be_u32(byte_data, 4),
            height: read_be_u32(byte_data, 8),
            x_offset: read_be_u32(byte_data, 12),
            y_offset: read_be_u32(byte_data, 16),
            delay_num: read_be_u16(byte_data, 20),
            delay_den: read_be_u16(byte_data, 22),
            dispose_op: byte_data[24],
            blend_op: byte_data[25],
            data: Vec::new(),
        })
    }

    /// Construct the data for a fcTL chunk using the given sequence number
    pub fn fctl_data(&self, sequence_number: u32) -> (r: Vec<u8>)
        ensures
            r@ == fctl_bytes(*self, sequence_number),
            r@.len() == 26,
    {
        let mut byte_data: Vec<u8> = Vec::new();
        push_be_u32(&mut byte_data, sequence_number);
        push_be_u32(&mut byte_data, self.width);
        push_be_u32(&mut byte_data, self.height);
        push_be_u32(&mut byte_data, self.x_offset);
        push_be_u32(&mut byte_data, self.y_offset);
        push_be_u16(&mut byte_data, self.delay_num);
        push_be_u16(&mut byte_data, self.delay_den);
        byte_data.push(self.dispose_op);
        byte_data.push(self.blend_op);
        assert(byte_data@ =~= fctl_bytes(*self, sequence_number));
        byte_data
    }

    /// Construct the data for a fdAT chunk using the given sequence number
    pub fn fdat_data(&self, sequence_number: u32) -> (r: Vec<u8>)
        ensures
            r@ == be_bytes_u32(sequence_number) + self.data@,
    {
        let mut byte_data: Vec<u8> = Vec::new();
        push_be_u32(&mut byte_data, sequence_number);
        push_all(&mut byte_data, self.data.as_slice());
        assert(byte_data@ =~= be_bytes_u32(sequence_number) + self.data@);
        byte_data
    }
}

/// Reading a frame back from the fcTL data written for it gives the frame's
/// fields (its image data travels in separate fdAT chunks), and the sequence
/// number is the first four bytes.
pub proof fn lemma_fctl_roundtrip(f: Frame, sequence_number: u32)
    ensures
        ({
            let b = fctl_bytes(f, sequence_number);
            &&& b.len() == 26
            &&& be_u32(b, 0) == sequence_number
            &&& be_u32(b, 4) == f.width
            &&& be_u32(b, 8) == f.height
            &&& be_u32(b, 12) == f.x_offset
            &&& be_u32(b, 16) == f.y_offset
            &&& be_u16(b, 20) == f.delay_num
            &&& be_u16(b, 22) == f.delay_den
            &&& b[24] == f.dispose_op
            &&& b[25] == f.blend_op
        }),
{
    let b = fctl_bytes(f, sequence_number);
    lemma_be_u32_roundtrip(sequence_number);
    lemma_be_u32_roundtrip(f.width);
    lemma_be_u32_roundtrip(f.height);
    lemma_be_u32_roundtrip(f.x_offset);
    lemma_be_u32_roundtrip(f.y_offset);
    lemma_be_u16_roundtrip(f.delay_num);
    lemma_be_u16_roundtrip(f.delay_den);
    assert(b.subrange(0, 4) =~= be_bytes_u32(sequence_number));
    assert(b.subrange(4, 8) =~= be_bytes_u32(f.width));
    assert(b.subrange(8, 12) =~= be_bytes_u32(f.height));
    assert(b.subrange(12, 16) =~= be_bytes_u32(f.x_offset));
    assert(b.subrange(16, 20) =~= be_bytes_u32(f.y_offset));
    assert(b.subrange(20, 22) =~= be_bytes_u16(f.delay_num));
    assert(b.subrange(22, 24) =~= be_bytes_u16(f.delay_den));
}

} // verus!
