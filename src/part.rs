use vstd::prelude::*;

verus! {

/// Largest number of parts that one slice may declare.
pub const MAX_PARTS_COUNT: u32 = 80;

/// Largest payload, in bytes, that one part may declare.
pub const MAX_PART_SIZE: u32 = 128 * 1024;

/// One byte range recovered from a serialized file.
///
/// `in_offset` is where the payload starts in the serialized file (just past the
/// part's own header), `out_offset` is where the payload belongs in the
/// reconstructed stream, and `part_size` is the payload length in bytes.
#[derive(Clone, Copy, Debug, PartialEq, Eq, Structural)]
pub struct PartInfo {
    pub in_offset: u64,
    pub out_offset: u32,
    pub part_size: u32,
}

impl PartInfo {
    /// A part size the format admits: non-zero and at most `MAX_PART_SIZE`.
    pub open spec fn valid_size(part_size: u32) -> bool {
        0 < part_size <= MAX_PART_SIZE
    }

    /// One past the last byte this part covers in the reconstructed stream.
    pub open spec fn out_end(self) -> int {
        self.out_offset + self.part_size
    }
}

/// A part count the format admits: non-zero and at most `MAX_PARTS_COUNT`.
pub open spec fn valid_part_count(part_count: u32) -> bool {
    0 < part_count <= MAX_PARTS_COUNT
}

/// The little-endian 32-bit value stored in the four bytes of `data` at `pos`.
pub open spec fn u32_le(data: Seq<u8>, pos: int) -> u32 {
    (data[pos] + 0x100 * data[pos + 1] + 0x1_0000 * data[pos + 2] + 0x100_0000 * data[pos
        + 3]) as u32
}

} // verus!
