use vstd::prelude::*;

use crate::part::{u32_le, valid_part_count, PartInfo, MAX_PARTS_COUNT, MAX_PART_SIZE};

verus! {

/// Why the scan of a serialized file stopped.
///
/// Every reason is a normal end of the scan: the parts admitted before it are
/// kept and make up the catalog.
#[derive(Clone, Copy, Debug, PartialEq, Eq, Structural)]
pub enum ScanStop {
    /// The cursor reached the end of the data between two slices.
    EndOfData,
    /// Fewer bytes remained than a slice or part header needs; `offset` is
    /// where that header would have started.
    TruncatedHeader { offset: u64 },
    /// The slice header at `offset` declared a part count of zero or above
    /// `MAX_PARTS_COUNT`; none of its parts were read.
    InvalidPartCount { offset: u64, part_count: u32 },
    /// The part header at `offset` declared a size of zero or above
    /// `MAX_PART_SIZE`; that part and the rest of its slice were dropped.
    InvalidPartSize { offset: u64, part_size: u32 },
    /// The payload of the part whose header is at `offset` runs past the end of
    /// the data. That part was admitted; nothing after it can be read.
    TruncatedPayload { offset: u64 },
}

/// The catalog in discovery order, together with why the scan stopped.
#[derive(Debug)]
pub struct ScanOutcome {
    pub parts: Vec<PartInfo>,
    pub stop: ScanStop,
}

/// The bytes of a serialized cache file, with the name used to report on it.
pub struct SerializedFile {
    pub name: String,
    pub data: Vec<u8>,
}

/// Scans `remaining` parts starting with the part header at `pos`.
///
/// Yields the parts admitted, the reason the scan stopped inside this slice
/// (`None` when all of its parts were admitted), and the position just past the
/// last payload when it did not stop.
pub open spec fn scan_parts(data: Seq<u8>, pos: int, remaining: nat) -> (Seq<PartInfo>, Option<ScanStop>, int)
    decreases remaining,
{
    if remaining == 0 {
        (Seq::empty(), None, pos)
    } else if pos + 8 > data.len() {
        (Seq::empty(), Some(ScanStop::TruncatedHeader { offset: pos as u64 }), pos)
    } else {
        let out_offset = u32_le(data, pos);
        let part_size = u32_le(data, pos + 4);
        if !PartInfo::valid_size(part_size) {
            (Seq::empty(), Some(ScanStop::InvalidPartSize { offset: pos as u64, part_size }), pos)
        } else {
            let part = PartInfo { in_offset: (pos + 8) as u64, out_offset, part_size };
            if pos + 8 + part_size > data.len() {
                (seq![part], Some(ScanStop::TruncatedPayload { offset: pos as u64 }), pos)
            } else {
                let rest = scan_parts(data, pos + 8 + part_size, (remaining - 1) as nat);
                (seq![part] + rest.0, rest.1, rest.2)
            }
        }
    }
}

/// Scans slices starting with the slice header at `pos`: the parts admitted,
/// in discovery order, and the reason the scan stopped.
pub open spec fn scan_slices(data: Seq<u8>, pos: int) -> (Seq<PartInfo>, ScanStop)
    decreases data.len() - pos,
{
    if pos >= data.len() {
        (Seq::empty(), ScanStop::EndOfData)
    } else if pos + 4 > data.len() {
        (Seq::empty(), ScanStop::TruncatedHeader { offset: pos as u64 })
    } else {
        let part_count = u32_le(data, pos);
        if !valid_part_count(part_count) {
            (Seq::empty(), ScanStop::InvalidPartCount { offset: pos as u64, part_count })
        } else {
            let slice = scan_parts(data, pos + 4, part_count as nat);
            match slice.1 {
                Some(stop) => (slice.0, stop),
                None => if pos < slice.2 && slice.2 < data.len() {
                    let rest = scan_slices(data, slice.2);
                    (slice.0 + rest.0, rest.1)
                } else {
                    (slice.0, ScanStop::EndOfData)
                },
            }
        }
    }
}

/// The catalog of a whole serialized file, in discovery order, and why its scan stopped.
pub open spec fn scan(data: Seq<u8>) -> (Seq<PartInfo>, ScanStop) {
    scan_slices(data, 0)
}

/// A slice whose parts were all admitted ends past its own header.
proof fn lemma_slice_advances(data: Seq<u8>, pos: int, remaining: nat)
    ensures
        scan_parts(data, pos, remaining).1 is None ==> scan_parts(data, pos, remaining).2 >= pos
            + remaining,
        scan_parts(data, pos, remaining).1 is None && pos <= data.len() ==> scan_parts(
            data,
            pos,
            remaining,
        ).2 <= data.len(),
    decreases remaining,
{
    if remaining > 0 {
        lemma_slice_advances(data, pos + 8 + u32_le(data, pos + 4), (remaining - 1) as nat);
    }
}

/// Every part admitted within a slice has a size the format allows.
proof fn lemma_slice_sizes_valid(data: Seq<u8>, pos: int, remaining: nat)
    ensures
        forall|i: int|
            0 <= i < scan_parts(data, pos, remaining).0.len() ==> PartInfo::valid_size(
                #[trigger] scan_parts(data, pos, remaining).0[i].part_size,
            ),
    decreases remaining,
{
    if remaining > 0 {
        let next = pos + 8 + u32_le(data, pos + 4);
        lemma_slice_sizes_valid(data, next, (remaining - 1) as nat);
        let all = scan_parts(data, pos, remaining).0;
        let rest = scan_parts(data, next, (remaining - 1) as nat).0;
        assert forall|i: int| 0 <= i < all.len() implies PartInfo::valid_size(
            #[trigger] all[i].part_size,
        ) by {
            if i > 0 && all.len() > 1 {
                assert(all[i] == rest[i - 1]);
            }
        }
    }
}

/// Every part that the scan from `pos` admits has a size the format allows:
/// non-zero and at most `MAX_PART_SIZE`.
pub proof fn lemma_scanned_sizes_valid(data: Seq<u8>, pos: int)
    ensures
        forall|i: int|
            0 <= i < scan_slices(data, pos).0.len() ==> PartInfo::valid_size(
                #[trigger] scan_slices(data, pos).0[i].part_size,
            ),
    decreases data.len() - pos,
{
    if pos < data.len() && pos + 4 <= data.len() {
        let slice = scan_parts(data, pos + 4, u32_le(data, pos) as nat);
        lemma_slice_sizes_valid(data, pos + 4, u32_le(data, pos) as nat);
        if pos < slice.2 && slice.2 < data.len() {
            lemma_scanned_sizes_valid(data, slice.2);
            let rest = scan_slices(data, slice.2);
            assert forall|i: int| 0 <= i < (slice.0 + rest.0).len() implies PartInfo::valid_size(
                #[trigger] (slice.0 + rest.0)[i].part_size,
            ) by {
                if i >= slice.0.len() {
                    assert(rest.0[i - slice.0.len()] == (slice.0 + rest.0)[i]);
                }
            }
        }
    }
}

impl SerializedFile {
    pub fn new(name: String, data: Vec<u8>) -> (r: Self)
        ensures
            r.name@ == name@,
            r.data@ == data@,
    {
        SerializedFile { name, data }
    }

    /// The little-endian 32-bit value at `pos`, or `None` when fewer than four
    /// bytes remain there.
    pub fn read_u32_le(&self, pos: usize) -> (r: Option<u32>)
        ensures
            pos + 4 <= self.data@.len() ==> r == Some(u32_le(self.data@, pos as int)),
            pos + 4 > self.data@.len() ==> r is None,
    {
        if pos > self.data.len() || self.data.len() - pos < 4 {
            None
        } else {
            let b0 = self.data[pos] as u32;
            let b1 = self.data[pos + 1] as u32;
            let b2 = self.data[pos + 2] as u32;
            let b3 = self.data[pos + 3] as u32;
            Some(b0 + 0x100 * b1 + 0x1_0000 * b2 + 0x100_0000 * b3)
        }
    }

    /// Reads the `part_count` parts of the slice whose first part header is at
    /// `start`, appending each admitted part to `parts`. Returns the position of
    /// the next slice header, or why the scan stopped inside this slice.
    fn read_slice_parts(&self, start: usize, part_count: u32, parts: &mut Vec<PartInfo>) -> (r:
        Result<usize, ScanStop>)
        requires
            start <= self.data@.len(),
        ensures
            final(parts)@ == old(parts)@ + scan_parts(self.data@, start as int, part_count as nat).0,
            match r {
                Ok(next) => {
                    &&& scan_parts(self.data@, start as int, part_count as nat).1 is None
                    &&& next == scan_parts(self.data@, start as int, part_count as nat).2
                    &&& next <= self.data@.len()
                },
                Err(stop) => scan_parts(self.data@, start as int, part_count as nat).1 == Some(
                    stop,
                ),
            },
    {
        let ghost data = self.data@;
        let ghost prior = parts@;
        let ghost mut done: Seq<PartInfo> = Seq::empty();
        let mut pos: usize = start;
        let mut remaining: u32 = part_count;
        while remaining > 0
            invariant
                data == self.data@,
                pos <= data.len(),
                prior == old(parts)@,
                parts@ == prior + done,
                scan_parts(data, start as int, part_count as nat) == ({
                    let s = scan_parts(data, pos as int, remaining as nat);
                    (done + s.0, s.1, s.2)
                }),
            decreases remaining,
        {
            proof {
                assert(done + Seq::<PartInfo>::empty() =~= done);
            }
            if self.data.len() - pos < 8 {
                return Err(ScanStop::TruncatedHeader { offset: pos as u64 });
            }
            let out_offset = match self.read_u32_le(pos) {
                Some(v) => v,
                None => return Err(ScanStop::TruncatedHeader { offset: pos as u64 }),
            };
            let part_size = match self.read_u32_le(pos + 4) {
                Some(v) => v,
                None => return Err(ScanStop::TruncatedHeader { offset: pos as u64 }),
            };
            if part_size == 0 || part_size > MAX_PART_SIZE {
                return Err(ScanStop::InvalidPartSize { offset: pos as u64, part_size });
            }
            let part = PartInfo { in_offset: (pos + 8) as u64, out_offset, part_size };
            parts.push(part);
            proof {
                assert(done + (seq![part] + scan_parts(
                    data,
                    pos + 8 + part_size,
                    (remaining - 1) as nat,
                ).0) =~= done.push(part) + scan_parts(
                    data,
                    pos + 8 + part_size,
                    (remaining - 1) as nat,
                ).0);
                assert(done + seq![part] =~= done.push(part));
                done = done.push(part);
                assert(parts@ =~= prior + done);
            }
            if part_size as usize > self.data.len() - (pos + 8) {
                return Err(ScanStop::TruncatedPayload { offset: pos as u64 });
            }
            pos = pos + 8 + part_size as usize;
            remaining = remaining - 1;
        }
        proof {
            assert(done + Seq::<PartInfo>::empty() =~= done);
        }
        Ok(pos)
    }

    /// Scans the whole serialized file into a catalog of parts, in the order
    /// they were found, stopping at the end of the data or at the first
    /// structural anomaly. The parts admitted before the stop are kept.
    pub fn get_info(&self) -> (r: ScanOutcome)
        ensures
            r.parts@ == scan(self.data@).0,
            r.stop == scan(self.data@).1,
    {
        let ghost data = self.data@;
        let mut parts: Vec<PartInfo> = Vec::new();
        let mut pos: usize = 0;
        loop
            invariant
                data == self.data@,
                pos <= data.len(),
                scan(data) == ({
                    let s = scan_slices(data, pos as int);
                    (parts@ + s.0, s.1)
                }),
            decreases data.len() - pos,
        {
            if pos >= self.data.len() {
                proof {
                    assert(parts@ + Seq::<PartInfo>::empty() =~= parts@);
                }
                return ScanOutcome { parts, stop: ScanStop::EndOfData };
            }
            let part_count = match self.read_u32_le(pos) {
                Some(v) => v,
                None => {
                    proof {
                        assert(parts@ + Seq::<PartInfo>::empty() =~= parts@);
                    }
                    return ScanOutcome {
                        parts,
                        stop: ScanStop::TruncatedHeader { offset: pos as u64 },
                    };
                },
            };
            if part_count == 0 || part_count > MAX_PARTS_COUNT {
                proof {
                    assert(parts@ + Seq::<PartInfo>::empty() =~= parts@);
                }
                return ScanOutcome {
                    parts,
                    stop: ScanStop::InvalidPartCount { offset: pos as u64, part_count },
                };
            }
            let ghost before = parts@;
            let ghost slice = scan_parts(data, pos + 4, part_count as nat);
            proof {
                lemma_slice_advances(data, pos + 4, part_count as nat);
            }
            match self.read_slice_parts(pos + 4, part_count, &mut parts) {
                Err(stop) => {
                    return ScanOutcome { parts, stop };
                },
                Ok(next) => {
                    proof {
                        let rest = scan_slices(data, next as int);
                        assert(before + (slice.0 + rest.0) =~= parts@ + rest.0);
                        if next >= data.len() {
                            assert(slice.0 + rest.0 =~= slice.0);
                        }
                    }
                    pos = next;
                },
            }
        }
    }
}

} // verus!
