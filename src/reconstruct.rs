use vstd::prelude::*;

use crate::ordering::{order_and_report_info, stable_sort_of, OrderedPartInfos};
use crate::part::{PartInfo, MAX_PART_SIZE};
use crate::scan::{lemma_scanned_sizes_valid, scan, SerializedFile};

verus! {

broadcast use vstd::seq_lib::group_to_multiset_ensures;

/// The reconstructed stream being built, with the name used to report on it.
pub struct DeserializedFile {
    pub name: String,
    pub data: Vec<u8>,
}

/// A failure that stops reconstruction.
#[derive(Clone, Copy, Debug, PartialEq, Eq, Structural)]
pub enum DeserializeError {
    /// The serialized data ended before the `part_size` payload bytes at
    /// `in_offset` were complete; only `available` bytes remained there.
    ShortPayloadRead { in_offset: u64, part_size: u32, available: u64 },
}

/// The payload of `p` lies wholly inside `data`.
pub open spec fn payload_in_bounds(data: Seq<u8>, p: PartInfo) -> bool {
    p.in_offset + p.part_size <= data.len()
}

/// The payload bytes of `p` in `data`.
pub open spec fn payload(data: Seq<u8>, p: PartInfo) -> Seq<u8> {
    data.subrange(p.in_offset as int, p.in_offset + p.part_size)
}

/// How many bytes of `data` remain from `in_offset` on.
pub open spec fn available_at(data: Seq<u8>, in_offset: u64) -> u64 {
    if in_offset <= data.len() {
        (data.len() - in_offset) as u64
    } else {
        0
    }
}

/// The error for a part whose payload runs past the end of `data`.
pub open spec fn short_read(data: Seq<u8>, p: PartInfo) -> DeserializeError {
    DeserializeError::ShortPayloadRead {
        in_offset: p.in_offset,
        part_size: p.part_size,
        available: available_at(data, p.in_offset),
    }
}

/// `out` with `bytes` written at `offset`; bytes between the old end and
/// `offset` read as zero.
pub open spec fn write_at(out: Seq<u8>, offset: int, bytes: Seq<u8>) -> Seq<u8> {
    let end = offset + bytes.len();
    Seq::new(
        if end > out.len() {
            end as nat
        } else {
            out.len()
        },
        |i: int|
            if offset <= i < end {
                bytes[i - offset]
            } else if i < out.len() {
                out[i]
            } else {
                0u8
            },
    )
}

/// `out` after the payload of each part, in order, was written at its
/// destination offset.
pub open spec fn replay(data: Seq<u8>, out: Seq<u8>, parts: Seq<PartInfo>) -> Seq<u8>
    decreases parts.len(),
{
    if parts.len() == 0 {
        out
    } else {
        write_at(
            replay(data, out, parts.drop_last()),
            parts.last().out_offset as int,
            payload(data, parts.last()),
        )
    }
}

/// Every part ends at a destination offset that an in-memory buffer can hold.
pub open spec fn fits_in_memory(parts: Seq<PartInfo>) -> bool {
    forall|i: int| 0 <= i < parts.len() ==> #[trigger] parts[i].out_end() <= usize::MAX
}

/// The destination ranges of no two different parts overlap.
pub open spec fn disjoint_destinations(parts: Seq<PartInfo>) -> bool {
    forall|a: int, b: int|
        0 <= a < parts.len() && 0 <= b < parts.len() && parts[a] != parts[b] ==> #[trigger] parts[a].out_end()
            <= #[trigger] parts[b].out_offset || parts[b].out_end() <= parts[a].out_offset
}

/// The highest destination end among `parts`, or zero when there are none.
pub open spec fn max_out_end(parts: Seq<PartInfo>) -> int
    decreases parts.len(),
{
    if parts.len() == 0 {
        0
    } else {
        let rest = max_out_end(parts.drop_last());
        if parts.last().out_end() > rest {
            parts.last().out_end()
        } else {
            rest
        }
    }
}

/// Replaying parts whose payloads all lie inside the data leaves a stream as
/// long as the longer of the starting stream and the highest destination end.
pub proof fn lemma_replay_len(data: Seq<u8>, out: Seq<u8>, parts: Seq<PartInfo>)
    requires
        forall|i: int| 0 <= i < parts.len() ==> payload_in_bounds(data, #[trigger] parts[i]),
    ensures
        replay(data, out, parts).len() == if out.len() > max_out_end(parts) {
            out.len() as int
        } else {
            max_out_end(parts)
        },
    decreases parts.len(),
{
    if parts.len() > 0 {
        let rest = parts.drop_last();
        assert forall|i: int| 0 <= i < rest.len() implies payload_in_bounds(data, #[trigger] rest[i]) by {
            assert(rest[i] == parts[i]);
        }
        lemma_replay_len(data, out, rest);
        assert(payload_in_bounds(data, parts[parts.len() - 1]));
    }
}

/// Replaying parts whose payloads all lie inside the data and where no two
/// different parts have overlapping destination ranges puts every payload byte of every part at
/// its destination offset.
pub proof fn lemma_replay_places_payloads(
    data: Seq<u8>,
    out: Seq<u8>,
    parts: Seq<PartInfo>,
    i: int,
    k: int,
)
    requires
        forall|j: int| 0 <= j < parts.len() ==> payload_in_bounds(data, #[trigger] parts[j]),
        disjoint_destinations(parts),
        0 <= i < parts.len(),
        0 <= k < parts[i].part_size,
    ensures
        parts[i].out_offset + k < replay(data, out, parts).len(),
        replay(data, out, parts)[parts[i].out_offset + k] == data[parts[i].in_offset + k],
    decreases parts.len(),
{
    let rest = parts.drop_last();
    let last = parts[parts.len() - 1];
    assert(payload_in_bounds(data, last));
    if i < parts.len() - 1 {
        assert forall|j: int| 0 <= j < rest.len() implies payload_in_bounds(data, #[trigger] rest[j]) by {
            assert(rest[j] == parts[j]);
        }
        assert forall|a: int, b: int|
            0 <= a < rest.len() && 0 <= b < rest.len() && rest[a] != rest[b] implies #[trigger] rest[a].out_end()
            <= #[trigger] rest[b].out_offset || rest[b].out_end() <= rest[a].out_offset by {
            assert(rest[a] == parts[a] && rest[b] == parts[b]);
        }
        assert(rest[i] == parts[i]);
        lemma_replay_places_payloads(data, out, rest, i, k);
        if parts[i] != last {
            assert(parts[i].out_end() <= last.out_offset || last.out_end() <= parts[i].out_offset);
        }
    }
}

impl DeserializedFile {
    pub fn new(name: String) -> (r: Self)
        ensures
            r.name@ == name@,
            r.data@ == Seq::<u8>::empty(),
    {
        DeserializedFile { name, data: Vec::new() }
    }

    /// Writes `bytes` at `offset`, zero-filling any gap past the current end.
    pub fn write_at(&mut self, offset: u32, bytes: &Vec<u8>)
        requires
            offset + bytes@.len() <= usize::MAX,
        ensures
            final(self).data@ == write_at(old(self).data@, offset as int, bytes@),
            final(self).name == old(self).name,
    {
        let ghost target = write_at(self.data@, offset as int, bytes@);
        let ghost start = self.data@;
        let end: usize = offset as usize + bytes.len();
        while self.data.len() < end
            invariant
                end == offset + bytes@.len(),
                target == write_at(start, offset as int, bytes@),
                start.len() <= self.data@.len(),
                self.data@.len() <= target.len(),
                forall|i: int| 0 <= i < start.len() ==> self.data@[i] == start[i],
                forall|i: int| start.len() <= i < self.data@.len() ==> self.data@[i] == 0u8,
                self.name == old(self).name,
            decreases end - self.data@.len(),
        {
            self.data.push(0u8);
        }
        let mut k: usize = 0;
        while k < bytes.len()
            invariant
                end == offset + bytes@.len(),
                target == write_at(start, offset as int, bytes@),
                k <= bytes@.len(),
                self.data@.len() == target.len(),
                forall|i: int|
                    0 <= i < target.len() && !(offset + k <= i < end) ==> self.data@[i] == target[i],
                self.name == old(self).name,
            decreases bytes.len() - k,
        {
            self.data.set(offset as usize + k, bytes[k]);
            k = k + 1;
        }
        proof {
            assert(self.data@ =~= target);
        }
    }
}

impl SerializedFile {
    /// The `part_size` payload bytes at `in_offset`, or `ShortPayloadRead` when
    /// the data ends before they are complete.
    pub fn read_part(&self, in_offset: u64, part_size: u32) -> (r: Result<Vec<u8>, DeserializeError>)
        ensures
            ({
                let p = PartInfo { in_offset, out_offset: 0, part_size };
                match r {
                    Ok(bytes) => payload_in_bounds(self.data@, p) && bytes@ == payload(self.data@, p),
                    Err(e) => !payload_in_bounds(self.data@, p) && e == short_read(self.data@, p),
                }
            }),
    {
        let len = self.data.len() as u64;
        if in_offset > len || part_size as u64 > len - in_offset {
            let available = if in_offset <= len {
                len - in_offset
            } else {
                0
            };
            return Err(DeserializeError::ShortPayloadRead { in_offset, part_size, available });
        }
        let start = in_offset as usize;
        let size = part_size as usize;
        let mut part_buf: Vec<u8> = Vec::with_capacity(size);
        while part_buf.len() < size
            invariant
                start + size <= self.data@.len(),
                self.data@.len() <= usize::MAX,
                part_buf@ == self.data@.subrange(start as int, start + part_buf@.len()),
                part_buf@.len() <= size,
            decreases size - part_buf@.len(),
        {
            let b = self.data[start + part_buf.len()];
            proof {
                assert(part_buf@.push(b) =~= self.data@.subrange(
                    start as int,
                    start + part_buf@.len() + 1,
                ));
            }
            part_buf.push(b);
        }
        Ok(part_buf)
    }

    /// Copies the payload of each part, in the given order, to its destination
    /// offset. Stops at the first part whose payload runs past the end of the
    /// data; the parts before it stay written.
    pub fn copy_parts(&self, parts: &OrderedPartInfos, deserialized_file: &mut DeserializedFile) -> (r:
        Result<(), DeserializeError>)
        requires
            fits_in_memory(parts.0@),
        ensures
            final(deserialized_file).name == old(deserialized_file).name,
            r is Ok <==> forall|i: int|
                0 <= i < parts.0@.len() ==> payload_in_bounds(self.data@, #[trigger] parts.0@[i]),
            r is Ok ==> final(deserialized_file).data@ == replay(
                self.data@,
                old(deserialized_file).data@,
                parts.0@,
            ),
            r matches Err(e) ==> exists|i: int|
                {
                    &&& 0 <= i < parts.0@.len()
                    &&& !payload_in_bounds(self.data@, #[trigger] parts.0@[i])
                    &&& forall|j: int| 0 <= j < i ==> payload_in_bounds(self.data@, parts.0@[j])
                    &&& e == short_read(self.data@, parts.0@[i])
                    &&& final(deserialized_file).data@ == replay(
                        self.data@,
                        old(deserialized_file).data@,
                        parts.0@.subrange(0, i),
                    )
                },
    {
        let ghost data = self.data@;
        let ghost initial = deserialized_file.data@;
        let mut i: usize = 0;
        proof {
            assert(parts.0@.subrange(0, 0) =~= Seq::<PartInfo>::empty());
        }
        while i < parts.0.len()
            invariant
                data == self.data@,
                i <= parts.0@.len(),
                fits_in_memory(parts.0@),
                deserialized_file.name == old(deserialized_file).name,
                initial == old(deserialized_file).data@,
                forall|j: int| 0 <= j < i ==> payload_in_bounds(data, parts.0@[j]),
                deserialized_file.data@ == replay(data, initial, parts.0@.subrange(0, i as int)),
            decreases parts.0@.len() - i,
        {
            let p = parts.0[i];
            let bytes = match self.read_part(p.in_offset, p.part_size) {
                Ok(bytes) => bytes,
                Err(e) => {
                    return Err(e);
                },
            };
            assert(parts.0@[i as int].out_end() <= usize::MAX);
            deserialized_file.write_at(p.out_offset, &bytes);
            proof {
                let next = parts.0@.subrange(0, i + 1);
                assert(next.drop_last() =~= parts.0@.subrange(0, i as int));
            }
            i = i + 1;
        }
        proof {
            assert(parts.0@.subrange(0, parts.0@.len() as int) =~= parts.0@);
        }
        Ok(())
    }

    /// Scans the file, orders its catalog by destination offset, and copies
    /// every part into `deserialized_file` in that order.
    pub fn write_to_deserialized_file(&self, deserialized_file: &mut DeserializedFile) -> (r: Result<
        (),
        DeserializeError,
    >)
        requires
            u32::MAX + MAX_PART_SIZE <= usize::MAX,
        ensures
            final(deserialized_file).name == old(deserialized_file).name,
            exists|order: Seq<PartInfo>|
                {
                    &&& stable_sort_of(order, scan(self.data@).0)
                    &&& (r is Ok <==> forall|i: int|
                        0 <= i < order.len() ==> payload_in_bounds(self.data@, #[trigger] order[i]))
                    &&& r is Ok ==> final(deserialized_file).data@ == replay(
                        self.data@,
                        old(deserialized_file).data@,
                        order,
                    )
                    &&& r matches Err(e) ==> exists|i: int|
                        {
                            &&& 0 <= i < order.len()
                            &&& !payload_in_bounds(self.data@, #[trigger] order[i])
                            &&& forall|j: int|
                                0 <= j < i ==> payload_in_bounds(self.data@, order[j])
                            &&& e == short_read(self.data@, order[i])
                            &&& final(deserialized_file).data@ == replay(
                                self.data@,
                                old(deserialized_file).data@,
                                order.subrange(0, i),
                            )
                        }
                },
    {
        let info = self.get_info();
        let ghost catalog = info.parts@;
        let (ordered, _report) = order_and_report_info(info.parts);
        proof {
            lemma_scanned_sizes_valid(self.data@, 0);
            assert forall|i: int| 0 <= i < ordered.0@.len() implies #[trigger] ordered.0@[i].out_end()
                <= usize::MAX by {
                let p = ordered.0@[i];
                assert(ordered.0@.to_multiset().count(p) > 0);
                assert(catalog.to_multiset().count(p) > 0);
                assert(catalog.contains(p));
                let j = choose|j: int| 0 <= j < catalog.len() && catalog[j] == p;
                assert(PartInfo::valid_size(catalog[j].part_size));
            }
        }
        self.copy_parts(&ordered, deserialized_file)
    }
}

} // verus!
