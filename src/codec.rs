use vstd::prelude::*;

use crate::part::{u32_le, valid_part_count, PartInfo, MAX_PARTS_COUNT, MAX_PART_SIZE};
use crate::ordering::stable_sort_of;
use crate::reconstruct::{
    disjoint_destinations, lemma_replay_places_payloads, payload, payload_in_bounds, replay,
};
use crate::scan::{scan, scan_parts, scan_slices, ScanStop};

verus! {

broadcast use vstd::seq_lib::group_to_multiset_ensures;

/// The four little-endian bytes of `v`.
pub open spec fn le_bytes(v: u32) -> Seq<u8> {
    seq![
        (v % 0x100) as u8,
        ((v / 0x100) % 0x100) as u8,
        ((v / 0x1_0000) % 0x100) as u8,
        (v / 0x100_0000) as u8,
    ]
}

/// Reading the four bytes that `le_bytes` gives yields the value back.
pub proof fn lemma_le_bytes_decode(data: Seq<u8>, pos: int, v: u32)
    requires
        0 <= pos,
        pos + 4 <= data.len(),
        data.subrange(pos, pos + 4) == le_bytes(v),
    ensures
        u32_le(data, pos) == v,
{
    assert(data[pos] == le_bytes(v)[0]);
    assert(data[pos + 1] == le_bytes(v)[1]);
    assert(data[pos + 2] == le_bytes(v)[2]);
    assert(data[pos + 3] == le_bytes(v)[3]);
    let x = v as int;
    assert(x % 0x100 + 0x100 * ((x / 0x100) % 0x100) + 0x1_0000 * ((x / 0x1_0000) % 0x100)
        + 0x100_0000 * (x / 0x100_0000) == x) by (nonlinear_arith)
        requires
            0 <= x < 0x1_0000_0000,
    ;
}

/// A part as written: its destination offset and its payload.
pub type PartSource = (u32, Seq<u8>);

/// A payload length the format admits.
pub open spec fn well_formed_part(p: PartSource) -> bool {
    0 < p.1.len() <= MAX_PART_SIZE
}

/// A slice the format admits: one to `MAX_PARTS_COUNT` well-formed parts.
pub open spec fn well_formed_slice(s: Seq<PartSource>) -> bool {
    &&& 0 < s.len() <= MAX_PARTS_COUNT
    &&& forall|i: int| 0 <= i < s.len() ==> well_formed_part(#[trigger] s[i])
}

/// The bytes of one part: destination offset, size, payload.
pub open spec fn encode_part(p: PartSource) -> Seq<u8> {
    le_bytes(p.0) + le_bytes(p.1.len() as u32) + p.1
}

/// The bytes of a run of parts, one after the other.
pub open spec fn encode_parts(parts: Seq<PartSource>) -> Seq<u8>
    decreases parts.len(),
{
    if parts.len() == 0 {
        Seq::empty()
    } else {
        encode_part(parts[0]) + encode_parts(parts.drop_first())
    }
}

/// The bytes of a run of slices, each a part count followed by its parts.
pub open spec fn encode_slices(slices: Seq<Seq<PartSource>>) -> Seq<u8>
    decreases slices.len(),
{
    if slices.len() == 0 {
        Seq::empty()
    } else {
        le_bytes(slices[0].len() as u32) + encode_parts(slices[0]) + encode_slices(
            slices.drop_first(),
        )
    }
}

/// The catalog entries of a run of parts whose encoding starts at `pos`.
pub open spec fn expected_parts(parts: Seq<PartSource>, pos: int) -> Seq<PartInfo>
    decreases parts.len(),
{
    if parts.len() == 0 {
        Seq::empty()
    } else {
        seq![
            PartInfo {
                in_offset: (pos + 8) as u64,
                out_offset: parts[0].0,
                part_size: parts[0].1.len() as u32,
            },
        ] + expected_parts(parts.drop_first(), pos + 8 + parts[0].1.len())
    }
}

/// The catalog entries of a run of slices whose encoding starts at `pos`.
pub open spec fn expected_catalog(slices: Seq<Seq<PartSource>>, pos: int) -> Seq<PartInfo>
    decreases slices.len(),
{
    if slices.len() == 0 {
        Seq::empty()
    } else {
        expected_parts(slices[0], pos + 4) + expected_catalog(
            slices.drop_first(),
            pos + 4 + encode_parts(slices[0]).len(),
        )
    }
}

/// Scanning `remaining` parts from `pos`, where well-formed parts are written,
/// admits them and then goes on as the scan of the parts left over does.
proof fn lemma_scan_encoded_parts(data: Seq<u8>, pos: int, parts: Seq<PartSource>, remaining: nat)
    requires
        0 <= pos,
        parts.len() <= remaining,
        pos + encode_parts(parts).len() <= data.len(),
        data.subrange(pos, pos + encode_parts(parts).len()) == encode_parts(parts),
        forall|i: int| 0 <= i < parts.len() ==> well_formed_part(#[trigger] parts[i]),
    ensures
        ({
            let after = scan_parts(
                data,
                pos + encode_parts(parts).len(),
                (remaining - parts.len()) as nat,
            );
            scan_parts(data, pos, remaining) == (
                expected_parts(parts, pos) + after.0,
                after.1,
                after.2,
            )
        }),
    decreases parts.len(),
{
    if parts.len() == 0 {
        let after = scan_parts(data, pos, remaining);
        assert(Seq::<PartInfo>::empty() + after.0 =~= after.0);
    } else {
        let p = parts[0];
        let rest = parts.drop_first();
        let enc = encode_parts(parts);
        let rest_enc = encode_parts(rest);
        let size = p.1.len() as int;
        assert(well_formed_part(p));
        assert(enc =~= le_bytes(p.0) + le_bytes(p.1.len() as u32) + p.1 + rest_enc);
        assert(data.subrange(pos, pos + 4) =~= le_bytes(p.0)) by {
            assert(data.subrange(pos, pos + 4) =~= enc.subrange(0, 4));
        }
        assert(data.subrange(pos + 4, pos + 8) =~= le_bytes(p.1.len() as u32)) by {
            assert(data.subrange(pos + 4, pos + 8) =~= enc.subrange(4, 8));
        }
        lemma_le_bytes_decode(data, pos, p.0);
        lemma_le_bytes_decode(data, pos + 4, p.1.len() as u32);
        let next = pos + 8 + size;
        assert(data.subrange(next, next + rest_enc.len()) =~= rest_enc) by {
            assert(data.subrange(next, next + rest_enc.len()) =~= enc.subrange(
                8 + size,
                enc.len() as int,
            ));
        }
        assert forall|i: int| 0 <= i < rest.len() implies well_formed_part(#[trigger] rest[i]) by {
            assert(rest[i] == parts[i + 1]);
        }
        lemma_scan_encoded_parts(data, next, rest, (remaining - 1) as nat);
        let after = scan_parts(data, pos + enc.len(), (remaining - parts.len()) as nat);
        let head = seq![
            PartInfo { in_offset: (pos + 8) as u64, out_offset: p.0, part_size: p.1.len() as u32 },
        ];
        assert(head + (expected_parts(rest, next) + after.0) =~= (head + expected_parts(rest, next))
            + after.0);
    }
}

/// Scanning from `pos`, where well-formed slices are written, admits their
/// parts and then goes on as the scan from the end of those slices does.
proof fn lemma_scan_encoded_slices(data: Seq<u8>, pos: int, slices: Seq<Seq<PartSource>>)
    requires
        0 <= pos,
        pos + encode_slices(slices).len() <= data.len(),
        data.subrange(pos, pos + encode_slices(slices).len()) == encode_slices(slices),
        forall|i: int| 0 <= i < slices.len() ==> well_formed_slice(#[trigger] slices[i]),
    ensures
        ({
            let after = scan_slices(data, pos + encode_slices(slices).len());
            scan_slices(data, pos) == (expected_catalog(slices, pos) + after.0, after.1)
        }),
    decreases slices.len(),
{
    let end = pos + encode_slices(slices).len();
    if slices.len() == 0 {
        assert(Seq::<PartInfo>::empty() + scan_slices(data, end).0 =~= scan_slices(data, end).0);
    } else {
        let first = slices[0];
        let rest = slices.drop_first();
        let enc = encode_slices(slices);
        let parts_enc = encode_parts(first);
        let rest_enc = encode_slices(rest);
        assert(well_formed_slice(first));
        assert(enc =~= le_bytes(first.len() as u32) + parts_enc + rest_enc);
        assert(data.subrange(pos, pos + 4) =~= le_bytes(first.len() as u32)) by {
            assert(data.subrange(pos, pos + 4) =~= enc.subrange(0, 4));
        }
        lemma_le_bytes_decode(data, pos, first.len() as u32);
        assert(data.subrange(pos + 4, pos + 4 + parts_enc.len()) =~= parts_enc) by {
            assert(data.subrange(pos + 4, pos + 4 + parts_enc.len()) =~= enc.subrange(
                4,
                4 + parts_enc.len() as int,
            ));
        }
        lemma_scan_encoded_parts(data, pos + 4, first, first.len());
        assert(first.len() as u32 as nat == first.len());
        let next = pos + 4 + parts_enc.len();
        assert(expected_parts(first, pos + 4) + Seq::<PartInfo>::empty() =~= expected_parts(
            first,
            pos + 4,
        ));
        assert forall|i: int| 0 <= i < rest.len() implies well_formed_slice(#[trigger] rest[i]) by {
            assert(rest[i] == slices[i + 1]);
        }
        assert(data.subrange(next, next + rest_enc.len()) =~= rest_enc) by {
            assert(data.subrange(next, next + rest_enc.len()) =~= enc.subrange(
                4 + parts_enc.len() as int,
                enc.len() as int,
            ));
        }
        if first.len() > 0 {
            assert(parts_enc.len() > 0);
        }
        lemma_scan_encoded_slices(data, next, rest);
        let head = expected_parts(first, pos + 4);
        let after = scan_slices(data, end);
        let tail = expected_catalog(rest, next);
        assert(head + (tail + after.0) =~= (head + tail) + after.0);
        if next >= data.len() {
            if rest.len() > 0 {
                assert(rest_enc.len() >= 4);
            }
            assert(head + Seq::<PartInfo>::empty() =~= head);
            assert(tail + after.0 =~= Seq::<PartInfo>::empty());
        }
    }
}

/// Scanning a file made only of well-formed slices yields every part in the
/// order it was written, each with the source offset of its own payload, and
/// stops at the end of the data.
pub proof fn lemma_scan_encoded(slices: Seq<Seq<PartSource>>)
    requires
        forall|i: int| 0 <= i < slices.len() ==> well_formed_slice(#[trigger] slices[i]),
    ensures
        scan(encode_slices(slices)) == (expected_catalog(slices, 0), ScanStop::EndOfData),
{
    let data = encode_slices(slices);
    assert(data.subrange(0, data.len() as int) =~= data);
    lemma_scan_encoded_slices(data, 0, slices);
    assert(expected_catalog(slices, 0) + Seq::<PartInfo>::empty() =~= expected_catalog(slices, 0));
}

/// Every part of every slice, in the order written.
pub open spec fn all_parts(slices: Seq<Seq<PartSource>>) -> Seq<PartSource>
    decreases slices.len(),
{
    if slices.len() == 0 {
        Seq::empty()
    } else {
        slices[0] + all_parts(slices.drop_first())
    }
}

/// Catalog entry `c` describes part `p` as written in `data`.
pub open spec fn describes(data: Seq<u8>, c: PartInfo, p: PartSource) -> bool {
    &&& c.out_offset == p.0
    &&& c.part_size == p.1.len()
    &&& payload_in_bounds(data, c)
    &&& payload(data, c) == p.1
}

proof fn lemma_expected_parts_describe(data: Seq<u8>, pos: int, parts: Seq<PartSource>)
    requires
        0 <= pos,
        data.len() <= u64::MAX,
        pos + encode_parts(parts).len() <= data.len(),
        data.subrange(pos, pos + encode_parts(parts).len()) == encode_parts(parts),
        forall|i: int| 0 <= i < parts.len() ==> well_formed_part(#[trigger] parts[i]),
    ensures
        expected_parts(parts, pos).len() == parts.len(),
        forall|i: int|
            0 <= i < parts.len() ==> describes(data, #[trigger] expected_parts(parts, pos)[i], parts[i]),
    decreases parts.len(),
{
    if parts.len() > 0 {
        let p = parts[0];
        let rest = parts.drop_first();
        let enc = encode_parts(parts);
        let rest_enc = encode_parts(rest);
        let size = p.1.len() as int;
        assert(well_formed_part(p));
        assert(enc =~= le_bytes(p.0) + le_bytes(p.1.len() as u32) + p.1 + rest_enc);
        let next = pos + 8 + size;
        assert(data.subrange(next, next + rest_enc.len()) =~= rest_enc) by {
            assert(data.subrange(next, next + rest_enc.len()) =~= enc.subrange(
                8 + size,
                enc.len() as int,
            ));
        }
        assert(data.subrange(pos + 8, next) =~= p.1) by {
            assert(data.subrange(pos + 8, next) =~= enc.subrange(8, 8 + size));
        }
        assert forall|i: int| 0 <= i < rest.len() implies well_formed_part(#[trigger] rest[i]) by {
            assert(rest[i] == parts[i + 1]);
        }
        lemma_expected_parts_describe(data, next, rest);
        let all = expected_parts(parts, pos);
        let tail = expected_parts(rest, next);
        assert forall|i: int| 0 <= i < parts.len() implies describes(data, #[trigger] all[i], parts[i]) by {
            if i > 0 {
                assert(all[i] == tail[i - 1]);
                assert(parts[i] == rest[i - 1]);
            }
        }
    }
}

proof fn lemma_expected_catalog_describes(data: Seq<u8>, pos: int, slices: Seq<Seq<PartSource>>)
    requires
        0 <= pos,
        data.len() <= u64::MAX,
        pos + encode_slices(slices).len() == data.len(),
        data.subrange(pos, data.len() as int) == encode_slices(slices),
        forall|i: int| 0 <= i < slices.len() ==> well_formed_slice(#[trigger] slices[i]),
    ensures
        expected_catalog(slices, pos).len() == all_parts(slices).len(),
        forall|i: int|
            0 <= i < all_parts(slices).len() ==> describes(
                data,
                #[trigger] expected_catalog(slices, pos)[i],
                all_parts(slices)[i],
            ),
    decreases slices.len(),
{
    if slices.len() > 0 {
        let first = slices[0];
        let rest = slices.drop_first();
        let enc = encode_slices(slices);
        let parts_enc = encode_parts(first);
        let rest_enc = encode_slices(rest);
        assert(well_formed_slice(first));
        assert(enc =~= le_bytes(first.len() as u32) + parts_enc + rest_enc);
        assert(data.subrange(pos + 4, pos + 4 + parts_enc.len()) =~= parts_enc) by {
            assert(data.subrange(pos + 4, pos + 4 + parts_enc.len()) =~= enc.subrange(
                4,
                4 + parts_enc.len() as int,
            ));
        }
        lemma_expected_parts_describe(data, pos + 4, first);
        let next = pos + 4 + parts_enc.len();
        assert forall|i: int| 0 <= i < rest.len() implies well_formed_slice(#[trigger] rest[i]) by {
            assert(rest[i] == slices[i + 1]);
        }
        assert(data.subrange(next, data.len() as int) =~= rest_enc) by {
            assert(data.subrange(next, data.len() as int) =~= enc.subrange(
                4 + parts_enc.len() as int,
                enc.len() as int,
            ));
        }
        lemma_expected_catalog_describes(data, next, rest);
        let head = expected_parts(first, pos + 4);
        let tail = expected_catalog(rest, next);
        let cat = expected_catalog(slices, pos);
        let all = all_parts(slices);
        assert(cat == head + tail);
        assert(all == first + all_parts(rest));
        assert forall|i: int| 0 <= i < all.len() implies describes(data, #[trigger] cat[i], all[i]) by {
            if i < first.len() {
                assert(cat[i] == head[i]);
                assert(all[i] == first[i]);
            } else {
                assert(cat[i] == tail[i - first.len()]);
                assert(all[i] == all_parts(rest)[i - first.len()]);
            }
        }
    }
}

/// A slice header whose part count is zero or above `MAX_PARTS_COUNT`, written
/// after well-formed slices, ends the scan before any part of that slice is
/// read; the parts of the earlier slices are kept, whatever follows.
pub proof fn lemma_invalid_part_count_keeps_earlier(
    slices: Seq<Seq<PartSource>>,
    part_count: u32,
    tail: Seq<u8>,
)
    requires
        forall|j: int| 0 <= j < slices.len() ==> well_formed_slice(#[trigger] slices[j]),
        !valid_part_count(part_count),
    ensures
        scan(encode_slices(slices) + le_bytes(part_count) + tail) == (
            expected_catalog(slices, 0),
            ScanStop::InvalidPartCount {
                offset: encode_slices(slices).len() as u64,
                part_count,
            },
        ),
{
    let enc = encode_slices(slices);
    let data = enc + le_bytes(part_count) + tail;
    let end = enc.len() as int;
    assert(data.subrange(0, end) =~= enc);
    lemma_scan_encoded_slices(data, 0, slices);
    assert(data.subrange(end, end + 4) =~= le_bytes(part_count));
    lemma_le_bytes_decode(data, end, part_count);
    assert(expected_catalog(slices, 0) + Seq::<PartInfo>::empty() =~= expected_catalog(slices, 0));
}

/// A part header whose size is zero or above `MAX_PART_SIZE`, written after
/// well-formed slices and some well-formed parts of a slice that declared more,
/// ends the scan there; the parts before it, in that slice and the earlier
/// ones, are kept, whatever follows.
pub proof fn lemma_invalid_part_size_keeps_earlier(
    slices: Seq<Seq<PartSource>>,
    part_count: u32,
    parts: Seq<PartSource>,
    out_offset: u32,
    part_size: u32,
    tail: Seq<u8>,
)
    requires
        forall|j: int| 0 <= j < slices.len() ==> well_formed_slice(#[trigger] slices[j]),
        valid_part_count(part_count),
        parts.len() < part_count,
        forall|j: int| 0 <= j < parts.len() ==> well_formed_part(#[trigger] parts[j]),
        !PartInfo::valid_size(part_size),
    ensures
        ({
            let enc = encode_slices(slices);
            let start = enc.len() + 4int;
            let data = enc + le_bytes(part_count) + encode_parts(parts) + le_bytes(out_offset)
                + le_bytes(part_size) + tail;
            scan(data) == (
                expected_catalog(slices, 0) + expected_parts(parts, start),
                ScanStop::InvalidPartSize {
                    offset: (start + encode_parts(parts).len()) as u64,
                    part_size,
                },
            )
        }),
{
    let enc = encode_slices(slices);
    let parts_enc = encode_parts(parts);
    let data = enc + le_bytes(part_count) + parts_enc + le_bytes(out_offset) + le_bytes(part_size)
        + tail;
    let end = enc.len() as int;
    let start = end + 4;
    let bad = start + parts_enc.len();
    assert(data.subrange(0, end) =~= enc);
    lemma_scan_encoded_slices(data, 0, slices);
    assert(data.subrange(end, end + 4) =~= le_bytes(part_count));
    lemma_le_bytes_decode(data, end, part_count);
    assert(data.subrange(start, bad) =~= parts_enc);
    lemma_scan_encoded_parts(data, start, parts, part_count as nat);
    assert(data.subrange(bad, bad + 4) =~= le_bytes(out_offset));
    assert(data.subrange(bad + 4, bad + 8) =~= le_bytes(part_size));
    lemma_le_bytes_decode(data, bad, out_offset);
    lemma_le_bytes_decode(data, bad + 4, part_size);
    let cat = expected_catalog(slices, 0);
    let found = expected_parts(parts, start);
    assert(found + Seq::<PartInfo>::empty() =~= found);
}

/// No two different parts, as written, have overlapping destination ranges.
pub open spec fn disjoint_sources(parts: Seq<PartSource>) -> bool {
    forall|a: int, b: int|
        0 <= a < parts.len() && 0 <= b < parts.len() && a != b ==> #[trigger] parts[a].0
            + parts[a].1.len() <= #[trigger] parts[b].0 || parts[b].0 + parts[b].1.len()
            <= parts[a].0
}

/// Round trip: building a file from well-formed slices whose parts have
/// non-overlapping destination ranges, scanning it, ordering the catalog by
/// destination offset and replaying it into an empty stream puts every payload
/// byte of every part at its destination offset.
pub proof fn lemma_round_trip(slices: Seq<Seq<PartSource>>, order: Seq<PartInfo>, i: int, k: int)
    requires
        forall|j: int| 0 <= j < slices.len() ==> well_formed_slice(#[trigger] slices[j]),
        encode_slices(slices).len() <= u64::MAX,
        disjoint_sources(all_parts(slices)),
        stable_sort_of(order, scan(encode_slices(slices)).0),
        0 <= i < all_parts(slices).len(),
        0 <= k < all_parts(slices)[i].1.len(),
    ensures
        all_parts(slices)[i].0 + k < replay(encode_slices(slices), Seq::empty(), order).len(),
        replay(encode_slices(slices), Seq::empty(), order)[all_parts(slices)[i].0 + k]
            == all_parts(slices)[i].1[k],
{
    let data = encode_slices(slices);
    let all = all_parts(slices);
    let cat = expected_catalog(slices, 0);
    lemma_scan_encoded(slices);
    assert(data.subrange(0, data.len() as int) =~= data);
    lemma_expected_catalog_describes(data, 0, slices);
    assert(order.to_multiset() == cat.to_multiset());
    assert forall|j: int| 0 <= j < order.len() implies exists|m: int|
        0 <= m < cat.len() && cat[m] == #[trigger] order[j] by {
        assert(order.contains(order[j]));
        assert(order.to_multiset().count(order[j]) > 0);
        assert(cat.to_multiset().count(order[j]) > 0);
        assert(cat.contains(order[j]));
    }
    assert forall|j: int| 0 <= j < order.len() implies payload_in_bounds(data, #[trigger] order[j]) by {
        let m = choose|m: int| 0 <= m < cat.len() && cat[m] == order[j];
        assert(describes(data, cat[m], all[m]));
    }
    assert forall|a: int, b: int|
        0 <= a < order.len() && 0 <= b < order.len() && order[a] != order[b] implies #[trigger] order[a].out_end()
        <= #[trigger] order[b].out_offset || order[b].out_end() <= order[a].out_offset by {
        let ma = choose|m: int| 0 <= m < cat.len() && cat[m] == order[a];
        let mb = choose|m: int| 0 <= m < cat.len() && cat[m] == order[b];
        assert(describes(data, cat[ma], all[ma]));
        assert(describes(data, cat[mb], all[mb]));
    }
    assert(disjoint_destinations(order));
    let c = cat[i];
    assert(describes(data, c, all[i]));
    assert(cat.contains(c));
    assert(cat.to_multiset().count(c) > 0);
    assert(order.to_multiset().count(c) > 0);
    assert(order.contains(c));
    let idx = choose|j: int| 0 <= j < order.len() && order[j] == c;
    lemma_replay_places_payloads(data, Seq::empty(), order, idx, k);
    assert(payload(data, c)[k] == data[c.in_offset + k]);
}

} // verus!
