use telegram_media_deserialize::ordering::{contiguity_report, order_and_report_info, sort_by_out_offset};
use telegram_media_deserialize::part::{PartInfo, MAX_PARTS_COUNT, MAX_PART_SIZE};
use telegram_media_deserialize::reconstruct::{DeserializeError, DeserializedFile};
use telegram_media_deserialize::scan::{ScanStop, SerializedFile};

fn le(v: u32) -> Vec<u8> {
    v.to_le_bytes().to_vec()
}

fn part_bytes(out_offset: u32, payload: &[u8]) -> Vec<u8> {
    let mut b = le(out_offset);
    b.extend(le(payload.len() as u32));
    b.extend_from_slice(payload);
    b
}

fn slice_bytes(parts: &[(u32, Vec<u8>)]) -> Vec<u8> {
    let mut b = le(parts.len() as u32);
    for (off, payload) in parts {
        b.extend(part_bytes(*off, payload));
    }
    b
}

fn file(data: Vec<u8>) -> SerializedFile {
    SerializedFile::new("in.bin".to_string(), data)
}

fn part(out_offset: u32, part_size: u32) -> PartInfo {
    PartInfo { in_offset: 0, out_offset, part_size }
}

#[test]
fn limits_match_format() {
    assert_eq!(MAX_PARTS_COUNT, 80);
    assert_eq!(MAX_PART_SIZE, 131072);
}

#[test]
fn read_u32_le_decodes_little_endian() {
    let f = file(vec![0x78, 0x56, 0x34, 0x12, 0xff]);
    assert_eq!(f.read_u32_le(0), Some(0x1234_5678));
    assert_eq!(f.read_u32_le(1), Some(0xff12_3456));
    assert_eq!(f.read_u32_le(2), None);
    assert_eq!(f.read_u32_le(9), None);
}

#[test]
fn empty_file_gives_empty_catalog() {
    let out = file(vec![]).get_info();
    assert!(out.parts.is_empty());
    assert_eq!(out.stop, ScanStop::EndOfData);
}

#[test]
fn short_slice_header_stops_scan() {
    let out = file(vec![1, 0, 0]).get_info();
    assert!(out.parts.is_empty());
    assert_eq!(out.stop, ScanStop::TruncatedHeader { offset: 0 });
}

#[test]
fn scan_records_source_offsets() {
    let mut data = slice_bytes(&[(100, vec![1, 2, 3]), (0, vec![4, 5])]);
    data.extend(slice_bytes(&[(3, vec![6])]));
    let out = file(data).get_info();
    assert_eq!(
        out.parts,
        vec![
            PartInfo { in_offset: 12, out_offset: 100, part_size: 3 },
            PartInfo { in_offset: 23, out_offset: 0, part_size: 2 },
            PartInfo { in_offset: 37, out_offset: 3, part_size: 1 },
        ]
    );
    assert_eq!(out.stop, ScanStop::EndOfData);
}

#[test]
fn trailing_bytes_are_ignored() {
    let mut data = slice_bytes(&[(0, vec![9; 4])]);
    data.extend([0xaa, 0xbb]);
    let out = file(data).get_info();
    assert_eq!(out.parts, vec![PartInfo { in_offset: 12, out_offset: 0, part_size: 4 }]);
    assert_eq!(out.stop, ScanStop::TruncatedHeader { offset: 16 });
}

#[test]
fn part_count_zero_stops_scan() {
    let mut data = slice_bytes(&[(0, vec![1, 2])]);
    data.extend(le(0));
    data.extend(part_bytes(2, &[3, 4]));
    let out = file(data).get_info();
    assert_eq!(out.parts, vec![PartInfo { in_offset: 12, out_offset: 0, part_size: 2 }]);
    assert_eq!(out.stop, ScanStop::InvalidPartCount { offset: 14, part_count: 0 });
}

#[test]
fn part_count_above_limit_stops_scan() {
    let mut data = slice_bytes(&[(0, vec![1, 2])]);
    data.extend(le(81));
    data.extend(part_bytes(2, &[3, 4]));
    let out = file(data).get_info();
    assert_eq!(out.parts, vec![PartInfo { in_offset: 12, out_offset: 0, part_size: 2 }]);
    assert_eq!(out.stop, ScanStop::InvalidPartCount { offset: 14, part_count: 81 });
}

#[test]
fn part_count_at_limit_is_admitted() {
    let parts: Vec<(u32, Vec<u8>)> = (0..80u32).map(|i| (i, vec![i as u8])).collect();
    let out = file(slice_bytes(&parts)).get_info();
    assert_eq!(out.parts.len(), 80);
    assert_eq!(out.stop, ScanStop::EndOfData);
}

#[test]
fn part_size_zero_stops_scan() {
    let mut data = slice_bytes(&[(0, vec![1])]);
    data.extend(le(3));
    data.extend(part_bytes(1, &[2]));
    data.extend(le(5));
    data.extend(le(0));
    data.extend(part_bytes(9, &[3]));
    let out = file(data).get_info();
    assert_eq!(
        out.parts,
        vec![
            PartInfo { in_offset: 12, out_offset: 0, part_size: 1 },
            PartInfo { in_offset: 25, out_offset: 1, part_size: 1 },
        ]
    );
    assert_eq!(out.stop, ScanStop::InvalidPartSize { offset: 26, part_size: 0 });
}

#[test]
fn part_size_above_limit_stops_scan() {
    let mut data = slice_bytes(&[(0, vec![1])]);
    data.extend(le(2));
    data.extend(part_bytes(1, &[2]));
    data.extend(le(5));
    data.extend(le(131073));
    data.extend(vec![0; 64]);
    let out = file(data).get_info();
    assert_eq!(
        out.parts,
        vec![
            PartInfo { in_offset: 12, out_offset: 0, part_size: 1 },
            PartInfo { in_offset: 25, out_offset: 1, part_size: 1 },
        ]
    );
    assert_eq!(out.stop, ScanStop::InvalidPartSize { offset: 26, part_size: 131073 });
}

#[test]
fn part_size_at_limit_is_admitted() {
    let out = file(slice_bytes(&[(0, vec![7; 131072])])).get_info();
    assert_eq!(out.parts, vec![PartInfo { in_offset: 12, out_offset: 0, part_size: 131072 }]);
    assert_eq!(out.stop, ScanStop::EndOfData);
}

#[test]
fn truncated_part_header_stops_scan() {
    let mut data = le(2);
    data.extend(part_bytes(0, &[1]));
    data.extend(le(4));
    let out = file(data).get_info();
    assert_eq!(out.parts, vec![PartInfo { in_offset: 12, out_offset: 0, part_size: 1 }]);
    assert_eq!(out.stop, ScanStop::TruncatedHeader { offset: 13 });
}

#[test]
fn sort_is_stable_and_keeps_every_entry() {
    let a = PartInfo { in_offset: 1, out_offset: 50, part_size: 1 };
    let b = PartInfo { in_offset: 2, out_offset: 10, part_size: 1 };
    let c = PartInfo { in_offset: 3, out_offset: 50, part_size: 2 };
    let d = PartInfo { in_offset: 4, out_offset: 0, part_size: 3 };
    let e = PartInfo { in_offset: 5, out_offset: 10, part_size: 4 };
    let sorted = sort_by_out_offset(&vec![a, b, c, d, e]);
    assert_eq!(sorted, vec![d, b, e, a, c]);
}

#[test]
fn sort_of_empty_catalog_is_empty() {
    assert!(sort_by_out_offset(&vec![]).is_empty());
}

#[test]
fn contiguity_with_gap() {
    let (ordered, report) = order_and_report_info(vec![part(300, 20), part(0, 100), part(100, 50)]);
    assert_eq!(ordered.0, vec![part(0, 100), part(100, 50), part(300, 20)]);
    let report = report.unwrap();
    assert_eq!(report.first_part, part(0, 100));
    assert_eq!(report.last_part, part(300, 20));
    assert_eq!(report.last_contiguous_index, 1);
    assert_eq!(report.last_contiguous, part(100, 50));
    assert_eq!(report.last_contiguous_offset, 150);
    assert_eq!(report.discontinuity_len, 150);
}

#[test]
fn contiguity_fully_contiguous() {
    let report = contiguity_report(&vec![part(0, 10), part(10, 10), part(20, 10)]).unwrap();
    assert_eq!(report.last_contiguous_index, 2);
    assert_eq!(report.last_contiguous_offset, 30);
    assert_eq!(report.discontinuity_len, 0);
}

#[test]
fn contiguity_run_stops_at_first_gap() {
    let report =
        contiguity_report(&vec![part(0, 100), part(100, 50), part(300, 20), part(320, 5)]).unwrap();
    assert_eq!(report.last_contiguous_index, 1);
    assert_eq!(report.last_contiguous_offset, 150);
    assert_eq!(report.discontinuity_len, 170);
}

#[test]
fn contiguity_needs_two_entries() {
    assert_eq!(contiguity_report(&vec![]), None);
    assert_eq!(contiguity_report(&vec![part(0, 10)]), None);
}

#[test]
fn read_part_returns_payload() {
    let f = file(vec![0, 1, 2, 3, 4, 5]);
    assert_eq!(f.read_part(2, 3), Ok(vec![2, 3, 4]));
    assert_eq!(
        f.read_part(4, 3),
        Err(DeserializeError::ShortPayloadRead { in_offset: 4, part_size: 3, available: 2 })
    );
    assert_eq!(
        f.read_part(9, 1),
        Err(DeserializeError::ShortPayloadRead { in_offset: 9, part_size: 1, available: 0 })
    );
}

#[test]
fn write_at_fills_gap_with_zeros() {
    let mut out = DeserializedFile::new("out.bin".to_string());
    out.write_at(3, &vec![7, 8]);
    assert_eq!(out.data, vec![0, 0, 0, 7, 8]);
    out.write_at(1, &vec![5]);
    assert_eq!(out.data, vec![0, 5, 0, 7, 8]);
}

#[test]
fn round_trip_reconstructs_stream() {
    let head: Vec<u8> = (0..40u8).collect();
    let middle: Vec<u8> = (100..120u8).collect();
    let tail: Vec<u8> = vec![0xee; 8];
    let mut data = slice_bytes(&[(0, head.clone()), (92, tail.clone())]);
    data.extend(slice_bytes(&[(40, middle.clone())]));
    data.extend([1, 2, 3]);
    let f = file(data);
    let mut out = DeserializedFile::new("out.bin".to_string());
    assert_eq!(f.write_to_deserialized_file(&mut out), Ok(()));
    assert_eq!(out.name, "out.bin");
    assert_eq!(out.data.len(), 100);
    assert_eq!(&out.data[0..40], &head[..]);
    assert_eq!(&out.data[40..60], &middle[..]);
    assert!(out.data[60..92].iter().all(|b| *b == 0));
    assert_eq!(&out.data[92..100], &tail[..]);
}

#[test]
fn truncated_payload_fails_reconstruction() {
    let mut data = slice_bytes(&[(0, vec![1, 2, 3])]);
    data.extend(le(1));
    data.extend(le(3));
    data.extend(le(1000));
    data.extend(vec![9; 10]);
    let f = file(data);
    let info = f.get_info();
    assert_eq!(
        info.parts,
        vec![
            PartInfo { in_offset: 12, out_offset: 0, part_size: 3 },
            PartInfo { in_offset: 27, out_offset: 3, part_size: 1000 },
        ]
    );
    assert_eq!(info.stop, ScanStop::TruncatedPayload { offset: 19 });
    let mut out = DeserializedFile::new("out.bin".to_string());
    assert_eq!(
        f.write_to_deserialized_file(&mut out),
        Err(DeserializeError::ShortPayloadRead { in_offset: 27, part_size: 1000, available: 10 })
    );
    assert_eq!(out.data, vec![1, 2, 3]);
}
