use lyrad::framing::BLOCK_SIZE;
use lyrad::segment::envelope::{decode_file_header, decode_footer, encode_file_header, encode_index_footer, load_index};
use lyrad::segment::envelope::{read_file_header, valid_index, validate_alignment, ALIGNMENT, FILE_HEADER_SIZE};
use lyrad::segment::error::SegmentError;
use lyrad::segment::files::{list_segment_files, segment_path};
use lyrad::segment::record::{encode_record, read_record, scan_file, PHYSICAL_HEADER_SIZE};
use lyrad::segment::scanner;
use lyrad::segment::scanner::SegmentScanner;
use lyrad::segment::seg::{align_max_records_size, AppendResult, FileSegment, SegmentOffset};
use lyrad::vfs::memory::MemoryVfs;
use lyrad::vfs::{OpenOptions, Vfs, VfsFile};

const DIR: &str = "/segments";

fn filesystem() -> MemoryVfs {
    let mut vfs = MemoryVfs::default();
    vfs.create_dir(DIR).unwrap();
    vfs
}

fn write_file(vfs: &mut MemoryVfs, name: &str, bytes: &[u8]) -> VfsFile {
    let path = format!("{DIR}/{name}");
    let file = vfs.open(&path, OpenOptions::CreateNew).unwrap();
    vfs.append(&file, bytes).unwrap();
    file
}

fn contents(vfs: &MemoryVfs, file: &VfsFile) -> Vec<u8> {
    let size = vfs.size(file).unwrap();
    vfs.read_at(file, 0, size as usize).unwrap()
}

fn rewrite(vfs: &mut MemoryVfs, file: &VfsFile, bytes: &[u8]) {
    vfs.truncate(file, 0).unwrap();
    vfs.append(file, bytes).unwrap();
}

fn encode_records(records: &[Vec<u8>]) -> Vec<u8> {
    let mut encoded = Vec::new();
    for record in records {
        let position = FILE_HEADER_SIZE as u64 + encoded.len() as u64;
        encoded.extend_from_slice(&encode_record(1, position, record, ALIGNMENT).unwrap());
    }
    encoded
}

fn scan_records(vfs: &MemoryVfs, file: &VfsFile, tolerate_tail: bool) -> Result<Vec<Vec<u8>>, SegmentError> {
    let scan = scan_file(vfs, file, tolerate_tail)?;
    scan.index
        .iter()
        .enumerate()
        .map(|(index, position)| {
            let end = scan.index.get(index + 1).copied().unwrap_or(scan.valid_len);
            read_record(vfs, file, scan.segment_number, *position, end, ALIGNMENT)
        })
        .collect()
}

fn scanned_payloads(vfs: &MemoryVfs, file: &VfsFile, tolerate_tail: bool) -> Result<Vec<Vec<u8>>, SegmentError> {
    let mut scanner = SegmentScanner::open0(vfs, file, tolerate_tail)?;
    let mut payloads = Vec::new();
    while let Some(record) = scanner.next(vfs) {
        payloads.push(record?.payload);
    }
    Ok(payloads)
}

#[test]
fn record_records_round_trip_across_blocks() {
    let mut vfs = filesystem();
    let records = vec![b"small".to_vec(), vec![0xAB; BLOCK_SIZE * 2 + 113], Vec::new()];
    let mut bytes = encode_file_header(1, ALIGNMENT).unwrap();
    bytes.extend_from_slice(&encode_records(&records));
    let file = write_file(&mut vfs, "0000000001.seg", &bytes);

    assert_eq!(scan_records(&vfs, &file, false).unwrap(), records);
}

#[test]
fn record_final_partial_record_can_be_discarded() {
    let mut vfs = filesystem();
    let records = vec![vec![0xCD; BLOCK_SIZE]];
    let mut bytes = encode_file_header(1, ALIGNMENT).unwrap();
    bytes.extend_from_slice(&encode_records(&records));
    bytes.truncate(FILE_HEADER_SIZE + 1000);
    let file = write_file(&mut vfs, "0000000001.seg", &bytes);

    let scan = scan_file(&vfs, &file, true).unwrap();
    assert!(scan.index.is_empty());
    assert_eq!(scan.valid_len, FILE_HEADER_SIZE as u64);
    assert!(scan_file(&vfs, &file, false).is_err());
}

#[test]
fn records_before_a_cut_one_are_kept() {
    let mut vfs = filesystem();
    let records = vec![b"kept".to_vec(), vec![0x11; 5000]];
    let mut bytes = encode_file_header(1, ALIGNMENT).unwrap();
    bytes.extend_from_slice(&encode_records(&records));
    let whole = bytes.len();
    for cut in [1, 100, 4095, 4096, 4097, 8191] {
        bytes.truncate(whole);
        let cut_bytes = &bytes[..whole - cut];
        let file = write_file(&mut vfs, &format!("{cut:010}.seg"), cut_bytes);
        let scan = scan_file(&vfs, &file, true).unwrap();
        assert_eq!(scan.index, vec![4096]);
        assert_eq!(scan.valid_len, 8192);
        assert!(scan_file(&vfs, &file, false).is_err());
    }
}

#[test]
fn segment_header_round_trip() {
    let mut vfs = filesystem();
    let file = write_file(&mut vfs, "0000000007.seg", &encode_file_header(7, ALIGNMENT).unwrap());

    let header = read_file_header(&vfs, &file, false).unwrap();
    assert_eq!(header.segment_number, 7);
    assert_eq!(header.alignment, ALIGNMENT);
}

#[test]
fn format_header_round_trip() {
    let mut vfs = filesystem();
    write_file(&mut vfs, "0000000007.seg", &encode_file_header(7, ALIGNMENT).unwrap());
    let scan = scanner::scan_segment(&mut vfs, "/segments/0000000007.seg", false).unwrap();
    assert_eq!(scan.segment_number, 7);
    assert!(scan.index.is_empty());
}

#[test]
fn format_records_round_trip_across_blocks() {
    let mut vfs = filesystem();
    let records = vec![b"small".to_vec(), vec![0xAB; BLOCK_SIZE * 2 + 113], Vec::new()];
    let mut bytes = encode_file_header(1, ALIGNMENT).unwrap();
    bytes.extend_from_slice(&encode_records(&records));
    let file = write_file(&mut vfs, "0000000001.seg", &bytes);

    assert_eq!(scanned_payloads(&vfs, &file, false).unwrap(), records);
    let scan = scanner::scan_file(&vfs, &file, false).unwrap();
    assert_eq!(scan.valid_len, bytes.len() as u64);
    for (position, record) in scan.index.iter().zip(&records) {
        assert_eq!(
            &scanner::read_record(&vfs, &file, 1, *position, bytes.len() as u64).unwrap(),
            record
        );
    }
}

#[test]
fn format_final_partial_record_can_be_discarded() {
    let mut vfs = filesystem();
    let records = vec![vec![0xCD; BLOCK_SIZE]];
    let mut bytes = encode_file_header(1, ALIGNMENT).unwrap();
    bytes.extend_from_slice(&encode_records(&records));
    bytes.truncate(FILE_HEADER_SIZE + 1000);
    write_file(&mut vfs, "0000000001.seg", &bytes);
    let path = "/segments/0000000001.seg";

    let scan = scanner::scan_segment(&mut vfs, path, true).unwrap();
    assert!(scan.index.is_empty());
    assert_eq!(scan.valid_len, FILE_HEADER_SIZE as u64);
    assert!(scanner::scan_segment(&mut vfs, path, false).is_err());
}

#[test]
fn an_index_must_point_to_a_record() {
    let mut vfs = filesystem();
    let mut bytes = encode_file_header(1, ALIGNMENT).unwrap();
    bytes.extend_from_slice(&encode_records(&[b"record".to_vec()]));
    bytes.extend_from_slice(&vec![0; ALIGNMENT]);
    let end = bytes.len() as u64;
    let file = write_file(&mut vfs, "0000000001.seg", &bytes);

    match scanner::read_record(&vfs, &file, 1, 8192, end) {
        Err(SegmentError::Corruption { message, .. }) => assert_eq!(message, "segment index points to no record"),
        other => panic!("{other:?}"),
    }
    assert_eq!(
        scanner::read_record(&vfs, &file, 1, 4096, end).unwrap(),
        b"record".to_vec()
    );
    match read_record(&vfs, &file, 1, 8192, end, ALIGNMENT) {
        Err(SegmentError::Corruption { message, .. }) => assert_eq!(message, "segment index points to no record"),
        other => panic!("{other:?}"),
    }
    match read_record(&vfs, &file, 1, 4096, end, ALIGNMENT) {
        Err(SegmentError::Corruption { message, .. }) => {
            assert_eq!(message, "segment index does not bound one record")
        }
        other => panic!("{other:?}"),
    }
}

#[test]
fn files_malformed_segment_filenames_are_rejected() {
    let mut vfs = filesystem();
    write_file(&mut vfs, "1.seg", &[]);

    match list_segment_files(&vfs, DIR) {
        Err(SegmentError::Corruption { path, message }) => {
            assert_eq!(path, "/segments/1.seg");
            assert_eq!(message, "segment filename must contain exactly ten decimal digits");
        }
        other => panic!("{other:?}"),
    }
}

#[test]
fn segment_files_are_listed_in_order() {
    let mut vfs = filesystem();
    for name in ["0000000010.seg", "0000000002.seg", "notes.txt", "0000000001.seg"] {
        write_file(&mut vfs, name, &[]);
    }
    assert_eq!(
        list_segment_files(&vfs, DIR).unwrap(),
        vec![
            (1, segment_path(DIR, 1)),
            (2, segment_path(DIR, 2)),
            (10, segment_path(DIR, 10)),
        ]
    );
    assert_eq!(segment_path(DIR, 10), "/segments/0000000010.seg");
    assert!(list_segment_files(&vfs, "/elsewhere").is_err());
}

#[test]
fn seg_memory_vfs_seals_and_reopens_a_segment() {
    let mut vfs = MemoryVfs::default();
    let dir = "/wal";
    vfs.create_dir(dir).unwrap();
    let mut segment = FileSegment::create(&mut vfs, dir, 1, ALIGNMENT as u64 * 2).unwrap();

    assert_eq!(
        segment.append(&mut vfs, b"first").unwrap(),
        AppendResult::Appended(SegmentOffset::new(0))
    );
    assert_eq!(
        segment.append(&mut vfs, b"second").unwrap(),
        AppendResult::Appended(SegmentOffset::new(1))
    );
    segment.seal(&mut vfs).unwrap();

    let path = segment.file.path.clone();
    let reopened = FileSegment::open(&mut vfs, &path, ALIGNMENT as u64 * 2).unwrap();
    assert_eq!(
        reopened.read(&vfs, SegmentOffset::new(0)).unwrap(),
        Some(b"first".to_vec())
    );
    assert_eq!(
        reopened.read(&vfs, SegmentOffset::new(1)).unwrap(),
        Some(b"second".to_vec())
    );
}

fn seals_and_reads_by_offset() {
    let mut vfs = filesystem();
    let mut segment = FileSegment::create(&mut vfs, DIR, 1, ALIGNMENT as u64 * 2).unwrap();

    assert_eq!(
        segment.append(&mut vfs, b"first").unwrap(),
        AppendResult::Appended(SegmentOffset::new(0))
    );
    assert_eq!(
        segment.append(&mut vfs, b"second").unwrap(),
        AppendResult::Appended(SegmentOffset::new(1))
    );
    segment.seal(&mut vfs).unwrap();
    vfs.sync(&segment.file).unwrap();

    let path = segment.file.path.clone();
    let reopened = FileSegment::open(&mut vfs, &path, ALIGNMENT as u64 * 2).unwrap();
    assert_eq!(
        reopened.read(&vfs, SegmentOffset::new(0)).unwrap(),
        Some(b"first".to_vec())
    );
    assert_eq!(
        reopened.read(&vfs, SegmentOffset::new(1)).unwrap(),
        Some(b"second".to_vec())
    );
    assert_eq!(reopened.read(&vfs, SegmentOffset::new(2)).unwrap(), None);
}

#[test]
fn seg_sealed_segment_reads_payloads_by_offset() {
    seals_and_reads_by_offset();
}

#[test]
fn file_segment_sealed_segment_reads_payloads_by_offset() {
    seals_and_reads_by_offset();
}

#[test]
fn file_segment_memory_vfs_seals_and_reopens_a_segment() {
    let mut vfs = MemoryVfs::default();
    let dir = "/wal";
    vfs.create_dir(dir).unwrap();
    let mut segment = FileSegment::create(&mut vfs, dir, 1, ALIGNMENT as u64 * 2).unwrap();
    segment.append(&mut vfs, b"first").unwrap();
    segment.append(&mut vfs, b"second").unwrap();
    segment.seal(&mut vfs).unwrap();

    let reopened = FileSegment::open(&mut vfs, "/wal/0000000001.seg", ALIGNMENT as u64 * 2).unwrap();
    assert_eq!(
        reopened.read(&vfs, SegmentOffset::new(0)).unwrap(),
        Some(b"first".to_vec())
    );
    assert_eq!(
        reopened.read(&vfs, SegmentOffset::new(1)).unwrap(),
        Some(b"second".to_vec())
    );
    assert_eq!(reopened.number(), 1);
    assert_eq!(reopened.record_count(), 2);
    assert!(!reopened.needs_repair());
}

fn record_area_is_limited() {
    let mut vfs = filesystem();
    let mut segment = FileSegment::create(&mut vfs, DIR, 1, ALIGNMENT as u64).unwrap();
    assert!(matches!(
        segment.append(&mut vfs, b"record").unwrap(),
        AppendResult::Appended(_)
    ));
    assert_eq!(segment.append(&mut vfs, b"full").unwrap(), AppendResult::Full);
    segment.seal(&mut vfs).unwrap();

    assert!(vfs.size(&segment.file).unwrap() > ALIGNMENT as u64);
}

#[test]
fn seg_record_area_limit_excludes_header_index_and_footer() {
    record_area_is_limited();
}

#[test]
fn file_segment_record_area_limit_excludes_header_index_and_footer() {
    record_area_is_limited();
}

#[test]
fn record_area_limit_rounds_up_to_record_alignment() {
    let mut vfs = filesystem();
    let mut segment = FileSegment::create(&mut vfs, DIR, 1, ALIGNMENT as u64 + 1).unwrap();

    assert!(matches!(
        segment.append(&mut vfs, b"first").unwrap(),
        AppendResult::Appended(_)
    ));
    assert!(matches!(
        segment.append(&mut vfs, b"second").unwrap(),
        AppendResult::Appended(_)
    ));
    assert_eq!(segment.append(&mut vfs, b"full").unwrap(), AppendResult::Full);
}

fn opens_by_footer() {
    let mut vfs = filesystem();
    let mut segment = FileSegment::create(&mut vfs, DIR, 1, ALIGNMENT as u64).unwrap();
    segment.append(&mut vfs, b"record").unwrap();
    segment.seal(&mut vfs).unwrap();
    vfs.sync(&segment.file).unwrap();
    let path = segment.file.path.clone();

    let mut bytes = contents(&vfs, &segment.file);
    bytes[FILE_HEADER_SIZE + PHYSICAL_HEADER_SIZE] ^= 0xFF;
    rewrite(&mut vfs, &segment.file, &bytes);

    let reopened = FileSegment::open(&mut vfs, &path, ALIGNMENT as u64).unwrap();
    assert!(reopened.read(&vfs, SegmentOffset::new(0)).is_err());
}

#[test]
fn seg_valid_footer_opens_without_reading_record_data() {
    opens_by_footer();
}

#[test]
fn file_segment_valid_footer_opens_without_reading_record_data() {
    opens_by_footer();
}

fn rebuilds_index() {
    let mut vfs = filesystem();
    let mut segment = FileSegment::create(&mut vfs, DIR, 1, ALIGNMENT as u64).unwrap();
    segment.append(&mut vfs, b"record").unwrap();
    segment.seal(&mut vfs).unwrap();
    vfs.sync(&segment.file).unwrap();
    let path = segment.file.path.clone();

    let file_len = vfs.size(&segment.file).unwrap();
    vfs.truncate(&segment.file, file_len - 1).unwrap();

    let mut reopened = FileSegment::open(&mut vfs, &path, ALIGNMENT as u64).unwrap();
    assert!(reopened.needs_repair());
    assert_eq!(
        reopened.read(&vfs, SegmentOffset::new(0)).unwrap(),
        Some(b"record".to_vec())
    );
    reopened.seal(&mut vfs).unwrap();
    vfs.sync(&reopened.file).unwrap();

    let reopened = FileSegment::open(&mut vfs, &path, ALIGNMENT as u64).unwrap();
    assert_eq!(reopened.record_count(), 1);
    assert!(!reopened.needs_repair());
}

#[test]
fn seg_corrupt_footer_rebuilds_and_rewrites_the_index() {
    rebuilds_index();
}

#[test]
fn file_segment_corrupt_footer_rebuilds_and_rewrites_the_index() {
    rebuilds_index();
}

#[test]
fn a_sealed_segment_takes_no_records() {
    let mut vfs = filesystem();
    let mut segment = FileSegment::create(&mut vfs, DIR, 3, ALIGNMENT as u64 * 4).unwrap();
    segment.append(&mut vfs, b"one").unwrap();
    segment.seal(&mut vfs).unwrap();
    assert_eq!(segment.append(&mut vfs, b"two"), Err(SegmentError::Sealed));
    assert_eq!(SegmentError::Sealed.message(), "cannot append to a sealed segment");
}

#[test]
fn a_record_larger_than_the_record_area_is_refused() {
    let mut vfs = filesystem();
    let mut segment = FileSegment::create(&mut vfs, DIR, 3, ALIGNMENT as u64).unwrap();
    assert_eq!(
        segment.append(&mut vfs, &vec![1; 5000]),
        Err(SegmentError::RecordTooLarge { size: 8192, max: 4096 })
    );
    assert_eq!(
        SegmentError::RecordTooLarge { size: 8192, max: 4096 }.message(),
        "encoded record size 8192 exceeds the maximum record area size 4096"
    );
}

#[test]
fn record_areas_are_rounded_up() {
    assert_eq!(align_max_records_size(1, 4096).unwrap(), 4096);
    assert_eq!(align_max_records_size(4096, 4096).unwrap(), 4096);
    assert_eq!(align_max_records_size(4097, 512).unwrap(), 4608);
    assert_eq!(
        align_max_records_size(u64::MAX, 4096),
        Err(SegmentError::OffsetExhausted)
    );
    assert_eq!(
        SegmentError::OffsetExhausted.message(),
        "segment offset space is exhausted"
    );
}

#[test]
fn alignments_divide_the_header() {
    assert!(validate_alignment(4096).is_ok());
    assert!(validate_alignment(1).is_ok());
    assert!(validate_alignment(512).is_ok());
    assert!(validate_alignment(0).is_err());
    assert!(validate_alignment(8192).is_err());
    assert!(validate_alignment(4095).is_err());
}

#[test]
fn segment_numbers_fit_the_record_header() {
    assert_eq!(
        encode_record(1 << 32, 4096, b"x", ALIGNMENT),
        Err(SegmentError::SegmentNumberTooLarge(1 << 32))
    );
    assert_eq!(
        SegmentError::SegmentNumberTooLarge(1 << 32).message(),
        "segment number 4294967296 exceeds the physical format limit"
    );
}

#[test]
fn a_record_is_padded_to_its_alignment() {
    let record = encode_record(9, 4096, b"payload", 512).unwrap();
    assert_eq!(record.len(), 512);
    assert_eq!(&record[4..6], &[7, 0]);
    assert_eq!(record[6], 5);
    assert_eq!(&record[7..11], &[9, 0, 0, 0]);
    assert_eq!(&record[11..18], b"payload");
    assert!(record[18..].iter().all(|byte| *byte == 0));
}

#[test]
fn a_changed_header_is_rejected() {
    let bytes = encode_file_header(7, ALIGNMENT).unwrap();
    assert_eq!(bytes.len(), FILE_HEADER_SIZE);
    for at in [0, 8, 10, 12, 20, 24, 28] {
        let mut changed = bytes.clone();
        changed[at] ^= 1;
        match decode_file_header("path", &changed, false) {
            Err(SegmentError::Corruption { path, .. }) => assert_eq!(path, "path"),
            other => panic!("{at}: {other:?}"),
        }
    }
    match decode_file_header("path", &bytes[..100], false) {
        Err(SegmentError::Corruption { message, .. }) => assert_eq!(message, "truncated segment file header"),
        other => panic!("{other:?}"),
    }
}

#[test]
fn a_footer_is_read_back() {
    let bytes = encode_index_footer(5, 8192, &[4096, 8192], ALIGNMENT).unwrap();
    assert_eq!(bytes.len() % 4096, 0);
    let footer = decode_footer(&bytes[bytes.len() - 4096..]).unwrap();
    assert_eq!(footer.segment_number, 5);
    let mut changed = bytes[bytes.len() - 4096..].to_vec();
    changed[9] ^= 1;
    assert!(decode_footer(&changed).is_none());
}

#[test]
fn an_index_ascends_in_steps() {
    assert!(valid_index(&[4096, 8192], 12288, 4096));
    assert!(valid_index(&[], 4096, 4096));
    assert!(!valid_index(&[8192, 4096], 12288, 4096));
    assert!(!valid_index(&[4096, 8191], 12288, 4096));
    assert!(!valid_index(&[4096, 12288], 12288, 4096));
}

#[test]
fn a_scan_tells_a_cut_from_damage() {
    let mut vfs = filesystem();
    let mut bytes = encode_file_header(1, ALIGNMENT).unwrap();
    bytes.extend_from_slice(&encode_records(&[b"first".to_vec(), b"second".to_vec()]));
    bytes[8192 + 11] ^= 0xFF;
    let file = write_file(&mut vfs, "0000000001.seg", &bytes);
    assert_eq!(scanned_payloads(&vfs, &file, true).unwrap(), vec![b"first".to_vec()]);
    match scanned_payloads(&vfs, &file, false) {
        Err(SegmentError::Corruption { message, .. }) => assert_eq!(message, "physical record checksum mismatch"),
        other => panic!("{other:?}"),
    }
}

#[test]
fn a_scan_passes_padding_that_is_shorter_than_a_header() {
    let mut vfs = filesystem();
    for short in 1..=10 {
        let records = vec![vec![7; 4096 - 11 - short], b"second".to_vec()];
        let mut bytes = encode_file_header(1, ALIGNMENT).unwrap();
        bytes.extend_from_slice(&encode_records(&records));
        let file = write_file(&mut vfs, &format!("{short:010}.seg"), &bytes);
        assert_eq!(scan_records(&vfs, &file, false).unwrap(), records);
        assert_eq!(scanned_payloads(&vfs, &file, false).unwrap(), records);
    }
}

#[test]
fn an_appended_record_leaves_the_others_as_they_are() {
    let mut vfs = filesystem();
    let mut segment = FileSegment::create(&mut vfs, DIR, 1, ALIGNMENT as u64 * 8).unwrap();
    let payloads: Vec<Vec<u8>> = (0..4u8).map(|n| vec![n; 100 * n as usize + 1]).collect();
    for (n, payload) in payloads.iter().enumerate() {
        let offset = SegmentOffset::new(n as u64);
        assert!(segment.append(&mut vfs, payload).unwrap() == AppendResult::Appended(offset));
        for (at, held) in payloads[..=n].iter().enumerate() {
            assert_eq!(segment.read(&vfs, SegmentOffset::new(at as u64)).unwrap().as_ref(), Some(held));
        }
        assert_eq!(segment.record_count(), n as u64 + 1);
    }
}

#[test]
fn a_seal_changes_no_answer_and_a_second_one_nothing() {
    let mut vfs = filesystem();
    let mut segment = FileSegment::create(&mut vfs, DIR, 1, ALIGNMENT as u64 * 4).unwrap();
    segment.append(&mut vfs, b"first").unwrap();
    segment.append(&mut vfs, b"second").unwrap();
    segment.seal(&mut vfs).unwrap();
    let file = vfs.open(&segment_path(DIR, 1), OpenOptions::Existing).unwrap();
    let sealed = contents(&vfs, &file);
    assert!(matches!(segment.append(&mut vfs, b"third"), Err(SegmentError::Sealed)));
    assert_eq!(segment.record_count(), 2);
    assert_eq!(segment.read(&vfs, SegmentOffset::new(0)).unwrap(), Some(b"first".to_vec()));
    assert_eq!(segment.read(&vfs, SegmentOffset::new(1)).unwrap(), Some(b"second".to_vec()));
    segment.seal(&mut vfs).unwrap();
    assert_eq!(contents(&vfs, &file), sealed);
}

#[test]
fn a_changed_byte_of_a_header_or_a_seal_is_found() {
    let header = encode_file_header(9, ALIGNMENT).unwrap();
    for at in 0..32 {
        let mut changed = header.clone();
        changed[at] ^= 0x40;
        assert!(matches!(
            decode_file_header("/segments/0000000009.seg", &changed, true),
            Err(SegmentError::Corruption { .. })
        ));
    }
    let mut vfs = filesystem();
    let mut whole = header;
    whole.extend_from_slice(&encode_records(&[b"one".to_vec()]));
    let end = whole.len();
    let size = (end - FILE_HEADER_SIZE) as u64;
    whole.extend_from_slice(&encode_index_footer(9, size, &[FILE_HEADER_SIZE as u64], ALIGNMENT).unwrap());
    let file = write_file(&mut vfs, "0000000009.seg", &whole);
    assert!(load_index(&vfs, &file, ALIGNMENT).unwrap().is_some());
    for at in (end..whole.len()).step_by(13) {
        let mut changed = whole.clone();
        changed[at] ^= 0x40;
        rewrite(&mut vfs, &file, &changed);
        assert!(load_index(&vfs, &file, ALIGNMENT).unwrap().is_none());
    }
}

#[test]
fn record_offsets_are_ordered_as_numbers() {
    assert!(SegmentOffset::new(1) < SegmentOffset::new(2));
    assert!(SegmentOffset::new(2) > SegmentOffset::new(1));
    assert_eq!(SegmentOffset::new(2).max(SegmentOffset::new(7)), SegmentOffset::new(7));
}
