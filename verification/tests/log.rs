use lyrad::framing::{RecordType, BLOCK_SIZE, HEADER_SIZE};
use lyrad::vfs::memory::MemoryVfs;
use lyrad::vfs::{IoError, IoErrorKind, OpenOptions, Vfs, VfsFile};
use lyrad::wal::codec::{decode_fragment, decode_record, encode_record, encode_record_parts};
use lyrad::wal::delivery::{Delivery, DeliveryAction, DeliveryEvent};
use lyrad::wal::error::WalError;
use lyrad::wal::files::{list_segments, make_segment_path};
use lyrad::wal::lifecycle::{
    open_locked, panic_message, queue_outcome, startup_error, Lifecycle, LockReply, Opened, QueueReply,
};
use lyrad::wal::offset::SegmentOffset;
use lyrad::wal::options::LogOptions;
use lyrad::wal::publisher::{apply_step, ApplyAction, ApplyEvent, PublishBatch};
use lyrad::wal::recovery::{decode_sequence, recover_state, RecoveredState, WAL_SEGMENT_SIZE};
use lyrad::wal::segment::{FileSegment, SegmentSyncHandle};
use lyrad::wal::source::SliceSource;
use lyrad::wal::syncer::{gather, perform_sync, settle, AppendCompletion, SyncLoop, SyncOperation};
use lyrad::wal::writer::{AppendOp, Batch, Operation, WriterLoop};
use std::collections::{BTreeSet, VecDeque};

const DIR: &str = "/wal";

fn filesystem() -> MemoryVfs {
    let mut vfs = MemoryVfs::default();
    vfs.create_dir(DIR).unwrap();
    vfs
}

fn open_existing(vfs: &mut MemoryVfs, path: &str) -> VfsFile {
    vfs.open(path, OpenOptions::Existing).unwrap()
}

fn size_of(vfs: &mut MemoryVfs, path: &str) -> u64 {
    let file = open_existing(vfs, path);
    vfs.size(&file).unwrap()
}

/// One log on one thread: each append is written and made durable before the
/// next one is taken.
struct SegmentLog {
    lifecycle: Lifecycle,
    writer: WriterLoop,
    wait_for_sync: bool,
    unsynced: VecDeque<SyncOperation<()>>,
}

impl SegmentLog {
    fn open(vfs: &mut MemoryVfs, options: &LogOptions) -> Result<SegmentLog, WalError> {
        vfs.create_dir(&options.dir).map_err(WalError::io)?;
        let recovered = recover_state(vfs, &options.dir)?;
        Ok(SegmentLog {
            lifecycle: Lifecycle::Running,
            writer: WriterLoop::new(options.dir.clone(), recovered),
            wait_for_sync: options.sync,
            unsynced: VecDeque::new(),
        })
    }

    fn append(&mut self, vfs: &mut MemoryVfs, payload: &[u8]) -> Result<u64, WalError> {
        self.lifecycle.accepts()?;
        let append = AppendOp { payload: payload.to_vec(), handle: () };
        let (request, told) = self
            .writer
            .write_append(vfs, append, self.wait_for_sync)
            .map_err(|(_, error)| error)?;
        self.unsynced.push_back(SyncOperation::Sync(request));
        match told {
            Some(outcome) => outcome.result,
            None => self.sync(vfs).pop().unwrap(),
        }
    }

    fn sync(&mut self, vfs: &mut MemoryVfs) -> Vec<Result<u64, WalError>> {
        let group = gather(std::mem::take(&mut self.unsynced));
        let settled = settle(vfs, DIR, group);
        settled.outcomes.into_iter().map(|outcome| outcome.result).collect()
    }

    fn close(&mut self, vfs: &mut MemoryVfs) {
        if self.lifecycle.begin_close() {
            self.unsynced.push_back(SyncOperation::Close);
            self.sync(vfs);
            self.lifecycle.finish_close();
        }
    }
}

fn standard_options() -> LogOptions {
    LogOptions::new(DIR, true)
}

fn encode_records(records: &[Vec<u8>]) -> (Vec<u8>, Vec<(u64, u64)>) {
    let mut encoded = Vec::new();
    let mut bounds = Vec::with_capacity(records.len());
    for record in records {
        let position = encoded.len() as u64;
        let encoded_record = encode_record(1, position, record).unwrap();
        let end = position + encoded_record.len() as u64;
        encoded.extend_from_slice(&encoded_record);
        bounds.push((position, end));
    }
    (encoded, bounds)
}

fn round_trips_across_blocks() {
    let records = vec![b"small".to_vec(), vec![0xAB; BLOCK_SIZE * 2 + 113], Vec::new()];
    let (encoded, bounds) = encode_records(&records);
    let file_end = encoded.len() as u64;
    let mut reader = SliceSource::new(&encoded);
    let decoded = bounds
        .into_iter()
        .map(|(position, end)| {
            let (next_position, payload) = decode_record(&mut reader, "segment", 1, position, file_end).unwrap();
            assert_eq!(next_position, end);
            payload
        })
        .collect::<Vec<_>>();
    assert_eq!(decoded, records);
}

#[test]
fn record_logical_records_round_trip_across_blocks() {
    round_trips_across_blocks();
}

#[test]
fn segment_logical_records_round_trip_across_blocks() {
    round_trips_across_blocks();
}

#[test]
fn record_parts_round_trip_across_fragments() {
    let prefix = [0xAB; 8];
    let payload = vec![0xCD; BLOCK_SIZE];
    let mut encoded = Vec::new();
    encode_record_parts(&mut encoded, 1, 0, &prefix, &payload).unwrap();

    let file_end = encoded.len() as u64;
    let (_, decoded) = decode_record(&mut SliceSource::new(&encoded), "segment", 1, 0, file_end).unwrap();
    let mut expected = prefix.to_vec();
    expected.extend_from_slice(&payload);
    assert_eq!(decoded, expected);
}

#[test]
fn record_parts_match_contiguous_encoding_at_block_boundaries() {
    let prefix = [0xAB; 8];
    for start_position in [0, BLOCK_SIZE as u64 - 5, BLOCK_SIZE as u64 - HEADER_SIZE as u64] {
        for payload_size in [0, 1, BLOCK_SIZE, BLOCK_SIZE * 2] {
            let payload = vec![0xCD; payload_size];
            let mut contiguous = prefix.to_vec();
            contiguous.extend_from_slice(&payload);
            let expected = encode_record(1, start_position, &contiguous).unwrap();
            let mut actual = Vec::new();
            encode_record_parts(&mut actual, 1, start_position, &prefix, &payload).unwrap();
            assert_eq!(actual, expected);
        }
    }
}

fn truncation_is_told_apart() {
    let record = vec![0xCD; BLOCK_SIZE];
    let mut encoded = encode_record(1, 0, &record).unwrap();
    encoded.truncate(1000);
    let file_end = encoded.len() as u64;
    let error = decode_record(&mut SliceSource::new(&encoded), "segment", 1, 0, file_end).unwrap_err();
    assert!(matches!(error, WalError::Truncated { .. }));
}

#[test]
fn record_truncated_logical_record_is_distinct_from_corruption() {
    truncation_is_told_apart();
}

#[test]
fn segment_truncated_logical_record_is_distinct_from_corruption() {
    truncation_is_told_apart();
}

#[test]
fn physical_record_round_trip() {
    let encoded = encode_record(7, 0, b"payload").unwrap();

    let encoded_size = encoded.len();
    let (record_type, payload, consumed) = decode_fragment(
        &mut SliceSource::new(&encoded),
        "segment",
        7,
        encoded_size,
        encoded_size as u64,
    )
    .unwrap();
    assert_eq!(record_type, RecordType::Full);
    assert_eq!(payload, b"payload".to_vec());
    assert_eq!(consumed, encoded_size as u64);
}

fn reads_without_envelopes() {
    let mut vfs = filesystem();
    let mut segment = FileSegment::create(&mut vfs, DIR, 1, 4096).unwrap();
    segment.append(&mut vfs, b"first").unwrap();
    segment.append(&mut vfs, b"second").unwrap();
    segment.sync_handle().sync(&mut vfs).unwrap();

    let (next_position, records) = segment.read(&mut vfs, 0, 5).unwrap();
    assert_eq!(records, vec![b"first".to_vec()]);
    assert_eq!(next_position, 16);

    let (next_position, records) = segment.read(&mut vfs, next_position, 6).unwrap();
    assert_eq!(records, vec![b"second".to_vec()]);
    assert_eq!(next_position, 33);
}

#[test]
fn seg_appends_and_reads_records_without_metadata_envelopes() {
    reads_without_envelopes();
}

#[test]
fn segment_appends_and_reads_records_without_metadata_envelopes() {
    reads_without_envelopes();
}

#[test]
fn appends_multiple_records_with_one_batch() {
    let mut vfs = filesystem();
    let mut segment = FileSegment::create(&mut vfs, DIR, 1, 4096).unwrap();
    let records = [(&b"pre"[..], &b"fix"[..]), (&b""[..], &b"second"[..])];

    assert_eq!(segment.append_batch(&mut vfs, &records), Ok(2));
    let (_, records) = segment.read(&mut vfs, 0, 12).unwrap();
    assert_eq!(records, vec![b"prefix".to_vec(), b"second".to_vec()]);
}

#[test]
fn batch_stops_before_the_segment_limit() {
    let mut vfs = filesystem();
    let mut segment = FileSegment::create(&mut vfs, DIR, 1, 16).unwrap();
    let records = [(&b""[..], &b"first"[..]), (&b""[..], &b"second"[..])];

    assert_eq!(segment.append_batch(&mut vfs, &records), Ok(1));
    assert_eq!(segment.append(&mut vfs, b"second"), Err(WalError::SegmentFull));
    let (_, records) = segment.read(&mut vfs, 0, 5).unwrap();
    assert_eq!(records, vec![b"first".to_vec()]);
}

fn limit_counts_records_alone() {
    let mut vfs = filesystem();
    let mut segment = FileSegment::create(&mut vfs, DIR, 1, 16).unwrap();
    segment.append(&mut vfs, b"first").unwrap();
    assert_eq!(segment.append(&mut vfs, b"second"), Err(WalError::SegmentFull));
    assert_eq!(size_of(&mut vfs, &make_segment_path(DIR, 1)), 16);
}

#[test]
fn seg_maximum_size_has_no_external_metadata() {
    limit_counts_records_alone();
}

#[test]
fn segment_maximum_size_has_no_external_metadata() {
    limit_counts_records_alone();
}

fn small_buffers_are_refused() {
    let mut vfs = filesystem();
    let mut segment = FileSegment::create(&mut vfs, DIR, 1, 4096).unwrap();
    segment.append(&mut vfs, b"record").unwrap();

    assert!(matches!(
        segment.read(&mut vfs, 0, 5),
        Err(WalError::ReadBufferTooSmall { size: 6, max: 5 })
    ));
}

#[test]
fn seg_read_rejects_a_first_record_larger_than_the_byte_limit() {
    small_buffers_are_refused();
}

#[test]
fn segment_read_rejects_a_first_record_larger_than_the_byte_limit() {
    small_buffers_are_refused();
}

#[test]
fn a_segment_is_cut_where_asked_and_not_lengthened() {
    let mut vfs = filesystem();
    let mut segment = FileSegment::create(&mut vfs, DIR, 1, 4096).unwrap();
    segment.append(&mut vfs, b"first").unwrap();
    segment.append(&mut vfs, b"second").unwrap();
    match segment.truncate(&mut vfs, 34) {
        Err(WalError::Corruption { message, .. }) => assert_eq!(message, "cannot truncate segment 1 from 33 to 34"),
        other => panic!("{other:?}"),
    }
    segment.truncate(&mut vfs, 16).unwrap();
    assert_eq!(size_of(&mut vfs, "/wal/0000000001.seg"), 16);
    segment.append(&mut vfs, b"other").unwrap();
    let (end, records) = segment.read(&mut vfs, 0, 100).unwrap();
    assert_eq!(records, vec![b"first".to_vec(), b"other".to_vec()]);
    assert_eq!(end, 32);
}

#[test]
fn mod_malformed_segment_filenames_are_rejected() {
    let mut vfs = filesystem();
    let path = "/wal/1.seg";
    vfs.open(path, OpenOptions::CreateNew).unwrap();

    let error = list_segments(&vfs, DIR).unwrap_err();
    assert!(matches!(error, WalError::Corruption { path: error_path, .. } if error_path == path));
}

fn seed_records(vfs: &mut MemoryVfs, records: &[(u64, Vec<u8>)], max_records_size: u64) -> Result<(), WalError> {
    let mut active_segment: Option<FileSegment> = None;
    let mut dirty_segments: Vec<SegmentSyncHandle> = Vec::new();
    let mut next_segment_number = 1;
    for (sequence, payload) in records {
        let mut record = Vec::with_capacity(8 + payload.len());
        record.extend_from_slice(&sequence.to_le_bytes());
        record.extend_from_slice(payload);
        loop {
            if active_segment.is_none() {
                active_segment = Some(FileSegment::create(vfs, DIR, next_segment_number, max_records_size)?);
                next_segment_number += 1;
            }
            match active_segment.as_mut().unwrap().append(vfs, &record) {
                Ok(()) => break,
                Err(WalError::SegmentFull) => {
                    dirty_segments.push(active_segment.take().unwrap().sync_handle());
                }
                Err(error) => return Err(error),
            }
        }
    }
    if let Some(segment) = active_segment.as_ref() {
        dirty_segments.push(segment.sync_handle());
    }
    perform_sync(vfs, &dirty_segments, true, DIR)
}

fn seed_segments(vfs: &mut MemoryVfs, payloads: &[Vec<u8>], max_records_size: u64) {
    let records: Vec<_> = payloads
        .iter()
        .enumerate()
        .map(|(sequence, payload)| (sequence as u64, payload.clone()))
        .collect();
    seed_records(vfs, &records, max_records_size).unwrap();
}

fn recovers_rotated_segments() {
    let mut vfs = filesystem();
    let payloads: Vec<_> = (0..4u8).map(|value| vec![value; 128]).collect();
    seed_segments(&mut vfs, &payloads, 147);

    assert_eq!(list_segments(&vfs, DIR).unwrap().len(), 4);
    let mut log = SegmentLog::open(&mut vfs, &standard_options()).unwrap();
    assert_eq!(log.append(&mut vfs, b"next").unwrap(), 4);
    log.close(&mut vfs);
}

#[test]
fn log_recovers_sequence_across_rotated_segments() {
    recovers_rotated_segments();
}

#[test]
fn log_writer_recovers_sequence_across_rotated_segments() {
    recovers_rotated_segments();
}

fn large_record_is_refused() {
    let mut vfs = filesystem();
    let payload = vec![0xA5; 1024 * 1024 + 17];
    let error = seed_records(&mut vfs, &[(0, payload)], 64 * 1024).unwrap_err();
    assert!(matches!(error, WalError::RecordTooLarge { .. }));
}

#[test]
fn log_a_record_cannot_exceed_the_record_area_size() {
    large_record_is_refused();
}

#[test]
fn log_writer_a_record_cannot_exceed_the_record_area_size() {
    large_record_is_refused();
}

fn torn_nonfinal_segment() {
    let mut vfs = filesystem();
    let payloads = vec![vec![0x11; 128], vec![0x22; 128]];
    seed_segments(&mut vfs, &payloads, 147);

    let files = list_segments(&vfs, DIR).unwrap();
    assert_eq!(files.len(), 2);
    let file = open_existing(&mut vfs, &files[0].1);
    vfs.truncate(&file, 4).unwrap();

    let error = SegmentLog::open(&mut vfs, &standard_options()).err().unwrap();
    assert!(matches!(error, WalError::Corruption { .. }));
    assert_eq!(size_of(&mut vfs, &files[0].1), 4);
}

#[test]
fn log_recovery_rejects_a_torn_nonfinal_segment() {
    torn_nonfinal_segment();
}

#[test]
fn log_writer_recovery_rejects_a_torn_nonfinal_segment() {
    torn_nonfinal_segment();
}

fn torn_final_segment() {
    let mut vfs = filesystem();
    let payloads = vec![vec![0x11; 128], vec![0x22; 128]];
    seed_segments(&mut vfs, &payloads, WAL_SEGMENT_SIZE);

    let path = list_segments(&vfs, DIR).unwrap()[0].1.clone();
    let file = open_existing(&mut vfs, &path);
    vfs.truncate(&file, 151).unwrap();

    let mut log = SegmentLog::open(&mut vfs, &standard_options()).unwrap();
    assert_eq!(size_of(&mut vfs, &path), 147);
    assert_eq!(log.append(&mut vfs, b"replacement").unwrap(), 1);
    log.close(&mut vfs);

    let mut reopened = SegmentLog::open(&mut vfs, &standard_options()).unwrap();
    assert_eq!(reopened.append(&mut vfs, b"next").unwrap(), 2);
    reopened.close(&mut vfs);
}

#[test]
fn log_recovery_truncates_a_torn_final_segment_and_continues() {
    torn_final_segment();
}

#[test]
fn log_writer_recovery_truncates_a_torn_final_segment_and_continues() {
    torn_final_segment();
}

fn checksum_corruption() {
    let mut vfs = filesystem();
    seed_segments(&mut vfs, &[b"record".to_vec()], WAL_SEGMENT_SIZE);

    let path = list_segments(&vfs, DIR).unwrap()[0].1.clone();
    let file = open_existing(&mut vfs, &path);
    let file_size = vfs.size(&file).unwrap();
    let mut bytes = vfs.read_at(&file, 0, file_size as usize).unwrap();
    bytes[11] ^= 0xFF;
    vfs.truncate(&file, 0).unwrap();
    vfs.append(&file, &bytes).unwrap();

    let error = SegmentLog::open(&mut vfs, &standard_options()).err().unwrap();
    assert!(matches!(
        error,
        WalError::Corruption { message, .. } if message == "physical record checksum mismatch"
    ));
    assert_eq!(size_of(&mut vfs, &path), file_size);
}

#[test]
fn log_recovery_rejects_checksum_corruption_in_the_final_segment() {
    checksum_corruption();
}

#[test]
fn log_writer_recovery_rejects_checksum_corruption_in_the_final_segment() {
    checksum_corruption();
}

fn sequence_gap() {
    let mut vfs = filesystem();
    let records = [(0, b"zero".to_vec()), (2, b"two".to_vec())];

    seed_records(&mut vfs, &records, WAL_SEGMENT_SIZE).unwrap();

    let error = recover_state(&mut vfs, DIR).unwrap_err();
    assert!(matches!(
        error,
        WalError::Corruption { message, .. } if message == "expected WAL sequence 1, found 2"
    ));
}

#[test]
fn log_recovery_rejects_a_sequence_gap() {
    sequence_gap();
}

#[test]
fn log_writer_recovery_rejects_a_sequence_gap() {
    sequence_gap();
}

fn renamed_segment() {
    let mut vfs = filesystem();
    seed_segments(&mut vfs, &[b"record".to_vec()], WAL_SEGMENT_SIZE);
    let (_, original_path) = list_segments(&vfs, DIR).unwrap().pop().unwrap();
    let renamed_path = "/wal/0000000002.seg";
    let original = open_existing(&mut vfs, &original_path);
    let size = vfs.size(&original).unwrap();
    let bytes = vfs.read_at(&original, 0, size as usize).unwrap();
    let renamed = vfs.open(renamed_path, OpenOptions::CreateNew).unwrap();
    vfs.append(&renamed, &bytes).unwrap();
    vfs.remove(&original_path).unwrap();

    let error = recover_state(&mut vfs, DIR).unwrap_err();
    assert!(matches!(
        error,
        WalError::Corruption { path, message }
            if path == renamed_path && message == "physical record segment number mismatch"
    ));
}

#[test]
fn log_recovery_rejects_a_segment_filename_record_mismatch() {
    renamed_segment();
}

#[test]
fn log_writer_recovery_rejects_a_segment_filename_record_mismatch() {
    renamed_segment();
}

#[test]
fn files_share_contents_between_handles() {
    let mut vfs = MemoryVfs::default();
    let path = "/wal/0000000001.seg";
    vfs.create_dir(DIR).unwrap();

    let created = vfs.open(path, OpenOptions::CreateNew).unwrap();
    assert_eq!(vfs.append(&created, b"record").unwrap(), 0);
    let opened = vfs.open(path, OpenOptions::Existing).unwrap();

    assert_eq!(vfs.read_at(&opened, 0, 6).unwrap(), b"record".to_vec());
    assert_eq!(vfs.list(DIR).unwrap(), vec![path.to_string()]);
}

#[test]
fn appends_return_sequential_sequences() {
    let mut vfs = MemoryVfs::default();
    let mut wal = SegmentLog::open(&mut vfs, &standard_options()).unwrap();

    assert_eq!(wal.append(&mut vfs, b"one").unwrap(), 0);
    assert_eq!(wal.append(&mut vfs, b"").unwrap(), 1);
    assert_eq!(wal.append(&mut vfs, b"three").unwrap(), 2);
    wal.close(&mut vfs);
}

#[test]
fn concurrent_callers_receive_unique_ordered_sequences() {
    let mut vfs = filesystem();
    let mut writer = WriterLoop::new(DIR.to_string(), recover_state(&mut vfs, DIR).unwrap());
    let operations: VecDeque<Operation<u8>> = (0..100u8)
        .map(|value| Operation::Append(AppendOp { payload: vec![value], handle: value }))
        .collect();
    let mut batch = writer.assign(operations);
    let mut sequences = BTreeSet::new();
    while let Some((sequence, handle)) = batch.next_completion() {
        assert_eq!(sequence, handle as u64);
        sequences.insert(sequence);
    }
    assert_eq!(sequences, (0..100).collect());
}

#[test]
fn buffered_wal_appends() {
    let mut vfs = MemoryVfs::default();
    let mut wal = SegmentLog::open(&mut vfs, &standard_options()).unwrap();

    wal.append(&mut vfs, b"buffered").unwrap();
    wal.close(&mut vfs);
}

#[test]
fn close_is_idempotent_and_rejects_new_appends() {
    let mut vfs = MemoryVfs::default();
    let mut wal = SegmentLog::open(&mut vfs, &standard_options()).unwrap();
    wal.close(&mut vfs);
    wal.close(&mut vfs);
    assert!(wal.append(&mut vfs, b"late").is_err());
}

#[test]
fn concurrent_close_callers_all_complete_cleanly() {
    let mut vfs = MemoryVfs::default();
    let mut wal = SegmentLog::open(&mut vfs, &standard_options()).unwrap();
    for _ in 0..16 {
        wal.close(&mut vfs);
    }
    assert_eq!(wal.append(&mut vfs, b"late"), Err(WalError::Closed));
}

/// A directory and whether a log holds its lock.
struct Directory {
    vfs: MemoryVfs,
    locked: bool,
}

impl Directory {
    fn open(&mut self) -> Result<WriterLoop, WalError> {
        self.vfs.create_dir(DIR).map_err(WalError::io)?;
        let reply = if self.locked { LockReply::HeldElsewhere } else { LockReply::Taken };
        self.locked = true;
        match open_locked(&mut self.vfs, DIR, reply) {
            Opened::Started(writer) => Ok(writer),
            Opened::Refused { error, release_lock } => {
                if release_lock {
                    self.locked = false;
                }
                Err(error)
            }
        }
    }

    fn close(&mut self, _: WriterLoop) {
        self.locked = false;
    }
}

#[test]
fn only_one_log_instance_can_own_a_directory() {
    let mut directory = Directory { vfs: filesystem(), locked: false };
    let first = directory.open().unwrap();

    let error = directory.open().err().unwrap();
    assert_eq!(error, WalError::Locked(DIR.to_string()));

    directory.close(first);
    let reopened = directory.open().unwrap();
    directory.close(reopened);

    let failure = LockReply::Failed(IoError::new(IoErrorKind::Other, "no locks"));
    match open_locked(&mut directory.vfs, DIR, failure) {
        Opened::Refused { error, release_lock } => {
            assert_eq!(error, WalError::Io("no locks".to_string()));
            assert!(!release_lock);
        }
        Opened::Started(_) => panic!("started without a lock"),
    }
}

#[test]
fn recovery_failure_releases_the_directory_lock() {
    let mut directory = Directory { vfs: filesystem(), locked: false };
    let malformed = "/wal/1.seg";
    directory.vfs.open(malformed, OpenOptions::CreateNew).unwrap();

    assert!(matches!(
        directory.open(),
        Err(WalError::Corruption { path, .. }) if path == malformed
    ));

    directory.vfs.remove(malformed).unwrap();
    let reopened = directory.open().unwrap();
    directory.close(reopened);
}

#[test]
fn appends_a_large_payload_within_the_record_area_limit() {
    let mut vfs = MemoryVfs::default();
    let mut wal = SegmentLog::open(&mut vfs, &standard_options()).unwrap();
    let payload = vec![0xA5; 1024 * 1024 + 17];

    assert_eq!(wal.append(&mut vfs, &payload).unwrap(), 0);
    wal.close(&mut vfs);
}

#[test]
fn close_flushes_unsynced_appends() {
    let mut vfs = MemoryVfs::default();
    let options = LogOptions::new(DIR, false);
    let mut wal = SegmentLog::open(&mut vfs, &options).unwrap();

    for value in 0..3u8 {
        assert_eq!(wal.append(&mut vfs, &[value]).unwrap(), value as u64);
    }
    wal.close(&mut vfs);

    let mut reopened = SegmentLog::open(&mut vfs, &options).unwrap();
    assert_eq!(reopened.append(&mut vfs, b"next").unwrap(), 3);
    reopened.close(&mut vfs);
}

#[test]
fn write_failure_does_not_strand_its_caller() {
    let mut vfs = MemoryVfs::default();
    let mut wal = SegmentLog::open(&mut vfs, &standard_options()).unwrap();
    let mut elsewhere = MemoryVfs::default();

    let result = wal.append(&mut elsewhere, b"blocked");
    assert!(matches!(result, Err(WalError::Io(_))));
    wal.close(&mut vfs);
}

#[test]
fn reopen_recovers_sequences() {
    let mut vfs = MemoryVfs::default();
    let options = standard_options();
    {
        let mut wal = SegmentLog::open(&mut vfs, &options).unwrap();
        for value in 0..3u8 {
            assert_eq!(wal.append(&mut vfs, &[value]).unwrap(), value as u64);
        }
        wal.close(&mut vfs);
    }
    assert_eq!(list_segments(&vfs, DIR).unwrap().len(), 1);

    let mut wal = SegmentLog::open(&mut vfs, &options).unwrap();
    // Sequence numbering resumes after the last durable record.
    assert_eq!(wal.append(&mut vfs, b"next").unwrap(), 3);
    wal.close(&mut vfs);
}

#[test]
fn racing_appends_and_close_never_strands_a_caller() {
    for closed_after in [0, 1, 50, 100] {
        let mut vfs = filesystem();
        let mut writer = WriterLoop::new(DIR.to_string(), recover_state(&mut vfs, DIR).unwrap());
        let mut operations: VecDeque<Operation<u8>> = VecDeque::new();
        for value in 0..100u8 {
            if value == closed_after {
                operations.push_back(Operation::Close);
            }
            operations.push_back(Operation::Append(AppendOp { payload: vec![value], handle: value }));
        }
        let batch = writer.assign(operations);
        assert_eq!(batch.write_then_close, closed_after < 100);
        let (taken, failed, stop) = deliver(&mut vfs, &mut writer, batch);
        assert!(failed.is_empty());
        assert_eq!(stop, closed_after < 100);
        let successful: BTreeSet<u64> = taken.into_iter().map(|(sequence, _)| sequence).collect();
        assert_eq!(successful, (0..successful.len() as u64).collect::<BTreeSet<_>>());
        assert_eq!(successful.len(), 100);
    }
}

#[test]
fn no_sequence_follows_the_last_one() {
    let mut vfs = filesystem();
    let recovered = RecoveredState {
        next_sequence: u64::MAX - 1,
        next_segment_number: 1,
        active_segment: None,
    };
    let mut writer = WriterLoop::new(DIR.to_string(), recovered);
    let append = |value: u8| Operation::Append(AppendOp { payload: vec![value], handle: value });
    let mut batch = writer.assign(VecDeque::from(vec![append(1), append(2), append(3), Operation::Close]));
    assert_eq!(batch.pending.len(), 1);
    let (handle, error) = batch.refused.take().unwrap();
    assert_eq!(handle, 2);
    assert!(matches!(error, WalError::Worker(_)));
    assert_eq!(batch.unread.len(), 2);
    assert!(batch.ends());
    assert_eq!(writer.write_pending(&mut vfs, &batch.pending).unwrap(), 1);
}

fn numbered_batch(vfs: &mut MemoryVfs, count: u8) -> (WriterLoop, Batch<u8>) {
    let mut writer = WriterLoop::new(DIR.to_string(), recover_state(vfs, DIR).unwrap());
    let operations = (0..count)
        .map(|value| Operation::Append(AppendOp { payload: vec![value], handle: value }))
        .collect();
    let batch = writer.assign(operations);
    (writer, batch)
}

#[test]
fn a_full_queue_is_announced_once() {
    let mut vfs = filesystem();
    let (mut writer, batch) = numbered_batch(&mut vfs, 3);
    let mut delivery = Delivery::new(batch);
    let mut step = |event: DeliveryEvent<u8>| delivery.step(&mut writer, &mut vfs, event);
    assert!(matches!(step(DeliveryEvent::Proceed), DeliveryAction::Proceed));
    let first = match step(DeliveryEvent::Proceed) {
        DeliveryAction::Offer(completion) => completion,
        _ => panic!("the first completion is offered"),
    };
    assert_eq!((first.sequence, first.handle), (0, 0));
    assert!(matches!(step(DeliveryEvent::Full(first)), DeliveryAction::Hand(_)));
    assert!(matches!(step(DeliveryEvent::Taken), DeliveryAction::Proceed));
    let second = match step(DeliveryEvent::Proceed) {
        DeliveryAction::Offer(completion) => completion,
        _ => panic!("the second completion is offered"),
    };
    match step(DeliveryEvent::Full(second)) {
        DeliveryAction::Announce { sequence, active } => {
            assert_eq!(sequence, 0);
            assert_eq!(active.map(|segment| segment.number), Some(1));
        }
        _ => panic!("the first sequence is announced"),
    }
    let second = match step(DeliveryEvent::Announced) {
        DeliveryAction::Hand(completion) => completion,
        _ => panic!("the second completion waits for room"),
    };
    match step(DeliveryEvent::Closed(second)) {
        DeliveryAction::Fail(failed) => {
            let stopped = WalError::Worker("WAL sync thread stopped".to_string());
            assert_eq!(failed, vec![(1, stopped.clone()), (2, stopped)]);
        }
        _ => panic!("all callers are told"),
    }
    assert!(matches!(step(DeliveryEvent::Proceed), DeliveryAction::End { stop: true }));
}

/// Takes a batch through the writer with a queue that takes everything.
fn deliver(vfs: &mut MemoryVfs, writer: &mut WriterLoop, batch: Batch<u8>) -> (Vec<(u64, u8)>, Vec<u8>, bool) {
    let mut delivery = Delivery::new(batch);
    let mut event = DeliveryEvent::Proceed;
    let mut taken = Vec::new();
    let mut failed = Vec::new();
    loop {
        event = match delivery.step(writer, vfs, event) {
            DeliveryAction::Proceed => DeliveryEvent::Proceed,
            DeliveryAction::Offer(completion) | DeliveryAction::Hand(completion) => {
                taken.push((completion.sequence, completion.handle));
                DeliveryEvent::Taken
            }
            DeliveryAction::Announce { sequence, .. } => {
                assert_eq!(Some(sequence), taken.last().map(|(sequence, _)| *sequence));
                DeliveryEvent::Announced
            }
            DeliveryAction::Fail(told) => {
                failed.extend(told.into_iter().map(|(handle, _)| handle));
                DeliveryEvent::Proceed
            }
            DeliveryAction::End { stop } => return (taken, failed, stop),
        };
    }
}

#[test]
fn a_failed_write_fails_every_caller() {
    let mut vfs = filesystem();
    let (mut writer, batch) = numbered_batch(&mut vfs, 3);
    vfs.open("/wal/0000000001.seg", OpenOptions::CreateNew).unwrap();
    assert_eq!(deliver(&mut vfs, &mut writer, batch), (vec![], vec![0, 1, 2], true));
}

#[test]
fn callers_are_told_once_their_records_are_durable() {
    let mut vfs = filesystem();
    let (mut writer, mut batch) = numbered_batch(&mut vfs, 3);
    assert_eq!(writer.write_pending(&mut vfs, &batch.pending).unwrap(), 3);
    let active = writer.active_segment.as_ref().map(|segment| segment.sync_handle());
    let mut syncer: SyncLoop<u8> = SyncLoop::new(DIR.to_string(), true);
    let mut round = syncer.begin(Some(1), active, Vec::new()).unwrap();
    assert!(round.sync_directory);
    while let Some((sequence, handle)) = batch.next_completion() {
        assert!(syncer.takes_more());
        syncer.take(&mut round, AppendCompletion { sequence, handle });
    }
    assert!(!syncer.takes_more());
    assert!(syncer.answer_early(&mut round).is_empty());
    let outcome = syncer.finish(&mut vfs, round);
    assert!(outcome.failure.is_none());
    let told: Vec<_> = outcome.outcomes.into_iter().map(|told| (told.handle, told.result)).collect();
    assert_eq!(told, vec![(0, Ok(0)), (1, Ok(1))]);
    assert_eq!(syncer.deferred.as_ref().map(|completion| completion.sequence), Some(2));
    assert!(syncer.begin(None, None, Vec::new()).is_none());
}

#[test]
fn callers_that_do_not_wait_are_told_before_the_sync() {
    let mut vfs = filesystem();
    let mut syncer: SyncLoop<u8> = SyncLoop::new("/missing".to_string(), false);
    let segment = FileSegment::create(&mut vfs, DIR, 1, 4096).unwrap();
    let mut round = syncer.begin(Some(0), Some(segment.sync_handle()), Vec::new()).unwrap();
    syncer.take(&mut round, AppendCompletion { sequence: 0, handle: 7 });
    let told: Vec<_> = syncer.answer_early(&mut round).into_iter().map(|told| (told.handle, told.result)).collect();
    assert_eq!(told, vec![(7, Ok(0))]);
    let outcome = syncer.finish(&mut vfs, round);
    assert!(matches!(outcome.failure, Some(WalError::Io(_))));
    assert!(outcome.outcomes.is_empty());
}

#[test]
fn a_failed_sync_fails_everyone_who_waits() {
    let mut vfs = filesystem();
    let mut syncer: SyncLoop<u8> = SyncLoop::new("/missing".to_string(), true);
    let segment = FileSegment::create(&mut vfs, DIR, 1, 4096).unwrap();
    let mut round = syncer.begin(Some(0), Some(segment.sync_handle()), Vec::new()).unwrap();
    syncer.take(&mut round, AppendCompletion { sequence: 0, handle: 7 });
    syncer.take(&mut round, AppendCompletion { sequence: 1, handle: 8 });
    let outcome = syncer.finish(&mut vfs, round);
    assert!(matches!(outcome.failure, Some(WalError::Io(_))));
    let told: Vec<_> = outcome.outcomes.iter().map(|told| told.handle).collect();
    assert_eq!(told, vec![7, 8]);
    assert!(outcome.outcomes.iter().all(|told| matches!(told.result, Err(WalError::Io(_)))));
    assert!(syncer.takes_more());
}

#[test]
fn a_batch_is_applied_once_it_is_durable() {
    let records = vec![(5, b"five".to_vec()), (6, b"six".to_vec())];
    let batch = PublishBatch::new(&records);
    assert_eq!(batch.clone(), batch);
    assert_eq!(batch.records(), records);
    assert_eq!((batch.first_sequence(), batch.last_sequence()), (5, 6));
    assert_eq!(apply_step(6, ApplyEvent::Synced(None)), ApplyAction::WaitForSync);
    assert_eq!(apply_step(6, ApplyEvent::Synced(Some(5))), ApplyAction::WaitForSync);
    assert_eq!(apply_step(6, ApplyEvent::Synced(Some(6))), ApplyAction::Apply);
    assert_eq!(apply_step(6, ApplyEvent::Refused), ApplyAction::Retry);
    assert_eq!(apply_step(6, ApplyEvent::RefusedWhileClosing), ApplyAction::Next);
    assert_eq!(apply_step(6, ApplyEvent::Applied), ApplyAction::Next);
    assert_eq!(apply_step(6, ApplyEvent::SyncStopped), ApplyAction::Stop);
}

#[test]
fn refusals_have_their_own_errors() {
    assert_eq!(queue_outcome(QueueReply::Taken), Ok(()));
    assert_eq!(queue_outcome(QueueReply::Full), Err(WalError::QueueFull));
    assert_eq!(queue_outcome(QueueReply::Closed), Err(WalError::Closed));
    assert_eq!(
        startup_error(None),
        WalError::Worker("WAL writer thread stopped during startup".to_string())
    );
    assert_eq!(startup_error(Some("boom".to_string())), WalError::Worker("boom".to_string()));
    assert_eq!(panic_message(None), "WAL worker thread panicked");
    assert_eq!(panic_message(Some("boom".to_string())), "boom");
}

#[test]
fn a_record_holds_its_sequence() {
    let mut record = 513u64.to_le_bytes().to_vec();
    record.extend_from_slice(b"payload");
    assert_eq!(decode_sequence("path", &record).unwrap(), 513);
    match decode_sequence("path", &record[..7]) {
        Err(WalError::Corruption { path, .. }) => assert_eq!(path, "path"),
        other => panic!("{other:?}"),
    }
}

#[test]
fn a_position_past_the_end_of_numbers_is_refused() {
    assert_eq!(
        encode_record(1 << 32, 0, b"x"),
        Err(WalError::SegmentNumberTooLarge(1 << 32))
    );
    let mut vfs = filesystem();
    let mut segment = FileSegment::create(&mut vfs, DIR, 1, 16).unwrap();
    assert!(matches!(
        segment.append(&mut vfs, b"longer than the segment"),
        Err(WalError::RecordTooLarge { size: 34, max: 16 })
    ));
}

#[test]
fn errors_say_what_happened() {
    assert_eq!(WalError::Io("broken".to_string()).message(), "WAL I/O error: broken");
    assert_eq!(
        WalError::RecordTooLarge { size: 34, max: 16 }.message(),
        "encoded record size 34 exceeds the maximum WAL segment size 16"
    );
}

#[test]
fn a_missing_file_is_not_opened() {
    let mut vfs = filesystem();
    assert_eq!(
        vfs.open("/wal/none", OpenOptions::Existing).unwrap_err().kind,
        IoErrorKind::NotFound
    );
    let file = vfs.open("/wal/some", OpenOptions::CreateNew).unwrap();
    assert_eq!(
        vfs.open("/wal/some", OpenOptions::CreateNew).unwrap_err().kind,
        IoErrorKind::AlreadyExists
    );
    vfs.append(&file, b"abc").unwrap();
    assert_eq!(
        vfs.read_at(&file, 1, 3).unwrap_err().kind,
        IoErrorKind::UnexpectedEof
    );
    assert!(vfs.list("/elsewhere").is_err());
    assert!(vfs.sync_dir("/elsewhere").is_err());
}

#[test]
fn reads_with_a_limit_give_every_record_once() {
    let mut vfs = filesystem();
    let mut segment = FileSegment::create(&mut vfs, DIR, 1, 1 << 20).unwrap();
    let payloads: Vec<Vec<u8>> = [3usize, 9, 1, 1, 10, 4, 4, 4].iter().map(|length| vec![*length as u8; *length]).collect();
    for payload in &payloads {
        segment.append(&mut vfs, payload).unwrap();
    }
    let mut position = 0;
    let mut read = Vec::new();
    let mut sizes = Vec::new();
    while position < segment.write_position {
        let (next, records) = segment.read(&mut vfs, position, 10).unwrap();
        sizes.push(records.iter().map(Vec::len).sum::<usize>());
        read.extend(records);
        position = next;
    }
    assert_eq!(read, payloads);
    assert_eq!(sizes, vec![3, 10, 1, 10, 8, 4]);
    assert_eq!(position, segment.write_position);
}

#[test]
fn log_offsets_are_ordered_by_segment_and_then_by_position() {
    let mut offsets = vec![SegmentOffset::new(2, 0), SegmentOffset::new(1, 9), SegmentOffset::new(1, 4)];
    assert!(offsets[1] < offsets[0]);
    assert!(offsets[2] < offsets[1]);
    offsets.sort();
    assert_eq!(offsets, vec![SegmentOffset::new(1, 4), SegmentOffset::new(1, 9), SegmentOffset::new(2, 0)]);
}

#[test]
fn appends_behind_a_close_are_refused_and_the_others_numbered_in_order() {
    for closed_after in 0..=6u8 {
        let mut vfs = filesystem();
        let mut writer = WriterLoop::new(DIR.to_string(), recover_state(&mut vfs, DIR).unwrap());
        let mut lifecycle = Lifecycle::Running;
        let mut queue: Vec<Operation<u8>> = Vec::new();
        let mut refused = Vec::new();
        for value in 0..6u8 {
            if value == closed_after {
                assert!(lifecycle.begin_close());
                queue.push(Operation::Close);
            }
            match lifecycle.accepts() {
                Ok(()) => queue.push(Operation::Append(AppendOp { payload: vec![value], handle: value })),
                Err(error) => refused.push((value, error)),
            }
        }
        let late: Vec<(u8, WalError)> = (closed_after..6).map(|value| (value, WalError::Closed)).collect();
        assert_eq!(refused, late);
        let mut taken = Vec::new();
        let mut stopped = false;
        while !queue.is_empty() && !stopped {
            let rest = queue.split_off(queue.len().min(2));
            let batch = writer.assign(queue.into());
            let (handed, failed, stop) = deliver(&mut vfs, &mut writer, batch);
            assert!(failed.is_empty());
            taken.extend(handed);
            stopped = stop;
            queue = rest;
        }
        assert!(queue.is_empty());
        let accepted: Vec<(u64, u8)> = (0..closed_after).map(|value| (value as u64, value)).collect();
        assert_eq!(taken, accepted);
        if closed_after < 6 {
            lifecycle.finish_close();
            assert!(!lifecycle.begin_close());
            assert_eq!(lifecycle, Lifecycle::Closed);
            assert_eq!(recover_state(&mut vfs, DIR).unwrap().next_sequence, closed_after as u64);
        }
    }
}

#[test]
fn a_completion_that_came_early_is_told_in_a_later_round() {
    for wait_for_sync in [true, false] {
        let mut vfs = filesystem();
        let mut syncer: SyncLoop<u8> = SyncLoop::new(DIR.to_string(), wait_for_sync);
        let mut queue: VecDeque<AppendCompletion<u8>> =
            (0..5u8).map(|value| AppendCompletion { sequence: value as u64, handle: value }).collect();
        let mut told = Vec::new();
        for advanced in [1, 1, 2, 4] {
            let mut round = syncer.begin(Some(advanced), None, Vec::new()).unwrap();
            while syncer.takes_more() {
                match queue.pop_front() {
                    Some(completion) => syncer.take(&mut round, completion),
                    None => break,
                }
            }
            let early = syncer.answer_early(&mut round);
            assert_eq!(early.is_empty(), wait_for_sync || told.len() as u64 == advanced + 1);
            let outcome = syncer.finish(&mut vfs, round);
            assert!(outcome.failure.is_none());
            for outcome in early.into_iter().chain(outcome.outcomes) {
                told.push((outcome.handle, outcome.result.unwrap()));
            }
            assert_eq!(told.len() as u64, advanced + 1);
        }
        assert_eq!(told, (0..5u8).map(|value| (value, value as u64)).collect::<Vec<_>>());
        assert!(syncer.deferred.is_none());
    }
}
