use lyrad::segment::envelope::{encode_file_header, ALIGNMENT};
use lyrad::unit::wal::error::WalError;
use lyrad::unit::wal::files::{list_segment_files, segment_number};
use lyrad::unit::wal::options::{IoMode, WalOptions};
use lyrad::unit::wal::reader;
use lyrad::unit::wal::reader::ReaderState;
use lyrad::unit::wal::records::{encode_batch, scan_segment, WalSegmentScanner};
use lyrad::unit::wal::recovery::{check_sequence, recover_directory};
use lyrad::unit::wal::replay::WalRecovery;
use lyrad::unit::wal::retention::{Retention, SegmentMetadata};
use lyrad::unit::wal::runtime::{
    create_segment, open_log, AppendRequest, BatchAction, BatchPhase, LogWriter, WriterAction, WriterEvent, WriterLoop,
};
use lyrad::vfs::direct::{
    check_aligned_write, cleanup_failed_create, direct_append_end, direct_io_unavailable, falls_back, first_backend,
    plan_read, planned_bytes, reported_alignment, Backend, DirectAlignment, Leftover, OsCode,
};
use lyrad::vfs::memory::MemoryVfs;
use lyrad::vfs::path::plain_path;
use lyrad::vfs::standard::{append_end, ensure_range, eviction, read_rest, Eviction};
use lyrad::vfs::{IoErrorKind, OpenOptions, Vfs};

const DIR: &str = "/wal";

fn filesystem() -> MemoryVfs {
    let mut vfs = MemoryVfs::default();
    vfs.create_dir(DIR).unwrap();
    vfs
}

fn path(number: u64) -> String {
    format!("{DIR}/{number:010}.seg")
}

fn options(max_segment_size: u64) -> WalOptions {
    WalOptions { dir: DIR.to_string(), io_mode: IoMode::Standard, max_segment_size, queue_capacity: 16 }
}

fn requests(payloads: &[&[u8]], sync: bool) -> Vec<AppendRequest> {
    payloads
        .iter()
        .map(|payload| AppendRequest { payload: payload.to_vec(), sync })
        .collect()
}

/// Takes one batch through the writer, and gives back the sequences.
fn append(log: &mut WriterLoop, vfs: &mut MemoryVfs, payloads: &[&[u8]], sync: bool) -> Vec<u64> {
    let mut run = match log.receive(WriterEvent::Batch(requests(payloads, sync))) {
        WriterAction::Process(run) => run,
        _ => panic!("a batch is processed"),
    };
    let mut sequences = vec![None; payloads.len()];
    while run.phase != BatchPhase::Finished {
        match run.step(&mut log.writer, vfs, false) {
            BatchAction::Answer(answered) => {
                for (at, sequence) in answered {
                    assert_eq!(sequences[at].replace(sequence), None);
                }
            }
            BatchAction::Retry(error) => panic!("{error:?}"),
            BatchAction::Abandon => panic!("abandoned"),
        }
    }
    sequences.into_iter().map(|sequence| sequence.unwrap()).collect()
}

/// Three segments with two records each.
fn written_log(vfs: &mut MemoryVfs) -> WriterLoop {
    let mut log = open_log(vfs, &options(4096 * 3)).unwrap();
    assert_eq!(append(&mut log, vfs, &[b"zero", b"one"], true), vec![0, 1]);
    assert_eq!(append(&mut log, vfs, &[b"two"], true), vec![2]);
    assert_eq!(append(&mut log, vfs, &[b"three"], false), vec![3]);
    assert_eq!(append(&mut log, vfs, &[b"four", b"five"], true), vec![4, 5]);
    log
}

fn truncate(vfs: &mut MemoryVfs, number: u64, size: u64) {
    let file = vfs.open(&path(number), OpenOptions::Existing).unwrap();
    vfs.truncate(&file, size).unwrap();
}

fn size(vfs: &mut MemoryVfs, number: u64) -> u64 {
    let file = vfs.open(&path(number), OpenOptions::Existing).unwrap();
    vfs.size(&file).unwrap()
}

#[test]
fn standard_segment_writes_header() {
    let mut vfs = filesystem();
    let file = create_segment(&mut vfs, DIR, 1).unwrap();
    vfs.sync(&file).unwrap();
    assert_eq!(size(&mut vfs, 1), ALIGNMENT as u64);
    let header = vfs.read_at(&file, 0, ALIGNMENT).unwrap();
    assert_eq!(header, encode_file_header(1, ALIGNMENT).unwrap());
}

#[test]
fn a_log_rotates_before_it_passes_its_limit() {
    let mut vfs = filesystem();
    written_log(&mut vfs);
    let files = list_segment_files(&vfs, DIR).unwrap();
    let numbers: Vec<_> = files.iter().map(|(number, _)| *number).collect();
    assert_eq!(numbers, vec![1, 2, 3]);
    let held = |vfs: &mut MemoryVfs, number: u64| scan_segment(vfs, &path(number), false).unwrap().records;
    assert_eq!(held(&mut vfs, 1), vec![(0, b"zero".to_vec()), (1, b"one".to_vec())]);
    assert_eq!(held(&mut vfs, 2), vec![(2, b"two".to_vec()), (3, b"three".to_vec())]);
    assert_eq!(held(&mut vfs, 3), vec![(4, b"four".to_vec()), (5, b"five".to_vec())]);
}

#[test]
fn a_recovered_log_holds_what_was_written() {
    let mut vfs = filesystem();
    written_log(&mut vfs);
    let summary = recover_directory(&mut vfs, DIR).unwrap();
    assert_eq!(summary.last_sequence, Some(5));
    assert_eq!(summary.last_segment_number, 3);
    let ranges: Vec<_> = summary
        .segments
        .iter()
        .map(|segment| (segment.number, segment.first_sequence, segment.last_sequence))
        .collect();
    assert_eq!(
        ranges,
        vec![(1, Some(0), Some(1)), (2, Some(2), Some(3)), (3, Some(4), Some(5))]
    );
    let earlier = reader::recover_directory(&mut vfs, DIR).unwrap();
    assert_eq!(earlier.earliest_sequence, Some(0));
    assert_eq!(earlier.last_sequence, Some(5));
    assert_eq!(earlier.last_segment_number, 3);
}

#[test]
fn a_shutdown_answers_what_is_left_and_keeps_it() {
    let mut vfs = filesystem();
    let mut log = open_log(&mut vfs, &options(4096 * 3)).unwrap();
    let request = |payload: &[u8], sync: bool| AppendRequest { payload: payload.to_vec(), sync };
    let mut run = match log.receive(WriterEvent::Batch(vec![request(b"zero", false)])) {
        WriterAction::Process(run) => run,
        _ => panic!("the batch was not taken"),
    };
    assert!(matches!(run.step(&mut log.writer, &mut vfs, false), BatchAction::Answer(_)));
    assert_eq!(run.phase, BatchPhase::Finished);
    assert!(matches!(log.receive(WriterEvent::Cancelled), WriterAction::CloseQueue));

    let ended = log.shut_down(&mut vfs, vec![request(b"one", true), request(b"two", false), request(b"three", true)]);
    assert_eq!(ended.answers, vec![Some(1), Some(2), Some(3)]);
    assert!(ended.failure.is_none());
    assert!(log.writer.dirty_files.is_empty());
    assert!(!log.writer.directory_dirty);

    let files = list_segment_files(&vfs, DIR).unwrap();
    let mut reader = ReaderState::new(files, 0, Some(9));
    let mut records = Vec::new();
    while let Some(record) = reader.read_next(&mut vfs).unwrap() {
        records.push(record);
    }
    assert_eq!(
        records,
        vec![
            (0, b"zero".to_vec()),
            (1, b"one".to_vec()),
            (2, b"two".to_vec()),
            (3, b"three".to_vec()),
        ]
    );
    let again = log.shut_down(&mut vfs, Vec::new());
    assert!(again.answers.is_empty());
    assert!(again.failure.is_none());
}

#[test]
fn a_shutdown_leaves_what_it_cannot_write_unanswered() {
    let mut vfs = filesystem();
    let mut log = open_log(&mut vfs, &options(4096)).unwrap();
    vfs.open(&path(1), OpenOptions::CreateNew).unwrap();
    let ended = log.shut_down(&mut vfs, vec![AppendRequest { payload: b"lost".to_vec(), sync: false }]);
    assert_eq!(ended.answers, vec![None]);
    assert!(ended.failure.is_none());
}

#[test]
fn a_torn_tail_is_cut_off() {
    let mut vfs = filesystem();
    written_log(&mut vfs);
    truncate(&mut vfs, 3, 4096 * 2 + 7);
    let summary = recover_directory(&mut vfs, DIR).unwrap();
    assert_eq!(summary.last_sequence, Some(4));
    assert_eq!(size(&mut vfs, 3), 4096 * 2);
    assert_eq!(recover_directory(&mut vfs, DIR).unwrap().last_sequence, Some(4));
}

#[test]
fn a_tail_without_a_header_is_removed() {
    let mut vfs = filesystem();
    written_log(&mut vfs);
    truncate(&mut vfs, 3, 100);
    let summary = recover_directory(&mut vfs, DIR).unwrap();
    assert_eq!(summary.last_sequence, Some(3));
    assert_eq!(summary.last_segment_number, 2);
    assert_eq!(summary.segments.len(), 2);
    assert_eq!(list_segment_files(&vfs, DIR).unwrap().len(), 2);
}

#[test]
fn damage_before_the_tail_is_reported() {
    let mut vfs = filesystem();
    written_log(&mut vfs);
    truncate(&mut vfs, 2, 4096 * 2 + 7);
    assert!(matches!(
        recover_directory(&mut vfs, DIR),
        Err(WalError::Corruption { path: at, .. }) if at == path(2)
    ));
}

#[test]
fn a_gap_is_reported() {
    assert_eq!(check_sequence("p", None, 7), Ok(()));
    assert_eq!(check_sequence("p", Some(6), 7), Ok(()));
    assert!(matches!(
        check_sequence("p", Some(5), 7),
        Err(WalError::Corruption { path, .. }) if path == "p"
    ));
    assert!(check_sequence("p", Some(u64::MAX), 0).is_err());
    let mut vfs = filesystem();
    written_log(&mut vfs);
    vfs.remove(&path(2)).unwrap();
    assert!(matches!(recover_directory(&mut vfs, DIR), Err(WalError::Corruption { .. })));
}

#[test]
fn records_are_read_from_a_sequence_on() {
    let mut vfs = filesystem();
    written_log(&mut vfs);
    let files = list_segment_files(&vfs, DIR).unwrap();
    let mut state = ReaderState::new(files, 1, Some(4));
    let mut sequences = Vec::new();
    while let Some((sequence, payload)) = state.read_next(&mut vfs).unwrap() {
        sequences.push((sequence, payload));
    }
    assert_eq!(
        sequences,
        vec![
            (1, b"one".to_vec()),
            (2, b"two".to_vec()),
            (3, b"three".to_vec()),
            (4, b"four".to_vec()),
        ]
    );
    let mut nothing = ReaderState::new(Vec::new(), 0, None);
    assert_eq!(nothing.read_next(&mut vfs).unwrap(), None);
}

#[test]
fn a_reader_stays_at_a_file_that_it_cannot_read() {
    let mut vfs = filesystem();
    written_log(&mut vfs);
    let files = list_segment_files(&vfs, DIR).unwrap();
    let (_, missing) = files[1].clone();
    let mut state = ReaderState::new(files, 0, Some(5));
    let held = vfs.open(&missing, OpenOptions::Existing).unwrap();
    let size = vfs.size(&held).unwrap();
    let bytes = vfs.read_at(&held, 0, size as usize).unwrap();
    vfs.remove(&missing).unwrap();
    assert_eq!(state.read_next(&mut vfs).unwrap().unwrap().0, 0);
    assert_eq!(state.read_next(&mut vfs).unwrap().unwrap().0, 1);
    assert!(matches!(state.read_next(&mut vfs), Err(WalError::Io(_))));
    let restored = vfs.open(&missing, OpenOptions::CreateNew).unwrap();
    vfs.append(&restored, &bytes).unwrap();
    assert_eq!(state.read_next(&mut vfs).unwrap().unwrap(), (2, b"two".to_vec()));
}

fn retention_of(vfs: &mut MemoryVfs) -> Retention {
    let summary = recover_directory(vfs, DIR).unwrap();
    Retention::new(DIR.to_string(), summary.segments)
}

fn replay(recovery: &mut WalRecovery, vfs: &mut MemoryVfs, retention: &mut Retention) -> Vec<u64> {
    let mut sequences = Vec::new();
    while let (Some(record), _) = recovery.next(vfs, retention) {
        sequences.push(record.unwrap().0);
    }
    sequences
}

#[test]
fn a_replay_gives_the_records_of_its_range() {
    let mut vfs = filesystem();
    written_log(&mut vfs);
    let mut retention = retention_of(&mut vfs);
    let mut recovery = WalRecovery::new(&vfs, &mut retention, 1, Some(3)).unwrap();
    let mut records = Vec::new();
    while let (Some(record), _) = recovery.next(&mut vfs, &mut retention) {
        records.push(record.unwrap());
    }
    assert_eq!(records, vec![(1, b"one".to_vec()), (2, b"two".to_vec()), (3, b"three".to_vec())]);
    let mut empty = WalRecovery::new(&vfs, &mut retention, 0, None).unwrap();
    assert_eq!(replay(&mut empty, &mut vfs, &mut retention), Vec::<u64>::new());
}

#[test]
fn leased_segments_are_not_trimmed() {
    let mut vfs = filesystem();
    written_log(&mut vfs);
    let mut retention = retention_of(&mut vfs);
    assert!(!retention.notify_progress());
    let (files, mut lease) = retention.lease_recovery(0, Some(1)).unwrap();
    assert_eq!(files.len(), 1);
    retention.observe_trim(Some(3));
    assert!(retention.notify_progress());
    retention.trim(&mut vfs, Some(5)).unwrap();
    let numbers = |vfs: &MemoryVfs| -> Vec<u64> {
        list_segment_files(vfs, DIR).unwrap().iter().map(|(number, _)| *number).collect()
    };
    assert_eq!(numbers(&vfs), vec![1, 3]);
    assert!(lease.release_segment(&mut retention, 1));
    assert!(!lease.release_all(&mut retention));
    retention.trim(&mut vfs, Some(5)).unwrap();
    assert_eq!(numbers(&vfs), vec![3]);
    assert!(matches!(
        retention.lease_recovery(3, Some(5)),
        Err(WalError::SequenceExpired { requested: 3, earliest: 4 })
    ));
}

#[test]
fn records_that_are_not_durable_are_not_trimmed() {
    let mut vfs = filesystem();
    written_log(&mut vfs);
    let mut retention = retention_of(&mut vfs);
    retention.observe_trim(Some(5));
    retention.trim(&mut vfs, Some(2)).unwrap();
    assert_eq!(list_segment_files(&vfs, DIR).unwrap().len(), 2);
    match retention.trim(&mut vfs, Some(9)) {
        Err(WalError::Worker(message)) => assert_eq!(message, "durable sequence 9 is missing from retention state"),
        other => panic!("{other:?}"),
    }
}

#[test]
fn writes_are_noted_where_they_go() {
    let mut retention = Retention::new(DIR.to_string(), Vec::new());
    assert!(!retention.register_active(1, path(1)));
    retention.record_write(1, 0, 4).unwrap();
    retention.record_write(1, 5, 6).unwrap();
    retention.observe_trim(Some(0));
    assert!(retention.register_active(2, path(2)));
    assert!(matches!(retention.record_write(3, 7, 8), Err(WalError::Worker(_))));
    let (files, _) = retention.lease_recovery(0, Some(6)).unwrap();
    let numbers: Vec<_> = files.iter().map(|file| file.number).collect();
    assert_eq!(numbers, vec![1]);
    let metadata = SegmentMetadata { number: 4, path: path(4), first_sequence: Some(9), last_sequence: Some(9) };
    let mut other = Retention::new(DIR.to_string(), vec![metadata]);
    assert!(other.lease_recovery(8, Some(9)).is_err());
}

#[test]
fn only_whole_directories_are_opened() {
    let mut vfs = filesystem();
    assert!(matches!(
        open_log(&mut vfs, &options(0)),
        Err(WalError::InvalidOptions(message)) if message == "max_segment_size must be greater than zero"
    ));
    let mut small = options(4096);
    small.queue_capacity = 0;
    assert!(matches!(
        open_log(&mut vfs, &small),
        Err(WalError::InvalidOptions(message)) if message == "queue_capacity must be greater than zero"
    ));
    written_log(&mut vfs);
    assert!(matches!(
        open_log(&mut vfs, &options(4096)),
        Err(WalError::ExistingSegments(dir)) if dir == DIR
    ));
    let mut shared = filesystem();
    shared.open(&format!("{DIR}/notes.txt"), OpenOptions::CreateNew).unwrap();
    assert!(matches!(
        open_log(&mut shared, &options(4096)),
        Err(WalError::ExistingSegments(dir)) if dir == DIR
    ));
    let mut misnamed = filesystem();
    misnamed.open(&format!("{DIR}/first.seg"), OpenOptions::CreateNew).unwrap();
    assert!(matches!(
        open_log(&mut misnamed, &options(4096)),
        Err(WalError::ExistingSegments(dir)) if dir == DIR
    ));
    let defaults = WalOptions::new("/elsewhere".to_string());
    assert_eq!(defaults.io_mode, IoMode::DirectPreferred);
    assert_eq!(defaults.max_segment_size, 64 * 1024 * 1024);
    assert_eq!(defaults.queue_capacity, 4096);
    assert!(defaults.validate().is_ok());
}

#[test]
fn a_failed_batch_is_tried_again_until_the_log_closes() {
    let mut vfs = MemoryVfs::default();
    let mut log = WriterLoop::new(&options(4096));
    vfs.open(&path(1), OpenOptions::CreateNew).unwrap();
    let mut run = match log.receive(WriterEvent::Batch(requests(&[b"record"], true))) {
        WriterAction::Process(run) => run,
        _ => panic!("a batch is processed"),
    };
    assert!(matches!(run.step(&mut log.writer, &mut vfs, false), BatchAction::Retry(WalError::Io(_))));
    assert!(matches!(log.receive(WriterEvent::Cancelled), WriterAction::CloseQueue));
    assert!(matches!(run.step(&mut log.writer, &mut vfs, true), BatchAction::Abandon));
    assert!(matches!(log.receive(WriterEvent::Batch(Vec::new())), WriterAction::Finish));
}

#[test]
fn pending_appends_are_written_while_the_log_closes() {
    let mut vfs = filesystem();
    let mut log = open_log(&mut vfs, &options(4096)).unwrap();
    let mut run = match log.receive(WriterEvent::Batch(requests(&[b"record"], true))) {
        WriterAction::Process(run) => run,
        _ => panic!("a batch is processed"),
    };
    log.receive(WriterEvent::Cancelled);
    match run.step(&mut log.writer, &mut vfs, true) {
        BatchAction::Answer(answered) => assert!(answered.is_empty()),
        _ => panic!("the batch is written"),
    }
    match run.step(&mut log.writer, &mut vfs, true) {
        BatchAction::Answer(answered) => assert_eq!(answered, vec![(0, 0)]),
        _ => panic!("the batch is synchronized"),
    }
    assert!(log.writer.dirty_files.is_empty());
    assert_eq!(scan_segment(&mut vfs, &path(1), false).unwrap().records.len(), 1);
}

#[test]
fn a_batch_larger_than_a_segment_gets_one_of_its_own() {
    let mut vfs = filesystem();
    let mut writer = LogWriter::new(&options(1));
    writer.write_records(&mut vfs, &vec![(0, b"zero".to_vec())]).unwrap();
    writer.write_records(&mut vfs, &vec![(1, b"one".to_vec())]).unwrap();
    writer.flush(&mut vfs).unwrap();
    assert_eq!(list_segment_files(&vfs, DIR).unwrap().len(), 2);
}

#[test]
fn a_batch_is_encoded_page_by_page() {
    let records = vec![(7, b"seven".to_vec()), (8, vec![1; 5000])];
    let encoded = encode_batch(2, 4096, &records).unwrap();
    assert_eq!(encoded.len(), 4096 * 3);
    let mut vfs = filesystem();
    let file = vfs.open(&path(2), OpenOptions::CreateNew).unwrap();
    vfs.append(&file, &encode_file_header(2, ALIGNMENT).unwrap()).unwrap();
    vfs.append(&file, &encoded).unwrap();
    let mut scanner = WalSegmentScanner::open(&mut vfs, &path(2), false).unwrap();
    assert_eq!(scanner.segment_number(), 2);
    assert_eq!(scanner.next(&vfs).unwrap().unwrap(), records[0]);
    assert_eq!(scanner.next(&vfs).unwrap().unwrap(), records[1]);
    assert!(scanner.next(&vfs).is_none());
    assert_eq!(scanner.valid_len(), 4096 * 4);
}

#[test]
fn segment_names_give_numbers() {
    assert_eq!(segment_number("0000000012.seg"), Some(12));
    assert_eq!(segment_number("notes.txt"), None);
    assert_eq!(segment_number(".seg"), None);
}

#[test]
fn reads_of_a_range_stay_inside_the_file() {
    assert!(ensure_range(10, 4, 6).is_ok());
    assert_eq!(ensure_range(10, 4, 7).unwrap_err().kind, IoErrorKind::UnexpectedEof);
    assert!(ensure_range(10, u64::MAX, 1).is_err());
    assert_eq!(append_end(10, 5).unwrap(), 15);
    assert!(append_end(u64::MAX, 1).is_err());
    assert_eq!(read_rest(10, 4).unwrap(), 6);
    assert_eq!(read_rest(10, 0).unwrap_err().kind, IoErrorKind::UnexpectedEof);
}

#[test]
fn whole_pages_are_evicted() {
    assert_eq!(eviction(4096, 0, 10_000), Eviction::Pages { start: 0, length: 8192 });
    assert_eq!(eviction(4096, 8192, 10_000), Eviction::Nothing);
}

#[test]
fn direct_reads_cover_whole_steps() {
    let alignment = DirectAlignment { memory: 512, io: Some(512) };
    let plan = plan_read(alignment, 1000, 100).unwrap();
    assert_eq!((plan.position, plan.length, plan.prefix, plan.needed), (512, 1024, 488, 588));
    let bytes: Vec<u8> = (0..1024).map(|at| (at % 251) as u8).collect();
    assert_eq!(planned_bytes(plan, &bytes).unwrap(), bytes[488..588].to_vec());
    assert_eq!(
        planned_bytes(plan, &bytes[..500].to_vec()).unwrap_err().kind,
        IoErrorKind::UnexpectedEof
    );
    assert_eq!(direct_append_end(alignment, 1024, 512).unwrap(), 1536);
    assert_eq!(
        direct_append_end(alignment, 1024, 100).unwrap_err().kind,
        IoErrorKind::InvalidInput
    );
    let reported = reported_alignment(true, 512, 4096).unwrap();
    assert_eq!((reported.memory, reported.io), (512, Some(4096)));
    assert!(check_aligned_write(true, 4096, 4096, 8192).is_ok());
    assert!(check_aligned_write(true, 4096, 4096, 8193).is_err());
}

#[test]
fn the_backend_follows_the_mode() {
    assert_eq!(first_backend(IoMode::Standard), Backend::Standard);
    assert_eq!(first_backend(IoMode::DirectRequired), Backend::Direct);
    assert!(falls_back(IoMode::DirectPreferred, IoErrorKind::Other, OsCode::Invalid));
    assert!(!falls_back(IoMode::DirectRequired, IoErrorKind::Other, OsCode::Invalid));
    assert!(!falls_back(IoMode::DirectPreferred, IoErrorKind::NotFound, OsCode::Other));
    assert!(direct_io_unavailable(IoErrorKind::Unsupported, OsCode::Absent));
    assert_eq!(cleanup_failed_create("p", Leftover::Nothing).unwrap(), false);
    assert_eq!(cleanup_failed_create("p", Leftover::File(0)).unwrap(), true);
    assert!(cleanup_failed_create("p", Leftover::File(3)).is_err());
}

#[test]
fn a_relative_directory_has_the_empty_one_above_it() {
    let mut vfs = MemoryVfs::default();
    assert!(matches!(vfs.list(""), Err(error) if error.kind == IoErrorKind::NotFound));
    vfs.create_dir("wal/log").unwrap();
    assert_eq!(vfs.list("").unwrap(), Vec::<String>::new());
    assert_eq!(vfs.list("wal").unwrap(), Vec::<String>::new());
    vfs.open("wal/log/1", OpenOptions::CreateNew).unwrap();
    assert_eq!(vfs.list("wal/log").unwrap(), vec!["wal/log/1".to_string()]);
    assert_eq!(vfs.list("wal/log/").unwrap(), vec!["wal/log/1".to_string()]);
    assert!(vfs.list("log").is_err());
}

#[test]
fn a_file_is_found_however_its_path_is_written() {
    let mut vfs = MemoryVfs::default();
    vfs.create_dir("/wal//log/").unwrap();
    assert!(vfs.list("/").unwrap().is_empty());
    assert!(vfs.list("").is_err());
    let created = vfs.open("/wal//log/./1", OpenOptions::CreateNew).unwrap();
    vfs.append(&created, b"record").unwrap();
    let again = vfs.open("/wal/log/1", OpenOptions::CreateNew);
    assert!(matches!(again, Err(error) if error.kind == IoErrorKind::AlreadyExists));
    let opened = vfs.open("//wal/log/1/", OpenOptions::Existing).unwrap();
    assert_eq!(vfs.read_at(&opened, 0, 6).unwrap(), b"record");
    assert_eq!(vfs.list("/wal/log").unwrap(), vec!["/wal/log/1".to_string()]);
    vfs.remove("/wal/log/1").unwrap();
    assert!(vfs.open("/wal//log/./1", OpenOptions::Existing).is_err());
    assert!(vfs.open("/wal/log/..", OpenOptions::Existing).is_err());
}

#[test]
fn paths_have_a_shortest_form() {
    for (path, short) in [
        ("", ""),
        ("/", "/"),
        ("///", "/"),
        (".", "."),
        ("./", "."),
        ("./.", "."),
        ("/.", "/"),
        ("a", "a"),
        ("a/", "a"),
        ("a//b", "a/b"),
        ("a/./b/.", "a/b"),
        ("./a", "./a"),
        ("//a/../b", "/a/../b"),
        ("a/.b", "a/.b"),
    ] {
        assert_eq!(plain_path(path), short);
        assert_eq!(std::path::Path::new(path), std::path::Path::new(short));
    }
}

#[test]
fn a_torn_record_of_any_length_leaves_the_ones_before_it() {
    let mut whole = filesystem();
    written_log(&mut whole);
    let file = whole.open(&path(3), OpenOptions::Existing).unwrap();
    let bytes = whole.read_at(&file, 0, 4096 * 3).unwrap();
    let last = 4096 * 2;
    let record_end = bytes.iter().rposition(|byte| *byte != 0).unwrap() + 1;
    for size in last..record_end {
        let mut vfs = filesystem();
        written_log(&mut vfs);
        truncate(&mut vfs, 3, size as u64);
        let summary = recover_directory(&mut vfs, DIR).unwrap();
        assert_eq!(summary.last_sequence, Some(4));
        assert_eq!(summary.last_segment_number, 3);
        assert_eq!(summary.segments[2].last_sequence, Some(4));
        let held = scan_segment(&mut vfs, &path(3), true).unwrap().records;
        assert_eq!(held, vec![(4, b"four".to_vec())]);
    }
}
