use lyrad::align;
use lyrad::crc;
use lyrad::segment::envelope::ALIGNMENT;
use lyrad::text;
use lyrad::unit::buffer::{AlignedBuffer, PagedWrites, PAGE_SIZE};
use lyrad::unit::error::UnitError;
use lyrad::unit::options::{IoMode, IpAddress, UnitOptions};
use lyrad::unit::service::{
    check_batch, enqueue_append_batch, enqueue_record_batch, fence, handle_read_request, BatchAck, ChunkType,
    EnqueueAction, EnqueueEvent, Fault, FenceResponse, Protocol, ReadResponse, Refusal, Status, StatusCode, StatusKind,
    SyncQueue, WriteItem, WriteResponse, READ_CHUNK_SIZE,
};
use lyrad::unit::storage::{Event, UnitStorage};

fn event(timeline_id: i64, offset: i64, payload: &[u8]) -> Event {
    Event {
        timeline_id,
        term: 1,
        offset,
        payload: Some(payload.to_vec()),
        crc32: None,
        timestamp: offset * 10,
        schema_id: 0,
    }
}

fn item(event: Event) -> WriteItem {
    WriteItem { event: Some(event), trunc: false }
}

fn returns_events_in_range(protocol: Protocol) {
    let mut storage = UnitStorage::new();
    storage.apply_write(event(7, 1, b"a"), false);
    storage.apply_write(event(7, 2, b"b"), false);
    storage.apply_write(event(7, 3, b"c"), false);
    storage.apply_write(event(8, 1, b"other"), false);

    let responses = handle_read_request(protocol, &storage, 7, 2, 4).unwrap();

    assert_eq!(responses.len(), 1);
    let response = responses.into_iter().next().unwrap();
    assert_eq!(response.code, StatusCode::Success);
    assert_eq!(response.chunk, ChunkType::Full);
    assert_eq!(response.advanced_offset, 4);
    assert_eq!(
        response.events.iter().map(|event| event.offset).collect::<Vec<_>>(),
        vec![2, 3]
    );
}

#[test]
fn read_returns_events_in_requested_range() {
    returns_events_in_range(Protocol::Append);
}

#[test]
fn fetch_returns_events_in_requested_range() {
    returns_events_in_range(Protocol::Record);
}

fn empty_range_is_answered(protocol: Protocol) {
    let storage = UnitStorage::new();

    let responses = handle_read_request(protocol, &storage, 7, 10, 20).unwrap();

    assert_eq!(responses.len(), 1);
    let response = responses.into_iter().next().unwrap();
    assert_eq!(response.code, StatusCode::Success);
    assert_eq!(response.chunk, ChunkType::Full);
    assert_eq!(response.advanced_offset, 10);
    assert!(response.events.is_empty());
}

#[test]
fn read_empty_range_returns_full_empty_response() {
    empty_range_is_answered(Protocol::Append);
}

#[test]
fn fetch_empty_range_returns_full_empty_response() {
    empty_range_is_answered(Protocol::Record);
}

fn invalid_range_is_refused(protocol: Protocol) -> Status {
    let storage = UnitStorage::new();
    let status = handle_read_request(protocol, &storage, 7, 20, 10).unwrap_err();
    assert_eq!(status.kind, StatusKind::InvalidArgument);
    status
}

#[test]
fn read_rejects_invalid_range() {
    assert_eq!(
        invalid_range_is_refused(Protocol::Append).message,
        "read end_offset must be greater than or equal to start_offset"
    );
}

#[test]
fn fetch_rejects_invalid_range() {
    assert_eq!(
        invalid_range_is_refused(Protocol::Record).message,
        "fetch end_offset must be greater than or equal to start_offset"
    );
}

/// Takes one batch through the write path, as far as its answer.
fn write_batch(protocol: Protocol, storage: &mut UnitStorage, items: Vec<WriteItem>) -> Vec<(usize, WriteResponse)> {
    let enqueued = match protocol {
        Protocol::Append => enqueue_append_batch(&items, 0, storage),
        Protocol::Record => enqueue_record_batch(&items, 0, storage),
    };
    let (ack, mut enqueue) = enqueued.unwrap();
    let mut acks = vec![ack];
    let mut queue = SyncQueue::new(storage.synced());
    let mut event = EnqueueEvent::Reserved;
    loop {
        match enqueue.step(event) {
            EnqueueAction::Append(_) => event = EnqueueEvent::Appended(storage.append()),
            EnqueueAction::Forward { write, more } => {
                queue.receive(Some(write));
                if !more {
                    break;
                }
                event = EnqueueEvent::Reserved;
            }
            EnqueueAction::Fail(status) => panic!("{status:?}"),
            EnqueueAction::Ignore => panic!("nothing follows"),
        }
    }
    queue.receive(None);
    queue.observe(storage.synced());
    let answered = queue.drain_synced_writes(storage, &mut acks);
    assert!(queue.is_done());
    answered
}

fn write_is_read_back(protocol: Protocol) {
    let mut storage = UnitStorage::new();
    let answered = write_batch(protocol, &mut storage, vec![item(event(7, 1, b"a"))]);
    assert_eq!(answered.len(), 1);
    assert_eq!(answered[0].1.code, StatusCode::Success);
    assert_eq!(answered[0].1.commit_offset, 1);

    let read_responses = handle_read_request(protocol, &storage, 7, 1, 2).unwrap();
    assert_eq!(read_responses.len(), 1);
    let read_response = read_responses.into_iter().next().unwrap();
    assert_eq!(read_response.events.len(), 1);
    assert_eq!(read_response.events[0].offset, 1);
    assert_eq!(read_response.events[0].payload.as_deref(), Some(&b"a"[..]));
}

#[test]
fn append_then_read_round_trips_through_unit_streams() {
    write_is_read_back(Protocol::Append);
}

#[test]
fn record_then_fetch_round_trips_through_unit_streams() {
    write_is_read_back(Protocol::Record);
}

#[test]
fn a_batch_is_answered_with_its_largest_offset() {
    let mut storage = UnitStorage::new();
    let items = vec![item(event(7, 2, b"b")), item(event(7, 9, b"c")), item(event(7, 1, b"a"))];
    let answered = write_batch(Protocol::Record, &mut storage, items);
    assert_eq!(
        answered,
        vec![(
            0,
            WriteResponse { code: StatusCode::Success, commit_offset: 9, timeline_id: 7, term: 1 }
        )]
    );
    let offsets: Vec<_> = storage.read_events(7, 0, 100).iter().map(|event| event.offset).collect();
    assert_eq!(offsets, vec![1, 2, 9]);
}

fn refusal(protocol: Protocol, items: &Vec<WriteItem>, storage: &UnitStorage) -> Refusal {
    match check_batch(protocol, items, storage) {
        Ok(_) => panic!("the batch was taken"),
        Err(refusal) => refusal,
    }
}

fn status_of(refusal: Refusal) -> (StatusKind, String) {
    match refusal {
        Refusal::Status(status) => (status.kind, status.message),
        Refusal::Response(response) => panic!("{response:?}"),
    }
}

#[test]
fn batches_that_are_not_whole_are_refused() {
    let storage = UnitStorage::new();
    let invalid = StatusKind::InvalidArgument;
    assert_eq!(
        status_of(refusal(Protocol::Append, &vec![], &storage)),
        (invalid, "empty append batch".to_string())
    );
    assert_eq!(
        status_of(refusal(Protocol::Record, &vec![], &storage)),
        (invalid, "empty record batch".to_string())
    );
    let missing = vec![WriteItem { event: None, trunc: false }];
    assert_eq!(
        status_of(refusal(Protocol::Append, &missing, &storage)),
        (invalid, "append item missing event".to_string())
    );
    let mixed = vec![item(event(7, 1, b"a")), item(event(8, 1, b"a"))];
    assert_eq!(
        status_of(refusal(Protocol::Record, &mixed, &storage)),
        (invalid, "record batch must contain one timeline and term".to_string())
    );
}

#[test]
fn a_fenced_timeline_refuses_earlier_terms() {
    let mut storage = UnitStorage::new();
    storage.update_lra(7, 41);
    assert_eq!(
        fence(&mut storage, 7, 5),
        FenceResponse { code: StatusCode::Success, lra: 41, term: 5 }
    );
    assert_eq!(
        fence(&mut storage, 7, 4),
        FenceResponse { code: StatusCode::Fenced, lra: -1, term: 5 }
    );
    assert_eq!(storage.check_term(7, 4), Err(5));
    assert_eq!(storage.check_term(7, 6), Ok(()));
    match refusal(Protocol::Append, &vec![item(event(7, 1, b"a"))], &storage) {
        Refusal::Response(response) => assert_eq!(
            response,
            WriteResponse { code: StatusCode::InvalidTerm, commit_offset: -1, timeline_id: 7, term: 5 }
        ),
        Refusal::Status(status) => panic!("{status:?}"),
    }
}

#[test]
fn a_truncating_write_drops_what_follows() {
    let mut storage = UnitStorage::new();
    for offset in [1, 2, 3, 4] {
        storage.apply_write(event(7, offset, b"old"), false);
    }
    storage.apply_write(event(7, 3, b"new"), true);
    let held: Vec<_> = storage
        .read_events(7, 0, 10)
        .into_iter()
        .map(|event| (event.offset, event.payload.unwrap()))
        .collect();
    assert_eq!(
        held,
        vec![(1, b"old".to_vec()), (2, b"old".to_vec()), (3, b"new".to_vec())]
    );
}

#[test]
fn acknowledgements_do_not_go_back() {
    let mut storage = UnitStorage::new();
    storage.update_lra(7, 9);
    storage.update_lra(7, 3);
    assert_eq!(storage.fence(7, 1), Ok(9));
}

#[test]
fn offsets_are_handed_out_in_order() {
    let mut storage = UnitStorage::new();
    let first = storage.append();
    assert_eq!(storage.append(), first + 1);
    assert_eq!(storage.synced(), first + 1);
}

fn many_events(count: i64) -> UnitStorage {
    let mut storage = UnitStorage::new();
    for offset in 0..count {
        storage.apply_write(event(7, offset, b"e"), false);
    }
    storage
}

fn kinds(responses: &[ReadResponse]) -> Vec<(ChunkType, usize, i64)> {
    responses
        .iter()
        .map(|response| (response.chunk, response.events.len(), response.advanced_offset))
        .collect()
}

#[test]
fn long_reads_come_in_chunks() {
    assert_eq!(READ_CHUNK_SIZE, 1024);
    let storage = many_events(2500);
    let responses = handle_read_request(Protocol::Append, &storage, 7, 0, 2500).unwrap();
    assert_eq!(
        kinds(&responses),
        vec![
            (ChunkType::First, 1024, 1024),
            (ChunkType::Middle, 1024, 2048),
            (ChunkType::Last, 452, 2500),
        ]
    );
    let responses = handle_read_request(Protocol::Append, &storage, 7, 0, 1024).unwrap();
    assert_eq!(kinds(&responses), vec![(ChunkType::Full, 1024, 1024)]);
    let responses = handle_read_request(Protocol::Append, &storage, 7, 0, 1025).unwrap();
    assert_eq!(
        kinds(&responses),
        vec![(ChunkType::First, 1024, 1024), (ChunkType::Last, 1, 1025)]
    );
}

#[test]
fn a_failed_batch_is_answered_once() {
    let mut ack = BatchAck::new(7, 1, 2);
    let status = Fault::WritesClosed.status(Protocol::Append);
    assert_eq!(ack.complete_ok(4), None);
    assert_eq!(ack.fail_status(status).unwrap().message, "append stream closed");
    assert!(ack.fail_status(Fault::WatchClosed.status(Protocol::Append)).is_none());
    assert_eq!(ack.complete_ok(5), None);
}

#[test]
fn faults_are_told_in_the_words_of_their_protocol() {
    let told = |fault: Fault, protocol: Protocol| {
        let status = fault.status(protocol);
        (status.kind, status.message)
    };
    assert_eq!(
        told(Fault::WritesCancelled, Protocol::Record),
        (StatusKind::Cancelled, "record stream cancelled".to_string())
    );
    assert_eq!(
        told(Fault::ReadsClosed, Protocol::Append),
        (StatusKind::Cancelled, "read response stream closed".to_string())
    );
    assert_eq!(
        told(Fault::ReadsCancelled, Protocol::Record),
        (StatusKind::Cancelled, "fetch stream cancelled".to_string())
    );
    assert_eq!(
        told(Fault::WritesClosed, Protocol::Record),
        (StatusKind::Unavailable, "record stream closed".to_string())
    );
    assert_eq!(
        told(Fault::WatchClosed, Protocol::Append),
        (StatusKind::Internal, "wal sync watch closed".to_string())
    );
}

#[test]
fn writes_wait_until_they_are_durable() {
    let mut storage = UnitStorage::new();
    let items = vec![item(event(7, 1, b"a")), item(event(7, 2, b"b"))];
    let (ack, mut enqueue) = enqueue_append_batch(&items, 0, &storage).unwrap();
    let mut acks = vec![ack];
    let mut queue = SyncQueue::new(-1);
    for wal_offset in [5, 6] {
        assert!(matches!(enqueue.step(EnqueueEvent::Reserved), EnqueueAction::Append(_)));
        match enqueue.step(EnqueueEvent::Appended(wal_offset)) {
            EnqueueAction::Forward { write, .. } => queue.receive(Some(write)),
            _ => panic!("the write is forwarded"),
        }
    }
    queue.observe(5);
    assert!(queue.drain_synced_writes(&mut storage, &mut acks).is_empty());
    assert_eq!(storage.read_events(7, 0, 10).len(), 1);
    queue.observe(4);
    assert!(queue.take_due().is_none());
    queue.changed(4);
    assert!(queue.take_due().is_none());
    queue.observe(6);
    assert_eq!(queue.drain_synced_writes(&mut storage, &mut acks).len(), 1);
    assert_eq!(storage.read_events(7, 0, 10).len(), 2);
    assert!(!queue.is_done());
    queue.receive(None);
    assert!(queue.is_done());
}

#[test]
fn test_aligned_buffer_basic() {
    let mut buf = AlignedBuffer::new(PAGE_SIZE);
    assert_eq!(buf.len(), 0);
    assert_eq!(buf.as_slice().as_ptr() as usize % PAGE_SIZE, 0);

    buf.extend_from_slice(b"hello world");
    assert_eq!(buf.len(), 11);
    assert_eq!(buf.as_slice(), b"hello world");
}

#[test]
fn test_aligned_buffer_padding() {
    let mut buf = AlignedBuffer::new(PAGE_SIZE);
    buf.extend_from_slice(b"data");
    buf.pad_to_alignment();
    assert_eq!(buf.len() % PAGE_SIZE, 0);
    assert_eq!(buf.len(), PAGE_SIZE);
    assert_eq!(&buf.as_slice()[..4], b"data");
}

#[test]
fn test_aligned_buffer_grow() {
    let mut buf = AlignedBuffer::new(PAGE_SIZE);
    let data = vec![0xABu8; PAGE_SIZE + 100];
    buf.extend_from_slice(&data);
    assert_eq!(buf.len(), PAGE_SIZE + 100);
    assert_eq!(buf.as_slice(), &data[..]);
    assert_eq!(buf.as_slice().as_ptr() as usize % PAGE_SIZE, 0);
}

#[test]
fn test_aligned_buffer_clear() {
    let mut buf = AlignedBuffer::new(PAGE_SIZE);
    buf.extend_from_slice(b"some data");
    buf.clear();
    assert_eq!(buf.len(), 0);
}

#[test]
fn test_aligned_buffer_round_trip() {
    let mut buf = AlignedBuffer::new(PAGE_SIZE);
    let original = b"round trip test data for alignment verification";
    buf.extend_from_slice(original);
    buf.pad_to_alignment();
    assert_eq!(&buf.as_slice()[..original.len()], &original[..]);
}

#[test]
fn test_direct_segment_write_read() {
    let mut writes = PagedWrites::new(0);
    let mut file: Vec<u8> = Vec::new();

    let data1 = b"first write";
    let offset1 = writes.stage(data1);
    assert_eq!(offset1, 0);
    file.truncate(offset1 as usize);
    file.extend_from_slice(writes.bytes());
    writes.written(data1.len());

    let data2 = b"second write";
    let offset2 = writes.stage(data2);
    assert_eq!(offset2, data1.len() as u64);
    file.truncate(offset2 as usize);
    file.extend_from_slice(writes.bytes());
    writes.written(data2.len());

    let all = &file[..writes.write_offset() as usize];
    assert_eq!(&all[..data1.len()], data1);
    assert_eq!(&all[data1.len()..], data2);
}

fn whole_pages_are_aligned(alignment: usize) {
    let bytes = vec![0xAB; alignment * 2];
    let buffer = AlignedBuffer::from_slice(&bytes);
    assert_eq!(buffer.as_slice(), bytes);
    assert_eq!(buffer.as_slice().as_ptr() as usize % alignment, 0);
    assert_eq!(buffer.as_slice().len() % alignment, 0);
}

#[test]
fn io_aligned_buffer_has_aligned_address_and_length() {
    whole_pages_are_aligned(ALIGNMENT);
}

#[test]
fn direct_aligned_buffer_has_aligned_address_and_length() {
    whole_pages_are_aligned(4096);
}

#[test]
fn checksums_are_castagnoli() {
    assert_eq!(crc::checksum(b"123456789"), 0xE306_9283);
    assert_eq!(crc::checksum(b""), 0);
    assert_eq!(crc::mask(0), 0xa282_ead8);
    assert_eq!(crc::mask(0x8000), 0xa282_ead9);
    let mut bytes = vec![1u8];
    bytes.extend_from_slice(&7u32.to_le_bytes());
    bytes.extend_from_slice(b"payload");
    assert_eq!(
        crc::physical_checksum(1, 7, b"payload"),
        crc::mask(crc32c::crc32c(&bytes))
    );
}

#[test]
fn errors_of_the_unit_say_what_happened() {
    assert_eq!(
        UnitError::InvalidTerm { current: 5, requested: -4 }.message(),
        "Invalid term: current=5, requested=-4"
    );
    assert_eq!(
        UnitError::Fenced { timeline_id: 7, term: 2 }.message(),
        "Fenced: timeline 7 at term 2"
    );
}

#[test]
fn options_have_defaults() {
    let options = UnitOptions::default();
    assert_eq!(options.io_mode, IoMode::Basic);
    assert_eq!(options.server.bind_address.ip, IpAddress::V4([0, 0, 0, 0]));
    assert_eq!(options.server.bind_address.port, 7070);
    assert_eq!(options.server.advertise_address, None);
    assert_eq!(options.wal.dir, "/data/wal");
    assert_eq!(options.storage.dir, "/data/storage");
    assert_eq!(options.segments.dir, "/data/segments");
    assert_eq!(options.log.level, "info");
}

#[test]
fn numbers_are_written_in_decimal() {
    let mut written = String::new();
    text::push_decimal(&mut written, 0);
    text::push_padded_decimal(&mut written, 42, 10);
    text::push_signed_decimal(&mut written, i64::MIN);
    assert_eq!(written, "00000000042-9223372036854775808");
}

#[test]
fn a_gap_leads_to_the_next_boundary() {
    assert_eq!(align::gap(0, 4096), 0);
    assert_eq!(align::gap(1, 4096), 4095);
    assert_eq!(align::gap(4095, 4096), 1);
    assert_eq!(align::gap(4096, 4096), 0);
    assert_eq!(align::gap(1000, 512), 24);
}

#[test]
fn a_buffer_starts_with_the_first_page_of_its_storage() {
    for gap in [0, 1, 100, PAGE_SIZE - 1] {
        let storage = vec![0u8; 2 * PAGE_SIZE];
        let base = storage.as_ptr() as usize;
        let mut buffer = AlignedBuffer::inside(storage, 8 * PAGE_SIZE - gap);
        assert!(buffer.is_empty());
        buffer.extend_from_slice(&[7; PAGE_SIZE]);
        assert_eq!(buffer.as_slice(), [7; PAGE_SIZE]);
        assert_eq!(buffer.as_slice().as_ptr() as usize - base, gap);
    }
}

#[test]
fn a_growing_buffer_stays_on_its_boundary() {
    let mut buffer = AlignedBuffer::new(1);
    let mut expected = Vec::new();
    for round in 0..5u8 {
        let more = vec![round; 3000];
        buffer.extend_from_slice(&more);
        expected.extend_from_slice(&more);
        assert_eq!(buffer.as_slice(), expected);
        assert_eq!(buffer.as_slice().as_ptr() as usize % PAGE_SIZE, 0);
    }
    buffer.clear();
    assert!(buffer.as_slice().is_empty());
    assert_eq!(buffer.as_slice().as_ptr() as usize % PAGE_SIZE, 0);
}
