use calculation_engine::ultrafast_log::UltraFastLog;
use calculation_engine::EngineError;

#[test]
fn test_ultra_fast_log_creation() {
    let log = UltraFastLog::new(1).unwrap();
    assert_eq!(log.size(), 1024 * 1024);
    assert_eq!(log.mask(), 1024 * 1024 - 1);
}

#[test]
fn append_then_read_at_round_trips() {
    let mut log = UltraFastLog::new(1).unwrap();
    let data = b"Hello, ultra-fast world!";
    let pos = log.append(data).unwrap();
    assert_eq!(pos, 0);
    let back = log.read_at(pos, data.len()).unwrap();
    assert_eq!(back.as_slice(), data.as_slice());

    let second = b"and again";
    let pos2 = log.append(second).unwrap();
    assert_eq!(pos2, data.len());
    let back2 = log.read_at(pos2, second.len()).unwrap();
    assert_eq!(back2.as_slice(), second.as_slice());
}

#[test]
fn ring_log_wrap_after_reader_advances() {
    // 1 MiB ring, 4 KiB records: 256 appends fill it, further appends fail
    // until the reader advances, then the next append wraps to offset 0.
    let mut log = UltraFastLog::new(1).unwrap();
    let record = vec![0xabu8; 4096];
    let mut ok = 0u64;
    let mut full = 0u64;
    for _ in 0..300 {
        match log.append(&record) {
            Ok(_) => ok += 1,
            Err(e) => {
                assert_eq!(e, EngineError::BufferFull);
                full += 1;
            }
        }
    }
    assert_eq!(ok, 256);
    assert_eq!(full, 44);
    assert_eq!(log.available_space(), 0);

    log.advance_read_pos(1024 * 1024).unwrap();
    assert_eq!(log.available_space(), 1024 * 1024);

    let fresh = vec![0x5au8; 4096];
    let pos = log.append(&fresh).unwrap();
    assert_eq!(pos, 0, "the append after a full lap lands at the wrapped position");
    let back = log.read_at(0, 4096).unwrap();
    assert_eq!(back, fresh);

    let stats = log.stats();
    assert_eq!(stats.bytes_written, 257 * 4096);
    assert_eq!(stats.writes_count, 257);
    assert_eq!(stats.write_pos, 257 * 4096);
    assert_eq!(stats.read_pos, 1024 * 1024);
}

#[test]
fn batch_append_lays_records_end_to_end() {
    let mut log = UltraFastLog::new(1).unwrap();
    let items: Vec<Vec<u8>> = vec![b"item1".to_vec(); 1000];
    let positions = log.batch_append(&items).unwrap();
    assert_eq!(positions.len(), 1000);
    for (i, pos) in positions.iter().enumerate() {
        assert_eq!(*pos, i * 5);
        let back = log.read_at(*pos, 5).unwrap();
        assert_eq!(back.as_slice(), b"item1".as_slice());
    }
    let stats = log.stats();
    assert_eq!(stats.writes_count, 1000);
    assert_eq!(stats.bytes_written, 5000);
}

#[test]
fn log_rejects_bad_sizes_and_ranges() {
    assert_eq!(UltraFastLog::new(3).unwrap_err(), EngineError::InvalidArgument);
    assert_eq!(UltraFastLog::new(0).unwrap_err(), EngineError::InvalidArgument);

    let mut log = UltraFastLog::new(1).unwrap();
    assert_eq!(log.append(&[]).unwrap_err(), EngineError::InvalidArgument);

    let too_big = vec![0u8; 1024 * 1024 / 4 + 1];
    assert_eq!(log.append(&too_big).unwrap_err(), EngineError::CapacityExceeded);

    assert_eq!(log.read_at(1024 * 1024 - 3, 4).unwrap_err(), EngineError::OutOfBounds);
    assert_eq!(log.advance_read_pos(1).unwrap_err(), EngineError::OutOfBounds);

    let batch = vec![vec![1u8; 600 * 1024]];
    assert_eq!(log.batch_append(&batch).unwrap_err(), EngineError::CapacityExceeded);
    let empty_item = vec![vec![1u8; 8], vec![]];
    assert_eq!(log.batch_append(&empty_item).unwrap_err(), EngineError::InvalidArgument);

    // A quarter-sized record fits while the ring is empty.
    let quarter = vec![0u8; 1024 * 1024 / 4];
    assert!(log.append(&quarter).is_ok());

    // Sync calls are advisory and succeed on an anonymous mapping.
    assert!(log.sync().is_ok());
    assert!(log.sync_async().is_ok());
}

#[test]
fn buffer_full_exactly_when_occupancy_would_exceed_size() {
    // With capacity S and a silent reader, the (k+1)-th append of size l
    // fails exactly once k*l exceeds S - l.
    let mut log = UltraFastLog::new(1).unwrap();
    let record = vec![7u8; 65536];
    for _ in 0..16 {
        log.append(&record).unwrap();
    }
    assert_eq!(log.append(&record).unwrap_err(), EngineError::BufferFull);
    log.advance_read_pos(65536).unwrap();
    assert!(log.append(&record).is_ok());
}
