use rs_db::file_manager::block::BlockId;
use rs_db::file_manager::page::Page;
use rs_db::logger::logger_iterator::{LogIterator, LogStep};
use rs_db::logger::{LogError, Logger, U64_BYTES};

// The log file is kept as a list of blocks in memory; each entry is the
// bytes of one block.

fn open_log(disk: &mut Vec<Vec<u8>>, name: &str, block_size: u64) -> Logger {
    match Logger::last_block(name, disk.len() as u64) {
        None => {
            let block = BlockId::new(name, disk.len() as u64);
            disk.push(vec![0; block_size as usize]);
            let log = Logger::fresh(block, block_size).unwrap();
            flush(&log, disk);
            log
        }
        Some(block) => {
            let page = Page::new_as_bytes(&disk[block.get_block_number() as usize]);
            Logger::resume(block, page).unwrap()
        }
    }
}

fn flush(log: &Logger, disk: &mut Vec<Vec<u8>>) {
    let n = log.current_block().get_block_number() as usize;
    disk[n] = log.log_page().bytes().to_vec();
}

fn append(log: &mut Logger, disk: &mut Vec<Vec<u8>>, record: &[u8]) {
    match log.append(record) {
        Ok(()) => {}
        Err(LogError::BlockFull) => {
            flush(log, disk);
            disk.push(vec![0; log.get_block_size() as usize]);
            log.start_block(disk.len() as u64 - 1);
            flush(log, disk);
            log.append(record).unwrap();
        }
        Err(e) => panic!("append failed: {:?}", e),
    }
}

fn drain(mut it: LogIterator, disk: &Vec<Vec<u8>>) -> Vec<Vec<u8>> {
    let mut out = Vec::new();
    loop {
        match it.step() {
            LogStep::Record(r) => out.push(r),
            LogStep::Load(b) => {
                let page = Page::new_as_bytes(&disk[b.get_block_number() as usize]);
                if it.move_to_block(b, page).is_err() {
                    break;
                }
            }
            LogStep::End => break,
        }
    }
    out
}

fn read_all(log: &Logger, disk: &mut Vec<Vec<u8>>) -> Vec<Vec<u8>> {
    flush(log, disk);
    drain(log.iter().unwrap(), disk)
}

fn make_record(s: &str, n: u64) -> Page {
    let pos = Page::max_length_for_string(s);

    let mut page = Page::new_as_size(pos + U64_BYTES);
    page.set_string(0, s).unwrap();
    page.set_u64(pos, n).unwrap();

    return page;
}

fn create_record(log: &mut Logger, disk: &mut Vec<Vec<u8>>, start: u64, end: u64) {
    let mut i = start;
    while i <= end {
        let filename = format!("record{}", i);
        let mut page = make_record(&filename, i);
        append(log, disk, page.contents());
        i += 1;
    }
}

#[test]
fn test_logger() {
    let mut disk: Vec<Vec<u8>> = Vec::new();
    let mut log = open_log(&mut disk, "log_file", 400);

    create_record(&mut log, &mut disk, 1, 35);

    let records = read_all(&log, &mut disk);
    assert_eq!(records.len(), 35);
    let mut expected = 35;
    for l in records {
        let page = Page::new_as_bytes(&l);
        let s = page.get_string(0).unwrap();
        println!("{}", s);
        assert_eq!(s, format!("record{}", expected));
        let pos = Page::max_length_for_string(s);
        assert_eq!(page.get_u64(pos).unwrap(), expected);
        expected -= 1;
    }
    assert!(disk.len() > 1);
    assert_eq!(log.get_latest_sequence_number(), 35);
}

#[test]
fn fresh_log_is_one_empty_block() {
    let mut disk: Vec<Vec<u8>> = Vec::new();
    let log = open_log(&mut disk, "log", 64);
    assert_eq!(disk.len(), 1);
    assert_eq!(log.log_page().get_u64(0).unwrap(), 64);
    assert_eq!(log.current_block().get_block_number(), 0);
    assert_eq!(log.get_latest_sequence_number(), 0);
    assert_eq!(log.get_latest_saved_sequence_number(), 0);
    assert!(read_all(&log, &mut disk).is_empty());
}

#[test]
fn record_layout_grows_backward() {
    let mut disk: Vec<Vec<u8>> = Vec::new();
    let mut log = open_log(&mut disk, "log", 32);
    log.append(&[1, 2, 3]).unwrap();
    // 8 + 3 bytes just below the end, boundary moved to 21.
    assert_eq!(log.log_page().get_u64(0).unwrap(), 21);
    assert_eq!(log.log_page().get_bytes(21).unwrap(), &[1, 2, 3]);
    log.append(&[4]).unwrap();
    assert_eq!(log.log_page().get_u64(0).unwrap(), 12);
    assert_eq!(log.log_page().get_bytes(12).unwrap(), &[4]);
    assert_eq!(log.get_latest_sequence_number(), 2);
}

#[test]
fn rollover_exactly_when_full() {
    let mut disk: Vec<Vec<u8>> = Vec::new();
    let mut log = open_log(&mut disk, "log", 64);
    let rec = [7u8; 20];
    // Two records of 28 packed bytes fill the 56 bytes after the header.
    log.append(&rec).unwrap();
    log.append(&rec).unwrap();
    assert_eq!(log.log_page().get_u64(0).unwrap(), 8);
    assert_eq!(log.append(&[]), Err(LogError::BlockFull));
    assert_eq!(log.get_latest_sequence_number(), 2);
    append(&mut log, &mut disk, &[5]);
    assert_eq!(disk.len(), 2);
    assert_eq!(log.current_block().get_block_number(), 1);
    assert_eq!(log.log_page().get_u64(0).unwrap(), 64 - 9);
    let records = read_all(&log, &mut disk);
    assert_eq!(records, vec![vec![5u8], rec.to_vec(), rec.to_vec()]);
}

#[test]
fn one_byte_short_rolls_over() {
    let mut disk: Vec<Vec<u8>> = Vec::new();
    let mut log = open_log(&mut disk, "log", 64);
    log.append(&[0u8; 20]).unwrap();
    // 28 bytes remain above the header; a record of 21 needs 29.
    assert_eq!(log.append(&[0u8; 21]), Err(LogError::BlockFull));
    log.append(&[0u8; 20]).unwrap();
}

#[test]
fn record_too_large() {
    let mut disk: Vec<Vec<u8>> = Vec::new();
    let mut log = open_log(&mut disk, "log", 32);
    assert_eq!(log.append(&[0u8; 17]), Err(LogError::RecordTooLarge));
    log.append(&[0u8; 16]).unwrap();
    assert_eq!(log.log_page().get_u64(0).unwrap(), 8);
}

#[test]
fn log_order_across_many_blocks() {
    let mut disk: Vec<Vec<u8>> = Vec::new();
    let mut log = open_log(&mut disk, "log", 48);
    let mut written: Vec<Vec<u8>> = Vec::new();
    for i in 0..40u8 {
        let rec: Vec<u8> = (0..(i % 7)).map(|k| k + i).collect();
        append(&mut log, &mut disk, &rec);
        written.push(rec);
    }
    written.reverse();
    assert_eq!(read_all(&log, &mut disk), written);
    assert!(disk.len() >= 5);
}

#[test]
fn resume_continues_last_block() {
    let mut disk: Vec<Vec<u8>> = Vec::new();
    let mut log = open_log(&mut disk, "log", 64);
    append(&mut log, &mut disk, &[1]);
    append(&mut log, &mut disk, &[2]);
    flush(&log, &mut disk);
    let mut again = open_log(&mut disk, "log", 64);
    assert_eq!(again.get_latest_sequence_number(), 0);
    append(&mut again, &mut disk, &[3]);
    assert_eq!(read_all(&again, &mut disk), vec![vec![3u8], vec![2u8], vec![1u8]]);
}

#[test]
fn last_block_of_file() {
    assert!(Logger::last_block("log", 0).is_none());
    let b = Logger::last_block("log", 3).unwrap();
    assert_eq!(b.get_filename(), "log");
    assert_eq!(b.get_block_number(), 2);
}

#[test]
fn resume_refuses_bad_blocks() {
    let b = || BlockId::new("log", 0);
    assert_eq!(Logger::resume(b(), Page::new_as_size(4)).err(), Some(LogError::BlockTooSmall));
    let mut page = Page::new_as_size(16);
    page.set_u64(0, 17).unwrap();
    assert_eq!(Logger::resume(b(), page).err(), Some(LogError::CorruptBlock));
    assert_eq!(Logger::fresh(b(), 7).err(), Some(LogError::BlockTooSmall));
}

#[test]
fn flush_by_sequence_number_gate() {
    let mut disk: Vec<Vec<u8>> = Vec::new();
    let mut log = open_log(&mut disk, "log", 64);
    assert!(!log.needs_flush(0));
    assert!(log.needs_flush(1));
    log.mark_saved(3);
    assert_eq!(log.get_latest_saved_sequence_number(), 3);
    assert!(!log.needs_flush(3));
    assert!(!log.needs_flush(2));
    assert!(log.needs_flush(4));
    log.mark_saved(1);
    assert_eq!(log.get_latest_saved_sequence_number(), 1);
}

#[test]
fn flush_twice_writes_same_bytes() {
    let mut disk: Vec<Vec<u8>> = Vec::new();
    let mut log = open_log(&mut disk, "log", 64);
    append(&mut log, &mut disk, &[1, 2]);
    flush(&log, &mut disk);
    let first = disk.clone();
    flush(&log, &mut disk);
    assert_eq!(disk, first);
}

#[test]
fn iterator_stops_on_undecodable_record() {
    let mut page = Page::new_as_size(32);
    page.set_u64(0, 16).unwrap();
    page.set_u64(16, 100).unwrap();
    let mut it = LogIterator::new(BlockId::new("log", 0), page).unwrap();
    assert!(it.has_next());
    assert!(matches!(it.step(), LogStep::End));
    assert!(!it.has_next());
}

#[test]
fn iterator_asks_for_older_block() {
    let mut page = Page::new_as_size(32);
    page.set_u64(0, 32).unwrap();
    let mut it = LogIterator::new(BlockId::new("log", 2), page).unwrap();
    assert!(it.has_next());
    match it.step() {
        LogStep::Load(b) => {
            assert_eq!(b.get_filename(), "log");
            assert_eq!(b.get_block_number(), 1);
        }
        other => panic!("unexpected step {:?}", other),
    }
    let mut bad = Page::new_as_size(32);
    bad.set_u64(0, 33).unwrap();
    assert_eq!(it.move_to_block(BlockId::new("log", 1), bad), Err(LogError::CorruptBlock));
    assert!(!it.has_next());
}

#[test]
fn reopen_after_interrupted_append() {
    let mut disk: Vec<Vec<u8>> = Vec::new();
    let mut log = open_log(&mut disk, "log", 64);
    append(&mut log, &mut disk, &[1]);
    flush(&log, &mut disk);
    // A block was appended (zeros) but its boundary never written.
    disk.push(vec![0; 64]);
    let mut again = open_log(&mut disk, "log", 64);
    assert_eq!(again.current_block().get_block_number(), 1);
    assert_eq!(again.log_page().bytes(), &[0u8; 64]);
    assert_eq!(again.append(&[2]), Err(LogError::BlockFull));
    append(&mut again, &mut disk, &[2]);
    assert_eq!(again.current_block().get_block_number(), 2);
    assert_eq!(read_all(&again, &mut disk), vec![vec![2u8], vec![1u8]]);
}

#[test]
fn iterator_skips_block_with_low_boundary() {
    let mut page = Page::new_as_size(32);
    page.set_u64(0, 3).unwrap();
    let mut it = LogIterator::new(BlockId::new("log", 0), page).unwrap();
    assert!(!it.has_next());
    assert!(matches!(it.step(), LogStep::End));
}
