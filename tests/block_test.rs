use rs_db::file_manager::block::BlockId;
use rs_db::file_manager::{block_count, block_offset, is_temp_file, next_block};

#[test]
fn block_fields() {
    let b = BlockId::new("data", 7);
    assert_eq!(b.get_filename(), "data");
    assert_eq!(b.get_block_number(), 7);
}

#[test]
fn block_equality_is_structural() {
    let a = BlockId::new("f", 1);
    assert!(a.equal(&BlockId::new("f", 1)));
    assert!(!a.equal(&BlockId::new("f", 2)));
    assert!(!a.equal(&BlockId::new("g", 1)));
}

#[test]
fn block_hash_follows_fields() {
    let a = BlockId::new("f", 1);
    assert_eq!(a.get_hash_code(), BlockId::new("f", 1).get_hash_code());
    assert_ne!(a.get_hash_code(), BlockId::new("f", 2).get_hash_code());
    assert_ne!(a.get_hash_code(), BlockId::new("g", 1).get_hash_code());
}

#[test]
fn temp_prefix() {
    assert!(is_temp_file("temp"));
    assert!(is_temp_file("tempfile1"));
    assert!(!is_temp_file("tem"));
    assert!(!is_temp_file("atemp"));
    assert!(!is_temp_file("Temp1"));
    assert!(!is_temp_file(""));
}

#[test]
fn block_offsets() {
    assert_eq!(block_offset(&BlockId::new("f", 0), 400), Some(0));
    assert_eq!(block_offset(&BlockId::new("f", 3), 400), Some(1200));
    assert_eq!(block_offset(&BlockId::new("f", u64::MAX), 2), None);
}

#[test]
fn block_counts() {
    assert_eq!(block_count(0, 400), 0);
    assert_eq!(block_count(399, 400), 0);
    assert_eq!(block_count(800, 400), 2);
}

#[test]
fn append_numbers_blocks_from_zero() {
    let b = next_block("f", 0, 400);
    assert_eq!(b.get_filename(), "f");
    assert_eq!(b.get_block_number(), 0);
    let b = next_block("f", 400, 400);
    assert_eq!(b.get_block_number(), 1);
    assert_eq!(block_count(800, 400), 2);
}
