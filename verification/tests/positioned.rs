use kvs::kv::positioned::{BufReaderWithPos, BufWriterWithPos};
use kvs::KvsError;

#[test]
fn reader_starts_at_zero() {
    let reader = BufReaderWithPos::new();
    assert_eq!(reader.pos, 0);
}

#[test]
fn reader_reads_and_moves_on() {
    let file = vec![10u8, 11, 12, 13, 14];
    let mut reader = BufReaderWithPos::new();
    assert_eq!(reader.read(&file, 2), vec![10, 11]);
    assert_eq!(reader.pos, 2);
    assert_eq!(reader.read(&file, 2), vec![12, 13]);
    assert_eq!(reader.pos, 4);
}

#[test]
fn reader_read_is_short_at_the_end() {
    let file = vec![10u8, 11, 12, 13, 14];
    let mut reader = BufReaderWithPos::new();
    reader.seek(3);
    assert_eq!(reader.read(&file, 17), vec![13, 14]);
    assert_eq!(reader.pos, 5);
    assert_eq!(reader.read(&file, 17), Vec::<u8>::new());
    assert_eq!(reader.pos, 5);
}

#[test]
fn reader_seek_replaces_the_position() {
    let file = vec![1u8, 2, 3];
    let mut reader = BufReaderWithPos::new();
    assert_eq!(reader.seek(2), 2);
    assert_eq!(reader.pos, 2);
    assert_eq!(reader.read(&file, 1), vec![3]);
    assert_eq!(reader.seek(0), 0);
    assert_eq!(reader.read(&file, 1), vec![1]);
}

#[test]
fn reader_past_the_end_reads_nothing() {
    let file = vec![1u8, 2, 3];
    let mut reader = BufReaderWithPos::new();
    reader.seek(100);
    assert_eq!(reader.read(&file, 4), Vec::<u8>::new());
    assert_eq!(reader.pos, 100);
}

#[test]
fn reader_read_of_nothing() {
    let file = vec![1u8, 2, 3];
    let mut reader = BufReaderWithPos::new();
    assert_eq!(reader.read(&file, 0), Vec::<u8>::new());
    assert_eq!(reader.pos, 0);
}

#[test]
fn read_exact_gives_all_or_fails() {
    let file = vec![1u8, 2, 3, 4];
    let mut reader = BufReaderWithPos::new();
    assert_eq!(reader.read_exact(&file, 3), Ok(vec![1, 2, 3]));
    assert_eq!(reader.pos, 3);
    assert_eq!(reader.read_exact(&file, 2), Err(KvsError::IO));
    assert_eq!(reader.pos, 4);
}

#[test]
fn read_exact_of_nothing_succeeds() {
    let file = vec![1u8, 2];
    let mut reader = BufReaderWithPos::new();
    reader.seek(2);
    assert_eq!(reader.read_exact(&file, 0), Ok(Vec::new()));
    assert_eq!(reader.pos, 2);
}

#[test]
fn read_exact_of_a_huge_length_fails() {
    let file = vec![1u8, 2];
    let mut reader = BufReaderWithPos::new();
    assert_eq!(reader.read_exact(&file, u64::MAX), Err(KvsError::IO));
    assert_eq!(reader.pos, 2);
}

#[test]
fn writer_appends_and_moves_on() {
    let mut file = vec![7u8];
    let mut writer = BufWriterWithPos::new();
    assert_eq!(writer.pos, 0);
    writer.seek(1);
    assert_eq!(writer.write(&mut file, &[8, 9]), 2);
    assert_eq!(file, vec![7, 8, 9]);
    assert_eq!(writer.pos, 3);
    assert_eq!(writer.write(&mut file, &[]), 0);
    assert_eq!(file, vec![7, 8, 9]);
    assert_eq!(writer.pos, 3);
}

#[test]
fn reader_and_writer_do_not_move_each_other() {
    let mut file = Vec::new();
    let mut writer = BufWriterWithPos::new();
    let mut reader = BufReaderWithPos::new();
    writer.write(&mut file, &[1, 2, 3]);
    assert_eq!(reader.pos, 0);
    assert_eq!(reader.read(&file, 2), vec![1, 2]);
    assert_eq!(writer.pos, 3);
    writer.write(&mut file, &[4]);
    assert_eq!(reader.pos, 2);
    assert_eq!(reader.read(&file, 5), vec![3, 4]);
}
