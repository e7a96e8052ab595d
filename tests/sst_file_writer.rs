use rocks::{Error, SstFileWriter, WriterState};

#[test]
fn sst_file_create() {
    let mut writer = SstFileWriter::builder().build();
    writer.open("sst/./23333.sst").unwrap();
    for i in 0..999 {
        let key = format!("B{:010}", i);
        let value = format!("ABCDEFGH{:x}IJKLMN", i);
        writer.add(key.as_bytes(), value.as_bytes()).unwrap();
    }
    let info = writer.finish().unwrap();
    println!("info => {:?}", info);
    assert_eq!(info.num_entries(), 999);
    assert_eq!(info.smallest_key(), b"B0000000000");
    assert_eq!(info.largest_key(), b"B0000000998");
    assert_eq!(info.sequence_number(), 0);
    assert_eq!(info.file_path(), "sst/./23333.sst");
    assert_eq!(info.file_size(), writer.file_size());
}

#[test]
fn sst_file_create_error() {
    let mut writer = SstFileWriter::builder().build();
    writer.open("sst/./23333.sst").unwrap();
    assert!(writer.add(b"0000001", b"hello world").is_ok());
    let ret = writer.add(b"0000000", b"hello rust");
    assert!(ret.is_err());
    assert_eq!(ret, Err(Error::OutOfOrder));
    assert_eq!(writer.num_entries(), 1);
    assert_eq!(writer.state(), WriterState::Failed(Error::OutOfOrder));
    assert_eq!(writer.add(b"0000002", b"later"), Err(Error::OutOfOrder));
    assert_eq!(writer.finish().err(), Some(Error::OutOfOrder));
}

#[test]
fn equal_key_is_out_of_order() {
    let mut writer = SstFileWriter::builder().build();
    writer.open("f.sst").unwrap();
    writer.add(b"k", b"1").unwrap();
    assert_eq!(writer.add(b"k", b"2"), Err(Error::OutOfOrder));
}

#[test]
fn prefix_sorts_first() {
    let mut writer = SstFileWriter::builder().build();
    writer.open("f.sst").unwrap();
    writer.add(b"ab", b"1").unwrap();
    writer.add(b"abc", b"2").unwrap();
    writer.add(b"b", b"3").unwrap();
    assert_eq!(writer.add(b"a", b"4"), Err(Error::OutOfOrder));
}

#[test]
fn record_layout_is_exact() {
    let mut writer = SstFileWriter::builder().build();
    writer.open("f.sst").unwrap();
    writer.add(b"a", b"xy").unwrap();
    let mut expected: Vec<u8> = vec![2, 0, 0, 0];
    expected.extend_from_slice(&[1, 0, 0, 0, 0, 0, 0, 0]);
    expected.push(b'a');
    expected.extend_from_slice(&[2, 0, 0, 0, 0, 0, 0, 0]);
    expected.extend_from_slice(b"xy");
    expected.extend_from_slice(&[0, 0, 0, 0, 0, 0, 0, 0]);
    assert_eq!(writer.contents(), &expected[..]);
    let info = writer.finish().unwrap();
    assert_eq!(info.file_size(), 4 + 8 + 1 + 8 + 2 + 8);
    assert_eq!(info.version(), 2);
}

#[test]
fn empty_file_is_refused() {
    let mut writer = SstFileWriter::builder().build();
    writer.open("f.sst").unwrap();
    assert_eq!(writer.finish().err(), Some(Error::EmptyFile));
    assert_eq!(writer.state(), WriterState::Failed(Error::EmptyFile));
}

#[test]
fn empty_path_is_an_io_error() {
    let mut writer = SstFileWriter::builder().build();
    assert_eq!(writer.open(""), Err(Error::IoError));
    assert_eq!(writer.add(b"k", b"v"), Err(Error::IoError));
}

#[test]
fn calls_out_of_state() {
    let mut writer = SstFileWriter::builder().build();
    assert_eq!(writer.add(b"k", b"v"), Err(Error::InvalidState));
    assert_eq!(writer.finish().err(), Some(Error::InvalidState));
    writer.open("f.sst").unwrap();
    assert_eq!(writer.open("g.sst"), Err(Error::InvalidState));
    writer.add(b"k", b"v").unwrap();
    writer.finish().unwrap();
    assert_eq!(writer.add(b"l", b"v"), Err(Error::InvalidState));
    assert_eq!(writer.state(), WriterState::Finished);
}

#[test]
fn io_failure_fails_writer() {
    let mut writer = SstFileWriter::builder().build();
    writer.open("f.sst").unwrap();
    assert_eq!(writer.report_io(true), Ok(()));
    writer.add(b"k", b"v").unwrap();
    assert_eq!(writer.report_io(false), Err(Error::IoError));
    assert_eq!(writer.state(), WriterState::Failed(Error::IoError));
    assert_eq!(writer.add(b"l", b"v"), Err(Error::IoError));
    assert_eq!(writer.finish().err(), Some(Error::IoError));
    assert_eq!(writer.num_entries(), 1);
}

#[test]
fn io_report_after_finish_is_refused() {
    let mut writer = SstFileWriter::builder().build();
    writer.open("f.sst").unwrap();
    writer.add(b"k", b"v").unwrap();
    writer.finish().unwrap();
    assert_eq!(writer.report_io(false), Err(Error::InvalidState));
    assert_eq!(writer.state(), WriterState::Finished);
}
