use piyokvs::coordinator::{Action, IoResponse};
use piyokvs::dispatcher::{as_request, serve, IoRequest};
use piyokvs::entry::{Entry, State};
use piyokvs::error::IoError;
use piyokvs::storage::{
    read, read_at, record_offset, write_at, write_zeros, Storage, StorageImage, StorageMock,
};

#[test]
fn test_write_zeros() {
    let mut buf = Vec::with_capacity(5000);
    write_zeros(&mut buf, 42);
    assert_eq!(buf.len(), 42);

    buf.clear();
    write_zeros(&mut buf, 4096);
    assert_eq!(buf.len(), 4096);

    buf.clear();
    write_zeros(&mut buf, 4097);
    assert_eq!(buf.len(), 4097);
}

#[test]
fn write_zeros_appends_only_zeros() {
    let mut buf = vec![7u8, 8, 9];
    write_zeros(&mut buf, 0);
    assert_eq!(buf, [7, 8, 9]);
    write_zeros(&mut buf, 9000);
    assert_eq!(buf.len(), 9003);
    assert_eq!(&buf[..3], &[7, 8, 9]);
    assert!(buf[3..].iter().all(|b| *b == 0));
}

#[test]
fn test_read() {
    let reader = [0u8; 8];
    let mut data: u64 = 42;
    assert_eq!(data, 42);
    data = read(&reader).unwrap();
    assert_eq!(data, 0);
}

#[test]
fn test_write() {
    let mut writer = Vec::with_capacity(8);
    let data: u64 = 0;
    piyokvs::storage::write(&mut writer, data);
    assert_eq!(&writer, &[0u8; 8]);
}

#[test]
fn records_are_little_endian() {
    let mut writer = vec![0xffu8];
    piyokvs::storage::write(&mut writer, 0x0102_0304_0506_0708);
    assert_eq!(writer, [0xff, 8, 7, 6, 5, 4, 3, 2, 1]);
    assert_eq!(read(&writer[1..]), Ok(0x0102_0304_0506_0708));
    assert_eq!(read(&[1, 0, 0, 0, 0, 0, 0, 0, 99]), Ok(1));
    assert_eq!(read(&[0, 0, 0, 0, 0, 0, 0, 0x80]), Ok(1 << 63));
}

#[test]
fn a_short_read_is_an_unexpected_end() {
    assert_eq!(read(&[]), Err(IoError::UnexpectedEof));
    assert_eq!(read(&[1, 2, 3, 4, 5, 6, 7]), Err(IoError::UnexpectedEof));
    assert_eq!(read_at(&[0u8; 16], 9), Err(IoError::UnexpectedEof));
    assert_eq!(read_at(&[0u8; 16], u64::MAX), Err(IoError::UnexpectedEof));
    assert_eq!(read_at(&[0u8; 7], 0), Err(IoError::UnexpectedEof));
}

#[test]
fn record_offsets() {
    assert_eq!(record_offset(0), 0);
    assert_eq!(record_offset(1), 8);
    assert_eq!(record_offset(4097), 32776);
    assert_eq!(record_offset(u32::MAX), 34359738360);
}

#[test]
fn positional_reads_and_writes() {
    let mut file = Vec::new();
    write_zeros(&mut file, 4 * 8);
    for key in 0..4u32 {
        assert_eq!(read_at(&file, record_offset(key)), Ok(0));
    }
    assert_eq!(write_at(&mut file, record_offset(2), 0xdead_beef), Ok(()));
    assert_eq!(file.len(), 32);
    assert_eq!(&file[16..24], &[0xef, 0xbe, 0xad, 0xde, 0, 0, 0, 0]);
    assert_eq!(read_at(&file, record_offset(2)), Ok(0xdead_beef));
    assert_eq!(read_at(&file, record_offset(1)), Ok(0));
    assert_eq!(read_at(&file, record_offset(3)), Ok(0));
    // A read that is not aligned to a record sees the bytes as they lie.
    assert_eq!(read_at(&file, 15), Ok(0xdead_beef << 8));
}

#[test]
fn a_write_past_the_end_fills_the_gap_with_zeros() {
    let mut file = vec![1u8, 2, 3];
    assert_eq!(write_at(&mut file, 5, u64::MAX), Ok(()));
    assert_eq!(file, [1, 2, 3, 0, 0, 255, 255, 255, 255, 255, 255, 255, 255]);
    // A write that straddles the end overwrites and extends.
    assert_eq!(write_at(&mut file, 10, 0), Ok(()));
    assert_eq!(file, [1, 2, 3, 0, 0, 255, 255, 255, 255, 255, 0, 0, 0, 0, 0, 0, 0, 0]);
}

fn assert_data(n_data: u32, storage: &mut impl Storage) {
    for key in 0..n_data {
        assert_eq!(storage.read(key).unwrap(), key as u64);
    }
}

#[test]
fn mock_single_write() {
    let n_data: u32 = 10000;
    let mut storage = StorageMock::new();

    for key in 0..n_data {
        let data = key as u64;
        storage.write(key, data).unwrap();
    }

    assert_data(n_data, &mut storage);
}

#[test]
fn mock_reads_zero_where_nothing_was_written() {
    let mut storage = StorageMock::new();
    assert_eq!(storage.read(5), Ok(0));
    storage.write(5, 50).unwrap();
    assert_eq!(storage.read(5), Ok(50));
    assert_eq!(storage.read(6), Ok(0));
    assert_eq!(storage.sync(), Ok(()));
    assert_eq!(storage.read(5), Ok(50));
}

#[test]
fn image_single_write() {
    let n_data: u32 = 10000;
    let mut storage = StorageImage::new(n_data);
    assert_eq!(storage.as_bytes().len(), 80000);

    for key in 0..n_data {
        let data = key as u64;
        storage.write(key, data).unwrap();
    }

    assert_data(n_data, &mut storage);
    assert_eq!(storage.as_bytes().len(), 80000);
    assert_eq!(&storage.as_bytes()[8 * 258..8 * 259], &[2, 1, 0, 0, 0, 0, 0, 0]);
}

#[test]
fn image_starts_out_zero_and_ends_where_the_file_ends() {
    let mut storage = StorageImage::new(3);
    assert_eq!(storage.as_bytes(), &[0u8; 24]);
    for key in 0..3u32 {
        assert_eq!(storage.read(key), Ok(0));
    }
    assert_eq!(storage.read(3), Err(IoError::UnexpectedEof));
    assert_eq!(storage.sync(), Ok(()));
}

#[test]
fn image_grows_by_whole_records() {
    let mut storage = StorageImage::new(1);
    storage.write(3, 7).unwrap();
    assert_eq!(storage.as_bytes().len(), 32);
    assert_eq!(storage.read(0), Ok(0));
    assert_eq!(storage.read(1), Ok(0));
    assert_eq!(storage.read(2), Ok(0));
    assert_eq!(storage.read(3), Ok(7));
    assert_eq!(storage.read(4), Err(IoError::UnexpectedEof));
}

#[test]
fn a_worker_reports_under_the_tag_of_the_request() {
    let mut storage = StorageImage::new(2);
    let response = serve(&mut storage, IoRequest::Write(1, 77));
    assert!(matches!(response, IoResponse::Write(1, Ok(()))));
    let response = serve(&mut storage, IoRequest::Read(1));
    assert!(matches!(response, IoResponse::Read(1, Ok(77))));
    let response = serve(&mut storage, IoRequest::Read(0));
    assert!(matches!(response, IoResponse::Read(0, Ok(0))));
    let response = serve(&mut storage, IoRequest::Read(2));
    assert!(matches!(response, IoResponse::Read(2, Err(IoError::UnexpectedEof))));

    assert_eq!(as_request(Action::Read(3)), Some(IoRequest::Read(3)));
    assert_eq!(as_request(Action::Write(3, 4)), Some(IoRequest::Write(3, 4)));
    let entry = Entry { key: 3, value: 4, state: State::Fresh };
    assert_eq!(as_request(Action::Grant(1, entry)), None);
}

#[test]
fn a_write_that_cannot_be_addressed_is_invalid() {
    let mut file = vec![1u8, 2, 3];
    assert_eq!(write_at(&mut file, u64::MAX - 3, 9), Err(IoError::InvalidInput));
    assert_eq!(write_at(&mut file, u64::MAX, 9), Err(IoError::InvalidInput));
    assert_eq!(file, [1, 2, 3]);
}
