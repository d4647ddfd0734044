use piyokvs::entry::State;
use piyokvs::error::{Error, IoError};
use piyokvs::pool::Pool;
use piyokvs::storage::{Storage, StorageImage, StorageMock};

#[test]
fn pool_single_writer_identity() {
    let mut pool = Pool::new(2, 1, StorageImage::new(100));
    for key in 0..100u32 {
        let entry = pool.lock(key, 1).unwrap().unwrap();
        assert_eq!((entry.key, entry.value, entry.state), (key, 0, State::Fresh));
        assert_eq!(pool.unlock(key, key as u64, true), Ok(None));
    }
    pool.shutdown().unwrap();
    let mut storage = pool.into_storage();
    for key in 0..100u32 {
        assert_eq!(storage.read(key), Ok(key as u64));
    }
    assert_eq!(&storage.as_bytes()[8 * 99..], &[99, 0, 0, 0, 0, 0, 0, 0]);
}

#[test]
fn pool_eviction_storm() {
    let mut pool = Pool::new(2, 1, StorageMock::new());
    for key in 0..10000u32 {
        pool.lock(key, 1).unwrap().unwrap();
        pool.unlock(key, key as u64, true).unwrap();
    }
    pool.shutdown().unwrap();
    let mut storage = pool.into_storage();
    for key in 0..10000u32 {
        assert_eq!(storage.read(key), Ok(key as u64));
    }
}

#[test]
fn pool_four_clients_take_turns_on_every_key() {
    let mut pool = Pool::new(20, 5, StorageMock::new());
    for key in 0..100u32 {
        let mut entry = pool.lock(key, 0).unwrap().unwrap();
        for client in 1..4u64 {
            assert_eq!(pool.lock(key, client), Ok(None));
        }
        for client in 1..4u64 {
            let (next, handed) = pool.unlock(key, entry.value + 1, true).unwrap().unwrap();
            assert_eq!((next, handed.key, handed.value), (client, key, client));
            entry = handed;
        }
        assert_eq!(pool.unlock(key, entry.value + 1, true), Ok(None));
    }
    pool.shutdown().unwrap();
    let mut storage = pool.into_storage();
    for key in 0..100u32 {
        assert_eq!(storage.read(key), Ok(4));
    }
}

#[test]
fn pool_reads_what_was_written_before_it() {
    let mut storage = StorageMock::new();
    storage.write(7, 70).unwrap();
    let mut pool = Pool::new(2, 1, storage);
    assert_eq!(pool.lock(7, 1).unwrap().unwrap().value, 70);
    assert_eq!(pool.lock(8, 1).unwrap().unwrap().value, 0);
    pool.unlock(7, 70, false).unwrap();
    pool.unlock(8, 0, false).unwrap();
    pool.shutdown().unwrap();
    let mut storage = pool.into_storage();
    assert_eq!(storage.read(7), Ok(70));
    assert_eq!(storage.read(8), Ok(0));
}

#[test]
fn pool_unlock_without_a_holder_is_refused() {
    let mut pool = Pool::new(2, 1, StorageMock::new());
    assert_eq!(pool.unlock(3, 0, false), Err(Error::InvariantViolation));
    pool.lock(3, 1).unwrap();
    assert_eq!(pool.unlock(3, 5, true), Ok(None));
    assert_eq!(pool.unlock(3, 5, false), Err(Error::InvariantViolation));
}

#[test]
fn pool_reports_a_failure_of_the_store() {
    let mut pool = Pool::new(2, 1, StorageImage::new(4));
    assert_eq!(pool.lock(4, 1), Err(Error::Io(IoError::UnexpectedEof)));
}
