use piyokvs::buffer::{fill, Buffer, BufferImpl};
use piyokvs::cache::{LruCache, SingleCache};
use piyokvs::entry::{Entry, State};
use piyokvs::error::IoError;
use piyokvs::storage::{Storage, StorageImage, StorageMock};

fn assert_data(n_data: u32, buffer: &mut impl Buffer) {
    for key in 0..n_data {
        assert_eq!(buffer.lock(key).unwrap().value, key as u64);
    }
}

#[test]
fn single_buffer() {
    let n_data: u32 = 10000;

    let cache = SingleCache::new();
    let storage = StorageMock::new();
    let mut buffer = BufferImpl::new(cache, storage);

    for key in 0..n_data {
        let entry = buffer.lock(key).unwrap();
        entry.value = key as u64;
        entry.state = State::Dirty;
    }

    assert_data(n_data, &mut buffer);
}

#[test]
fn single_lru_buffer() {
    let n_data: u32 = 10000;

    let cache = LruCache::new(100);
    let storage = StorageMock::new();
    let mut buffer = BufferImpl::new(cache, storage);

    for key in 0..n_data {
        let entry = buffer.lock(key).unwrap();
        entry.value = key as u64;
        entry.state = State::Dirty;
    }

    assert_data(n_data, &mut buffer);
}

#[test]
fn never_written_key_reads_zero() {
    let mut buffer = BufferImpl::new(LruCache::new(2), StorageMock::new());
    let entry = buffer.lock(77).unwrap();
    assert_eq!((entry.key, entry.value, entry.state), (77, 0, State::Fresh));
}

/// A store that keeps its records where the test can see them after the
/// buffer is gone, and that can be told to fail.
struct Probe {
    records: std::rc::Rc<std::cell::RefCell<std::collections::HashMap<u32, u64>>>,
    writes: std::rc::Rc<std::cell::RefCell<Vec<(u32, u64)>>>,
    fail_reads: bool,
}

impl Storage for Probe {
    fn wf(&self) -> bool {
        true
    }

    fn value_at(&self, key: u32) -> u64 {
        *self.records.borrow().get(&key).unwrap_or(&0)
    }

    fn unfailing(&self) -> bool {
        !self.fail_reads
    }

    fn read(&mut self, key: u32) -> Result<u64, IoError> {
        if self.fail_reads {
            return Err(IoError::Other);
        }
        Ok(*self.records.borrow().get(&key).unwrap_or(&0))
    }

    fn write(&mut self, key: u32, value: u64) -> Result<(), IoError> {
        self.records.borrow_mut().insert(key, value);
        self.writes.borrow_mut().push((key, value));
        Ok(())
    }

    fn sync(&mut self) -> Result<(), IoError> {
        Ok(())
    }
}

fn probe() -> (
    Probe,
    std::rc::Rc<std::cell::RefCell<std::collections::HashMap<u32, u64>>>,
    std::rc::Rc<std::cell::RefCell<Vec<(u32, u64)>>>,
) {
    let records = std::rc::Rc::new(std::cell::RefCell::new(std::collections::HashMap::new()));
    let writes = std::rc::Rc::new(std::cell::RefCell::new(Vec::new()));
    (Probe { records: records.clone(), writes: writes.clone(), fail_reads: false }, records, writes)
}

#[test]
fn written_values_reach_the_store_on_sync() {
    let (storage, records, _) = probe();
    let mut buffer = BufferImpl::new(LruCache::new(4), storage);
    for key in 0..3u32 {
        let entry = buffer.lock(key).unwrap();
        entry.value = 100 + key as u64;
        entry.state = State::Dirty;
    }
    assert!(records.borrow().is_empty());
    buffer.sync().unwrap();
    for key in 0..3u32 {
        assert_eq!(records.borrow().get(&key), Some(&(100 + key as u64)));
    }
}

#[test]
fn a_lock_without_a_change_writes_nothing() {
    let (storage, records, writes) = probe();
    records.borrow_mut().insert(5, 55);
    let mut buffer = BufferImpl::new(LruCache::new(2), storage);
    assert_eq!(buffer.lock(5).unwrap().value, 55);
    assert_eq!(buffer.lock(6).unwrap().value, 0);
    assert_eq!(buffer.lock(7).unwrap().value, 0);
    assert_eq!(buffer.lock(5).unwrap().value, 55);
    buffer.sync().unwrap();
    assert!(writes.borrow().is_empty());
    assert_eq!(records.borrow().get(&5), Some(&55));
}

#[test]
fn a_dirty_record_is_written_back_when_its_slot_is_taken() {
    let (storage, records, writes) = probe();
    let mut buffer = BufferImpl::new(SingleCache::new(), storage);
    {
        let entry = buffer.lock(1).unwrap();
        entry.value = 11;
        entry.state = State::Dirty;
    }
    assert!(writes.borrow().is_empty());
    assert_eq!(buffer.lock(2).unwrap().value, 0);
    assert_eq!(*writes.borrow(), vec![(1, 11)]);
    assert_eq!(buffer.lock(1).unwrap().value, 11);
    assert_eq!(records.borrow().get(&1), Some(&11));
}

#[test]
fn a_failed_read_fails_the_lock() {
    let (mut storage, _, _) = probe();
    storage.fail_reads = true;
    let mut buffer = BufferImpl::new(LruCache::new(2), storage);
    assert_eq!(buffer.lock(3).err(), Some(IoError::Other));
}

#[test]
fn fill_takes_a_value_and_passes_a_failure_on() {
    let mut entry = Entry { key: 4, value: 1, state: State::Unloaded };
    assert_eq!(fill(&mut entry, Ok(44)), Ok(()));
    assert_eq!((entry.key, entry.value, entry.state), (4, 44, State::Fresh));

    let mut entry = Entry { key: 4, value: 1, state: State::Unloaded };
    assert_eq!(fill(&mut entry, Err(IoError::UnexpectedEof)), Err(IoError::UnexpectedEof));
    assert_eq!((entry.key, entry.value, entry.state), (4, 1, State::Unloaded));
}

#[test]
fn buffer_over_a_file_image() {
    let n_data: u32 = 500;
    let mut buffer = BufferImpl::new(LruCache::new(7), StorageImage::new(n_data));
    for key in 0..n_data {
        let entry = buffer.lock(key).unwrap();
        assert_eq!(entry.value, 0);
        entry.value = 3 * key as u64;
        entry.state = State::Dirty;
    }
    buffer.sync().unwrap();
    for key in 0..n_data {
        assert_eq!(buffer.lock(key).unwrap().value, 3 * key as u64);
    }
    // A key past the end of the file cannot be read.
    assert_eq!(buffer.lock(n_data).err(), Some(IoError::UnexpectedEof));
}
