use piyokvs::buffer::{Buffer, BufferImpl};
use piyokvs::cache::LruCache;
use piyokvs::client::{increment, Client};
use piyokvs::storage::{Storage, StorageMock};

#[test]
fn increment_adds_one_under_the_lock() {
    let mut buffer = BufferImpl::new(LruCache::new(2), StorageMock::new());
    for _ in 0..3 {
        increment(&mut buffer, 9).unwrap();
    }
    increment(&mut buffer, 8).unwrap();
    assert_eq!(buffer.lock(9).unwrap().value, 3);
    assert_eq!(buffer.lock(8).unwrap().value, 1);
    assert_eq!(buffer.lock(7).unwrap().value, 0);
}

#[test]
fn client_increments_add_up() {
    let n_data: u32 = 100;
    let n_increments: usize = 2500;
    let buffer = BufferImpl::new(LruCache::new(10), StorageMock::new());
    let mut client = Client::new(buffer);
    client.start(n_data, n_increments).unwrap();
    let mut buffer = client.into_buffer();
    buffer.sync().unwrap();

    let mut sum = 0;
    for key in 0..n_data {
        sum += buffer.lock(key).unwrap().value;
    }
    assert_eq!(sum, n_increments as u64);
    // No key outside the range was picked.
    for key in n_data..2 * n_data {
        assert_eq!(buffer.lock(key).unwrap().value, 0);
    }
}

#[test]
fn four_clients_in_turn() {
    let n_data: u32 = 1000;
    let mut buffer = BufferImpl::new(LruCache::new(100), StorageMock::new());
    for _ in 0..4 {
        let mut client = Client::new(buffer);
        client.start(n_data, (n_data / 4) as usize).unwrap();
        buffer = client.into_buffer();
    }
    buffer.sync().unwrap();
    let mut sum = 0;
    for key in 0..n_data {
        sum += buffer.lock(key).unwrap().value;
    }
    assert_eq!(sum, n_data as u64);
}

#[test]
fn a_single_key_takes_every_increment() {
    let mut client = Client::new(BufferImpl::new(LruCache::new(2), StorageMock::new()));
    client.start(1, 50).unwrap();
    let mut buffer = client.into_buffer();
    assert_eq!(buffer.lock(0).unwrap().value, 50);
    buffer.sync().unwrap();
    let mut storage = StorageMock::new();
    assert_eq!(storage.read(0), Ok(0));
}
