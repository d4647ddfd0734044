use piyokvs::coordinator::DataRequest;
use piyokvs::entry::{Entry, State};
use piyokvs::handle::EntryHandle;

#[test]
fn a_handle_left_alone_unlocks_clean() {
    let handle = EntryHandle::new(Entry { key: 3, value: 30, state: State::Fresh });
    assert_eq!(handle.as_ref().value, 30);
    assert_eq!(handle.unlock(), DataRequest::Unlock(3, 30, false));
}

#[test]
fn a_handle_starts_out_fresh() {
    let handle = EntryHandle::new(Entry { key: 3, value: 30, state: State::Dirty });
    assert_eq!(handle.as_ref().state, State::Fresh);
    assert_eq!(handle.unlock(), DataRequest::Unlock(3, 30, false));
}

#[test]
fn a_handle_marked_dirty_unlocks_dirty() {
    let mut handle = EntryHandle::new(Entry { key: 3, value: 30, state: State::Fresh });
    handle.as_mut().value += 1;
    handle.as_mut().state = State::Dirty;
    assert_eq!(handle.unlock(), DataRequest::Unlock(3, 31, true));
}

#[test]
fn a_handle_unlocks_the_key_that_was_locked() {
    let mut handle = EntryHandle::new(Entry { key: 3, value: 30, state: State::Fresh });
    handle.as_mut().key = 4;
    *handle.as_mut().as_mut() = 5;
    assert_eq!(handle.unlock(), DataRequest::Unlock(3, 5, true));
}
