use piyokvs::entry::{Entry, Lazy, State};

#[test]
fn default_entry_is_uninitialized() {
    let entry = Entry::default();
    assert_eq!((entry.key, entry.value, entry.state), (0, 0, State::Uninitialized));
}

#[test]
fn init_blanks_the_value_and_keeps_the_key() {
    let mut value: u64 = 99;
    value.init();
    assert_eq!(value, 0);

    let mut entry = Entry { key: 3, value: 99, state: State::Dirty };
    entry.init();
    assert_eq!((entry.key, entry.value, entry.state), (3, 0, State::Unloaded));
}

#[test]
fn as_mut_marks_the_entry_dirty() {
    let mut entry = Entry { key: 3, value: 30, state: State::Fresh };
    assert_eq!(*entry.as_ref(), 30);
    assert_eq!(entry.state, State::Fresh);
    *entry.as_mut() = 31;
    assert_eq!((entry.key, entry.value, entry.state), (3, 31, State::Dirty));
    assert_eq!(*entry.as_ref(), 31);
}

#[test]
fn as_ptr_marks_the_entry_fresh() {
    let mut entry = Entry { key: 3, value: 0, state: State::Unloaded };
    *entry.as_ptr() = 30;
    assert_eq!((entry.key, entry.value, entry.state), (3, 30, State::Fresh));

    let mut entry = Entry { key: 3, value: 30, state: State::Dirty };
    assert_eq!(*entry.as_ptr(), 30);
    assert_eq!(entry.state, State::Fresh);

    let mut entry = Entry { key: 4, value: 30, state: State::Stale(3) };
    assert_eq!(*entry.as_ptr(), 30);
    assert_eq!((entry.key, entry.state), (4, State::Fresh));
}
