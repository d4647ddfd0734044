use piyokvs::data::DataPtr;
use piyokvs::ptr::Sendable;

#[test]
fn data_ptr() {
    let mut data: u64 = 0;
    let mut ptr = DataPtr::new(&mut data);
    *ptr.as_mut() = 42;
    assert_eq!(*ptr.as_ref(), 42);
}

#[test]
fn as_ref() {
    let mut data: u64 = 42;
    let ptr = Sendable::new(&mut data);
    assert_eq!(*ptr.as_ref(), 42);
}

#[test]
fn as_mut() {
    let mut data: u64 = 0;
    let mut ptr = Sendable::new(&mut data);
    *ptr.as_mut() = 42;
    assert_eq!(data, 42);
}

#[test]
fn data_ptr_writes_to_the_cell_behind_it() {
    let mut data: u64 = 7;
    {
        let mut ptr = DataPtr::new(&mut data);
        assert_eq!(*ptr.as_ref(), 7);
        *ptr.as_mut() += 1;
        *ptr.as_mut() *= 2;
        assert_eq!(*ptr.as_ref(), 16);
    }
    assert_eq!(data, 16);
}

#[test]
fn sendable_holds_any_type() {
    let mut text = String::from("a");
    let mut ptr = Sendable::new(&mut text);
    ptr.as_mut().push('b');
    assert_eq!(ptr.as_ref().as_str(), "ab");
    assert_eq!(text, "ab");
}
