//! The plain record engine.
use cairn::device::block::BlockDevice;
use cairn::device::sim::SimDisk;
use cairn::record_log::format::{Error, Root};
use cairn::record_log::store::Store;

#[test]
fn put_get_commit_and_reopen() {
    let disk = SimDisk::new(128 * 1024);
    let mut store = Store::format(disk).unwrap();
    let id = store.put_bytes(b"hello").unwrap();
    assert_eq!(store.get_bytes(&id).unwrap(), b"hello");
    store.commit_root(id, 1).unwrap();
    let mut reopened = Store::open(store.device).unwrap();
    assert_eq!(
        reopened.current_root(),
        Some(Root {
            generation: 1,
            manifest: id
        })
    );
    assert_eq!(reopened.get_bytes(&id).unwrap(), b"hello");
}

#[test]
fn corrupted_record_is_rejected() {
    let disk = SimDisk::new(128 * 1024);
    let mut store = Store::format(disk).unwrap();
    let id = store.put_bytes(b"hello").unwrap();
    store.device.durable_bytes();
    let mut disk = store.device;
    disk.write_at(40, b"X").unwrap();
    disk.flush_data().unwrap();
    assert!(matches!(Store::open(disk), Err(Error::Corruption(_))));
    let _ = id;
}
