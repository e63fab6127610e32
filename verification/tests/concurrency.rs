use riptide::session::Session;
use riptide::shared::{buffers_read_during_frames_write, RTShared};
use riptide::storage::FileSystem;

#[test]
fn buffer_read_proceeds_while_layout_is_locked_for_writing() {
    // The two fields are guarded independently: a shared read of
    // `buffers` is taken and released while the exclusive write lock
    // on `frames` is held. Under one shared exclusive guard this
    // sequence would block on itself and the test would time out.
    let shared = RTShared::default();
    let n = buffers_read_during_frames_write(&shared);
    assert_eq!(n, 1);
}

#[test]
fn unload_holds_one_guard_of_each_field_at_once() {
    // An unload wipes buffers under their exclusive lock while it
    // reads the layout under a shared lock: one guard per field held
    // at the same time, which only independent guards allow.
    let session = Session::new(RTShared::default(), String::from("s.bin"));
    let mut fs = FileSystem::new();
    session.unload(&mut fs).unwrap();
    session.unload(&mut fs).unwrap();
}
