use riptide::buffers::{Buffer, BufferStorage};
use riptide::codec::encode_snapshot;
use riptide::frames::{Coordinates, Frame, FrameCluster, FramePositionType, FrameStorage};
use riptide::handler::SharedHandler;
use riptide::session::{restore, Session};
use riptide::shared::{RTShared, SharedSnapshot};
use riptide::storage::{handle_mem_write, FileSystem, Reader, Writer};
use riptide::RiptideError;

#[test]
fn write_then_read_returns_exactly_the_written_bytes() {
    let mut fs = FileSystem::new();
    let writer = Writer::default();
    let reader = Reader::default();
    let path = String::from("data.bin");
    writer.write(&mut fs, b"AAAA", &path, false).unwrap();
    assert_eq!(reader.read_entire_file(&fs, &path).unwrap(), b"AAAA");
    // A second write fully replaces the prior content.
    writer.write(&mut fs, b"BB", &path, false).unwrap();
    assert_eq!(reader.read_entire_file(&fs, &path).unwrap(), b"BB");
}

#[test]
fn write_overwrites_with_the_mapped_path_too() {
    let mut fs = FileSystem::new();
    let writer = Writer::default();
    let reader = Reader::default();
    let path = String::from("data.bin");
    writer.write(&mut fs, b"AAAA", &path, true).unwrap();
    writer.write(&mut fs, b"BB", &path, true).unwrap();
    assert_eq!(reader.read_entire_file(&fs, &path).unwrap(), b"BB");
}

#[test]
fn append_twice_concatenates() {
    let mut fs = FileSystem::new();
    let writer = Writer::default();
    let reader = Reader::default();
    let path = String::from("log.txt");
    writer.append(&mut fs, b"AB", &path, false).unwrap();
    writer.append(&mut fs, b"CD", &path, false).unwrap();
    assert_eq!(reader.read_entire_file(&fs, &path).unwrap(), b"ABCD");
}

#[test]
fn append_with_the_mapped_path_concatenates_too() {
    let mut fs = FileSystem::new();
    let writer = Writer::default();
    let reader = Reader::default();
    let path = String::from("log.txt");
    writer.append(&mut fs, b"AB", &path, true).unwrap();
    writer.append(&mut fs, b"CD", &path, true).unwrap();
    assert_eq!(reader.read_entire_file(&fs, &path).unwrap(), b"ABCD");
}

#[test]
fn read_entire_file_fails_on_a_missing_path() {
    let fs = FileSystem::new();
    let reader = Reader::default();
    let r = reader.read_entire_file(&fs, &String::from("nowhere.bin"));
    assert_eq!(r.unwrap_err(), RiptideError::IOError);
}

#[test]
fn read_file_chunk_returns_the_requested_window() {
    let mut fs = FileSystem::new();
    let writer = Writer::default();
    let reader = Reader::default();
    let path = String::from("data.bin");
    writer.write(&mut fs, b"hello world", &path, false).unwrap();
    let chunk = reader.read_file_chunk(&fs, &path, Some(6), Some(5)).unwrap();
    assert_eq!(chunk, b"world");
}

#[test]
fn read_file_chunk_defaults_are_degenerate() {
    let mut fs = FileSystem::new();
    let writer = Writer::default();
    let reader = Reader::default();
    let path = String::from("data.bin");
    writer.write(&mut fs, b"short", &path, false).unwrap();
    // The default offset of 4096 reaches past a short file.
    assert!(reader.read_file_chunk(&fs, &path, None, Some(1)).is_err());
    // The default length of zero yields an empty view.
    let empty = reader.read_file_chunk(&fs, &path, Some(0), None).unwrap();
    assert_eq!(empty, b"");
}

#[test]
fn read_file_chunk_fails_past_the_end() {
    let mut fs = FileSystem::new();
    let writer = Writer::default();
    let reader = Reader::default();
    let path = String::from("data.bin");
    writer.write(&mut fs, b"12345", &path, false).unwrap();
    assert_eq!(
        reader.read_file_chunk(&fs, &path, Some(3), Some(3)).unwrap_err(),
        RiptideError::IOError
    );
}

#[test]
fn mem_write_overwrites_a_tail() {
    let mut data = vec![1u8, 2, 3, 4, 5];
    handle_mem_write(&mut data, Some(3), &[9, 9], false).unwrap();
    assert_eq!(data, vec![1, 2, 3, 9, 9]);
}

#[test]
fn mem_write_zero_fills_a_gap() {
    // Growing the file before the copy zero-fills the stretch between
    // the old end and the write position.
    let mut data = vec![1u8, 2, 3];
    handle_mem_write(&mut data, Some(5), &[9], true).unwrap();
    assert_eq!(data, vec![1, 2, 3, 0, 0, 9]);
}

#[test]
fn mem_write_from_zero_replaces_everything() {
    let mut data = vec![1u8, 2, 3];
    handle_mem_write(&mut data, None, &[7, 8], true).unwrap();
    assert_eq!(data, vec![7, 8]);
}

#[test]
fn session_unload_then_load_round_trips() {
    let path = String::from("session.bin");
    let session = Session::new(RTShared::default(), path.clone());
    let mut fs = FileSystem::new();

    // Give the store some live state: a second frame and text.
    {
        let (mut layout, handle) = session.shared.frames.acquire_write();
        layout.add_frame(
            0,
            Frame {
                position_type: FramePositionType::Absolute,
                position: Coordinates { x: 5, y: 6 },
                buffer_index: 0,
            },
        );
        handle.release_write(layout);
        let (mut buffers, handle) = session.shared.buffers.acquire_write();
        buffers.buffers[0].content = String::from("typed text");
        buffers.buffers[0].file_path = String::from("doc.txt");
        handle.release_write(buffers);
    }

    session.unload(&mut fs).unwrap();
    session.load(&fs).unwrap();

    let layout = session.shared.frames.acquire_read();
    assert_eq!(layout.borrow().frame_clusters.len(), 1);
    assert_eq!(layout.borrow().frame_clusters[0].frames.len(), 2);
    assert_eq!(layout.borrow().frame_clusters[0].frames[1].position, Coordinates { x: 5, y: 6 });
    layout.release_read();

    let buffers = session.shared.buffers.acquire_read();
    // Persisted snapshots never retain live text: only the path survives.
    assert_eq!(buffers.borrow().buffers[0].content, "");
    assert_eq!(buffers.borrow().buffers[0].file_path, "doc.txt");
    buffers.release_read();
}

#[test]
fn unload_wipes_live_content_even_before_any_load() {
    let session = Session::new(RTShared::default(), String::from("s.bin"));
    {
        let (mut buffers, handle) = session.shared.buffers.acquire_write();
        buffers.buffers[0].content = String::from("will be wiped");
        handle.release_write(buffers);
    }
    let mut fs = FileSystem::new();
    session.unload(&mut fs).unwrap();
    let buffers = session.shared.buffers.acquire_read();
    assert_eq!(buffers.borrow().buffers[0].content, "");
    buffers.release_read();
}

#[test]
fn load_fails_with_io_error_on_a_missing_path_and_keeps_state() {
    let session = Session::new(RTShared::default(), String::from("absent.bin"));
    let fs = FileSystem::new();
    assert_eq!(session.load(&fs).unwrap_err(), RiptideError::IOError);
    let layout = session.shared.frames.acquire_read();
    assert_eq!(layout.borrow().frame_clusters.len(), 1);
    assert!(!layout.borrow().frame_clusters[0].is_visible);
    layout.release_read();
    let buffers = session.shared.buffers.acquire_read();
    assert_eq!(buffers.borrow().buffers.len(), 1);
    buffers.release_read();
}

#[test]
fn load_fails_with_decode_error_on_foreign_bytes_and_keeps_state() {
    let path = String::from("session.bin");
    let session = Session::new(RTShared::default(), path.clone());
    let mut fs = FileSystem::new();
    let writer = Writer::default();
    writer.write(&mut fs, b"not a snapshot at all", &path, false).unwrap();
    assert_eq!(session.load(&fs).unwrap_err(), RiptideError::DecodeError);
    let layout = session.shared.frames.acquire_read();
    assert_eq!(layout.borrow().frame_clusters.len(), 1);
    layout.release_read();
}

#[test]
fn restore_keeps_the_snapshot_on_garbage() {
    let mut snapshot = SharedSnapshot {
        frames: FrameStorage {
            frame_clusters: vec![FrameCluster { is_visible: true, frames: vec![] }],
        },
        buffers: BufferStorage {
            buffers: vec![Buffer {
                content: String::from("kept"),
                file_path: String::from("kept.txt"),
            }],
        },
    };
    let r = restore(&mut snapshot, &[1, 2, 3]);
    assert_eq!(r.unwrap_err(), RiptideError::DecodeError);
    assert!(snapshot.frames.frame_clusters[0].is_visible);
    assert_eq!(snapshot.buffers.buffers[0].content, "kept");
}

#[test]
fn shared_handler_saves_a_loadable_snapshot() {
    let shared = RTShared::default();
    let handler = SharedHandler::default();
    let writer = Writer::default();
    let reader = Reader::default();
    let mut fs = FileSystem::new();
    let path = String::from("handler.bin");
    handler.save_shared(&writer, &shared, &mut fs, &path).unwrap();
    let bytes = handler.load_shared(&reader, &fs, &path).unwrap();
    assert_eq!(bytes, encode_snapshot(&SharedSnapshot::default()));
}

#[test]
fn shared_handler_load_fails_on_a_missing_path() {
    let handler = SharedHandler::default();
    let reader = Reader::default();
    let fs = FileSystem::new();
    let r = handler.load_shared(&reader, &fs, &String::from("none.bin"));
    assert_eq!(r.unwrap_err(), RiptideError::IOError);
}
