use riptide::buffers::{Buffer, BufferStorage};
use riptide::codec::{decode_snapshot, encode_snapshot, encode_state};
use riptide::frames::{Coordinates, Frame, FrameCluster, FramePositionType, FrameStorage};
use riptide::session::{restore, unload_transform};
use riptide::shared::SharedSnapshot;

fn sample_snapshot() -> SharedSnapshot {
    SharedSnapshot {
        frames: FrameStorage {
            frame_clusters: vec![
                FrameCluster {
                    is_visible: true,
                    frames: vec![
                        Frame {
                            position_type: FramePositionType::Fixed,
                            position: Coordinates { x: 10, y: -20 },
                            buffer_index: 0,
                        },
                        Frame {
                            position_type: FramePositionType::Absolute,
                            position: Coordinates { x: -1, y: 2 },
                            buffer_index: 1,
                        },
                    ],
                },
                FrameCluster { is_visible: false, frames: vec![] },
            ],
        },
        buffers: BufferStorage {
            buffers: vec![
                Buffer { content: String::from("hello"), file_path: String::from("/tmp/a.txt") },
                Buffer { content: String::from("wörld"), file_path: String::from("b.rs") },
            ],
        },
    }
}

#[test]
fn exact_encoding_of_a_small_snapshot() {
    // One visible cluster holding one frame at (1, -1) on buffer 2,
    // and one buffer with empty content and path "ab".
    let s = SharedSnapshot {
        frames: FrameStorage {
            frame_clusters: vec![FrameCluster {
                is_visible: true,
                frames: vec![Frame {
                    position_type: FramePositionType::Absolute,
                    position: Coordinates { x: 1, y: -1 },
                    buffer_index: 2,
                }],
            }],
        },
        buffers: BufferStorage {
            buffers: vec![Buffer { content: String::new(), file_path: String::from("ab") }],
        },
    };
    let mut expected: Vec<u8> = Vec::new();
    expected.extend_from_slice(&[0x52, 0x54, 0x53, 0x31]);
    expected.extend_from_slice(&[1, 0, 0, 0, 0, 0, 0, 0]);
    expected.push(1);
    expected.extend_from_slice(&[1, 0, 0, 0, 0, 0, 0, 0]);
    expected.push(1);
    expected.extend_from_slice(&[1, 0, 0, 0]);
    expected.extend_from_slice(&[0xff, 0xff, 0xff, 0xff]);
    expected.extend_from_slice(&[2, 0, 0, 0, 0, 0, 0, 0]);
    expected.extend_from_slice(&[1, 0, 0, 0, 0, 0, 0, 0]);
    expected.extend_from_slice(&[0, 0, 0, 0, 0, 0, 0, 0]);
    expected.extend_from_slice(&[2, 0, 0, 0, 0, 0, 0, 0]);
    expected.extend_from_slice(b"ab");
    assert_eq!(encode_snapshot(&s), expected);
}

#[test]
fn encode_state_matches_encode_snapshot() {
    let s = sample_snapshot();
    assert_eq!(encode_state(&s.frames, &s.buffers), encode_snapshot(&s));
}

#[test]
fn decode_inverts_encode() {
    let s = sample_snapshot();
    let bytes = encode_snapshot(&s);
    let d = decode_snapshot(&bytes).expect("an encoding decodes");
    assert_eq!(d.frames.frame_clusters.len(), 2);
    assert!(d.frames.frame_clusters[0].is_visible);
    assert_eq!(d.frames.frame_clusters[0].frames, s.frames.frame_clusters[0].frames);
    assert!(d.frames.frame_clusters[1].frames.is_empty());
    assert_eq!(d.buffers.buffers.len(), 2);
    assert_eq!(d.buffers.buffers[0].content, "hello");
    assert_eq!(d.buffers.buffers[1].content, "wörld");
    assert_eq!(d.buffers.buffers[0].file_path, "/tmp/a.txt");
    assert_eq!(d.buffers.buffers[1].file_path, "b.rs");
}

#[test]
fn unloaded_snapshot_round_trips_with_structure_kept() {
    // The persisted form of any store decodes back with the layout
    // and file paths intact and every content empty.
    let mut s = sample_snapshot();
    unload_transform(&mut s.buffers);
    let bytes = encode_snapshot(&s);
    let mut restored = SharedSnapshot::default();
    restore(&mut restored, &bytes).expect("the persisted form restores");
    assert_eq!(restored.frames.frame_clusters.len(), 2);
    assert!(restored.frames.frame_clusters[0].is_visible);
    assert_eq!(
        restored.frames.frame_clusters[0].frames,
        sample_snapshot().frames.frame_clusters[0].frames
    );
    assert_eq!(restored.buffers.buffers.len(), 2);
    assert_eq!(restored.buffers.buffers[0].file_path, "/tmp/a.txt");
    assert_eq!(restored.buffers.buffers[1].file_path, "b.rs");
    assert_eq!(restored.buffers.buffers[0].content, "");
    assert_eq!(restored.buffers.buffers[1].content, "");
}

#[test]
fn unload_transform_wipes_content_and_keeps_paths() {
    let mut buffers = BufferStorage {
        buffers: vec![
            Buffer { content: String::from("text"), file_path: String::from("x") },
            Buffer { content: String::from("more"), file_path: String::from("y") },
        ],
    };
    unload_transform(&mut buffers);
    assert_eq!(buffers.buffers.len(), 2);
    assert_eq!(buffers.buffers[0].content, "");
    assert_eq!(buffers.buffers[1].content, "");
    assert_eq!(buffers.buffers[0].file_path, "x");
    assert_eq!(buffers.buffers[1].file_path, "y");
}

#[test]
fn empty_input_does_not_decode() {
    assert!(decode_snapshot(&[]).is_err());
}

#[test]
fn foreign_format_tag_does_not_decode() {
    let mut bytes = encode_snapshot(&sample_snapshot());
    bytes[3] = 0x32;
    assert!(decode_snapshot(&bytes).is_err());
}

#[test]
fn truncated_encoding_does_not_decode() {
    let mut bytes = encode_snapshot(&sample_snapshot());
    bytes.pop();
    assert!(decode_snapshot(&bytes).is_err());
}

#[test]
fn trailing_bytes_do_not_decode() {
    let mut bytes = encode_snapshot(&sample_snapshot());
    bytes.push(0);
    assert!(decode_snapshot(&bytes).is_err());
}

#[test]
fn bad_visibility_byte_does_not_decode() {
    let mut bytes: Vec<u8> = Vec::new();
    bytes.extend_from_slice(&[0x52, 0x54, 0x53, 0x31]);
    bytes.extend_from_slice(&[1, 0, 0, 0, 0, 0, 0, 0]);
    bytes.push(2);
    assert!(decode_snapshot(&bytes).is_err());
}

#[test]
fn bad_frame_tag_does_not_decode() {
    let mut bytes: Vec<u8> = Vec::new();
    bytes.extend_from_slice(&[0x52, 0x54, 0x53, 0x31]);
    bytes.extend_from_slice(&[1, 0, 0, 0, 0, 0, 0, 0]);
    bytes.push(0);
    bytes.extend_from_slice(&[1, 0, 0, 0, 0, 0, 0, 0]);
    bytes.push(9);
    bytes.extend_from_slice(&[0; 16]);
    assert!(decode_snapshot(&bytes).is_err());
}

#[test]
fn invalid_utf8_in_a_string_does_not_decode() {
    let mut bytes: Vec<u8> = Vec::new();
    bytes.extend_from_slice(&[0x52, 0x54, 0x53, 0x31]);
    bytes.extend_from_slice(&[0, 0, 0, 0, 0, 0, 0, 0]);
    bytes.extend_from_slice(&[1, 0, 0, 0, 0, 0, 0, 0]);
    bytes.extend_from_slice(&[1, 0, 0, 0, 0, 0, 0, 0]);
    bytes.push(0xff);
    bytes.extend_from_slice(&[0, 0, 0, 0, 0, 0, 0, 0]);
    assert!(decode_snapshot(&bytes).is_err());
}

#[test]
fn snapshot_without_clusters_decodes_but_does_not_restore() {
    // Structurally valid bytes whose layout is empty: the codec
    // accepts them, the restore rejects them as no reachable store
    // ever has an empty layout.
    let empty = SharedSnapshot {
        frames: FrameStorage { frame_clusters: vec![] },
        buffers: BufferStorage { buffers: vec![] },
    };
    let bytes = encode_snapshot(&empty);
    assert!(decode_snapshot(&bytes).is_ok());
    let mut target = SharedSnapshot::default();
    assert!(restore(&mut target, &bytes).is_err());
    assert_eq!(target.frames.frame_clusters.len(), 1);
}
