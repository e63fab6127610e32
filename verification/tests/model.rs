use riptide::buffers::{Buffer, BufferStorage};
use riptide::frames::{
    check_new_frame_cluster, Coordinates, Frame, FrameCluster, FramePositionType, FrameStorage,
};
use riptide::shared::{cluster_buffer_contents, RTShared, SharedSnapshot};

fn frame(buffer_index: usize) -> Frame {
    Frame {
        position_type: FramePositionType::Absolute,
        position: Coordinates { x: 3, y: -4 },
        buffer_index,
    }
}

#[test]
fn default_buffer_is_empty() {
    let b = Buffer::default();
    assert_eq!(b.content, "");
    assert_eq!(b.file_path, "");
}

#[test]
fn default_buffer_storage_holds_one_buffer() {
    let bs = BufferStorage::default();
    assert_eq!(bs.buffers.len(), 1);
    assert_eq!(bs.buffers[0].content, "");
}

#[test]
fn default_frame_points_at_buffer_zero() {
    let f = Frame::default();
    assert_eq!(f.position_type, FramePositionType::Fixed);
    assert_eq!(f.position, Coordinates { x: 0, y: 0 });
    assert_eq!(f.buffer_index, 0);
}

#[test]
fn default_cluster_is_hidden_with_one_frame() {
    let c = FrameCluster::default();
    assert!(!c.is_visible);
    assert_eq!(c.frames.len(), 1);
    assert_eq!(c.frames[0], Frame::default());
}

#[test]
fn default_frame_storage_holds_one_cluster() {
    let fs = FrameStorage::default();
    assert_eq!(fs.frame_clusters.len(), 1);
    assert!(!fs.frame_clusters[0].is_visible);
}

#[test]
fn default_snapshot_shape() {
    let s = SharedSnapshot::default();
    assert_eq!(s.frames.frame_clusters.len(), 1);
    assert_eq!(s.buffers.buffers.len(), 1);
    assert_eq!(s.frames.frame_clusters[0].frames[0].buffer_index, 0);
}

#[test]
fn default_shared_store_exists() {
    let shared = RTShared::default();
    let handle = shared.frames.acquire_read();
    assert_eq!(handle.borrow().frame_clusters.len(), 1);
    handle.release_read();
}

#[test]
fn remove_frame_leaves_other_clusters_untouched() {
    // Two clusters each hold a frame pointing at buffer 1; removing
    // the frame from the first cluster must not touch the second,
    // because the buffer index is a back-reference, not ownership.
    let mut fs = FrameStorage {
        frame_clusters: vec![
            FrameCluster { is_visible: true, frames: vec![frame(1), frame(0)] },
            FrameCluster { is_visible: false, frames: vec![frame(1)] },
        ],
    };
    fs.remove_frame(0, 0);
    assert_eq!(fs.frame_clusters.len(), 2);
    assert_eq!(fs.frame_clusters[0].frames.len(), 1);
    assert_eq!(fs.frame_clusters[0].frames[0], frame(0));
    assert_eq!(fs.frame_clusters[1].frames.len(), 1);
    assert_eq!(fs.frame_clusters[1].frames[0], frame(1));
}

#[test]
fn remove_frame_shifts_later_frames_left() {
    let mut fs = FrameStorage {
        frame_clusters: vec![FrameCluster {
            is_visible: false,
            frames: vec![frame(0), frame(1), frame(2)],
        }],
    };
    fs.remove_frame(0, 1);
    let frames = &fs.frame_clusters[0].frames;
    assert_eq!(frames.len(), 2);
    assert_eq!(frames[0], frame(0));
    assert_eq!(frames[1], frame(2));
}

#[test]
fn add_frame_appends_to_the_named_cluster() {
    let mut fs = FrameStorage {
        frame_clusters: vec![
            FrameCluster { is_visible: false, frames: vec![] },
            FrameCluster { is_visible: false, frames: vec![frame(7)] },
        ],
    };
    fs.add_frame(0, frame(5));
    assert_eq!(fs.frame_clusters[0].frames.len(), 1);
    assert_eq!(fs.frame_clusters[0].frames[0], frame(5));
    assert_eq!(fs.frame_clusters[1].frames.len(), 1);
}

#[test]
fn ensure_visible_promotes_first_cluster_when_none_shown() {
    let mut fs = FrameStorage {
        frame_clusters: vec![
            FrameCluster { is_visible: false, frames: vec![] },
            FrameCluster { is_visible: false, frames: vec![] },
        ],
    };
    fs.ensure_visible();
    assert!(fs.frame_clusters[0].is_visible);
    assert!(!fs.frame_clusters[1].is_visible);
}

#[test]
fn ensure_visible_keeps_an_already_visible_layout() {
    let mut fs = FrameStorage {
        frame_clusters: vec![
            FrameCluster { is_visible: false, frames: vec![] },
            FrameCluster { is_visible: true, frames: vec![] },
        ],
    };
    fs.ensure_visible();
    assert!(!fs.frame_clusters[0].is_visible);
    assert!(fs.frame_clusters[1].is_visible);
}

#[test]
fn check_new_frame_cluster_finds_first_hidden() {
    let clusters = vec![
        FrameCluster { is_visible: true, frames: vec![] },
        FrameCluster { is_visible: false, frames: vec![frame(3)] },
        FrameCluster { is_visible: false, frames: vec![] },
    ];
    let found = check_new_frame_cluster(&clusters).expect("a hidden cluster exists");
    assert!(!found.is_visible);
    assert_eq!(found.frames.len(), 1);
    assert_eq!(found.frames[0], frame(3));
}

#[test]
fn check_new_frame_cluster_none_when_all_visible() {
    let clusters = vec![
        FrameCluster { is_visible: true, frames: vec![] },
        FrameCluster { is_visible: true, frames: vec![] },
    ];
    assert!(check_new_frame_cluster(&clusters).is_none());
}

#[test]
fn cluster_buffer_contents_follows_buffer_indices() {
    let frames = FrameStorage {
        frame_clusters: vec![FrameCluster { is_visible: true, frames: vec![frame(1), frame(0)] }],
    };
    let buffers = BufferStorage {
        buffers: vec![
            Buffer { content: String::from("alpha"), file_path: String::from("a.txt") },
            Buffer { content: String::from("beta"), file_path: String::from("b.txt") },
        ],
    };
    let contents = cluster_buffer_contents(&frames, &buffers, 0);
    assert_eq!(contents, vec![String::from("beta"), String::from("alpha")]);
}
