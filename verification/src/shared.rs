//! The shared document/session store: the plain snapshot value that is
//! persisted and restored, and the concurrently guarded aggregate that
//! the rest of the process works against.

use vstd::prelude::*;
use vstd::rwlock::RwLock;

use crate::buffers::{BufferModel, BufferStorage};
use crate::frames::{ClusterModel, FrameStorage};

verus! {

/// Mathematical model of the whole store: the cluster layout and the
/// open buffers.
#[verifier::ext_equal]
pub struct SnapshotModel {
    pub clusters: Seq<ClusterModel>,
    pub buffers: Seq<BufferModel>,
}

/// A plain, lock-free aggregate of the two storages: the unit of
/// persistence. A value of this type is what the codec encodes and what
/// a restore replaces the live state with.
pub struct SharedSnapshot {
    pub frames: FrameStorage,
    pub buffers: BufferStorage,
}

impl View for SharedSnapshot {
    type V = SnapshotModel;

    open spec fn view(&self) -> SnapshotModel {
        SnapshotModel { clusters: self.frames@, buffers: self.buffers@ }
    }
}

impl SharedSnapshot {
    /// A snapshot with one default buffer and one default cluster: the
    /// state the store starts from when nothing was restored.
    pub fn default() -> (r: Self)
        ensures
            r@.clusters.len() == 1,
            r@.clusters[0].is_visible == false,
            r@.clusters[0].frames =~= seq![crate::frames::Frame::default_spec()],
            r@.buffers.len() == 1,
            r@.buffers[0].content =~= Seq::<char>::empty(),
            r@.buffers[0].file_path =~= Seq::<char>::empty(),
    {
        Self { frames: FrameStorage::default(), buffers: BufferStorage::default() }
    }
}

/// What every value behind the layout guard satisfies: the cluster
/// storage is never empty.
pub open spec fn frame_storage_wf(fs: FrameStorage) -> bool {
    fs@.len() >= 1
}

/// The layout guard: a multi-reader single-writer lock over the
/// cluster storage.
pub type FramesLock = RwLock<FrameStorage, spec_fn(FrameStorage) -> bool>;

/// The buffer guard: a multi-reader single-writer lock over the
/// buffer storage.
pub type BuffersLock = RwLock<BufferStorage, spec_fn(BufferStorage) -> bool>;

/// The single source of truth for the process: the two storages, each
/// behind its own independent read-write guard. A render pass reading
/// one field never waits on a writer of the other; invariants that
/// span both fields are not atomic across them.
pub struct RTShared {
    pub frames: FramesLock,
    pub buffers: BuffersLock,
}

impl RTShared {
    /// What the two guards were built to enforce: every stored layout
    /// keeps at least one cluster; any buffer storage may be stored.
    pub open spec fn wf(&self) -> bool {
        &&& forall|v: FrameStorage| #[trigger] self.frames.inv(v) <==> frame_storage_wf(v)
        &&& forall|v: BufferStorage| #[trigger] self.buffers.inv(v)
    }

}

impl Default for RTShared {
    /// A store with one default buffer and one default frame cluster,
    /// each behind a fresh guard.
    fn default() -> (r: Self)
        ensures
            r.wf(),
    {
        let frames = FramesLock::new(
            FrameStorage::default(),
            Ghost(|v: FrameStorage| frame_storage_wf(v)),
        );
        let buffers = BuffersLock::new(BufferStorage::default(), Ghost(|v: BufferStorage| true));
        RTShared { frames, buffers }
    }
}

/// Takes and releases a shared read lock on `buffers` while the
/// exclusive write lock on `frames` is held. The two fields are
/// guarded independently, so the buffer reader never waits on the
/// layout writer; under one shared exclusive guard this sequence
/// would block on itself. Returns the buffer count read while the
/// layout was locked for writing.
pub fn buffers_read_during_frames_write(shared: &RTShared) -> (r: usize) {
    let (layout, write_handle) = shared.frames.acquire_write();
    let read_handle = shared.buffers.acquire_read();
    let n = read_handle.borrow().buffers.len();
    read_handle.release_read();
    write_handle.release_write(layout);
    n
}

/// Every frame of every cluster points at an existing buffer: the
/// cross-field invariant. It is not guarded atomically — each field
/// has its own lock — so it can be violated transiently under
/// concurrent mutation and must be checked where it matters.
pub open spec fn frame_indices_valid(clusters: Seq<ClusterModel>, buffers: Seq<BufferModel>) -> bool {
    forall|i: int, j: int|
        0 <= i < clusters.len() && 0 <= j < clusters[i].frames.len()
            ==> #[trigger] clusters[i].frames[j].buffer_index < buffers.len()
}

/// The text each frame of cluster `cluster_idx` displays: the content
/// of the buffer its index points at, in frame order. This is the
/// read a render pass performs while it holds shared locks on both
/// storages.
pub fn cluster_buffer_contents(
    frames: &FrameStorage,
    buffers: &BufferStorage,
    cluster_idx: usize,
) -> (r: Vec<String>)
    requires
        cluster_idx < frames@.len(),
        frame_indices_valid(frames@, buffers@),
    ensures
        r@.len() == frames@[cluster_idx as int].frames.len(),
        forall|j: int|
            0 <= j < r@.len() ==> r@[j]@ == buffers@[frames@[cluster_idx
                as int].frames[j].buffer_index as int].content,
{
    let cluster = &frames.frame_clusters[cluster_idx];
    let mut out: Vec<String> = Vec::new();
    let n = cluster.frames.len();
    for i in 0..n
        invariant
            n == cluster.frames@.len(),
            cluster_idx < frames@.len(),
            cluster@ == frames@[cluster_idx as int],
            frame_indices_valid(frames@, buffers@),
            out@.len() == i,
            forall|j: int|
                0 <= j < i ==> out@[j]@ == buffers@[cluster.frames@[j].buffer_index as int].content,
    {
        let idx = cluster.frames[i].buffer_index;
        proof {
            assert(cluster.frames@[i as int] == frames@[cluster_idx as int].frames[i as int]);
            assert(idx < buffers@.len());
            assert(buffers@[idx as int] == buffers.buffers@[idx as int]@);
        }
        out.push(buffers.buffers[idx].content.clone());
        proof {
            assert(out@[i as int]@ == buffers@[idx as int].content);
        }
    }
    out
}

} // verus!
