//! The load/unload orchestrator: serializes the shared store to the
//! session file on unload, and restores it wholesale on load. A load
//! is all-or-nothing: on any failure the in-memory store is left
//! untouched. An unload wipes live buffer content before it writes,
//! and the wipe stands even if the write then fails.
use vstd::prelude::*;

use crate::buffers::{BufferModel, BufferStorage};
use crate::codec::{
    buffer_model_bounded, cluster_model_bounded, decode_snapshot, encode_state,
    lemma_snapshot_encoding_injective, snapshot_model_bounded, spec_encode_snapshot,
};
use crate::shared::{RTShared, SharedSnapshot, SnapshotModel};
use crate::storage::{FileSystem, Reader, Writer};
use crate::RiptideError;

verus! {

/// Every buffer emptied of its text, keeping path and order.
pub open spec fn spec_clear_buffers(buffers: Seq<BufferModel>) -> Seq<BufferModel> {
    Seq::new(
        buffers.len(),
        |i: int| BufferModel { content: Seq::empty(), file_path: buffers[i].file_path },
    )
}

/// What a store looks like in its persisted form: the layout as it
/// is, the buffers with their content wiped — snapshots never retain
/// live text, only structure and file paths.
pub open spec fn spec_unload_transform(m: SnapshotModel) -> SnapshotModel {
    SnapshotModel { clusters: m.clusters, buffers: spec_clear_buffers(m.buffers) }
}

/// The unload transform keeps the cluster layout and every buffer's
/// file path exactly, and leaves every content empty: what survives a
/// persist and restore of any store.
pub proof fn lemma_unload_transform_preserves_structure(m: SnapshotModel)
    ensures
        spec_unload_transform(m).clusters == m.clusters,
        spec_unload_transform(m).buffers.len() == m.buffers.len(),
        forall|i: int|
            0 <= i < m.buffers.len() ==> (#[trigger] spec_unload_transform(m).buffers[i]).file_path
                == m.buffers[i].file_path && spec_unload_transform(m).buffers[i].content
                == Seq::<char>::empty(),
{
}

/// Persist and restore round trip: any store whose persisted bytes
/// equal those of `s`'s unloaded form is that unloaded form — the
/// cluster layout and every buffer's file path exactly as in `s`,
/// with every content empty. Together with the decoder's contract,
/// the bytes an unload writes restore to exactly this shape.
pub proof fn lemma_unload_round_trip(s: SnapshotModel, d: SnapshotModel)
    requires
        spec_encode_snapshot(d) == spec_encode_snapshot(spec_unload_transform(s)),
        snapshot_model_bounded(s),
        snapshot_model_bounded(d),
    ensures
        d.clusters == s.clusters,
        d.buffers.len() == s.buffers.len(),
        forall|i: int|
            0 <= i < s.buffers.len() ==> (#[trigger] d.buffers[i]).file_path
                == s.buffers[i].file_path && d.buffers[i].content == Seq::<char>::empty(),
{
    let u = spec_unload_transform(s);
    assert(snapshot_model_bounded(u)) by {
        assert forall|i: int| 0 <= i < u.clusters.len() implies cluster_model_bounded(
            #[trigger] u.clusters[i],
        ) by {
            assert(u.clusters[i] == s.clusters[i]);
        }
        assert forall|i: int| 0 <= i < u.buffers.len() implies buffer_model_bounded(
            #[trigger] u.buffers[i],
        ) by {
            assert(u.buffers[i].file_path == s.buffers[i].file_path);
            assert(vstd::utf8::encode_utf8(Seq::<char>::empty()) =~= Seq::<u8>::empty());
        }
    }
    lemma_snapshot_encoding_injective(d, u);
    lemma_unload_transform_preserves_structure(s);
}

/// Empties every buffer's content in place, keeping paths and order:
/// the destructive half of an unload.
pub fn unload_transform(buffers: &mut BufferStorage)
    ensures
        final(buffers)@ == spec_clear_buffers(old(buffers)@),
{
    let n = buffers.buffers.len();
    for i in 0..n
        invariant
            n == buffers.buffers@.len(),
            forall|j: int|
                i <= j < n ==> #[trigger] buffers.buffers@[j]@ == old(buffers).buffers@[j]@,
            forall|j: int|
                0 <= j < i ==> #[trigger] buffers.buffers@[j]@ == (BufferModel {
                    content: Seq::empty(),
                    file_path: old(buffers).buffers@[j]@.file_path,
                }),
    {
        let ghost prev = buffers.buffers@;
        let b = &mut buffers.buffers[i];
        b.content = String::new();
        proof {
            assert(buffers.buffers@[i as int]@.content =~= Seq::<char>::empty());
            assert(buffers.buffers@[i as int]@.file_path == prev[i as int]@.file_path);
            assert forall|j: int| 0 <= j < n && j != i implies buffers.buffers@[j] == prev[j] by {}
            assert(buffers.buffers@[i as int]@ == (BufferModel {
                content: Seq::empty(),
                file_path: old(buffers).buffers@[i as int]@.file_path,
            }));
        }
    }
    proof {
        assert(buffers@ =~= spec_clear_buffers(old(buffers)@));
    }
}

/// All-or-nothing restore of a snapshot from persisted bytes.
///
/// For any store, the bytes its unload produced decode back to
/// exactly its unloaded form; bytes that are not such an encoding, or
/// that encode a layout with no cluster, change nothing and fail with
/// a decode error.
pub fn restore(snapshot: &mut SharedSnapshot, bytes: &[u8]) -> (r: Result<(), RiptideError>)
    ensures
        r is Ok ==> bytes@ == spec_encode_snapshot(final(snapshot)@)
            && final(snapshot)@.clusters.len() >= 1,
        forall|m: SnapshotModel|
            (bytes@ == #[trigger] spec_encode_snapshot(m) && m.clusters.len() >= 1) ==> (r is Ok
                && final(snapshot)@ == m),
        r matches Err(e) ==> *final(snapshot) == *old(snapshot) && e == RiptideError::DecodeError,
        r is Err <==> !(exists|m: SnapshotModel|
            bytes@ == #[trigger] spec_encode_snapshot(m) && m.clusters.len() >= 1),
{
    match decode_snapshot(bytes) {
        Ok(decoded) => {
            if decoded.frames.frame_clusters.len() == 0 {
                return Err(RiptideError::DecodeError);
            }
            *snapshot = decoded;
            Ok(())
        },
        Err(_) => Err(RiptideError::DecodeError),
    }
}

/// The load-on-start, save-on-stop orchestrator: owns the shared
/// store and the path its snapshot lives at.
pub struct Session {
    pub shared: RTShared,
    pub path: String,
}

impl Session {
    /// A session that persists and restores `shared` at `path`.
    pub fn new(shared: RTShared, path: String) -> (r: Self)
        ensures
            r.shared == shared,
            r.path == path,
    {
        Self { shared, path }
    }

    /// Restores the store from the session file.
    ///
    /// Reads the whole file, decodes it, and only on success replaces
    /// both storages wholesale under their exclusive locks. A missing
    /// file is an I/O failure; bytes that are not a valid snapshot
    /// encoding, or that encode an empty layout, are a decode
    /// failure. On every failure the in-memory store is untouched:
    /// the locks are not even taken.
    pub fn load(&self, fs: &FileSystem) -> (r: Result<(), RiptideError>)
        requires
            self.shared.wf(),
        ensures
            r is Ok <==> fs@.dom().contains(self.path@) && (exists|m: SnapshotModel|
                fs@[self.path@] == #[trigger] spec_encode_snapshot(m) && m.clusters.len() >= 1),
            !fs@.dom().contains(self.path@) ==> r == Err::<(), RiptideError>(RiptideError::IOError),
            r is Err ==> r == Err::<(), RiptideError>(RiptideError::IOError) || r == Err::<
                (),
                RiptideError,
            >(RiptideError::DecodeError),
            fs@.dom().contains(self.path@) && r is Err ==> r == Err::<(), RiptideError>(
                RiptideError::DecodeError,
            ),
    {
        let reader = Reader::default();
        let bytes = match reader.read_entire_file(fs, &self.path) {
            Ok(b) => b,
            Err(_) => {
                return Err(RiptideError::IOError);
            },
        };
        let mut snapshot = SharedSnapshot::default();
        match restore(&mut snapshot, bytes.as_slice()) {
            Ok(_) => {},
            Err(e) => {
                return Err(e);
            },
        }
        let SharedSnapshot { frames, buffers } = snapshot;
        let (_old_frames, frames_handle) = self.shared.frames.acquire_write();
        frames_handle.release_write(frames);
        let (_old_buffers, buffers_handle) = self.shared.buffers.acquire_write();
        buffers_handle.release_write(buffers);
        Ok(())
    }

    /// Persists the store to the session file.
    ///
    /// Wipes every buffer's content under the exclusive buffers lock,
    /// encodes the layout together with the wiped buffers while
    /// holding a shared read lock on the layout, and writes the bytes
    /// to the path, truncating what was there. The wipe happens
    /// before the write and stands even where the write fails. What
    /// lands in the file is the encoding of a store with at least one
    /// cluster and no live content, so a later load of it succeeds.
    pub fn unload(&self, fs: &mut FileSystem) -> (r: Result<(), RiptideError>)
        requires
            self.shared.wf(),
        ensures
            r is Ok,
            persisted_store_at(old(fs)@, final(fs)@, self.path@),
    {
        persist_store(&self.shared, &Writer::default(), fs, &self.path)
    }
}

/// A wiped snapshot of a never-empty layout was written over `path`,
/// and nothing else changed: what both persistence paths leave in the
/// store. Such a file decodes back, so a later load of it succeeds.
pub open spec fn persisted_store_at(
    old_fs: Map<Seq<char>, Seq<u8>>,
    new_fs: Map<Seq<char>, Seq<u8>>,
    path: Seq<char>,
) -> bool {
    exists|m: SnapshotModel|
        {
            &&& new_fs == old_fs.insert(path, spec_encode_snapshot(m))
            &&& m.clusters.len() >= 1
            &&& m.buffers == spec_clear_buffers(m.buffers)
        }
}

/// The persist step both paths share: wipe every buffer's content
/// under the exclusive buffers lock, encode the layout and the wiped
/// buffers beside a shared layout read, and write the bytes over
/// `path`, truncating.
pub(crate) fn persist_store(
    shared: &RTShared,
    writer: &Writer,
    fs: &mut FileSystem,
    path: &String,
) -> (r: Result<(), RiptideError>)
    requires
        shared.wf(),
    ensures
        r is Ok,
        persisted_store_at(old(fs)@, final(fs)@, path@),
{
    let (mut buffers, buffers_handle) = shared.buffers.acquire_write();
    unload_transform(&mut buffers);
    let frames_handle = shared.frames.acquire_read();
    let bytes = encode_state(frames_handle.borrow(), &buffers);
    frames_handle.release_read();
    let r = writer.write(fs, bytes.as_slice(), path, false);
    buffers_handle.release_write(buffers);
    proof {
        let m = SnapshotModel { clusters: frames_handle@@, buffers: buffers@ };
        assert(spec_clear_buffers(m.buffers) =~= m.buffers);
    }
    r
}

} // verus!
