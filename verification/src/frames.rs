//! Frame layout model: positioned references into the buffer storage,
//! grouped into clusters that each describe one workspace layout.
use vstd::prelude::*;

verus! {

/// How a frame's coordinates are to be interpreted by a layout engine.
#[derive(Clone, Copy, PartialEq, Eq, Structural, Debug)]
pub enum FramePositionType {
    Fixed,
    Absolute,
}

/// Integer screen coordinates of a frame's anchor point.
#[derive(Clone, Copy, PartialEq, Eq, Structural, Debug)]
pub struct Coordinates {
    pub x: i32,
    pub y: i32,
}

/// A visual placement of one buffer: position plus a non-owning
/// back-reference into the owning `BufferStorage` by index.
#[derive(Clone, Copy, PartialEq, Eq, Structural, Debug)]
pub struct Frame {
    pub position_type: FramePositionType,
    pub position: Coordinates,
    pub buffer_index: usize,
}

impl Frame {
    /// The value `Frame::default` returns: at the origin, fixed,
    /// pointing at buffer 0.
    pub open spec fn default_spec() -> Frame {
        Frame {
            position_type: FramePositionType::Fixed,
            position: Coordinates { x: 0, y: 0 },
            buffer_index: 0,
        }
    }

    /// A frame at the origin, fixed, pointing at buffer 0.
    pub fn default() -> (r: Self)
        ensures
            r == Frame::default_spec(),
    {
        Self {
            position_type: FramePositionType::Fixed,
            position: Coordinates { x: 0, y: 0 },
            buffer_index: 0,
        }
    }
}

/// Mathematical model of a cluster: its visibility flag and the
/// sequence of frames it groups.
#[verifier::ext_equal]
pub struct ClusterModel {
    pub is_visible: bool,
    pub frames: Seq<Frame>,
}

/// One workspace layout: an ordered group of frames and a visibility flag.
pub struct FrameCluster {
    pub is_visible: bool,
    pub frames: Vec<Frame>,
}

impl View for FrameCluster {
    type V = ClusterModel;

    open spec fn view(&self) -> ClusterModel {
        ClusterModel { is_visible: self.is_visible, frames: self.frames@ }
    }
}

impl FrameCluster {
    /// A hidden cluster holding one default frame.
    pub fn default() -> (r: Self)
        ensures
            r.is_visible == false,
            r.frames@ =~= seq![Frame::default_spec()],
    {
        Self { is_visible: false, frames: vec![Frame::default()] }
    }
}

/// The ordered collection of all frame clusters; never empty once constructed.
pub struct FrameStorage {
    pub frame_clusters: Vec<FrameCluster>,
}

impl View for FrameStorage {
    type V = Seq<ClusterModel>;

    open spec fn view(&self) -> Seq<ClusterModel> {
        Seq::new(self.frame_clusters@.len(), |i: int| self.frame_clusters@[i]@)
    }
}

impl FrameStorage {
    /// A storage holding exactly one default cluster.
    pub fn default() -> (r: Self)
        ensures
            r.frame_clusters@.len() == 1,
            r.frame_clusters@[0].is_visible == false,
            r.frame_clusters@[0].frames@ =~= seq![Frame::default_spec()],
    {
        Self { frame_clusters: vec![FrameCluster::default()] }
    }

    /// Removes frame `frame_idx` from cluster `cluster_idx`.
    ///
    /// Only that cluster changes: its later frames shift left by one,
    /// and every other cluster keeps its frames untouched — a frame's
    /// `buffer_index` is a non-owning back-reference, so frames
    /// elsewhere that share the removed frame's buffer index are
    /// unaffected.
    pub fn remove_frame(&mut self, cluster_idx: usize, frame_idx: usize)
        requires
            cluster_idx < old(self)@.len(),
            frame_idx < old(self)@[cluster_idx as int].frames.len(),
        ensures
            final(self)@.len() == old(self)@.len(),
            final(self)@[cluster_idx as int].is_visible == old(self)@[cluster_idx
                as int].is_visible,
            final(self)@[cluster_idx as int].frames == old(self)@[cluster_idx
                as int].frames.remove(frame_idx as int),
            forall|i: int|
                0 <= i < old(self)@.len() && i != cluster_idx ==> final(self)@[i] == old(self)@[i],
    {
        let cluster = &mut self.frame_clusters[cluster_idx];
        cluster.frames.remove(frame_idx);
        proof {
            assert forall|i: int|
                0 <= i < self@.len() && i != cluster_idx implies self@[i] == old(self)@[i] by {
                assert(self@[i] =~= old(self)@[i]);
            }
            assert(self@[cluster_idx as int].frames =~= old(self)@[cluster_idx
                as int].frames.remove(frame_idx as int));
        }
    }

    /// Opens a new frame at the end of cluster `cluster_idx`; no other
    /// cluster changes.
    pub fn add_frame(&mut self, cluster_idx: usize, frame: Frame)
        requires
            cluster_idx < old(self)@.len(),
        ensures
            final(self)@.len() == old(self)@.len(),
            final(self)@[cluster_idx as int].is_visible == old(self)@[cluster_idx
                as int].is_visible,
            final(self)@[cluster_idx as int].frames == old(self)@[cluster_idx
                as int].frames.push(frame),
            forall|i: int|
                0 <= i < old(self)@.len() && i != cluster_idx ==> final(self)@[i] == old(self)@[i],
    {
        let cluster = &mut self.frame_clusters[cluster_idx];
        cluster.frames.push(frame);
        proof {
            assert forall|i: int|
                0 <= i < self@.len() && i != cluster_idx implies self@[i] == old(self)@[i] by {
                assert(self@[i] =~= old(self)@[i]);
            }
            assert(self@[cluster_idx as int].frames =~= old(self)@[cluster_idx
                as int].frames.push(frame));
        }
    }

    /// Restores the visibility rule: once the layout is initialized,
    /// some cluster must be marked visible, so if none is, the first
    /// cluster is promoted. A storage that already shows a cluster is
    /// left untouched.
    pub fn ensure_visible(&mut self)
        requires
            old(self)@.len() >= 1,
        ensures
            final(self)@.len() == old(self)@.len(),
            (exists|i: int| 0 <= i < old(self)@.len() && old(self)@[i].is_visible) ==> final(self)@
                =~= old(self)@,
            !(exists|i: int| 0 <= i < old(self)@.len() && old(self)@[i].is_visible) ==> {
                &&& final(self)@[0].is_visible
                &&& final(self)@[0].frames == old(self)@[0].frames
                &&& forall|i: int| 1 <= i < old(self)@.len() ==> final(self)@[i] == old(self)@[i]
            },
            exists|i: int| 0 <= i < final(self)@.len() && final(self)@[i].is_visible,
    {
        let n = self.frame_clusters.len();
        for i in 0..n
            invariant
                n == self@.len(),
                forall|j: int| 0 <= j < i ==> !self@[j].is_visible,
        {
            if self.frame_clusters[i].is_visible {
                proof {
                    assert(self@[i as int].is_visible);
                }
                return ;
            }
        }
        let cluster = &mut self.frame_clusters[0];
        cluster.is_visible = true;
        proof {
            assert(self@[0].is_visible);
            assert forall|i: int| 1 <= i < self@.len() implies self@[i] == old(self)@[i] by {
                assert(self@[i] =~= old(self)@[i]);
            }
        }
    }
}

/// The first cluster not yet shown, if any: the candidate layout for
/// a newly opened window.
pub fn check_new_frame_cluster(frame_clusters: &Vec<FrameCluster>) -> (r: Option<&FrameCluster>)
    ensures
        match r {
            Some(c) => exists|i: int|
                0 <= i < frame_clusters@.len() && !frame_clusters@[i].is_visible && c@
                    == frame_clusters@[i]@ && (forall|j: int|
                    0 <= j < i ==> frame_clusters@[j].is_visible),
            None => forall|i: int| 0 <= i < frame_clusters@.len() ==> frame_clusters@[i].is_visible,
        },
{
    let n = frame_clusters.len();
    for i in 0..n
        invariant
            n == frame_clusters@.len(),
            forall|j: int| 0 <= j < i ==> frame_clusters@[j].is_visible,
    {
        if !frame_clusters[i].is_visible {
            return Some(&frame_clusters[i]);
        }
    }
    None
}

} // verus!
