//! Events exchanged between the store and its collaborators over the
//! process-wide bus: window and frame lifecycle, buffer edits, and
//! file activity.
use vstd::prelude::*;

verus! {

/// What a buffer can be asked to do by an editing collaborator.
#[derive(Debug, Clone)]
pub enum BufferActions {
    InsertText { text: String },
    DeleteRange { start: usize, end: usize },
    CursorMoved { line: usize, col: usize },
}

/// The process-wide event vocabulary: buffer edits, window and frame
/// lifecycle, and file activity.
#[derive(Debug, Clone)]
pub enum RiptideEvents {
    BufferEvents { buffer_id: usize, actions: BufferActions },
    WindowCloseEvent { window_id: u32 },
    WindowOpenEvent { window_id: u32 },
    FrameCloseEvent { window_id: usize, frame_id: usize },
    FrameOpenEvent { window_id: usize, frame_id: usize },
    FileOpened { path: String },
    FileSaved { path: String },
}

} // verus!
