//! Buffer model: editable text units and their ordered storage.
//!
//! A `Frame` addresses a buffer by its index into the owning
//! `BufferStorage`; the index is a non-owning back-reference.
use vstd::prelude::*;

verus! {

/// Mathematical model of a buffer: its text and backing path as
/// character sequences.
#[verifier::ext_equal]
pub struct BufferModel {
    pub content: Seq<char>,
    pub file_path: Seq<char>,
}

/// One editable unit of text together with the path of its backing file.
pub struct Buffer {
    pub content: String,
    pub file_path: String,
}

impl Buffer {
    /// A buffer with empty content and an empty backing path.
    pub fn default() -> (r: Self)
        ensures
            r.content@ =~= Seq::<char>::empty(),
            r.file_path@ =~= Seq::<char>::empty(),
    {
        Self { content: String::new(), file_path: String::new() }
    }
}

impl View for Buffer {
    type V = BufferModel;

    open spec fn view(&self) -> BufferModel {
        BufferModel { content: self.content@, file_path: self.file_path@ }
    }
}

/// The ordered collection of all open buffers, addressed by index.
pub struct BufferStorage {
    pub buffers: Vec<Buffer>,
}

impl View for BufferStorage {
    type V = Seq<BufferModel>;

    open spec fn view(&self) -> Seq<BufferModel> {
        Seq::new(self.buffers@.len(), |i: int| self.buffers@[i]@)
    }
}

impl BufferStorage {
    /// A storage holding exactly one default buffer.
    pub fn default() -> (r: Self)
        ensures
            r.buffers@.len() == 1,
            r.buffers@[0].content@ =~= Seq::<char>::empty(),
            r.buffers@[0].file_path@ =~= Seq::<char>::empty(),
    {
        Self { buffers: vec![Buffer::default()] }
    }
}

} // verus!
