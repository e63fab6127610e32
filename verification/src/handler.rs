//! An earlier one-call persistence path kept beside the session: a
//! handler that saves the whole store in a single step and reads raw
//! snapshot bytes back without interpreting them.
use vstd::prelude::*;

use crate::session::{persist_store, persisted_store_at};
use crate::shared::RTShared;
use crate::storage::{FileSystem, Reader, Writer};
use crate::RiptideError;

verus! {

/// The one-call persistence handler.
pub struct SharedHandler {}

impl SharedHandler {
    /// A handler ready to save and load the store.
    pub fn default() -> (r: Self) {
        SharedHandler {}
    }

    /// Wipes live buffer content and persists the store over `path`
    /// through `writer`, exactly as a session unload does.
    pub fn save_shared(
        &self,
        writer: &Writer,
        shared: &RTShared,
        fs: &mut FileSystem,
        path: &String,
    ) -> (r: Result<(), RiptideError>)
        requires
            shared.wf(),
        ensures
            r is Ok,
            persisted_store_at(old(fs)@, final(fs)@, path@),
    {
        persist_store(shared, writer, fs, path)
    }

    /// Hands back the raw snapshot bytes at `path`, failing exactly
    /// when no file stands there; decoding them is the caller's
    /// business.
    pub fn load_shared(&self, reader: &Reader, fs: &FileSystem, path: &String) -> (r: Result<
        Vec<u8>,
        RiptideError,
    >)
        ensures
            r is Ok <==> fs@.dom().contains(path@),
            r matches Ok(v) ==> v@ == fs@[path@],
            r matches Err(e) ==> e == RiptideError::IOError,
    {
        reader.read_entire_file(fs, path)
    }
}

} // verus!
