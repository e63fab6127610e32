//! Byte-level storage: an in-memory file store modelled as a map from
//! paths to byte contents, with the read and write primitives the
//! session layer is built on. The process boundary that mirrors these
//! operations onto a real disk lives outside the verified library.
use vstd::prelude::*;

use crate::RiptideError;

verus! {

/// One stored file: a path and its bytes.
pub struct FsEntry {
    pub path: String,
    pub data: Vec<u8>,
}

/// Recursive reading of an entry list as a path-to-bytes map; a later
/// entry for the same path would win, though the store never keeps two.
pub open spec fn files_map(s: Seq<FsEntry>) -> Map<Seq<char>, Seq<u8>>
    decreases s.len(),
{
    if s.len() == 0 {
        Map::empty()
    } else {
        files_map(s.drop_last()).insert(s.last().path@, s.last().data@)
    }
}

/// An in-memory file store, viewed as a map from path to contents.
pub struct FileSystem {
    files: Vec<FsEntry>,
}

impl View for FileSystem {
    type V = Map<Seq<char>, Seq<u8>>;

    closed spec fn view(&self) -> Map<Seq<char>, Seq<u8>> {
        files_map(self.files@)
    }
}

/// No two entries carry the same path.
pub open spec fn paths_unique(s: Seq<FsEntry>) -> bool {
    forall|i: int, j: int| 0 <= i < j < s.len() ==> s[i].path@ != s[j].path@
}

/// In a duplicate-free entry list, entry `i` gives the map's value at
/// its path.
proof fn lemma_files_map_entry(s: Seq<FsEntry>, i: int)
    requires
        paths_unique(s),
        0 <= i < s.len(),
    ensures
        files_map(s).dom().contains(s[i].path@),
        files_map(s)[s[i].path@] == s[i].data@,
    decreases s.len(),
{
    if i == s.len() - 1 {
        assert(s.last() == s[i]);
    } else {
        assert(paths_unique(s.drop_last()));
        lemma_files_map_entry(s.drop_last(), i);
        assert(s.drop_last()[i] == s[i]);
        assert(s.last().path@ != s[i].path@);
    }
}

/// A path carried by no entry is outside the map's domain.
proof fn lemma_files_map_absent(s: Seq<FsEntry>, p: Seq<char>)
    requires
        forall|i: int| 0 <= i < s.len() ==> s[i].path@ != p,
    ensures
        !files_map(s).dom().contains(p),
    decreases s.len(),
{
    if s.len() > 0 {
        lemma_files_map_absent(s.drop_last(), p);
    }
}

/// Replacing the bytes of entry `i` updates the map at its path alone.
proof fn lemma_files_map_update(s: Seq<FsEntry>, i: int, e: FsEntry)
    requires
        paths_unique(s),
        0 <= i < s.len(),
        e.path@ == s[i].path@,
    ensures
        files_map(s.update(i, e)) =~= files_map(s).insert(e.path@, e.data@),
    decreases s.len(),
{
    let t = s.update(i, e);
    if i == s.len() - 1 {
        assert(t.drop_last() =~= s.drop_last());
        assert(t.last() == e);
    } else {
        assert(paths_unique(s.drop_last()));
        assert(t.drop_last() =~= s.drop_last().update(i, e));
        assert(s.drop_last()[i] == s[i]);
        lemma_files_map_update(s.drop_last(), i, e);
        assert(t.last() == s.last());
        assert(s.last().path@ != e.path@);
    }
}

impl FileSystem {
    #[verifier::type_invariant]
    spec fn wf(&self) -> bool {
        paths_unique(self.files@)
    }

    /// An empty store: no path holds a file.
    pub fn new() -> (r: Self)
        ensures
            r@ == Map::<Seq<char>, Seq<u8>>::empty(),
    {
        let fs = FileSystem { files: Vec::new() };
        proof {
            assert(fs@ =~= Map::<Seq<char>, Seq<u8>>::empty());
        }
        fs
    }

    fn find(&self, path: &String) -> (r: Option<usize>)
        ensures
            match r {
                Some(i) => i < self.files@.len() && self.files@[i as int].path@ == path@
                    && self@.dom().contains(path@) && self@[path@]
                    == self.files@[i as int].data@,
                None => !self@.dom().contains(path@) && (forall|j: int|
                    0 <= j < self.files@.len() ==> self.files@[j].path@ != path@),
            },
    {
        proof {
            use_type_invariant(self);
        }
        let n = self.files.len();
        for i in 0..n
            invariant
                n == self.files@.len(),
                paths_unique(self.files@),
                forall|j: int| 0 <= j < i ==> self.files@[j].path@ != path@,
        {
            if self.files[i].path == *path {
                proof {
                    lemma_files_map_entry(self.files@, i as int);
                }
                return Some(i);
            }
        }
        proof {
            lemma_files_map_absent(self.files@, path@);
        }
        None
    }

    /// Whether a file exists at the path.
    pub fn contains_path(&self, path: &String) -> (r: bool)
        ensures
            r == self@.dom().contains(path@),
    {
        self.find(path).is_some()
    }

    /// The bytes stored at the path, if a file exists there.
    pub fn read(&self, path: &String) -> (r: Option<&Vec<u8>>)
        ensures
            match r {
                Some(v) => self@.dom().contains(path@) && v@ == self@[path@],
                None => !self@.dom().contains(path@),
            },
    {
        match self.find(path) {
            Some(i) => Some(&self.files[i].data),
            None => None,
        }
    }

    /// Stores `data` at the path, replacing any file already there.
    pub fn set(&mut self, path: &String, data: Vec<u8>)
        ensures
            final(self)@ == old(self)@.insert(path@, data@),
    {
        proof {
            use_type_invariant(&*self);
        }
        let ghost gdata = data@;
        let found = self.find(path);
        let mut files: Vec<FsEntry> = Vec::new();
        core::mem::swap(&mut self.files, &mut files);
        match found {
            Some(i) => {
                let path_copy = files[i].path.clone();
                let entry = FsEntry { path: path_copy, data };
                proof {
                    lemma_files_map_update(files@, i as int, entry);
                }
                let ghost pre = files@;
                files[i] = entry;
                proof {
                    assert forall|a: int, b: int| 0 <= a < b < files@.len() implies files@[a].path@
                        != files@[b].path@ by {
                        assert(pre[a].path@ != pre[b].path@);
                    }
                }
            },
            None => {
                let entry = FsEntry { path: path.clone(), data };
                let ghost pre = files@;
                files.push(entry);
                proof {
                    assert(files@.drop_last() =~= pre);
                    assert forall|a: int, b: int| 0 <= a < b < files@.len() implies files@[a].path@
                        != files@[b].path@ by {
                        if b < files@.len() - 1 {
                            assert(pre[a].path@ != pre[b].path@);
                        } else {
                            assert(pre[a].path@ != path@);
                        }
                    }
                }
            },
        }
        core::mem::swap(&mut self.files, &mut files);
        proof {
            assert(self@ =~= old(self)@.insert(path@, gdata));
        }
    }
}

/// A byte sequence cut or zero-extended to length `n`: what a file
/// holds after its length is forced to `n` by a resize.
pub open spec fn spec_resize(s: Seq<u8>, n: nat) -> Seq<u8> {
    if n <= s.len() {
        s.take(n as int)
    } else {
        s + Seq::new((n - s.len()) as nat, |i: int| 0u8)
    }
}

/// Bytes after a size-aware write: the file forced to
/// `original_size`, with `content` standing after that point.
pub open spec fn spec_mem_write(file: Seq<u8>, original_size: nat, content: Seq<u8>) -> Seq<u8> {
    spec_resize(file, original_size) + content
}

/// The size a write starts from: the given original size, or zero.
pub open spec fn spec_original_size(original_size: Option<u64>) -> nat {
    match original_size {
        Some(v) => v as nat,
        None => 0,
    }
}

/// Core of both write paths: force the file to `original_size`, then
/// place `content` there. The resize must come first; the two paths
/// (a mapped write of the grown region, or a positioned buffered
/// write) produce the same bytes.
pub fn handle_mem_write(
    file_data: &mut Vec<u8>,
    original_size: Option<u64>,
    content: &[u8],
    is_big: bool,
) -> (r: Result<(), RiptideError>)
    ensures
        r is Ok ==> final(file_data)@ == spec_mem_write(
            old(file_data)@,
            spec_original_size(original_size),
            content@,
        ),
        r is Ok <==> spec_original_size(original_size) + content@.len() <= usize::MAX,
        r matches Err(e) ==> e == RiptideError::IOError && final(file_data)@ == old(file_data)@,
{
    let orig64: u64 = match original_size {
        Some(v) => v,
        None => 0,
    };
    let clen = content.len();
    if orig64 > usize::MAX as u64 {
        return Err(RiptideError::IOError);
    }
    let orig = orig64 as usize;
    if clen > usize::MAX - orig {
        return Err(RiptideError::IOError);
    }
    let new_size = orig + clen;
    let ghost orig_data = file_data@;
    if is_big {
        file_data.resize(new_size, 0u8);
        proof {
            assert forall|i: int| 0 <= i < orig implies file_data@[i] == spec_resize(
                orig_data,
                orig as nat,
            )[i] by {
                if orig > orig_data.len() && i >= orig_data.len() {
                    assert(cloned::<u8>(0u8, file_data@[i]));
                }
            }
        }
        for j in 0..clen
            invariant
                clen == content@.len(),
                new_size == orig + clen,
                file_data@.len() == new_size,
                forall|i: int|
                    0 <= i < orig ==> file_data@[i] == spec_resize(orig_data, orig as nat)[i],
                forall|i: int| 0 <= i < j ==> file_data@[orig + i] == content@[i],
        {
            let b = *vstd::slice::slice_index_get(content, j);
            file_data[orig + j] = b;
        }
        proof {
            assert(file_data@ =~= spec_mem_write(orig_data, orig as nat, content@));
        }
    } else {
        if file_data.len() > orig {
            file_data.truncate(orig);
        } else {
            file_data.resize(orig, 0u8);
        }
        proof {
            assert forall|i: int| 0 <= i < orig implies file_data@[i] == spec_resize(
                orig_data,
                orig as nat,
            )[i] by {
                if orig > orig_data.len() && i >= orig_data.len() {
                    assert(cloned::<u8>(0u8, file_data@[i]));
                }
            }
            assert(file_data@ =~= spec_resize(orig_data, orig as nat));
        }
        file_data.extend_from_slice(content);
        proof {
            assert forall|i: int|
                orig <= i < file_data@.len() implies file_data@[i] == content@[i - orig] by {
                assert(cloned::<u8>(content@[i - orig], file_data@[i]));
            }
            assert(file_data@ =~= spec_mem_write(orig_data, orig as nat, content@));
        }
    }
    Ok(())
}

/// The write-side primitive: durable truncating and appending writes
/// against the byte store.
pub struct Writer {}

impl Writer {
    /// A writer with its two write paths ready.
    pub fn default() -> (r: Self) {
        Writer {}
    }

    /// Truncating write: afterwards the file at `path` holds exactly
    /// `content`; whatever stood there before is gone.
    pub fn write(&self, fs: &mut FileSystem, content: &[u8], path: &String, is_big: bool) -> (r:
        Result<(), RiptideError>)
        ensures
            r is Ok,
            final(fs)@ == old(fs)@.insert(path@, content@),
    {
        let mut data: Vec<u8> = Vec::new();
        let _content_len = content.len();
        let r = handle_mem_write(&mut data, None, content, is_big);
        match r {
            Ok(_) => {
                proof {
                    assert(data@ =~= content@);
                }
                fs.set(path, data);
                Ok(())
            },
            Err(e) => Err(e),
        }
    }

    /// Appending write: `content` is placed after the file's current
    /// bytes (an absent file counts as empty). Fails only when the
    /// grown size cannot be represented, and then changes nothing.
    pub fn append(&self, fs: &mut FileSystem, content: &[u8], path: &String, is_big: bool) -> (r:
        Result<(), RiptideError>)
        ensures
            ({
                let existing = if old(fs)@.dom().contains(path@) {
                    old(fs)@[path@]
                } else {
                    Seq::<u8>::empty()
                };
                &&& (r is Ok <==> existing.len() + content@.len() <= usize::MAX)
                &&& r is Ok ==> final(fs)@ == old(fs)@.insert(path@, existing + content@)
                &&& r matches Err(e) ==> e == RiptideError::IOError && final(fs)@ == old(fs)@
            }),
    {
        let mut data: Vec<u8> = match fs.read(path) {
            Some(v) => vstd::slice::slice_to_vec(v.as_slice()),
            None => Vec::new(),
        };
        let orig = data.len();
        let ghost existing = data@;
        let r = handle_mem_write(&mut data, Some(orig as u64), content, is_big);
        match r {
            Ok(_) => {
                proof {
                    assert(spec_resize(existing, orig as nat) =~= existing);
                    assert(data@ =~= existing + content@);
                }
                fs.set(path, data);
                Ok(())
            },
            Err(e) => Err(e),
        }
    }
}

/// The read-side primitive: whole-file and chunked views of a file's
/// bytes.
pub struct Reader {}

/// The offset a chunked read starts at: the given offset, or 4096.
pub open spec fn spec_chunk_offset(offset: Option<u64>) -> int {
    match offset {
        Some(o) => o as int,
        None => 4096,
    }
}

/// The length of a chunked read: the given length, or zero.
pub open spec fn spec_chunk_length(length: Option<usize>) -> int {
    match length {
        Some(l) => l as int,
        None => 0,
    }
}

impl Reader {
    /// A reader with its two read paths ready.
    pub fn default() -> (r: Self) {
        Reader {}
    }

    /// Whole-file read: every byte of the file at `path`. Fails
    /// exactly when no file stands there.
    pub fn read_entire_file(&self, fs: &FileSystem, path: &String) -> (r: Result<
        Vec<u8>,
        RiptideError,
    >)
        ensures
            r is Ok <==> fs@.dom().contains(path@),
            r matches Ok(v) ==> v@ == fs@[path@],
            r matches Err(e) ==> e == RiptideError::IOError,
    {
        match fs.read(path) {
            Some(v) => Ok(vstd::slice::slice_to_vec(v.as_slice())),
            None => Err(RiptideError::IOError),
        }
    }

    /// Chunked read: `length` bytes starting at `offset`. The offset
    /// defaults to 4096 and the length to zero, so a call without both
    /// arguments yields a deliberately degenerate view. Fails when the
    /// file is absent or the chunk reaches past its end.
    pub fn read_file_chunk(
        &self,
        fs: &FileSystem,
        path: &String,
        offset: Option<u64>,
        length: Option<usize>,
    ) -> (r: Result<Vec<u8>, RiptideError>)
        ensures
            r is Ok <==> fs@.dom().contains(path@) && spec_chunk_offset(offset)
                + spec_chunk_length(length) <= fs@[path@].len(),
            r matches Ok(v) ==> v@ == fs@[path@].subrange(
                spec_chunk_offset(offset),
                spec_chunk_offset(offset) + spec_chunk_length(length),
            ),
            r matches Err(e) ==> e == RiptideError::IOError,
    {
        let off64: u64 = match offset {
            Some(o) => o,
            None => 4096,
        };
        let len: usize = match length {
            Some(l) => l,
            None => 0,
        };
        match fs.read(path) {
            Some(v) => {
                let flen = v.len();
                if off64 > flen as u64 || len > flen - (off64 as usize) {
                    return Err(RiptideError::IOError);
                }
                let off = off64 as usize;
                Ok(vstd::slice::slice_to_vec(vstd::slice::slice_subrange(
                    v.as_slice(),
                    off,
                    off + len,
                )))
            },
            None => Err(RiptideError::IOError),
        }
    }
}

} // verus!
