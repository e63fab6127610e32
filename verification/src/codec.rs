//! Binary codec for snapshots of the shared store.
//!
//! The persisted form is length-prefixed: a four-byte format tag,
//! then the cluster list, then the buffer list, each introduced by a
//! little-endian `u64` element count. Strings are written as their
//! UTF-8 bytes behind a `u64` byte-length prefix; every other number
//! is fixed-width little-endian. Decoding accepts exactly the byte
//! sequences this encoding produces and rejects everything else.
use vstd::bytes::*;
use vstd::prelude::*;
use vstd::utf8::*;

use crate::buffers::{Buffer, BufferModel, BufferStorage};
use crate::frames::{Coordinates, Frame, FrameCluster, FramePositionType, FrameStorage};
use crate::frames::ClusterModel;
use crate::shared::{SharedSnapshot, SnapshotModel};
use crate::RiptideError;

verus! {

/// The four bytes every encoded snapshot starts with: a format magic
/// ("RTS") and a schema version byte. A file written by another schema
/// fails to decode instead of being misread.
pub open spec fn spec_format_tag() -> Seq<u8> {
    seq![0x52u8, 0x54u8, 0x53u8, 0x31u8]
}

/// Encoding of a boolean: one byte, 0 or 1.
pub open spec fn spec_encode_bool(b: bool) -> Seq<u8> {
    if b {
        seq![1u8]
    } else {
        seq![0u8]
    }
}

/// Encoding of a positioning mode: one tag byte.
pub open spec fn spec_encode_position_type(t: FramePositionType) -> Seq<u8> {
    match t {
        FramePositionType::Fixed => seq![0u8],
        FramePositionType::Absolute => seq![1u8],
    }
}

/// Encoding of a string: a `u64` byte-length prefix, then the UTF-8
/// bytes of its characters.
pub open spec fn spec_encode_string(s: Seq<char>) -> Seq<u8> {
    spec_u64_to_le_bytes(encode_utf8(s).len() as u64) + encode_utf8(s)
}

/// Encoding of a frame: tag byte, the two coordinates as little-endian
/// `u32` bit patterns, and the buffer index as a `u64`.
pub open spec fn spec_encode_frame(f: Frame) -> Seq<u8> {
    spec_encode_position_type(f.position_type) + spec_u32_to_le_bytes(f.position.x as u32)
        + spec_u32_to_le_bytes(f.position.y as u32) + spec_u64_to_le_bytes(f.buffer_index as u64)
}

/// Encoding of a sequence of elements, one after the other.
pub open spec fn spec_encode_seq<T>(s: Seq<T>, enc: spec_fn(T) -> Seq<u8>) -> Seq<u8>
    decreases s.len(),
{
    if s.len() <= 0 {
        Seq::empty()
    } else {
        enc(s[0]) + spec_encode_seq(s.drop_first(), enc)
    }
}

/// Encoding of a cluster: visibility byte, frame count, frames.
pub open spec fn spec_encode_cluster(c: ClusterModel) -> Seq<u8> {
    spec_encode_bool(c.is_visible) + spec_u64_to_le_bytes(c.frames.len() as u64)
        + spec_encode_seq(c.frames, frame_enc())
}

/// Encoding of a buffer: its content string, then its file path.
pub open spec fn spec_encode_buffer(b: BufferModel) -> Seq<u8> {
    spec_encode_string(b.content) + spec_encode_string(b.file_path)
}

/// The frame encoder as a function value, for use with `spec_encode_seq`.
pub open spec fn frame_enc() -> spec_fn(Frame) -> Seq<u8> {
    |f: Frame| spec_encode_frame(f)
}

/// The cluster encoder as a function value.
pub open spec fn cluster_enc() -> spec_fn(ClusterModel) -> Seq<u8> {
    |c: ClusterModel| spec_encode_cluster(c)
}

/// The buffer encoder as a function value.
pub open spec fn buffer_enc() -> spec_fn(BufferModel) -> Seq<u8> {
    |b: BufferModel| spec_encode_buffer(b)
}

/// Encoding of a whole snapshot: format tag, cluster count, clusters,
/// buffer count, buffers.
pub open spec fn spec_encode_snapshot(m: SnapshotModel) -> Seq<u8> {
    spec_format_tag() + spec_u64_to_le_bytes(m.clusters.len() as u64)
        + spec_encode_seq(m.clusters, cluster_enc())
        + spec_u64_to_le_bytes(m.buffers.len() as u64)
        + spec_encode_seq(m.buffers, buffer_enc())
}

/// The bytes `chunk` stand at position `pos` of `data`.
spec fn chunk_at(data: Seq<u8>, pos: int, chunk: Seq<u8>) -> bool {
    &&& 0 <= pos
    &&& pos + chunk.len() <= data.len()
    &&& data.subrange(pos, pos + chunk.len()) == chunk
}

/// Appending one element to the encoded prefix extends the encoding by
/// that element's bytes.
proof fn lemma_encode_seq_snoc<T>(s: Seq<T>, enc: spec_fn(T) -> Seq<u8>, i: int)
    requires
        0 <= i < s.len(),
    ensures
        spec_encode_seq(s.take(i + 1), enc) =~= spec_encode_seq(s.take(i), enc) + enc(s[i]),
    decreases i,
{
    if i == 0 {
        assert(s.take(1) =~= seq![s[0]]);
        assert(s.take(1).drop_first() =~= Seq::<T>::empty());
        assert(s.take(0) =~= Seq::<T>::empty());
        assert(s.take(1)[0] == s[0]);
        assert(spec_encode_seq(Seq::<T>::empty(), enc) =~= Seq::<u8>::empty());
        assert(spec_encode_seq(s.take(1), enc) =~= enc(s[0]));
    } else {
        let d = s.drop_first();
        assert(s.take(i + 1).drop_first() =~= d.take(i));
        assert(s.take(i).drop_first() =~= d.take(i - 1));
        assert(s.take(i + 1)[0] == s[0]);
        assert(s.take(i)[0] == s[0]);
        lemma_encode_seq_snoc(d, enc, i - 1);
        assert(d.len() == s.len() - 1);
        assert(d[i - 1] == s[i]);
        assert(spec_encode_seq(s.take(i + 1), enc) =~= enc(s[0]) + spec_encode_seq(d.take(i), enc));
        assert(spec_encode_seq(s.take(i), enc) =~= enc(s[0]) + spec_encode_seq(d.take(i - 1), enc));
    }
}

/// The encoding of a sequence splits around any element: prefix bytes,
/// that element's bytes, suffix bytes.
proof fn lemma_encode_seq_split<T>(s: Seq<T>, enc: spec_fn(T) -> Seq<u8>, i: int)
    requires
        0 <= i < s.len(),
    ensures
        spec_encode_seq(s, enc) =~= spec_encode_seq(s.take(i), enc) + enc(s[i]) + spec_encode_seq(
            s.skip(i + 1),
            enc,
        ),
    decreases i,
{
    if i == 0 {
        assert(s.take(0) =~= Seq::<T>::empty());
        assert(s.skip(1) =~= s.drop_first());
    } else {
        let d = s.drop_first();
        lemma_encode_seq_split(d, enc, i - 1);
        assert(s.take(i).drop_first() =~= d.take(i - 1));
        assert(s.take(i)[0] == s[0]);
        assert(d[i - 1] == s[i]);
        assert(d.skip(i) =~= s.skip(i + 1));
        assert(spec_encode_seq(s.take(i), enc) =~= enc(s[0]) + spec_encode_seq(d.take(i - 1), enc));
    }
}

/// Every element contributes at least `k` bytes to the encoding.
proof fn lemma_encode_seq_len_at_least<T>(s: Seq<T>, enc: spec_fn(T) -> Seq<u8>, k: nat)
    requires
        forall|t: T| (#[trigger] enc(t)).len() >= k,
    ensures
        spec_encode_seq(s, enc).len() >= k * s.len(),
    decreases s.len(),
{
    if s.len() == 0 {
    } else {
        lemma_encode_seq_len_at_least(s.drop_first(), enc, k);
        assert(k * s.len() == k * (s.len() - 1) + k) by (nonlinear_arith);
    }
}

/// A frame always encodes to exactly 17 bytes.
proof fn lemma_frame_enc_len(f: Frame)
    ensures
        spec_encode_frame(f).len() == 17,
{
    lemma_auto_spec_u32_to_from_le_bytes();
    lemma_auto_spec_u64_to_from_le_bytes();
}

/// A cluster encodes to at least 9 bytes (flag plus count).
proof fn lemma_cluster_enc_len(c: ClusterModel)
    ensures
        spec_encode_cluster(c).len() >= 9 + 17 * c.frames.len(),
{
    lemma_auto_spec_u64_to_from_le_bytes();
    assert forall|f: Frame| (#[trigger] spec_encode_frame(f)).len() >= 17 by {
        lemma_frame_enc_len(f);
    }
    lemma_encode_seq_len_at_least(c.frames, frame_enc(), 17);
}

/// A string encodes to at least its 8-byte length prefix.
proof fn lemma_string_enc_len(s: Seq<char>)
    ensures
        spec_encode_string(s).len() >= 8,
        spec_encode_string(s).len() == 8 + encode_utf8(s).len(),
{
    lemma_auto_spec_u64_to_from_le_bytes();
}

/// A buffer encodes to at least its two length prefixes.
proof fn lemma_buffer_enc_len(b: BufferModel)
    ensures
        spec_encode_buffer(b).len() >= 16,
{
    lemma_string_enc_len(b.content);
    lemma_string_enc_len(b.file_path);
}

fn encode_u64_into(out: &mut Vec<u8>, x: u64)
    ensures
        final(out)@ =~= old(out)@ + spec_u64_to_le_bytes(x),
{
    let mut v = u64_to_le_bytes(x);
    out.append(&mut v);
}

fn encode_u32_into(out: &mut Vec<u8>, x: u32)
    ensures
        final(out)@ =~= old(out)@ + spec_u32_to_le_bytes(x),
{
    let mut v = u32_to_le_bytes(x);
    out.append(&mut v);
}

fn encode_string_into(out: &mut Vec<u8>, s: &String)
    ensures
        final(out)@ =~= old(out)@ + spec_encode_string(s@),
{
    let bytes: &[u8] = s.as_str().as_bytes();
    encode_u64_into(out, bytes.len() as u64);
    out.extend_from_slice(bytes);
}

fn encode_frame_into(out: &mut Vec<u8>, f: Frame)
    ensures
        final(out)@ =~= old(out)@ + spec_encode_frame(f),
{
    match f.position_type {
        FramePositionType::Fixed => out.push(0u8),
        FramePositionType::Absolute => out.push(1u8),
    }
    encode_u32_into(out, #[verifier::truncate] (f.position.x as u32));
    encode_u32_into(out, #[verifier::truncate] (f.position.y as u32));
    encode_u64_into(out, f.buffer_index as u64);
}

fn encode_cluster_into(out: &mut Vec<u8>, c: &FrameCluster)
    ensures
        final(out)@ =~= old(out)@ + spec_encode_cluster(c@),
{
    if c.is_visible {
        out.push(1u8);
    } else {
        out.push(0u8);
    }
    encode_u64_into(out, c.frames.len() as u64);
    let ghost base = out@;
    let n = c.frames.len();
    for i in 0..n
        invariant
            n == c.frames.len(),
            out@ =~= base + spec_encode_seq(c.frames@.take(i as int), frame_enc()),
    {
        let f = c.frames[i];
        assert(f == c.frames@[i as int]);
        encode_frame_into(out, f);
        proof {
            assert(frame_enc()(f) == spec_encode_frame(f));
            lemma_encode_seq_snoc(c.frames@, frame_enc(), i as int);
            assert(out@ =~= base + spec_encode_seq(c.frames@.take(i as int + 1), frame_enc()));
        }
    }
    proof {
        assert(c.frames@.take(n as int) =~= c.frames@);
    }
}

fn encode_buffer_into(out: &mut Vec<u8>, b: &Buffer)
    ensures
        final(out)@ =~= old(out)@ + spec_encode_buffer(b@),
{
    encode_string_into(out, &b.content);
    encode_string_into(out, &b.file_path);
}

/// Encodes the two storages to the persisted byte form of the
/// snapshot they make up. They are taken separately because the live
/// store guards each behind its own lock.
pub fn encode_state(frames: &FrameStorage, buffers: &BufferStorage) -> (r: Vec<u8>)
    ensures
        r@ =~= spec_encode_snapshot(SnapshotModel { clusters: frames@, buffers: buffers@ }),
{
    let mut out: Vec<u8> = Vec::new();
    out.push(0x52u8);
    out.push(0x54u8);
    out.push(0x53u8);
    out.push(0x31u8);
    proof {
        assert(out@ =~= spec_format_tag());
    }

    encode_u64_into(&mut out, frames.frame_clusters.len() as u64);
    let ghost cbase = out@;
    let ncl = frames.frame_clusters.len();
    for i in 0..ncl
        invariant
            ncl == frames.frame_clusters.len(),
            out@ =~= cbase + spec_encode_seq(frames@.take(i as int), cluster_enc()),
    {
        encode_cluster_into(&mut out, &frames.frame_clusters[i]);
        proof {
            assert(frames.frame_clusters@[i as int]@ == frames@[i as int]);
            assert(cluster_enc()(frames@[i as int]) == spec_encode_cluster(frames@[i as int]));
            lemma_encode_seq_snoc(frames@, cluster_enc(), i as int);
            assert(out@ =~= cbase + spec_encode_seq(frames@.take(i as int + 1), cluster_enc()));
        }
    }
    proof {
        assert(frames@.take(ncl as int) =~= frames@);
    }

    encode_u64_into(&mut out, buffers.buffers.len() as u64);
    let ghost bbase = out@;
    let nbuf = buffers.buffers.len();
    for i in 0..nbuf
        invariant
            nbuf == buffers.buffers.len(),
            out@ =~= bbase + spec_encode_seq(buffers@.take(i as int), buffer_enc()),
    {
        encode_buffer_into(&mut out, &buffers.buffers[i]);
        proof {
            assert(buffers.buffers@[i as int]@ == buffers@[i as int]);
            assert(buffer_enc()(buffers@[i as int]) == spec_encode_buffer(buffers@[i as int]));
            lemma_encode_seq_snoc(buffers@, buffer_enc(), i as int);
            assert(out@ =~= bbase + spec_encode_seq(buffers@.take(i as int + 1), buffer_enc()));
        }
    }
    proof {
        assert(buffers@.take(nbuf as int) =~= buffers@);
        assert(out@ =~= spec_encode_snapshot(SnapshotModel { clusters: frames@, buffers: buffers@ }));
    }
    out
}

/// A chunk made of two parts stands at a position exactly when the
/// parts stand there one after the other.
proof fn lemma_chunk_concat(data: Seq<u8>, pos: int, a: Seq<u8>, b: Seq<u8>)
    requires
        chunk_at(data, pos, a + b),
    ensures
        chunk_at(data, pos, a),
        chunk_at(data, pos + a.len(), b),
{
    let ab = a + b;
    assert forall|j: int| 0 <= j < a.len() implies data[pos + j] == a[j] by {
        assert(data.subrange(pos, pos + ab.len())[j] == ab[j]);
    }
    assert forall|k: int| 0 <= k < b.len() implies data[pos + a.len() + k] == b[k] by {
        assert(data.subrange(pos, pos + ab.len())[a.len() + k] == ab[a.len() + k]);
    }
    assert(data.subrange(pos, pos + a.len()) =~= a);
    assert(data.subrange(pos + a.len(), pos + a.len() + b.len()) =~= b);
}

/// Two adjacent chunks join into one.
proof fn lemma_chunk_join(data: Seq<u8>, pos: int, a: Seq<u8>, b: Seq<u8>)
    requires
        chunk_at(data, pos, a),
        chunk_at(data, pos + a.len(), b),
    ensures
        chunk_at(data, pos, a + b),
{
    assert(data.subrange(pos, pos + (a + b).len()) =~= a + b);
}

/// Encodes a snapshot of the shared store to its persisted byte form.
pub fn encode_snapshot(s: &SharedSnapshot) -> (r: Vec<u8>)
    ensures
        r@ =~= spec_encode_snapshot(s@),
{
    let r = encode_state(&s.frames, &s.buffers);
    proof {
        assert(s@ =~= SnapshotModel { clusters: s.frames@, buffers: s.buffers@ });
    }
    r
}

/// Relies on String::from_utf8: it succeeds exactly on valid UTF-8
/// input, and the returned string's bytes are the input bytes.
#[verifier::external_body]
fn string_from_utf8(v: Vec<u8>) -> (r: Option<String>)
    ensures
        r is Some <==> valid_utf8(v@),
        r matches Some(s) ==> encode_utf8(s@) =~= v@,
{
    String::from_utf8(v).ok()
}

fn decode_u64(data: &[u8], pos: usize) -> (r: Result<(u64, usize), RiptideError>)
    ensures
        r matches Ok(p) ==> p.1 == pos + 8 && chunk_at(data@, pos as int, spec_u64_to_le_bytes(p.0)),
        pos + 8 <= data@.len() ==> r is Ok,
{
    if data.len() >= 8 && pos <= data.len() - 8 {
        let s = vstd::slice::slice_subrange(data, pos, pos + 8);
        let x = vstd::bytes::u64_from_le_bytes(s);
        proof {
            lemma_auto_spec_u64_to_from_le_bytes();
        }
        Ok((x, pos + 8))
    } else {
        Err(RiptideError::DecodeError)
    }
}

fn decode_u32(data: &[u8], pos: usize) -> (r: Result<(u32, usize), RiptideError>)
    ensures
        r matches Ok(p) ==> p.1 == pos + 4 && chunk_at(data@, pos as int, spec_u32_to_le_bytes(p.0)),
        pos + 4 <= data@.len() ==> r is Ok,
{
    if data.len() >= 4 && pos <= data.len() - 4 {
        let s = vstd::slice::slice_subrange(data, pos, pos + 4);
        let x = vstd::bytes::u32_from_le_bytes(s);
        proof {
            lemma_auto_spec_u32_to_from_le_bytes();
        }
        Ok((x, pos + 4))
    } else {
        Err(RiptideError::DecodeError)
    }
}

fn decode_byte(data: &[u8], pos: usize) -> (r: Result<(u8, usize), RiptideError>)
    ensures
        r matches Ok(p) ==> p.1 == pos + 1 && chunk_at(data@, pos as int, seq![p.0]),
        pos + 1 <= data@.len() ==> r is Ok,
{
    if pos < data.len() {
        let b = *vstd::slice::slice_index_get(data, pos);
        proof {
            assert(data@.subrange(pos as int, pos + 1) =~= seq![b]);
        }
        Ok((b, pos + 1))
    } else {
        Err(RiptideError::DecodeError)
    }
}

fn decode_string(data: &[u8], pos: usize) -> (r: Result<(String, usize), RiptideError>)
    ensures
        r matches Ok(p) ==> pos + 8 <= p.1 <= data@.len() && p.1 == pos + spec_encode_string(
            p.0@,
        ).len() && chunk_at(data@, pos as int, spec_encode_string(p.0@)),
        forall|cs: Seq<char>|
            chunk_at(data@, pos as int, #[trigger] spec_encode_string(cs)) ==> (r matches Ok(p)
                && p.0@ == cs && p.1 == pos + spec_encode_string(cs).len()),
{
    let n64: u64;
    let p1: usize;
    match decode_u64(data, pos) {
        Ok(p) => {
            n64 = p.0;
            p1 = p.1;
        },
        Err(e) => {
            proof {
                assert forall|cs: Seq<char>|
                    !chunk_at(data@, pos as int, #[trigger] spec_encode_string(cs)) by {
                    lemma_string_enc_len(cs);
                }
            }
            return Err(e);
        },
    }
    proof {
        lemma_auto_spec_u64_to_from_le_bytes();
        assert forall|cs: Seq<char>|
            chunk_at(data@, pos as int, #[trigger] spec_encode_string(cs)) implies {
            &&& encode_utf8(cs).len() <= data@.len() - p1
            &&& n64 == encode_utf8(cs).len() as u64
            &&& data@.subrange(p1 as int, p1 + encode_utf8(cs).len()) == encode_utf8(cs)
        } by {
            lemma_string_enc_len(cs);
            let ec = spec_encode_string(cs);
            let ulen = encode_utf8(cs).len() as int;
            assert(data@.subrange(pos as int, pos + ec.len()) == ec);
            assert(data@.subrange(pos as int, pos + 8) =~= ec.subrange(0, 8));
            assert(ec.subrange(0, 8) =~= spec_u64_to_le_bytes(encode_utf8(cs).len() as u64));
            assert(data@.subrange(p1 as int, p1 + ulen) =~= ec.subrange(8, 8 + ulen));
            assert(ec.subrange(8, 8 + ulen) =~= encode_utf8(cs));
        }
    }
    if n64 > (data.len() - p1) as u64 {
        return Err(RiptideError::DecodeError);
    }
    let n = n64 as usize;
    let bytes = vstd::slice::slice_subrange(data, p1, p1 + n);
    let v = vstd::slice::slice_to_vec(bytes);
    match string_from_utf8(v) {
        Some(s) => {
            proof {
                broadcast use vstd::utf8::encode_utf8_decode_utf8;

                let ss = s@;
                assert(encode_utf8(ss) == data@.subrange(p1 as int, p1 + n));
                assert(spec_encode_string(ss) =~= data@.subrange(pos as int, p1 + n)) by {
                    lemma_string_enc_len(ss);
                    assert(spec_u64_to_le_bytes(encode_utf8(ss).len() as u64) =~= data@.subrange(
                        pos as int,
                        pos + 8,
                    ));
                }
                assert(chunk_at(data@, pos as int, spec_encode_string(ss))) by {
                    lemma_string_enc_len(ss);
                }
                assert forall|cs: Seq<char>|
                    chunk_at(data@, pos as int, #[trigger] spec_encode_string(cs)) implies cs == ss
                        && pos + spec_encode_string(cs).len() == p1 + n by {
                    lemma_string_enc_len(cs);
                    assert(encode_utf8(cs) == data@.subrange(p1 as int, p1 + n));
                    assert(decode_utf8(encode_utf8(cs)) == cs);
                    assert(decode_utf8(encode_utf8(ss)) == ss);
                }
            }
            Ok((s, p1 + n))
        },
        None => {
            proof {
                assert forall|cs: Seq<char>|
                    !chunk_at(data@, pos as int, #[trigger] spec_encode_string(cs)) by {
                    broadcast use vstd::utf8::encode_utf8_valid_utf8;

                    if chunk_at(data@, pos as int, spec_encode_string(cs)) {
                        assert(encode_utf8(cs) == data@.subrange(p1 as int, p1 + n as int));
                        assert(valid_utf8(encode_utf8(cs)));
                    }
                }
            }
            Err(RiptideError::DecodeError)
        },
    }
}

/// Splits a frame encoding standing at `pos` into its four fields.
proof fn lemma_frame_chunk_fields(data: Seq<u8>, pos: int, f: Frame)
    requires
        chunk_at(data, pos, spec_encode_frame(f)),
    ensures
        chunk_at(data, pos, spec_encode_position_type(f.position_type)),
        chunk_at(data, pos + 1, spec_u32_to_le_bytes(f.position.x as u32)),
        chunk_at(data, pos + 5, spec_u32_to_le_bytes(f.position.y as u32)),
        chunk_at(data, pos + 9, spec_u64_to_le_bytes(f.buffer_index as u64)),
        pos + 17 <= data.len(),
{
    lemma_auto_spec_u32_to_from_le_bytes();
    lemma_auto_spec_u64_to_from_le_bytes();
    let t = spec_encode_position_type(f.position_type);
    let x = spec_u32_to_le_bytes(f.position.x as u32);
    let y = spec_u32_to_le_bytes(f.position.y as u32);
    let i = spec_u64_to_le_bytes(f.buffer_index as u64);
    lemma_chunk_concat(data, pos, t + x + y, i);
    lemma_chunk_concat(data, pos, t + x, y);
    lemma_chunk_concat(data, pos, t, x);
}

fn decode_frame(data: &[u8], pos: usize) -> (r: Result<(Frame, usize), RiptideError>)
    ensures
        r matches Ok(p) ==> p.1 == pos + 17 && chunk_at(data@, pos as int, spec_encode_frame(p.0)),
        forall|f: Frame|
            chunk_at(data@, pos as int, #[trigger] spec_encode_frame(f)) ==> (r matches Ok(p)
                && p.0 == f && p.1 == pos + 17),
{
    proof {
        assert forall|f: Frame|
            chunk_at(data@, pos as int, #[trigger] spec_encode_frame(f)) implies pos + 17
            <= data@.len() && chunk_at(data@, pos + 1, spec_u32_to_le_bytes(f.position.x as u32))
            && chunk_at(data@, pos + 5, spec_u32_to_le_bytes(f.position.y as u32)) && chunk_at(
            data@,
            pos + 9,
            spec_u64_to_le_bytes(f.buffer_index as u64),
        ) by {
            lemma_frame_chunk_fields(data@, pos as int, f);
        }
    }
    let tag: u8;
    let p1: usize;
    match decode_byte(data, pos) {
        Ok(p) => {
            tag = p.0;
            p1 = p.1;
        },
        Err(e) => {
            return Err(e);
        },
    }
    let position_type: FramePositionType;
    if tag == 0 {
        position_type = FramePositionType::Fixed;
    } else if tag == 1 {
        position_type = FramePositionType::Absolute;
    } else {
        proof {
            assert forall|f: Frame|
                !chunk_at(data@, pos as int, #[trigger] spec_encode_frame(f)) by {
                if chunk_at(data@, pos as int, spec_encode_frame(f)) {
                    lemma_frame_chunk_fields(data@, pos as int, f);
                    assert(data@.subrange(pos as int, pos + 1) =~= seq![tag]);
                    assert(spec_encode_position_type(f.position_type)[0] == tag);
                    assert(seq![0u8][0] == 0u8);
                    assert(seq![1u8][0] == 1u8);
                }
            }
        }
        return Err(RiptideError::DecodeError);
    }
    let xb: u32;
    let p2: usize;
    match decode_u32(data, p1) {
        Ok(p) => {
            xb = p.0;
            p2 = p.1;
        },
        Err(e) => {
            return Err(e);
        },
    }
    let yb: u32;
    let p3: usize;
    match decode_u32(data, p2) {
        Ok(p) => {
            yb = p.0;
            p3 = p.1;
        },
        Err(e) => {
            return Err(e);
        },
    }
    let idx64: u64;
    let p4: usize;
    match decode_u64(data, p3) {
        Ok(p) => {
            idx64 = p.0;
            p4 = p.1;
        },
        Err(e) => {
            return Err(e);
        },
    }
    if idx64 > usize::MAX as u64 {
        proof {
            lemma_auto_spec_u64_to_from_le_bytes();
            assert forall|f: Frame|
                !chunk_at(data@, pos as int, #[trigger] spec_encode_frame(f)) by {
                if chunk_at(data@, pos as int, spec_encode_frame(f)) {
                    lemma_frame_chunk_fields(data@, pos as int, f);
                }
            }
        }
        return Err(RiptideError::DecodeError);
    }
    let frame = Frame {
        position_type,
        position: Coordinates {
            x: #[verifier::truncate] (xb as i32),
            y: #[verifier::truncate] (yb as i32),
        },
        buffer_index: idx64 as usize,
    };
    proof {
        lemma_auto_spec_u32_to_from_le_bytes();
        lemma_auto_spec_u64_to_from_le_bytes();
        assert((xb as i32) as u32 == xb) by (bit_vector);
        assert((yb as i32) as u32 == yb) by (bit_vector);
        assert(chunk_at(data@, pos as int, spec_encode_frame(frame))) by {
            let t = spec_encode_position_type(frame.position_type);
            let x = spec_u32_to_le_bytes(xb);
            let y = spec_u32_to_le_bytes(yb);
            let i = spec_u64_to_le_bytes(idx64);
            assert(data@.subrange(pos as int, pos + 1) =~= t);
            lemma_chunk_join(data@, pos as int, t, x);
            lemma_chunk_join(data@, pos as int, t + x, y);
            lemma_chunk_join(data@, pos as int, t + x + y, i);
        }
        assert forall|f: Frame|
            chunk_at(data@, pos as int, #[trigger] spec_encode_frame(f)) implies f == frame by {
            lemma_frame_chunk_fields(data@, pos as int, f);
            assert(data@.subrange(pos as int, pos + 1) =~= seq![tag]);
            assert(spec_encode_position_type(f.position_type)[0] == tag);
            assert(seq![0u8][0] == 0u8);
            assert(seq![1u8][0] == 1u8);
            assert(f.position_type == frame.position_type);
            assert(f.position.x as u32 == xb);
            assert(f.position.y as u32 == yb);
            assert(f.buffer_index as u64 == idx64);
            let fx = f.position.x;
            let fy = f.position.y;
            assert((fx as u32) as i32 == fx) by (bit_vector);
            assert((fy as u32) as i32 == fy) by (bit_vector);
        }
    }
    Ok((frame, p4))
}

/// A frame list encodes to exactly 17 bytes per frame.
proof fn lemma_frames_enc_len(s: Seq<Frame>)
    ensures
        spec_encode_seq(s, frame_enc()).len() == 17 * s.len(),
    decreases s.len(),
{
    if s.len() == 0 {
    } else {
        lemma_frames_enc_len(s.drop_first());
        lemma_frame_enc_len(s[0]);
    }
}

/// Splits a cluster encoding standing at `pos` into its fields and
/// bounds the number of frames it can carry.
proof fn lemma_cluster_chunk_fields(data: Seq<u8>, pos: int, cm: ClusterModel)
    requires
        chunk_at(data, pos, spec_encode_cluster(cm)),
    ensures
        chunk_at(data, pos, spec_encode_bool(cm.is_visible)),
        chunk_at(data, pos + 1, spec_u64_to_le_bytes(cm.frames.len() as u64)),
        chunk_at(data, pos + 9, spec_encode_seq(cm.frames, frame_enc())),
        pos + 9 + 17 * cm.frames.len() <= data.len(),
        spec_encode_cluster(cm).len() == 9 + 17 * cm.frames.len(),
{
    lemma_auto_spec_u64_to_from_le_bytes();
    lemma_frames_enc_len(cm.frames);
    let v = spec_encode_bool(cm.is_visible);
    let c = spec_u64_to_le_bytes(cm.frames.len() as u64);
    let fs = spec_encode_seq(cm.frames, frame_enc());
    lemma_chunk_concat(data, pos, v + c, fs);
    lemma_chunk_concat(data, pos, v, c);
}

/// Within an encoded frame list, frame `i` stands 17 bytes per
/// preceding frame after the list's start.
proof fn lemma_frames_chunk_index(data: Seq<u8>, pos: int, s: Seq<Frame>, i: int)
    requires
        chunk_at(data, pos, spec_encode_seq(s, frame_enc())),
        0 <= i < s.len(),
    ensures
        chunk_at(data, pos + 17 * i, spec_encode_frame(s[i])),
{
    lemma_encode_seq_split(s, frame_enc(), i);
    lemma_frames_enc_len(s.take(i));
    lemma_frame_enc_len(s[i]);
    assert(s.take(i).len() == i);
    let pre = spec_encode_seq(s.take(i), frame_enc());
    let mid = spec_encode_frame(s[i]);
    let post = spec_encode_seq(s.skip(i + 1), frame_enc());
    lemma_chunk_concat(data, pos, pre + mid, post);
    lemma_chunk_concat(data, pos, pre, mid);
}

fn decode_cluster(data: &[u8], pos: usize) -> (r: Result<(FrameCluster, usize), RiptideError>)
    ensures
        r matches Ok(p) ==> pos + 9 <= p.1 <= data@.len() && p.1 == pos + spec_encode_cluster(
            p.0@,
        ).len() && chunk_at(data@, pos as int, spec_encode_cluster(p.0@)),
        forall|cm: ClusterModel|
            chunk_at(data@, pos as int, #[trigger] spec_encode_cluster(cm)) ==> (r matches Ok(p)
                && p.0@ == cm && p.1 == pos + spec_encode_cluster(cm).len()),
{
    let dlen = data.len();
    proof {
        assert forall|cm: ClusterModel|
            chunk_at(data@, pos as int, #[trigger] spec_encode_cluster(cm)) implies chunk_at(
            data@,
            pos as int,
            spec_encode_bool(cm.is_visible),
        ) && chunk_at(data@, pos + 1, spec_u64_to_le_bytes(cm.frames.len() as u64)) && chunk_at(
            data@,
            pos + 9,
            spec_encode_seq(cm.frames, frame_enc()),
        ) && pos + 9 + 17 * cm.frames.len() <= data@.len() && cm.frames.len() <= usize::MAX
            && spec_encode_cluster(cm).len() == 9 + 17 * cm.frames.len() by {
            lemma_cluster_chunk_fields(data@, pos as int, cm);
            assert(17 * cm.frames.len() <= dlen);
            assert(cm.frames.len() <= 17 * cm.frames.len());
        }
    }
    let vis_byte: u8;
    let p1: usize;
    match decode_byte(data, pos) {
        Ok(p) => {
            vis_byte = p.0;
            p1 = p.1;
        },
        Err(e) => {
            return Err(e);
        },
    }
    let is_visible: bool;
    if vis_byte == 0 {
        is_visible = false;
    } else if vis_byte == 1 {
        is_visible = true;
    } else {
        proof {
            assert forall|cm: ClusterModel|
                !chunk_at(data@, pos as int, #[trigger] spec_encode_cluster(cm)) by {
                if chunk_at(data@, pos as int, spec_encode_cluster(cm)) {
                    assert(data@.subrange(pos as int, pos + 1) =~= seq![vis_byte]);
                    assert(spec_encode_bool(cm.is_visible)[0] == vis_byte);
                    assert(seq![0u8][0] == 0u8);
                    assert(seq![1u8][0] == 1u8);
                }
            }
        }
        return Err(RiptideError::DecodeError);
    }
    let count64: u64;
    let p2: usize;
    match decode_u64(data, p1) {
        Ok(p) => {
            count64 = p.0;
            p2 = p.1;
        },
        Err(e) => {
            return Err(e);
        },
    }
    proof {
        lemma_auto_spec_u64_to_from_le_bytes();
        assert forall|cm: ClusterModel|
            chunk_at(data@, pos as int, #[trigger] spec_encode_cluster(cm)) implies count64
            == cm.frames.len() as u64 && cm.frames.len() <= usize::MAX by {
            assert(data@.subrange(p1 as int, p1 + 8) == spec_u64_to_le_bytes(count64));
            assert(data@.subrange(p1 as int, p1 + 8) == spec_u64_to_le_bytes(
                cm.frames.len() as u64,
            ));
        }
    }
    if count64 > usize::MAX as u64 {
        return Err(RiptideError::DecodeError);
    }
    let n = count64 as usize;
    let mut frames: Vec<Frame> = Vec::new();
    let mut cur: usize = p2;
    proof {
        assert(frames@ =~= Seq::<Frame>::empty());
        assert(spec_encode_seq(frames@, frame_enc()) =~= Seq::<u8>::empty());
        assert(data@.subrange(p2 as int, p2 as int) =~= Seq::<u8>::empty());
    }
    for i in 0..n
        invariant
            p2 == pos + 9,
            pos + 9 <= cur <= data@.len(),
            frames@.len() == i,
            cur as int == pos + 9 + 17 * i,
            chunk_at(data@, pos + 9, spec_encode_seq(frames@, frame_enc())),
            forall|cm: ClusterModel|
                chunk_at(data@, pos as int, #[trigger] spec_encode_cluster(cm)) ==> (
                cm.frames.len() == n && frames@ =~= cm.frames.take(i as int)),
    {
        proof {
            lemma_frames_enc_len(frames@);
            assert forall|cm: ClusterModel|
                chunk_at(data@, pos as int, #[trigger] spec_encode_cluster(cm)) implies chunk_at(
                data@,
                cur as int,
                spec_encode_frame(cm.frames[i as int]),
            ) by {
                lemma_cluster_chunk_fields(data@, pos as int, cm);
                lemma_frames_chunk_index(data@, pos + 9, cm.frames, i as int);
            }
        }
        let f: Frame;
        match decode_frame(data, cur) {
            Ok(p) => {
                f = p.0;
                cur = p.1;
            },
            Err(e) => {
                return Err(e);
            },
        }
        let ghost old_frames = frames@;
        frames.push(f);
        proof {
            lemma_frames_enc_len(old_frames);
            assert(frames@ =~= old_frames + seq![f]);
            assert(spec_encode_seq(frames@, frame_enc()) =~= spec_encode_seq(
                old_frames,
                frame_enc(),
            ) + spec_encode_frame(f)) by {
                lemma_encode_seq_snoc(frames@, frame_enc(), i as int);
                assert(frames@.take(i as int) =~= old_frames);
                assert(frames@.take(i as int + 1) =~= frames@);
            }
            lemma_chunk_join(
                data@,
                pos + 9,
                spec_encode_seq(old_frames, frame_enc()),
                spec_encode_frame(f),
            );
            lemma_frame_enc_len(f);
            assert forall|cm: ClusterModel|
                chunk_at(data@, pos as int, #[trigger] spec_encode_cluster(cm)) implies frames@
                =~= cm.frames.take(i as int + 1) by {
                lemma_cluster_chunk_fields(data@, pos as int, cm);
                lemma_frames_chunk_index(data@, pos + 9, cm.frames, i as int);
                assert(f == cm.frames[i as int]);
                assert(cm.frames.take(i as int + 1) =~= cm.frames.take(i as int) + seq![
                    cm.frames[i as int],
                ]);
            }
        }
    }
    let cluster = FrameCluster { is_visible, frames };
    proof {
        lemma_frames_enc_len(cluster.frames@);
        assert(chunk_at(data@, pos as int, spec_encode_cluster(cluster@))) by {
            lemma_auto_spec_u64_to_from_le_bytes();
            let v = spec_encode_bool(cluster@.is_visible);
            let c = spec_u64_to_le_bytes(cluster@.frames.len() as u64);
            let fs = spec_encode_seq(cluster@.frames, frame_enc());
            assert(data@.subrange(pos as int, pos + 1) =~= v);
            assert(data@.subrange(p1 as int, p1 + 8) == spec_u64_to_le_bytes(count64));
            assert(c == spec_u64_to_le_bytes(count64));
            lemma_chunk_join(data@, pos as int, v, c);
            lemma_chunk_join(data@, pos as int, v + c, fs);
        }
        assert forall|cm: ClusterModel|
            chunk_at(data@, pos as int, #[trigger] spec_encode_cluster(cm)) implies cluster@ == cm
            && pos + spec_encode_cluster(cm).len() == cur by {
            lemma_cluster_chunk_fields(data@, pos as int, cm);
            assert(data@.subrange(pos as int, pos + 1) =~= seq![vis_byte]);
            assert(spec_encode_bool(cm.is_visible)[0] == vis_byte);
            assert(seq![0u8][0] == 0u8);
            assert(seq![1u8][0] == 1u8);
            assert(cm.is_visible == cluster@.is_visible);
            assert(cm.frames.take(n as int) =~= cm.frames);
            assert(cluster@.frames =~= cm.frames);
        }
    }
    Ok((cluster, cur))
}

/// Within an encoded list, element `i` stands after the encodings of
/// the elements before it.
proof fn lemma_seq_chunk_index<T>(data: Seq<u8>, pos: int, s: Seq<T>, enc: spec_fn(T) -> Seq<u8>, i: int)
    requires
        chunk_at(data, pos, spec_encode_seq(s, enc)),
        0 <= i < s.len(),
    ensures
        chunk_at(data, pos + spec_encode_seq(s.take(i), enc).len(), enc(s[i])),
{
    lemma_encode_seq_split(s, enc, i);
    let pre = spec_encode_seq(s.take(i), enc);
    let mid = enc(s[i]);
    let post = spec_encode_seq(s.skip(i + 1), enc);
    lemma_chunk_concat(data, pos, pre + mid, post);
    lemma_chunk_concat(data, pos, pre, mid);
}

fn decode_buffer(data: &[u8], pos: usize) -> (r: Result<(Buffer, usize), RiptideError>)
    ensures
        r matches Ok(p) ==> pos + 16 <= p.1 <= data@.len() && p.1 == pos + spec_encode_buffer(
            p.0@,
        ).len() && chunk_at(data@, pos as int, spec_encode_buffer(p.0@)),
        forall|bm: BufferModel|
            chunk_at(data@, pos as int, #[trigger] spec_encode_buffer(bm)) ==> (r matches Ok(p)
                && p.0@ == bm && p.1 == pos + spec_encode_buffer(bm).len()),
{
    proof {
        assert forall|bm: BufferModel|
            chunk_at(data@, pos as int, #[trigger] spec_encode_buffer(bm)) implies chunk_at(
            data@,
            pos as int,
            spec_encode_string(bm.content),
        ) && chunk_at(
            data@,
            pos + spec_encode_string(bm.content).len(),
            spec_encode_string(bm.file_path),
        ) by {
            lemma_chunk_concat(
                data@,
                pos as int,
                spec_encode_string(bm.content),
                spec_encode_string(bm.file_path),
            );
        }
    }
    let content: String;
    let p1: usize;
    match decode_string(data, pos) {
        Ok(p) => {
            content = p.0;
            p1 = p.1;
        },
        Err(e) => {
            return Err(e);
        },
    }
    let file_path: String;
    let p2: usize;
    match decode_string(data, p1) {
        Ok(p) => {
            file_path = p.0;
            p2 = p.1;
        },
        Err(e) => {
            return Err(e);
        },
    }
    let buffer = Buffer { content, file_path };
    proof {
        lemma_chunk_join(
            data@,
            pos as int,
            spec_encode_string(buffer@.content),
            spec_encode_string(buffer@.file_path),
        );
        lemma_string_enc_len(buffer@.content);
        lemma_string_enc_len(buffer@.file_path);
        assert forall|bm: BufferModel|
            chunk_at(data@, pos as int, #[trigger] spec_encode_buffer(bm)) implies buffer@ == bm by {
            assert(bm.content == buffer@.content);
            assert(bm.file_path == buffer@.file_path);
            assert(buffer@ =~= bm);
        }
    }
    Ok((buffer, p2))
}

/// Splits a full snapshot encoding into its five sections.
proof fn lemma_snapshot_chunk_fields(data: Seq<u8>, m: SnapshotModel)
    requires
        data == spec_encode_snapshot(m),
    ensures
        chunk_at(data, 0, spec_format_tag()),
        chunk_at(data, 4, spec_u64_to_le_bytes(m.clusters.len() as u64)),
        chunk_at(data, 12, spec_encode_seq(m.clusters, cluster_enc())),
        chunk_at(
            data,
            12 + spec_encode_seq(m.clusters, cluster_enc()).len() as int,
            spec_u64_to_le_bytes(m.buffers.len() as u64),
        ),
        chunk_at(
            data,
            20 + spec_encode_seq(m.clusters, cluster_enc()).len() as int,
            spec_encode_seq(m.buffers, buffer_enc()),
        ),
        data.len() == 20 + spec_encode_seq(m.clusters, cluster_enc()).len() + spec_encode_seq(
            m.buffers,
            buffer_enc(),
        ).len(),
{
    lemma_auto_spec_u64_to_from_le_bytes();
    let t = spec_format_tag();
    let c1 = spec_u64_to_le_bytes(m.clusters.len() as u64);
    let s1 = spec_encode_seq(m.clusters, cluster_enc());
    let c2 = spec_u64_to_le_bytes(m.buffers.len() as u64);
    let s2 = spec_encode_seq(m.buffers, buffer_enc());
    assert(chunk_at(data, 0, t + c1 + s1 + c2 + s2)) by {
        assert(data.subrange(0, data.len() as int) =~= data);
    }
    lemma_chunk_concat(data, 0, t + c1 + s1 + c2, s2);
    lemma_chunk_concat(data, 0, t + c1 + s1, c2);
    lemma_chunk_concat(data, 0, t + c1, s1);
    lemma_chunk_concat(data, 0, t, c1);
}

/// Every cluster encoding takes at least 9 bytes, every buffer
/// encoding at least 16.
proof fn lemma_section_min_lens(m: SnapshotModel)
    ensures
        spec_encode_seq(m.clusters, cluster_enc()).len() >= 9 * m.clusters.len(),
        spec_encode_seq(m.buffers, buffer_enc()).len() >= 16 * m.buffers.len(),
{
    assert forall|c: ClusterModel| (#[trigger] cluster_enc()(c)).len() >= 9 by {
        lemma_cluster_enc_len(c);
    }
    lemma_encode_seq_len_at_least(m.clusters, cluster_enc(), 9);
    assert forall|b: BufferModel| (#[trigger] buffer_enc()(b)).len() >= 16 by {
        lemma_buffer_enc_len(b);
    }
    lemma_encode_seq_len_at_least(m.buffers, buffer_enc(), 16);
}

/// Abbreviation for the cluster-model sequence a cluster vector stands for.
spec fn cluster_views(v: Seq<FrameCluster>) -> Seq<ClusterModel> {
    Seq::new(v.len(), |i: int| v[i]@)
}

/// Abbreviation for the buffer-model sequence a buffer vector stands for.
spec fn buffer_views(v: Seq<Buffer>) -> Seq<BufferModel> {
    Seq::new(v.len(), |i: int| v[i]@)
}

/// Decodes persisted bytes back into a snapshot.
///
/// Succeeds on exactly the byte sequences `encode_snapshot` produces,
/// returning the snapshot they encode; every other input fails with a
/// decode error and nothing else.
pub fn decode_snapshot(data: &[u8]) -> (r: Result<SharedSnapshot, RiptideError>)
    ensures
        r matches Ok(s) ==> data@ == spec_encode_snapshot(s@),
        forall|m: SnapshotModel|
            data@ == #[trigger] spec_encode_snapshot(m) ==> (r matches Ok(s) && s@ == m),
        r matches Err(e) ==> e == RiptideError::DecodeError,
{
    let dlen = data.len();
    proof {
        lemma_auto_spec_u64_to_from_le_bytes();
        assert forall|m: SnapshotModel|
            data@ == #[trigger] spec_encode_snapshot(m) implies chunk_at(
            data@,
            0,
            spec_format_tag(),
        ) && chunk_at(data@, 4, spec_u64_to_le_bytes(m.clusters.len() as u64)) && chunk_at(
            data@,
            12,
            spec_encode_seq(m.clusters, cluster_enc()),
        ) && chunk_at(
            data@,
            12 + spec_encode_seq(m.clusters, cluster_enc()).len() as int,
            spec_u64_to_le_bytes(m.buffers.len() as u64),
        ) && chunk_at(
            data@,
            20 + spec_encode_seq(m.clusters, cluster_enc()).len() as int,
            spec_encode_seq(m.buffers, buffer_enc()),
        ) && data@.len() == 20 + spec_encode_seq(m.clusters, cluster_enc()).len()
            + spec_encode_seq(m.buffers, buffer_enc()).len() && m.clusters.len() <= usize::MAX
            && m.buffers.len() <= usize::MAX && m.clusters.len() as u64 as int == m.clusters.len()
            && m.buffers.len() as u64 as int == m.buffers.len() by {
            lemma_snapshot_chunk_fields(data@, m);
            lemma_section_min_lens(m);
            assert(m.clusters.len() <= 9 * m.clusters.len());
            assert(m.buffers.len() <= 16 * m.buffers.len());
        }
    }
    if dlen < 4 {
        return Err(RiptideError::DecodeError);
    }
    let b0 = *vstd::slice::slice_index_get(data, 0);
    let b1 = *vstd::slice::slice_index_get(data, 1);
    let b2 = *vstd::slice::slice_index_get(data, 2);
    let b3 = *vstd::slice::slice_index_get(data, 3);
    proof {
        assert forall|m: SnapshotModel|
            data@ == #[trigger] spec_encode_snapshot(m) implies b0 == 0x52u8 && b1 == 0x54u8 && b2
            == 0x53u8 && b3 == 0x31u8 by {
            let t = spec_format_tag();
            assert(data@.subrange(0, 4) == t);
            assert(data@.subrange(0, 4)[0] == t[0]);
            assert(data@.subrange(0, 4)[1] == t[1]);
            assert(data@.subrange(0, 4)[2] == t[2]);
            assert(data@.subrange(0, 4)[3] == t[3]);
        }
    }
    if !(b0 == 0x52 && b1 == 0x54 && b2 == 0x53 && b3 == 0x31) {
        return Err(RiptideError::DecodeError);
    }
    let count64c: u64;
    let ccur0: usize;
    match decode_u64(data, 4) {
        Ok(p) => {
            count64c = p.0;
            ccur0 = p.1;
        },
        Err(_) => {
            return Err(RiptideError::DecodeError);
        },
    }
    proof {
        lemma_auto_spec_u64_to_from_le_bytes();
        assert forall|m: SnapshotModel|
            data@ == #[trigger] spec_encode_snapshot(m) implies count64c
            == m.clusters.len() as u64 by {
            assert(data@.subrange(4, 12) == spec_u64_to_le_bytes(count64c));
            assert(data@.subrange(4, 12) == spec_u64_to_le_bytes(m.clusters.len() as u64));
        }
    }
    if count64c > usize::MAX as u64 {
        return Err(RiptideError::DecodeError);
    }
    let nc = count64c as usize;
    let mut clusters_vec: Vec<FrameCluster> = Vec::new();
    let mut cur: usize = ccur0;
    proof {
        assert(cluster_views(clusters_vec@) =~= Seq::<ClusterModel>::empty());
        assert(spec_encode_seq(Seq::<ClusterModel>::empty(), cluster_enc()) =~= Seq::<u8>::empty());
        assert(data@.subrange(12, 12) =~= Seq::<u8>::empty());
    }
    for i in 0..nc
        invariant
            dlen == data@.len(),
            12 <= cur <= dlen,
            clusters_vec@.len() == i,
            cur as int == 12 + spec_encode_seq(cluster_views(clusters_vec@), cluster_enc()).len(),
            chunk_at(data@, 12, spec_encode_seq(cluster_views(clusters_vec@), cluster_enc())),
            forall|m: SnapshotModel|
                data@ == #[trigger] spec_encode_snapshot(m) ==> (m.clusters.len() == nc
                    && cluster_views(clusters_vec@) =~= m.clusters.take(i as int)),
    {
        proof {
            assert forall|m: SnapshotModel|
                data@ == #[trigger] spec_encode_snapshot(m) implies chunk_at(
                data@,
                cur as int,
                spec_encode_cluster(m.clusters[i as int]),
            ) by {
                lemma_snapshot_chunk_fields(data@, m);
                lemma_seq_chunk_index(data@, 12, m.clusters, cluster_enc(), i as int);
                assert(cluster_views(clusters_vec@) == m.clusters.take(i as int));
                assert(cluster_enc()(m.clusters[i as int]) == spec_encode_cluster(
                    m.clusters[i as int],
                ));
            }
        }
        let c: FrameCluster;
        match decode_cluster(data, cur) {
            Ok(p) => {
                c = p.0;
                cur = p.1;
            },
            Err(_) => {
                return Err(RiptideError::DecodeError);
            },
        }
        let ghost old_views = cluster_views(clusters_vec@);
        clusters_vec.push(c);
        proof {
            assert(cluster_views(clusters_vec@) =~= old_views + seq![c@]);
            assert(spec_encode_seq(cluster_views(clusters_vec@), cluster_enc()) =~= spec_encode_seq(
                old_views,
                cluster_enc(),
            ) + spec_encode_cluster(c@)) by {
                lemma_encode_seq_snoc(cluster_views(clusters_vec@), cluster_enc(), i as int);
                assert(cluster_views(clusters_vec@).take(i as int) =~= old_views);
                assert(cluster_views(clusters_vec@).take(i as int + 1) =~= cluster_views(
                    clusters_vec@,
                ));
                assert(cluster_views(clusters_vec@)[i as int] == c@);
            }
            lemma_chunk_join(
                data@,
                12,
                spec_encode_seq(old_views, cluster_enc()),
                spec_encode_cluster(c@),
            );
            assert forall|m: SnapshotModel|
                data@ == #[trigger] spec_encode_snapshot(m) implies cluster_views(clusters_vec@)
                =~= m.clusters.take(i as int + 1) by {
                assert(c@ == m.clusters[i as int]);
                assert(m.clusters.take(i as int + 1) =~= m.clusters.take(i as int) + seq![
                    m.clusters[i as int],
                ]);
            }
        }
    }
    proof {
        assert forall|m: SnapshotModel|
            data@ == #[trigger] spec_encode_snapshot(m) implies cluster_views(clusters_vec@)
            == m.clusters && cur as int == 12 + spec_encode_seq(m.clusters, cluster_enc()).len() by {
            assert(m.clusters.take(nc as int) =~= m.clusters);
        }
    }
    let count64b: u64;
    let bbase: usize;
    match decode_u64(data, cur) {
        Ok(p) => {
            count64b = p.0;
            bbase = p.1;
        },
        Err(_) => {
            return Err(RiptideError::DecodeError);
        },
    }
    proof {
        lemma_auto_spec_u64_to_from_le_bytes();
        assert forall|m: SnapshotModel|
            data@ == #[trigger] spec_encode_snapshot(m) implies count64b
            == m.buffers.len() as u64 by {
            assert(data@.subrange(cur as int, cur + 8) == spec_u64_to_le_bytes(count64b));
            assert(data@.subrange(cur as int, cur + 8) == spec_u64_to_le_bytes(
                m.buffers.len() as u64,
            ));
        }
    }
    if count64b > usize::MAX as u64 {
        return Err(RiptideError::DecodeError);
    }
    let nb = count64b as usize;
    let mut buffers_vec: Vec<Buffer> = Vec::new();
    let mut bcur: usize = bbase;
    proof {
        assert(buffer_views(buffers_vec@) =~= Seq::<BufferModel>::empty());
        assert(spec_encode_seq(Seq::<BufferModel>::empty(), buffer_enc()) =~= Seq::<u8>::empty());
        assert(data@.subrange(bbase as int, bbase as int) =~= Seq::<u8>::empty());
    }
    for i in 0..nb
        invariant
            dlen == data@.len(),
            12 <= bbase <= bcur <= dlen,
            buffers_vec@.len() == i,
            bcur as int == bbase + spec_encode_seq(buffer_views(buffers_vec@), buffer_enc()).len(),
            chunk_at(data@, bbase as int, spec_encode_seq(buffer_views(buffers_vec@), buffer_enc())),
            forall|m: SnapshotModel|
                data@ == #[trigger] spec_encode_snapshot(m) ==> (m.buffers.len() == nb
                    && buffer_views(buffers_vec@) =~= m.buffers.take(i as int) && bbase as int == 20
                    + spec_encode_seq(m.clusters, cluster_enc()).len()),
    {
        proof {
            assert forall|m: SnapshotModel|
                data@ == #[trigger] spec_encode_snapshot(m) implies chunk_at(
                data@,
                bcur as int,
                spec_encode_buffer(m.buffers[i as int]),
            ) by {
                lemma_snapshot_chunk_fields(data@, m);
                lemma_seq_chunk_index(data@, bbase as int, m.buffers, buffer_enc(), i as int);
                assert(buffer_views(buffers_vec@) == m.buffers.take(i as int));
                assert(buffer_enc()(m.buffers[i as int]) == spec_encode_buffer(
                    m.buffers[i as int],
                ));
            }
        }
        let b: Buffer;
        match decode_buffer(data, bcur) {
            Ok(p) => {
                b = p.0;
                bcur = p.1;
            },
            Err(_) => {
                return Err(RiptideError::DecodeError);
            },
        }
        let ghost old_views = buffer_views(buffers_vec@);
        buffers_vec.push(b);
        proof {
            assert(buffer_views(buffers_vec@) =~= old_views + seq![b@]);
            assert(spec_encode_seq(buffer_views(buffers_vec@), buffer_enc()) =~= spec_encode_seq(
                old_views,
                buffer_enc(),
            ) + spec_encode_buffer(b@)) by {
                lemma_encode_seq_snoc(buffer_views(buffers_vec@), buffer_enc(), i as int);
                assert(buffer_views(buffers_vec@).take(i as int) =~= old_views);
                assert(buffer_views(buffers_vec@).take(i as int + 1) =~= buffer_views(
                    buffers_vec@,
                ));
                assert(buffer_views(buffers_vec@)[i as int] == b@);
            }
            lemma_chunk_join(
                data@,
                bbase as int,
                spec_encode_seq(old_views, buffer_enc()),
                spec_encode_buffer(b@),
            );
            assert forall|m: SnapshotModel|
                data@ == #[trigger] spec_encode_snapshot(m) implies buffer_views(buffers_vec@)
                =~= m.buffers.take(i as int + 1) by {
                assert(b@ == m.buffers[i as int]);
                assert(m.buffers.take(i as int + 1) =~= m.buffers.take(i as int) + seq![
                    m.buffers[i as int],
                ]);
            }
        }
    }
    proof {
        assert forall|m: SnapshotModel|
            data@ == #[trigger] spec_encode_snapshot(m) implies buffer_views(buffers_vec@)
            == m.buffers && bcur as int == data@.len() by {
            assert(m.buffers.take(nb as int) =~= m.buffers);
            lemma_snapshot_chunk_fields(data@, m);
        }
    }
    if bcur != dlen {
        return Err(RiptideError::DecodeError);
    }
    let snapshot = SharedSnapshot {
        frames: FrameStorage { frame_clusters: clusters_vec },
        buffers: BufferStorage { buffers: buffers_vec },
    };
    proof {
        lemma_auto_spec_u64_to_from_le_bytes();
        assert(snapshot@.clusters =~= cluster_views(snapshot.frames.frame_clusters@));
        assert(snapshot@.buffers =~= buffer_views(snapshot.buffers.buffers@));
        let t = spec_format_tag();
        let c1 = spec_u64_to_le_bytes(snapshot@.clusters.len() as u64);
        let s1 = spec_encode_seq(snapshot@.clusters, cluster_enc());
        let c2 = spec_u64_to_le_bytes(snapshot@.buffers.len() as u64);
        let s2 = spec_encode_seq(snapshot@.buffers, buffer_enc());
        assert(chunk_at(data@, 0, t)) by {
            assert(data@.subrange(0, 4) =~= seq![b0, b1, b2, b3]);
            assert(seq![b0, b1, b2, b3] =~= t);
        }
        assert(chunk_at(data@, 4, c1)) by {
            assert(c1 == spec_u64_to_le_bytes(count64c));
        }
        assert(chunk_at(data@, 12, s1));
        assert(chunk_at(data@, cur as int, c2)) by {
            assert(c2 == spec_u64_to_le_bytes(count64b));
        }
        assert(chunk_at(data@, bbase as int, s2));
        lemma_chunk_join(data@, 0, t, c1);
        lemma_chunk_join(data@, 0, t + c1, s1);
        lemma_chunk_join(data@, 0, t + c1 + s1, c2);
        lemma_chunk_join(data@, 0, t + c1 + s1 + c2, s2);
        assert(data@ =~= spec_encode_snapshot(snapshot@)) by {
            assert(chunk_at(data@, 0, spec_encode_snapshot(snapshot@)));
            assert(spec_encode_snapshot(snapshot@).len() == data@.len());
            assert(data@.subrange(0, data@.len() as int) =~= data@);
        }
        assert forall|m: SnapshotModel|
            data@ == #[trigger] spec_encode_snapshot(m) implies snapshot@ == m by {
            assert(snapshot@.clusters == m.clusters);
            assert(snapshot@.buffers == m.buffers);
            assert(snapshot@ =~= m);
        }
    }
    Ok(snapshot)
}

/// A cluster whose frame count has a faithful count field.
pub open spec fn cluster_model_bounded(c: ClusterModel) -> bool {
    c.frames.len() <= u64::MAX
}

/// A buffer whose two strings have faithful length fields.
pub open spec fn buffer_model_bounded(b: BufferModel) -> bool {
    encode_utf8(b.content).len() <= u64::MAX && encode_utf8(b.file_path).len() <= u64::MAX
}

/// A snapshot model every length field of which is faithful: true of
/// the model of every value the process can actually hold.
pub open spec fn snapshot_model_bounded(m: SnapshotModel) -> bool {
    &&& m.clusters.len() <= u64::MAX
    &&& m.buffers.len() <= u64::MAX
    &&& forall|i: int| 0 <= i < m.clusters.len() ==> cluster_model_bounded(#[trigger] m.clusters[i])
    &&& forall|i: int| 0 <= i < m.buffers.len() ==> buffer_model_bounded(#[trigger] m.buffers[i])
}

/// Two string encodings standing at the same position are the same
/// string: the length field pins the byte count, the bytes pin the
/// characters.
proof fn lemma_string_chunk_unique(data: Seq<u8>, pos: int, a: Seq<char>, b: Seq<char>)
    requires
        chunk_at(data, pos, spec_encode_string(a)),
        chunk_at(data, pos, spec_encode_string(b)),
        encode_utf8(a).len() <= u64::MAX,
        encode_utf8(b).len() <= u64::MAX,
    ensures
        a == b,
{
    broadcast use vstd::utf8::encode_utf8_decode_utf8;

    lemma_auto_spec_u64_to_from_le_bytes();
    lemma_string_enc_len(a);
    lemma_string_enc_len(b);
    lemma_chunk_concat(
        data,
        pos,
        spec_u64_to_le_bytes(encode_utf8(a).len() as u64),
        encode_utf8(a),
    );
    lemma_chunk_concat(
        data,
        pos,
        spec_u64_to_le_bytes(encode_utf8(b).len() as u64),
        encode_utf8(b),
    );
    assert(data.subrange(pos, pos + 8) == spec_u64_to_le_bytes(encode_utf8(a).len() as u64));
    assert(data.subrange(pos, pos + 8) == spec_u64_to_le_bytes(encode_utf8(b).len() as u64));
    assert(encode_utf8(a).len() == encode_utf8(b).len());
    assert(encode_utf8(a) == data.subrange(pos + 8, pos + 8 + encode_utf8(a).len()));
    assert(encode_utf8(b) == data.subrange(pos + 8, pos + 8 + encode_utf8(b).len()));
    assert(decode_utf8(encode_utf8(a)) == a);
    assert(decode_utf8(encode_utf8(b)) == b);
}

/// Two frame encodings standing at the same position are the same
/// frame.
proof fn lemma_frame_chunk_unique(data: Seq<u8>, pos: int, f: Frame, g: Frame)
    requires
        chunk_at(data, pos, spec_encode_frame(f)),
        chunk_at(data, pos, spec_encode_frame(g)),
    ensures
        f == g,
{
    lemma_auto_spec_u32_to_from_le_bytes();
    lemma_auto_spec_u64_to_from_le_bytes();
    lemma_frame_chunk_fields(data, pos, f);
    lemma_frame_chunk_fields(data, pos, g);
    assert(data.subrange(pos, pos + 1) == spec_encode_position_type(f.position_type));
    assert(data.subrange(pos, pos + 1) == spec_encode_position_type(g.position_type));
    assert(spec_encode_position_type(f.position_type)[0] == spec_encode_position_type(
        g.position_type,
    )[0]);
    assert(seq![0u8][0] == 0u8);
    assert(seq![1u8][0] == 1u8);
    assert(f.position_type == g.position_type);
    assert(data.subrange(pos + 1, pos + 5) == spec_u32_to_le_bytes(f.position.x as u32));
    assert(data.subrange(pos + 1, pos + 5) == spec_u32_to_le_bytes(g.position.x as u32));
    assert(f.position.x as u32 == g.position.x as u32);
    let fx = f.position.x;
    let gx = g.position.x;
    assert(fx as u32 == gx as u32 ==> fx == gx) by (bit_vector);
    assert(data.subrange(pos + 5, pos + 9) == spec_u32_to_le_bytes(f.position.y as u32));
    assert(data.subrange(pos + 5, pos + 9) == spec_u32_to_le_bytes(g.position.y as u32));
    let fy = f.position.y;
    let gy = g.position.y;
    assert(fy as u32 == gy as u32 ==> fy == gy) by (bit_vector);
    assert(data.subrange(pos + 9, pos + 17) == spec_u64_to_le_bytes(f.buffer_index as u64));
    assert(data.subrange(pos + 9, pos + 17) == spec_u64_to_le_bytes(g.buffer_index as u64));
    assert(f.buffer_index as u64 == g.buffer_index as u64);
}

/// Two equally long frame lists encoded at the same position are the
/// same list, frame by frame.
proof fn lemma_frames_chunk_unique(data: Seq<u8>, pos: int, a: Seq<Frame>, b: Seq<Frame>)
    requires
        chunk_at(data, pos, spec_encode_seq(a, frame_enc())),
        chunk_at(data, pos, spec_encode_seq(b, frame_enc())),
        a.len() == b.len(),
    ensures
        a == b,
{
    assert forall|i: int| 0 <= i < a.len() implies a[i] == b[i] by {
        lemma_frames_chunk_index(data, pos, a, i);
        lemma_frames_chunk_index(data, pos, b, i);
        lemma_frame_chunk_unique(data, pos + 17 * i, a[i], b[i]);
    }
    assert(a =~= b);
}

/// Two cluster encodings standing at the same position are the same
/// cluster, and so take the same number of bytes.
proof fn lemma_cluster_chunk_unique(data: Seq<u8>, pos: int, c: ClusterModel, d: ClusterModel)
    requires
        chunk_at(data, pos, spec_encode_cluster(c)),
        chunk_at(data, pos, spec_encode_cluster(d)),
        cluster_model_bounded(c),
        cluster_model_bounded(d),
    ensures
        c == d,
{
    lemma_auto_spec_u64_to_from_le_bytes();
    lemma_cluster_chunk_fields(data, pos, c);
    lemma_cluster_chunk_fields(data, pos, d);
    assert(data.subrange(pos, pos + 1) == spec_encode_bool(c.is_visible));
    assert(data.subrange(pos, pos + 1) == spec_encode_bool(d.is_visible));
    assert(spec_encode_bool(c.is_visible)[0] == spec_encode_bool(d.is_visible)[0]);
    assert(seq![0u8][0] == 0u8);
    assert(seq![1u8][0] == 1u8);
    assert(c.is_visible == d.is_visible);
    assert(data.subrange(pos + 1, pos + 9) == spec_u64_to_le_bytes(c.frames.len() as u64));
    assert(data.subrange(pos + 1, pos + 9) == spec_u64_to_le_bytes(d.frames.len() as u64));
    assert(c.frames.len() as u64 == d.frames.len() as u64);
    assert(c.frames.len() == d.frames.len());
    lemma_frames_chunk_unique(data, pos + 9, c.frames, d.frames);
    assert(c =~= d);
}

/// Two equally long cluster lists encoded at the same position are
/// the same list: each cluster's count field pins where the next one
/// starts.
proof fn lemma_clusters_chunk_unique(
    data: Seq<u8>,
    pos: int,
    a: Seq<ClusterModel>,
    b: Seq<ClusterModel>,
)
    requires
        chunk_at(data, pos, spec_encode_seq(a, cluster_enc())),
        chunk_at(data, pos, spec_encode_seq(b, cluster_enc())),
        a.len() == b.len(),
        forall|i: int| 0 <= i < a.len() ==> cluster_model_bounded(#[trigger] a[i]),
        forall|i: int| 0 <= i < b.len() ==> cluster_model_bounded(#[trigger] b[i]),
    ensures
        a == b,
    decreases a.len(),
{
    if a.len() == 0 {
        assert(a =~= b);
    } else {
        let ea = spec_encode_seq(a, cluster_enc());
        let eb = spec_encode_seq(b, cluster_enc());
        assert(ea == cluster_enc()(a[0]) + spec_encode_seq(a.drop_first(), cluster_enc()));
        assert(eb == cluster_enc()(b[0]) + spec_encode_seq(b.drop_first(), cluster_enc()));
        lemma_chunk_concat(
            data,
            pos,
            spec_encode_cluster(a[0]),
            spec_encode_seq(a.drop_first(), cluster_enc()),
        );
        lemma_chunk_concat(
            data,
            pos,
            spec_encode_cluster(b[0]),
            spec_encode_seq(b.drop_first(), cluster_enc()),
        );
        lemma_cluster_chunk_unique(data, pos, a[0], b[0]);
        lemma_cluster_chunk_fields(data, pos, a[0]);
        lemma_cluster_chunk_fields(data, pos, b[0]);
        assert(spec_encode_cluster(a[0]).len() == spec_encode_cluster(b[0]).len());
        assert forall|i: int| 0 <= i < a.drop_first().len() implies cluster_model_bounded(
            #[trigger] a.drop_first()[i],
        ) by {
            assert(a.drop_first()[i] == a[i + 1]);
        }
        assert forall|i: int| 0 <= i < b.drop_first().len() implies cluster_model_bounded(
            #[trigger] b.drop_first()[i],
        ) by {
            assert(b.drop_first()[i] == b[i + 1]);
        }
        lemma_clusters_chunk_unique(
            data,
            pos + spec_encode_cluster(a[0]).len(),
            a.drop_first(),
            b.drop_first(),
        );
        assert forall|i: int| 0 <= i < a.len() implies a[i] == b[i] by {
            if i > 0 {
                assert(a.drop_first()[i - 1] == a[i]);
                assert(b.drop_first()[i - 1] == b[i]);
            }
        }
        assert(a =~= b);
    }
}

/// Two buffer encodings standing at the same position are the same
/// buffer, and so take the same number of bytes.
proof fn lemma_buffer_chunk_unique(data: Seq<u8>, pos: int, x: BufferModel, y: BufferModel)
    requires
        chunk_at(data, pos, spec_encode_buffer(x)),
        chunk_at(data, pos, spec_encode_buffer(y)),
        buffer_model_bounded(x),
        buffer_model_bounded(y),
    ensures
        x == y,
        spec_encode_buffer(x).len() == spec_encode_buffer(y).len(),
{
    lemma_chunk_concat(
        data,
        pos,
        spec_encode_string(x.content),
        spec_encode_string(x.file_path),
    );
    lemma_chunk_concat(
        data,
        pos,
        spec_encode_string(y.content),
        spec_encode_string(y.file_path),
    );
    lemma_string_chunk_unique(data, pos, x.content, y.content);
    lemma_string_enc_len(x.content);
    lemma_string_enc_len(y.content);
    assert(spec_encode_string(x.content).len() == spec_encode_string(y.content).len());
    lemma_string_chunk_unique(
        data,
        pos + spec_encode_string(x.content).len(),
        x.file_path,
        y.file_path,
    );
    assert(x =~= y);
}

/// Two equally long buffer lists encoded at the same position are the
/// same list: each buffer's length fields pin where the next one
/// starts.
proof fn lemma_buffers_chunk_unique(
    data: Seq<u8>,
    pos: int,
    a: Seq<BufferModel>,
    b: Seq<BufferModel>,
)
    requires
        chunk_at(data, pos, spec_encode_seq(a, buffer_enc())),
        chunk_at(data, pos, spec_encode_seq(b, buffer_enc())),
        a.len() == b.len(),
        forall|i: int| 0 <= i < a.len() ==> buffer_model_bounded(#[trigger] a[i]),
        forall|i: int| 0 <= i < b.len() ==> buffer_model_bounded(#[trigger] b[i]),
    ensures
        a == b,
    decreases a.len(),
{
    if a.len() == 0 {
        assert(a =~= b);
    } else {
        assert(spec_encode_seq(a, buffer_enc()) == buffer_enc()(a[0]) + spec_encode_seq(
            a.drop_first(),
            buffer_enc(),
        ));
        assert(spec_encode_seq(b, buffer_enc()) == buffer_enc()(b[0]) + spec_encode_seq(
            b.drop_first(),
            buffer_enc(),
        ));
        lemma_chunk_concat(
            data,
            pos,
            spec_encode_buffer(a[0]),
            spec_encode_seq(a.drop_first(), buffer_enc()),
        );
        lemma_chunk_concat(
            data,
            pos,
            spec_encode_buffer(b[0]),
            spec_encode_seq(b.drop_first(), buffer_enc()),
        );
        lemma_buffer_chunk_unique(data, pos, a[0], b[0]);
        assert forall|i: int| 0 <= i < a.drop_first().len() implies buffer_model_bounded(
            #[trigger] a.drop_first()[i],
        ) by {
            assert(a.drop_first()[i] == a[i + 1]);
        }
        assert forall|i: int| 0 <= i < b.drop_first().len() implies buffer_model_bounded(
            #[trigger] b.drop_first()[i],
        ) by {
            assert(b.drop_first()[i] == b[i + 1]);
        }
        lemma_buffers_chunk_unique(
            data,
            pos + spec_encode_buffer(a[0]).len(),
            a.drop_first(),
            b.drop_first(),
        );
        assert forall|i: int| 0 <= i < a.len() implies a[i] == b[i] by {
            if i > 0 {
                assert(a.drop_first()[i - 1] == a[i]);
                assert(b.drop_first()[i - 1] == b[i]);
            }
        }
        assert(a =~= b);
    }
}

/// The encoding is injective: two snapshot models that every process
/// could actually hold and that encode to the same bytes are the same
/// model. Decoding persisted bytes therefore recovers the one store
/// they came from.
pub proof fn lemma_snapshot_encoding_injective(a: SnapshotModel, b: SnapshotModel)
    requires
        spec_encode_snapshot(a) == spec_encode_snapshot(b),
        snapshot_model_bounded(a),
        snapshot_model_bounded(b),
    ensures
        a == b,
{
    lemma_auto_spec_u64_to_from_le_bytes();
    let data = spec_encode_snapshot(a);
    lemma_snapshot_chunk_fields(data, a);
    lemma_snapshot_chunk_fields(data, b);
    assert(data.subrange(4, 12) == spec_u64_to_le_bytes(a.clusters.len() as u64));
    assert(data.subrange(4, 12) == spec_u64_to_le_bytes(b.clusters.len() as u64));
    assert(a.clusters.len() == b.clusters.len());
    lemma_clusters_chunk_unique(data, 12, a.clusters, b.clusters);
    let l1 = spec_encode_seq(a.clusters, cluster_enc()).len() as int;
    assert(spec_encode_seq(b.clusters, cluster_enc()).len() == l1);
    assert(data.subrange(12 + l1, 20 + l1) == spec_u64_to_le_bytes(a.buffers.len() as u64));
    assert(data.subrange(12 + l1, 20 + l1) == spec_u64_to_le_bytes(b.buffers.len() as u64));
    assert(a.buffers.len() == b.buffers.len());
    lemma_buffers_chunk_unique(data, 20 + l1, a.buffers, b.buffers);
    assert(a =~= b);
}

} // verus!
