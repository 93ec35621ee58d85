//! The binary transfer wire protocol.
//!
//! Every multi-byte integer is big-endian. A string field is one length
//! byte followed by that many bytes, so no field may exceed 255 bytes.
//! A request is written to the transfer endpoint; the response starts
//! with one status byte: zero is success, followed by the opaque raster
//! payload; non-zero is failure, followed by a length-prefixed error
//! message.

use vstd::prelude::*;

use crate::error::StitchError;

verus! {

/// Largest value a one-byte length field can carry.
pub const MAX_FIELD_LEN: usize = 255;

/// The bytes of a length-prefixed string field.
pub open spec fn spec_write_string(s: Seq<u8>) -> Seq<u8> {
    seq![s.len() as u8] + s
}

/// The string field at `pos`, and the position after it, when the buffer
/// holds one there.
pub open spec fn spec_read_string(b: Seq<u8>, pos: int) -> Option<(Seq<u8>, int)> {
    if 0 <= pos < b.len() && pos + 1 + b[pos] <= b.len() {
        Some((b.subrange(pos + 1, pos + 1 + b[pos]), pos + 1 + b[pos]))
    } else {
        None
    }
}

/// Append one length-prefixed string field to `buf`.
pub fn write_string(value: &Vec<u8>, buf: &mut Vec<u8>)
    requires
        value@.len() <= MAX_FIELD_LEN,
    ensures
        final(buf)@ == old(buf)@ + spec_write_string(value@),
{
    let ghost buf0: Seq<u8> = buf@;
    buf.push(value.len() as u8);
    let mut k: usize = 0;
    while k < value.len()
        invariant
            0 <= k <= value@.len() <= MAX_FIELD_LEN,
            buf@ =~= buf0 + seq![value@.len() as u8] + value@.take(k as int),
        decreases value@.len() - k,
    {
        buf.push(value[k]);
        proof {
            assert(value@.take((k + 1) as int) =~= value@.take(k as int).push(value@[k as int]));
        }
        k = k + 1;
    }
    proof {
        assert(value@.take(value@.len() as int) =~= value@);
        assert(buf@ =~= buf0 + spec_write_string(value@));
    }
}

/// Read the length-prefixed string field at `pos`.
///
/// Returns the field's bytes and the position after it, or
/// `ProtocolViolation` when the buffer is too short to hold the field.
pub fn read_string(buf: &Vec<u8>, pos: usize) -> (r: Result<(Vec<u8>, usize), StitchError>)
    ensures
        match r {
            Ok(p) => spec_read_string(buf@, pos as int) == Some((p.0@, p.1 as int)),
            Err(e) => spec_read_string(buf@, pos as int) is None && e is ProtocolViolation,
        },
{
    if pos >= buf.len() {
        return Err(StitchError::ProtocolViolation);
    }
    let len: usize = buf[pos] as usize;
    if len > buf.len() - (pos + 1) {
        return Err(StitchError::ProtocolViolation);
    }
    let mut s: Vec<u8> = Vec::new();
    let mut k: usize = 0;
    while k < len
        invariant
            0 <= k <= len,
            pos + 1 + len <= buf.len(),
            len == buf@[pos as int],
            s@ =~= buf@.subrange((pos + 1) as int, (pos + 1 + k) as int),
        decreases len - k,
    {
        s.push(buf[pos + 1 + k]);
        proof {
            assert(buf@.subrange((pos + 1) as int, (pos + 1 + k + 1) as int) =~= buf@.subrange(
                (pos + 1) as int,
                (pos + 1 + k) as int,
            ).push(buf@[(pos + 1 + k) as int]));
        }
        k = k + 1;
    }
    Ok((s, pos + 1 + len))
}

/// The eight big-endian bytes of a signed 64-bit value.
pub open spec fn spec_i64_be(t: i64) -> Seq<u8> {
    let u = t as u64;
    seq![
        (u >> 56) as u8,
        (u >> 48) as u8,
        (u >> 40) as u8,
        (u >> 32) as u8,
        (u >> 24) as u8,
        (u >> 16) as u8,
        (u >> 8) as u8,
        u as u8,
    ]
}

/// Append the eight big-endian bytes of `t` to `buf`.
pub fn write_i64_be(buf: &mut Vec<u8>, t: i64)
    ensures
        final(buf)@ == old(buf)@ + spec_i64_be(t),
{
    let ghost buf0: Seq<u8> = buf@;
    let u: u64 = t as u64;
    buf.push((u >> 56) as u8);
    buf.push((u >> 48) as u8);
    buf.push((u >> 40) as u8);
    buf.push((u >> 32) as u8);
    buf.push((u >> 24) as u8);
    buf.push((u >> 16) as u8);
    buf.push((u >> 8) as u8);
    buf.push(u as u8);
    proof {
        assert(buf@ =~= buf0 + spec_i64_be(t));
    }
}

/// The bytes of a single-record fetch request: the read opcode, the
/// record's path as a string field, and the reserved sub-geocode
/// indicator.
pub open spec fn spec_encode_single(path: Seq<u8>) -> Seq<u8> {
    seq![0u8] + spec_write_string(path) + seq![0u8]
}

/// Encode a single-record fetch request, or `None` when the path does
/// not fit a one-byte length field.
pub fn encode_single_request(path: &Vec<u8>) -> (r: Option<Vec<u8>>)
    ensures
        match r {
            Some(b) => path@.len() <= MAX_FIELD_LEN && b@ == spec_encode_single(path@),
            None => path@.len() > MAX_FIELD_LEN,
        },
{
    if path.len() > MAX_FIELD_LEN {
        return None;
    }
    let mut buf: Vec<u8> = Vec::new();
    buf.push(0u8);
    write_string(path, &mut buf);
    buf.push(0u8);
    proof {
        assert(buf@ =~= spec_encode_single(path@));
    }
    Some(buf)
}

/// The fields of a single-record fetch request, when the buffer holds
/// exactly one: opcode, path, sub-geocode indicator.
pub open spec fn spec_decode_single(b: Seq<u8>) -> Option<(u8, Seq<u8>, u8)> {
    if b.len() < 1 {
        None
    } else {
        match spec_read_string(b, 1) {
            Some(p) => {
                if p.1 + 1 == b.len() {
                    Some((b[0], p.0, b[p.1]))
                } else {
                    None
                }
            },
            None => None,
        }
    }
}

/// Decode a single-record fetch request: the opcode, the path, and the
/// sub-geocode indicator. Fails with `ProtocolViolation` unless the
/// buffer holds exactly one request.
pub fn decode_single_request(buf: &Vec<u8>) -> (r: Result<(u8, Vec<u8>, u8), StitchError>)
    ensures
        match r {
            Ok(p) => spec_decode_single(buf@) == Some((p.0, p.1@, p.2)),
            Err(e) => spec_decode_single(buf@) is None && e is ProtocolViolation,
        },
{
    if buf.len() < 1 {
        return Err(StitchError::ProtocolViolation);
    }
    let op: u8 = buf[0];
    let path: Vec<u8>;
    let next: usize;
    match read_string(buf, 1) {
        Ok(p) => {
            path = p.0;
            next = p.1;
        },
        Err(e) => {
            return Err(e);
        },
    }
    if next + 1 != buf.len() {
        return Err(StitchError::ProtocolViolation);
    }
    let sub: u8 = buf[next];
    Ok((op, path, sub))
}

/// Round trip of the single-record request: decoding an encoded request
/// recovers the opcode, the path, and the sub-geocode indicator exactly.
pub proof fn lemma_single_request_roundtrip(path: Seq<u8>)
    requires
        path.len() <= MAX_FIELD_LEN,
    ensures
        spec_decode_single(spec_encode_single(path)) == Some((0u8, path, 0u8)),
{
    let b = spec_encode_single(path);
    assert(b.len() == path.len() + 3);
    assert(b[0] == 0u8);
    assert(b[1] == path.len() as u8);
    assert(b[1] as int == path.len());
    assert(b.subrange(2, 2 + path.len() as int) =~= path);
    assert(b[b.len() - 1] == 0u8);
}

/// Decode a transfer response.
///
/// A zero status byte yields the raster payload that follows; a non-zero
/// status byte yields `RemoteError` with exactly the length-prefixed
/// message that follows; a buffer too short for either shape yields
/// `ProtocolViolation`.
pub fn decode_response(buf: &Vec<u8>) -> (r: Result<Vec<u8>, StitchError>)
    ensures
        match r {
            Ok(payload) => {
                &&& buf@.len() >= 1
                &&& buf@[0] == 0
                &&& payload@ == buf@.subrange(1, buf@.len() as int)
            },
            Err(e) => {
                match e {
                    StitchError::RemoteError(msg) => {
                        &&& buf@.len() >= 1
                        &&& buf@[0] != 0
                        &&& spec_read_string(buf@, 1) matches Some(p) && p.0 == msg@
                    },
                    StitchError::ProtocolViolation => {
                        buf@.len() == 0 || (buf@[0] != 0 && spec_read_string(buf@, 1) is None)
                    },
                    _ => false,
                }
            },
        },
{
    if buf.len() < 1 {
        return Err(StitchError::ProtocolViolation);
    }
    if buf[0] == 0 {
        let mut payload: Vec<u8> = Vec::new();
        let mut k: usize = 1;
        while k < buf.len()
            invariant
                1 <= k <= buf.len(),
                payload@ =~= buf@.subrange(1, k as int),
            decreases buf@.len() - k,
        {
            payload.push(buf[k]);
            proof {
                assert(buf@.subrange(1, (k + 1) as int) =~= buf@.subrange(1, k as int).push(
                    buf@[k as int],
                ));
            }
            k = k + 1;
        }
        Ok(payload)
    } else {
        match read_string(buf, 1) {
            Ok(p) => Err(StitchError::RemoteError(p.0)),
            Err(e) => Err(StitchError::ProtocolViolation),
        }
    }
}

/// One composite fetch: the cell's geocode, the secondary record's
/// timestamp, the primary records' paths, and the secondary record's
/// path.
pub struct CompositeRequest {
    /// Geocode of the cell being fetched.
    pub geocode: Vec<u8>,
    /// Timestamp of the secondary record.
    pub timestamp: i64,
    /// Paths of the primary records, most recent first.
    pub primary_paths: Vec<Vec<u8>>,
    /// Path of the secondary record.
    pub secondary_path: Vec<u8>,
}

/// The mathematical model of a `CompositeRequest`.
pub struct CompositeRequestModel {
    /// Model of `CompositeRequest::geocode`.
    pub geocode: Seq<u8>,
    /// Model of `CompositeRequest::timestamp`.
    pub timestamp: i64,
    /// Models of `CompositeRequest::primary_paths`, in order.
    pub primary_paths: Seq<Seq<u8>>,
    /// Model of `CompositeRequest::secondary_path`.
    pub secondary_path: Seq<u8>,
}

impl View for CompositeRequest {
    type V = CompositeRequestModel;

    open spec fn view(&self) -> CompositeRequestModel {
        CompositeRequestModel {
            geocode: self.geocode@,
            timestamp: self.timestamp,
            primary_paths: self.primary_paths.deep_view(),
            secondary_path: self.secondary_path@,
        }
    }
}

impl DeepView for CompositeRequest {
    type V = CompositeRequestModel;

    open spec fn deep_view(&self) -> CompositeRequestModel {
        self@
    }
}

/// The concatenation of the given string fields.
pub open spec fn spec_write_strings(paths: Seq<Seq<u8>>) -> Seq<u8>
    decreases paths.len(),
{
    if paths.len() == 0 {
        Seq::empty()
    } else {
        spec_write_strings(paths.drop_last()) + spec_write_string(paths.last())
    }
}

/// Whether every field of a composite fetch fits its one-byte length.
pub open spec fn spec_composite_ok(c: CompositeRequestModel) -> bool {
    &&& c.geocode.len() <= MAX_FIELD_LEN
    &&& c.primary_paths.len() <= MAX_FIELD_LEN
    &&& forall|i: int| 0 <= i < c.primary_paths.len() ==> #[trigger] c.primary_paths[i].len() <= MAX_FIELD_LEN
    &&& c.secondary_path.len() <= MAX_FIELD_LEN
}

/// The bytes of a composite fetch request body.
pub open spec fn spec_encode_composite(c: CompositeRequestModel) -> Seq<u8> {
    spec_write_string(c.geocode) + spec_i64_be(c.timestamp) + seq![c.primary_paths.len() as u8]
        + spec_write_strings(c.primary_paths) + spec_write_string(c.secondary_path)
}

/// Encode one composite fetch request, or `None` when a field does not
/// fit its one-byte length.
pub fn encode_composite_request(c: &CompositeRequest) -> (r: Option<Vec<u8>>)
    ensures
        match r {
            Some(b) => spec_composite_ok(c@) && b@ == spec_encode_composite(c@),
            None => !spec_composite_ok(c@),
        },
{
    if c.geocode.len() > MAX_FIELD_LEN {
        return None;
    }
    if c.primary_paths.len() > MAX_FIELD_LEN {
        return None;
    }
    if c.secondary_path.len() > MAX_FIELD_LEN {
        return None;
    }
    let mut k: usize = 0;
    while k < c.primary_paths.len()
        invariant
            0 <= k <= c.primary_paths@.len(),
            forall|i: int| 0 <= i < k ==> #[trigger] c.primary_paths.deep_view()[i].len() <= MAX_FIELD_LEN,
        decreases c.primary_paths@.len() - k,
    {
        proof {
            assert(c.primary_paths.deep_view()[k as int] == c.primary_paths@[k as int]@);
        }
        if c.primary_paths[k].len() > MAX_FIELD_LEN {
            proof {
                assert(!spec_composite_ok(c@)) by {
                    assert(c@.primary_paths[k as int].len() > MAX_FIELD_LEN);
                }
            }
            return None;
        }
        k = k + 1;
    }
    let mut buf: Vec<u8> = Vec::new();
    write_string(&c.geocode, &mut buf);
    write_i64_be(&mut buf, c.timestamp);
    buf.push(c.primary_paths.len() as u8);
    let ghost head: Seq<u8> = spec_write_string(c@.geocode) + spec_i64_be(c@.timestamp) + seq![
        c@.primary_paths.len() as u8,
    ];
    proof {
        assert(buf@ =~= head + spec_write_strings(c@.primary_paths.take(0)));
    }
    let mut k: usize = 0;
    while k < c.primary_paths.len()
        invariant
            0 <= k <= c.primary_paths@.len(),
            forall|i: int| 0 <= i < c.primary_paths@.len() ==> #[trigger] c.primary_paths.deep_view()[i].len()
                <= MAX_FIELD_LEN,
            buf@ == head + spec_write_strings(c@.primary_paths.take(k as int)),
        decreases c.primary_paths@.len() - k,
    {
        proof {
            assert(c.primary_paths.deep_view()[k as int] == c.primary_paths@[k as int]@);
        }
        write_string(&c.primary_paths[k], &mut buf);
        proof {
            assert(c@.primary_paths.take((k + 1) as int).drop_last() =~= c@.primary_paths.take(k as int));
            assert(c@.primary_paths.take((k + 1) as int).last() == c@.primary_paths[k as int]);
        }
        k = k + 1;
    }
    proof {
        assert(c@.primary_paths.take(c@.primary_paths.len() as int) =~= c@.primary_paths);
    }
    write_string(&c.secondary_path, &mut buf);
    proof {
        assert(buf@ =~= spec_encode_composite(c@));
    }
    Some(buf)
}

/// The concatenation of the bodies of the given composite fetches.
pub open spec fn spec_encode_bodies(items: Seq<CompositeRequestModel>) -> Seq<u8>
    decreases items.len(),
{
    if items.len() == 0 {
        Seq::empty()
    } else {
        spec_encode_bodies(items.drop_last()) + spec_encode_composite(items.last())
    }
}

/// The bytes of a batch composite request: the batch size, then the
/// bodies back to back. The responses come back as that many sequential
/// payloads after one combined status check.
pub open spec fn spec_encode_batch(items: Seq<CompositeRequestModel>) -> Seq<u8> {
    seq![items.len() as u8] + spec_encode_bodies(items)
}

/// Encode a batch composite request, or `None` when the batch or one of
/// its fields does not fit a one-byte length.
pub fn encode_batch_request(items: &Vec<CompositeRequest>) -> (r: Option<Vec<u8>>)
    ensures
        match r {
            Some(b) => {
                &&& items.deep_view().len() <= MAX_FIELD_LEN
                &&& forall|i: int| 0 <= i < items.deep_view().len() ==> spec_composite_ok(
                    #[trigger] items.deep_view()[i],
                )
                &&& b@ == spec_encode_batch(items.deep_view())
            },
            None => items.deep_view().len() > MAX_FIELD_LEN || exists|i: int|
                0 <= i < items.deep_view().len() && !spec_composite_ok(#[trigger] items.deep_view()[i]),
        },
{
    if items.len() > MAX_FIELD_LEN {
        return None;
    }
    let mut buf: Vec<u8> = Vec::new();
    buf.push(items.len() as u8);
    proof {
        assert(buf@ =~= seq![items.deep_view().len() as u8] + spec_encode_bodies(
            items.deep_view().take(0),
        ));
    }
    let mut k: usize = 0;
    while k < items.len()
        invariant
            0 <= k <= items@.len(),
            items@.len() <= MAX_FIELD_LEN,
            forall|i: int| 0 <= i < k ==> spec_composite_ok(#[trigger] items.deep_view()[i]),
            buf@ == seq![items.deep_view().len() as u8] + spec_encode_bodies(
                items.deep_view().take(k as int),
            ),
        decreases items@.len() - k,
    {
        proof {
            assert(items.deep_view()[k as int] == items@[k as int]@);
        }
        match encode_composite_request(&items[k]) {
            Some(mut body) => {
                buf.append(&mut body);
            },
            None => {
                proof {
                    assert(0 <= k < items.deep_view().len() && !spec_composite_ok(
                        items.deep_view()[k as int],
                    ));
                }
                return None;
            },
        }
        proof {
            assert(items.deep_view().take((k + 1) as int).drop_last() =~= items.deep_view().take(
                k as int,
            ));
            assert(items.deep_view().take((k + 1) as int).last() == items.deep_view()[k as int]);
        }
        k = k + 1;
    }
    proof {
        assert(items.deep_view().take(items.deep_view().len() as int) =~= items.deep_view());
    }
    Some(buf)
}

} // verus!
