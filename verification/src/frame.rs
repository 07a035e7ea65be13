//! Binary frames: a request id in four little-endian bytes, then chunk bytes.
//!
//! A tab answers a pull with one such frame.

use bytes::Bytes;
use vstd::prelude::*;

verus! {

/// Bytes of the request id at the head of a frame.
pub const HEADER: usize = 4;

/// `bytes::Bytes`, a shared, immutable run of bytes.
#[verifier::external_type_specification]
#[verifier::external_body]
pub struct ExBytes(bytes::Bytes);

/// The bytes that a `Bytes` holds.
pub uninterp spec fn contents(b: Bytes) -> Seq<u8>;

/// `Bytes` dereferenced to a slice: the slice has the bytes that the value holds.
#[verifier::external_body]
pub(crate) fn bytes_as_slice(b: &Bytes) -> (r: &[u8])
    ensures
        r@ == contents(*b),
{
    b
}

/// `Bytes::slice` with a range that is open at its end: the result holds the
/// bytes from position `at` on. The call panics where `at` lies past the end,
/// which `requires` rules out.
#[verifier::external_body]
pub(crate) fn bytes_from(b: &Bytes, at: usize) -> (r: Bytes)
    requires
        at <= contents(*b).len(),
    ensures
        contents(r) == contents(*b).skip(at as int),
{
    b.slice(at..)
}

/// The four bytes of `r`, least significant first.
pub open spec fn id_bytes(r: u32) -> Seq<u8> {
    seq![
        (r % 256) as u8,
        (r / 256 % 256) as u8,
        (r / 65536 % 256) as u8,
        (r / 16777216) as u8,
    ]
}

/// The frame that answers request `r` with `data`.
pub open spec fn frame_bytes(r: u32, data: Seq<u8>) -> Seq<u8> {
    id_bytes(r) + data
}

/// The request id that a frame names.
pub open spec fn frame_id(f: Seq<u8>) -> u32 {
    (f[0] + 256 * f[1] + 65536 * f[2] + 16777216 * f[3]) as u32
}

/// The chunk that a frame carries.
pub open spec fn frame_data(f: Seq<u8>) -> Seq<u8> {
    f.skip(HEADER as int)
}

/// Builds the frame that answers request `r` with `data`.
pub fn encode_frame(r: u32, data: &Vec<u8>) -> (f: Vec<u8>)
    ensures
        f@ == frame_bytes(r, data@),
{
    let mut f: Vec<u8> = Vec::new();
    f.push((r % 256) as u8);
    f.push((r / 256 % 256) as u8);
    f.push((r / 65536 % 256) as u8);
    f.push((r / 16777216) as u8);
    assert(f@ =~= id_bytes(r));
    let mut i: usize = 0;
    while i < data.len()
        invariant
            i <= data@.len(),
            f@ == id_bytes(r) + data@.take(i as int),
        decreases data@.len() - i,
    {
        f.push(data[i]);
        i = i + 1;
        assert(data@.take(i as int) =~= data@.take(i - 1).push(data@[i - 1]));
    }
    assert(data@.take(data@.len() as int) =~= data@);
    f
}

/// Takes a frame apart: the request id and the chunk, or nothing where the
/// frame is too short to hold an id.
pub fn decode_frame(f: &Bytes) -> (r: Option<(u32, Bytes)>)
    ensures
        match r {
            Some((id, data)) => {
                &&& contents(*f).len() >= HEADER
                &&& id == frame_id(contents(*f))
                &&& contents(data) == frame_data(contents(*f))
            },
            None => contents(*f).len() < HEADER,
        },
{
    let head: &[u8] = bytes_as_slice(f);
    if head.len() < HEADER {
        return None;
    }
    let id: u32 = head[0] as u32 + 256 * head[1] as u32 + 65536 * head[2] as u32 + 16777216
        * head[3] as u32;
    Some((id, bytes_from(f, HEADER)))
}

/// Law: a frame gives back the request id and the chunk that it was built from.
pub proof fn law_frame_round_trip(r: u32, data: Seq<u8>)
    ensures
        frame_bytes(r, data).len() >= HEADER,
        frame_id(frame_bytes(r, data)) == r,
        frame_data(frame_bytes(r, data)) == data,
{
    let f = frame_bytes(r, data);
    assert(f[0] == (r % 256) as u8);
    assert(f[1] == (r / 256 % 256) as u8);
    assert(f[2] == (r / 65536 % 256) as u8);
    assert(f[3] == (r / 16777216) as u8);
    assert(frame_data(f) =~= data);
}

/// Law: a frame begins with its request id, the least significant byte first,
/// and the chunk follows; any four bytes are read as the id that they make up.
pub proof fn law_frames_are_little_endian(r: u32, data: Seq<u8>, f: Seq<u8>)
    requires
        f.len() >= 4,
    ensures
        frame_bytes(r, data).len() == data.len() + 4,
        frame_bytes(r, data)[0] + 256 * frame_bytes(r, data)[1] + 65536 * frame_bytes(r, data)[2]
            + 16777216 * frame_bytes(r, data)[3] == r,
        frame_bytes(r, data).skip(4) == data,
        frame_id(f) == f[0] + 256 * f[1] + 65536 * f[2] + 16777216 * f[3],
        frame_data(f) == f.skip(4),
{
    law_frame_round_trip(r, data);
}

} // verus!
