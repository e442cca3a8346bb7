//! The wire codec: framing and parsing of typed messages on a byte stream.
//!
//! Each frame is a `u32` little-endian length followed by the payload
//! bytes. The payload starts with a tag byte discriminating the variant;
//! integers are fixed-width little-endian, and variable-length fields
//! carry their own `u32` length prefix.
//!
//! [`encode`] and [`decode`] are exact inverses: `decode` accepts a byte
//! string if and only if it is the encoding of a well-formed payload, and
//! [`lemma_encode_injective`] shows that such a payload is unique.

use vstd::prelude::*;

use crate::errors::CodecError;
use crate::message::{
    bytes_view, hashes_view, BlockHeaderHash, Payload, PayloadModel, PeerAddress, Verack, Version,
};
use crate::MAX_MESSAGE_SIZE;

verus! {

// ---------------------------------------------------------------------
// Little-endian byte strings of fixed-width integers.
// ---------------------------------------------------------------------

/// The two little-endian bytes of a `u16`.
pub open spec fn u16_le(x: u16) -> Seq<u8> {
    seq![(x & 0xff) as u8, ((x >> 8) & 0xff) as u8]
}

/// The four little-endian bytes of a `u32`.
pub open spec fn u32_le(x: u32) -> Seq<u8> {
    seq![
        (x & 0xff) as u8,
        ((x >> 8) & 0xff) as u8,
        ((x >> 16) & 0xff) as u8,
        ((x >> 24) & 0xff) as u8,
    ]
}

/// The eight little-endian bytes of a `u64`.
pub open spec fn u64_le(x: u64) -> Seq<u8> {
    seq![
        (x & 0xff) as u8,
        ((x >> 8) & 0xff) as u8,
        ((x >> 16) & 0xff) as u8,
        ((x >> 24) & 0xff) as u8,
        ((x >> 32) & 0xff) as u8,
        ((x >> 40) & 0xff) as u8,
        ((x >> 48) & 0xff) as u8,
        ((x >> 56) & 0xff) as u8,
    ]
}

/// The sixteen little-endian bytes of a `u128`.
pub open spec fn u128_le(x: u128) -> Seq<u8> {
    seq![
        (x & 0xff) as u8,
        ((x >> 8) & 0xff) as u8,
        ((x >> 16) & 0xff) as u8,
        ((x >> 24) & 0xff) as u8,
        ((x >> 32) & 0xff) as u8,
        ((x >> 40) & 0xff) as u8,
        ((x >> 48) & 0xff) as u8,
        ((x >> 56) & 0xff) as u8,
        ((x >> 64) & 0xff) as u8,
        ((x >> 72) & 0xff) as u8,
        ((x >> 80) & 0xff) as u8,
        ((x >> 88) & 0xff) as u8,
        ((x >> 96) & 0xff) as u8,
        ((x >> 104) & 0xff) as u8,
        ((x >> 112) & 0xff) as u8,
        ((x >> 120) & 0xff) as u8,
    ]
}

/// Distinct `u16` values have distinct little-endian bytes.
pub proof fn lemma_u16_le_injective(x: u16, y: u16)
    requires
        u16_le(x) == u16_le(y),
    ensures
        x == y,
{
    assert(u16_le(x)[0] == u16_le(y)[0]);
    assert(u16_le(x)[1] == u16_le(y)[1]);
    assert((((x & 0xff) as u8) == ((y & 0xff) as u8) && ((((x >> 8) & 0xff) as u8) == (((y >> 8)
        & 0xff) as u8))) ==> x == y) by (bit_vector);
}

/// Distinct `u32` values have distinct little-endian bytes.
pub proof fn lemma_u32_le_injective(x: u32, y: u32)
    requires
        u32_le(x) == u32_le(y),
    ensures
        x == y,
{
    assert(forall|i: int| 0 <= i < 4 ==> u32_le(x)[i] == u32_le(y)[i]);
    assert((((x & 0xff) as u8) == ((y & 0xff) as u8) && (((x >> 8) & 0xff) as u8) == (((y >> 8)
        & 0xff) as u8) && (((x >> 16) & 0xff) as u8) == (((y >> 16) & 0xff) as u8) && (((x >> 24)
        & 0xff) as u8) == (((y >> 24) & 0xff) as u8)) ==> x == y) by (bit_vector);
}

/// Distinct `u64` values have distinct little-endian bytes.
pub proof fn lemma_u64_le_injective(x: u64, y: u64)
    requires
        u64_le(x) == u64_le(y),
    ensures
        x == y,
{
    assert(forall|i: int| 0 <= i < 8 ==> u64_le(x)[i] == u64_le(y)[i]);
    assert((((x & 0xff) as u8) == ((y & 0xff) as u8) && (((x >> 8) & 0xff) as u8) == (((y >> 8)
        & 0xff) as u8) && (((x >> 16) & 0xff) as u8) == (((y >> 16) & 0xff) as u8) && (((x >> 24)
        & 0xff) as u8) == (((y >> 24) & 0xff) as u8) && (((x >> 32) & 0xff) as u8) == (((y >> 32)
        & 0xff) as u8) && (((x >> 40) & 0xff) as u8) == (((y >> 40) & 0xff) as u8) && (((x >> 48)
        & 0xff) as u8) == (((y >> 48) & 0xff) as u8) && (((x >> 56) & 0xff) as u8) == (((y >> 56)
        & 0xff) as u8)) ==> x == y) by (bit_vector);
}

/// Distinct `u128` values have distinct little-endian bytes.
pub proof fn lemma_u128_le_injective(x: u128, y: u128)
    requires
        u128_le(x) == u128_le(y),
    ensures
        x == y,
{
    assert(forall|i: int| 0 <= i < 16 ==> u128_le(x)[i] == u128_le(y)[i]);
    assert((((x & 0xff) as u8) == ((y & 0xff) as u8) && (((x >> 8) & 0xff) as u8) == (((y >> 8)
        & 0xff) as u8) && (((x >> 16) & 0xff) as u8) == (((y >> 16) & 0xff) as u8) && (((x >> 24)
        & 0xff) as u8) == (((y >> 24) & 0xff) as u8) && (((x >> 32) & 0xff) as u8) == (((y >> 32)
        & 0xff) as u8) && (((x >> 40) & 0xff) as u8) == (((y >> 40) & 0xff) as u8) && (((x >> 48)
        & 0xff) as u8) == (((y >> 48) & 0xff) as u8) && (((x >> 56) & 0xff) as u8) == (((y >> 56)
        & 0xff) as u8) && (((x >> 64) & 0xff) as u8) == (((y >> 64) & 0xff) as u8) && (((x >> 72)
        & 0xff) as u8) == (((y >> 72) & 0xff) as u8) && (((x >> 80) & 0xff) as u8) == (((y >> 80)
        & 0xff) as u8) && (((x >> 88) & 0xff) as u8) == (((y >> 88) & 0xff) as u8) && (((x >> 96)
        & 0xff) as u8) == (((y >> 96) & 0xff) as u8) && (((x >> 104) & 0xff) as u8) == (((y >> 104)
        & 0xff) as u8) && (((x >> 112) & 0xff) as u8) == (((y >> 112) & 0xff) as u8) && (((x
        >> 120) & 0xff) as u8) == (((y >> 120) & 0xff) as u8)) ==> x == y) by (bit_vector);
}

/// Appends the two little-endian bytes of `x`.
pub fn write_u16_le(out: &mut Vec<u8>, x: u16)
    ensures
        final(out)@ == old(out)@ + u16_le(x),
{
    out.push((x & 0xff) as u8);
    out.push(((x >> 8) & 0xff) as u8);
    proof {
        assert(out@ =~= old(out)@ + u16_le(x));
    }
}

/// Appends the four little-endian bytes of `x`.
pub fn write_u32_le(out: &mut Vec<u8>, x: u32)
    ensures
        final(out)@ == old(out)@ + u32_le(x),
{
    out.push((x & 0xff) as u8);
    out.push(((x >> 8) & 0xff) as u8);
    out.push(((x >> 16) & 0xff) as u8);
    out.push(((x >> 24) & 0xff) as u8);
    proof {
        assert(out@ =~= old(out)@ + u32_le(x));
    }
}

/// Appends the eight little-endian bytes of `x`.
pub fn write_u64_le(out: &mut Vec<u8>, x: u64)
    ensures
        final(out)@ == old(out)@ + u64_le(x),
{
    out.push((x & 0xff) as u8);
    out.push(((x >> 8) & 0xff) as u8);
    out.push(((x >> 16) & 0xff) as u8);
    out.push(((x >> 24) & 0xff) as u8);
    out.push(((x >> 32) & 0xff) as u8);
    out.push(((x >> 40) & 0xff) as u8);
    out.push(((x >> 48) & 0xff) as u8);
    out.push(((x >> 56) & 0xff) as u8);
    proof {
        assert(out@ =~= old(out)@ + u64_le(x));
    }
}

/// Appends the sixteen little-endian bytes of `x`.
pub fn write_u128_le(out: &mut Vec<u8>, x: u128)
    ensures
        final(out)@ == old(out)@ + u128_le(x),
{
    out.push((x & 0xff) as u8);
    out.push(((x >> 8) & 0xff) as u8);
    out.push(((x >> 16) & 0xff) as u8);
    out.push(((x >> 24) & 0xff) as u8);
    out.push(((x >> 32) & 0xff) as u8);
    out.push(((x >> 40) & 0xff) as u8);
    out.push(((x >> 48) & 0xff) as u8);
    out.push(((x >> 56) & 0xff) as u8);
    out.push(((x >> 64) & 0xff) as u8);
    out.push(((x >> 72) & 0xff) as u8);
    out.push(((x >> 80) & 0xff) as u8);
    out.push(((x >> 88) & 0xff) as u8);
    out.push(((x >> 96) & 0xff) as u8);
    out.push(((x >> 104) & 0xff) as u8);
    out.push(((x >> 112) & 0xff) as u8);
    out.push(((x >> 120) & 0xff) as u8);
    proof {
        assert(out@ =~= old(out)@ + u128_le(x));
    }
}

/// Reads the `u16` whose little-endian bytes stand at `pos`.
pub fn read_u16_le(b: &Vec<u8>, pos: usize) -> (x: u16)
    requires
        pos + 2 <= b@.len(),
    ensures
        u16_le(x) == b@.subrange(pos as int, pos as int + 2),
{
    let _n = b.len();
    let b0 = b[pos];
    let b1 = b[pos + 1];
    let x: u16 = (b0 as u16) | ((b1 as u16) << 8);
    proof {
        let v0 = b0 as u16;
        let v1 = b1 as u16;
        assert(v0 < 256 && v1 < 256 && x == (v0 | (v1 << 8)) ==> ((x & 0xff) == v0 && ((x >> 8)
            & 0xff) == v1)) by (bit_vector);
        assert(u16_le(x) =~= b@.subrange(pos as int, pos as int + 2));
    }
    x
}

/// Reads the `u32` whose little-endian bytes stand at `pos`.
pub fn read_u32_le(b: &Vec<u8>, pos: usize) -> (x: u32)
    requires
        pos + 4 <= b@.len(),
    ensures
        u32_le(x) == b@.subrange(pos as int, pos as int + 4),
{
    let _n = b.len();
    let b0 = b[pos];
    let b1 = b[pos + 1];
    let b2 = b[pos + 2];
    let b3 = b[pos + 3];
    let x: u32 = (b0 as u32) | ((b1 as u32) << 8) | ((b2 as u32) << 16) | ((b3 as u32) << 24);
    proof {
        let v0 = b0 as u32;
        let v1 = b1 as u32;
        let v2 = b2 as u32;
        let v3 = b3 as u32;
        assert(v0 < 256 && v1 < 256 && v2 < 256 && v3 < 256 && x == (v0 | (v1 << 8) | (v2 << 16) | (
        v3 << 24)) ==> ((x & 0xff) == v0 && ((x >> 8) & 0xff) == v1 && ((x >> 16) & 0xff) == v2 && (
        (x >> 24) & 0xff) == v3)) by (bit_vector);
        assert(u32_le(x) =~= b@.subrange(pos as int, pos as int + 4));
    }
    x
}

/// Reads the `u64` whose little-endian bytes stand at `pos`.
pub fn read_u64_le(b: &Vec<u8>, pos: usize) -> (x: u64)
    requires
        pos + 8 <= b@.len(),
    ensures
        u64_le(x) == b@.subrange(pos as int, pos as int + 8),
{
    let _n = b.len();
    let b0 = b[pos];
    let b1 = b[pos + 1];
    let b2 = b[pos + 2];
    let b3 = b[pos + 3];
    let b4 = b[pos + 4];
    let b5 = b[pos + 5];
    let b6 = b[pos + 6];
    let b7 = b[pos + 7];
    let x: u64 = (b0 as u64) | ((b1 as u64) << 8) | ((b2 as u64) << 16) | ((b3 as u64) << 24) | ((
    b4 as u64) << 32) | ((b5 as u64) << 40) | ((b6 as u64) << 48) | ((b7 as u64) << 56);
    proof {
        let v0 = b0 as u64;
        let v1 = b1 as u64;
        let v2 = b2 as u64;
        let v3 = b3 as u64;
        let v4 = b4 as u64;
        let v5 = b5 as u64;
        let v6 = b6 as u64;
        let v7 = b7 as u64;
        assert(v0 < 256 && v1 < 256 && v2 < 256 && v3 < 256 && v4 < 256 && v5 < 256 && v6 < 256
            && v7 < 256 && x == (v0 | (v1 << 8) | (v2 << 16) | (v3 << 24) | (v4 << 32) | (v5 << 40)
            | (v6 << 48) | (v7 << 56)) ==> ((x & 0xff) == v0 && ((x >> 8) & 0xff) == v1 && ((x
            >> 16) & 0xff) == v2 && ((x >> 24) & 0xff) == v3 && ((x >> 32) & 0xff) == v4 && ((x
            >> 40) & 0xff) == v5 && ((x >> 48) & 0xff) == v6 && ((x >> 56) & 0xff) == v7))
            by (bit_vector);
        assert(u64_le(x) =~= b@.subrange(pos as int, pos as int + 8));
    }
    x
}

/// Reads the `u128` whose little-endian bytes stand at `pos`.
pub fn read_u128_le(b: &Vec<u8>, pos: usize) -> (x: u128)
    requires
        pos + 16 <= b@.len(),
    ensures
        u128_le(x) == b@.subrange(pos as int, pos as int + 16),
{
    let _n = b.len();
    let b0 = b[pos];
    let b1 = b[pos + 1];
    let b2 = b[pos + 2];
    let b3 = b[pos + 3];
    let b4 = b[pos + 4];
    let b5 = b[pos + 5];
    let b6 = b[pos + 6];
    let b7 = b[pos + 7];
    let b8 = b[pos + 8];
    let b9 = b[pos + 9];
    let b10 = b[pos + 10];
    let b11 = b[pos + 11];
    let b12 = b[pos + 12];
    let b13 = b[pos + 13];
    let b14 = b[pos + 14];
    let b15 = b[pos + 15];
    let x: u128 = (b0 as u128) | ((b1 as u128) << 8) | ((b2 as u128) << 16) | ((b3 as u128) << 24)
        | ((b4 as u128) << 32) | ((b5 as u128) << 40) | ((b6 as u128) << 48) | ((b7 as u128) << 56)
        | ((b8 as u128) << 64) | ((b9 as u128) << 72) | ((b10 as u128) << 80) | ((b11 as u128)
        << 88) | ((b12 as u128) << 96) | ((b13 as u128) << 104) | ((b14 as u128) << 112) | ((
    b15 as u128) << 120);
    proof {
        let v0 = b0 as u128;
        let v1 = b1 as u128;
        let v2 = b2 as u128;
        let v3 = b3 as u128;
        let v4 = b4 as u128;
        let v5 = b5 as u128;
        let v6 = b6 as u128;
        let v7 = b7 as u128;
        let v8 = b8 as u128;
        let v9 = b9 as u128;
        let v10 = b10 as u128;
        let v11 = b11 as u128;
        let v12 = b12 as u128;
        let v13 = b13 as u128;
        let v14 = b14 as u128;
        let v15 = b15 as u128;
        assert(v0 < 256 && v1 < 256 && v2 < 256 && v3 < 256 && v4 < 256 && v5 < 256 && v6 < 256
            && v7 < 256 && v8 < 256 && v9 < 256 && v10 < 256 && v11 < 256 && v12 < 256 && v13 < 256
            && v14 < 256 && v15 < 256 && x == (v0 | (v1 << 8) | (v2 << 16) | (v3 << 24) | (v4
            << 32) | (v5 << 40) | (v6 << 48) | (v7 << 56) | (v8 << 64) | (v9 << 72) | (v10 << 80)
            | (v11 << 88) | (v12 << 96) | (v13 << 104) | (v14 << 112) | (v15 << 120)) ==> ((x
            & 0xff) == v0 && ((x >> 8) & 0xff) == v1 && ((x >> 16) & 0xff) == v2 && ((x >> 24)
            & 0xff) == v3 && ((x >> 32) & 0xff) == v4 && ((x >> 40) & 0xff) == v5 && ((x >> 48)
            & 0xff) == v6 && ((x >> 56) & 0xff) == v7 && ((x >> 64) & 0xff) == v8 && ((x >> 72)
            & 0xff) == v9 && ((x >> 80) & 0xff) == v10 && ((x >> 88) & 0xff) == v11 && ((x >> 96)
            & 0xff) == v12 && ((x >> 104) & 0xff) == v13 && ((x >> 112) & 0xff) == v14 && ((x
            >> 120) & 0xff) == v15)) by (bit_vector);
        assert(u128_le(x) =~= b@.subrange(pos as int, pos as int + 16));
    }
    x
}

// ---------------------------------------------------------------------
// The byte string of each payload.
// ---------------------------------------------------------------------

/// A byte string with its `u32` little-endian length in front.
pub open spec fn lp_bytes(b: Seq<u8>) -> Seq<u8> {
    u32_le(b.len() as u32) + b
}

/// The concatenation of a sequence of byte strings.
pub open spec fn cat_chunks(items: Seq<Seq<u8>>) -> Seq<u8>
    decreases items.len(),
{
    if items.len() == 0 {
        Seq::empty()
    } else {
        cat_chunks(items.drop_last()) + items.last()
    }
}

/// The concatenation of a sequence of byte strings, each with its length
/// in front.
pub open spec fn cat_lp(items: Seq<Seq<u8>>) -> Seq<u8>
    decreases items.len(),
{
    if items.len() == 0 {
        Seq::empty()
    } else {
        cat_lp(items.drop_last()) + lp_bytes(items.last())
    }
}

/// The eighteen bytes of one address on the wire: the packed IP bytes,
/// then the port.
pub open spec fn addr_bytes(a: PeerAddress) -> Seq<u8> {
    u128_le(a.ip) + u16_le(a.port)
}

/// The concatenation of a sequence of addresses on the wire.
pub open spec fn cat_addrs(items: Seq<PeerAddress>) -> Seq<u8>
    decreases items.len(),
{
    if items.len() == 0 {
        Seq::empty()
    } else {
        cat_addrs(items.drop_last()) + addr_bytes(items.last())
    }
}

/// The tag byte that discriminates each payload variant.
pub open spec fn tag_of(m: PayloadModel) -> u8 {
    match m {
        PayloadModel::Block(_) => 0,
        PayloadModel::GetBlocks(_) => 1,
        PayloadModel::GetMemoryPool => 2,
        PayloadModel::GetPeers => 3,
        PayloadModel::GetSync(_) => 4,
        PayloadModel::MemoryPool(_) => 5,
        PayloadModel::Ping(_) => 6,
        PayloadModel::Pong => 7,
        PayloadModel::Sync(_) => 8,
        PayloadModel::SyncBlock(_) => 9,
        PayloadModel::Transaction(_) => 10,
        PayloadModel::Verack(_) => 11,
        PayloadModel::Version(_) => 12,
        PayloadModel::Peers(_) => 13,
    }
}

/// The bytes of a handshake greeting.
pub open spec fn version_bytes(v: Version) -> Seq<u8> {
    u64_le(v.version) + u16_le(v.listener_port) + u32_le(v.height) + u64_le(v.nonce)
}

/// The bytes of a payload after its tag byte.
pub open spec fn body_bytes(m: PayloadModel) -> Seq<u8> {
    match m {
        PayloadModel::Block(b) => lp_bytes(b),
        PayloadModel::GetBlocks(hs) => u32_le(hs.len() as u32) + cat_chunks(hs),
        PayloadModel::GetMemoryPool => Seq::empty(),
        PayloadModel::GetPeers => Seq::empty(),
        PayloadModel::GetSync(hs) => u32_le(hs.len() as u32) + cat_chunks(hs),
        PayloadModel::MemoryPool(txs) => u32_le(txs.len() as u32) + cat_lp(txs),
        PayloadModel::Ping(h) => u32_le(h),
        PayloadModel::Pong => Seq::empty(),
        PayloadModel::Sync(hs) => u32_le(hs.len() as u32) + cat_chunks(hs),
        PayloadModel::SyncBlock(b) => lp_bytes(b),
        PayloadModel::Transaction(b) => lp_bytes(b),
        PayloadModel::Verack(v) => u64_le(v.nonce),
        PayloadModel::Version(v) => version_bytes(v),
        PayloadModel::Peers(ps) => u32_le(ps.len() as u32) + cat_addrs(ps),
    }
}

/// The full byte string of a payload: the tag, then the body.
pub open spec fn spec_encode(m: PayloadModel) -> Seq<u8> {
    seq![tag_of(m)] + body_bytes(m)
}

/// Whether every hash in the sequence holds exactly 32 bytes.
pub open spec fn all_hashes_32(hs: Seq<Seq<u8>>) -> bool {
    forall|i: int| 0 <= i < hs.len() ==> (#[trigger] hs[i]).len() == 32
}

/// Whether a payload is well formed and small enough to be framed: hashes
/// have their fixed width, and the encoding fits under the per-message
/// cap.
pub open spec fn valid_payload(m: PayloadModel) -> bool {
    &&& spec_encode(m).len() <= MAX_MESSAGE_SIZE
    &&& match m {
        PayloadModel::GetBlocks(hs) => all_hashes_32(hs),
        PayloadModel::GetSync(hs) => all_hashes_32(hs),
        PayloadModel::Sync(hs) => all_hashes_32(hs),
        _ => true,
    }
}

// ---------------------------------------------------------------------
// Facts about the concatenation helpers.
// ---------------------------------------------------------------------

/// Splitting equal concatenations at the same offset gives equal parts.
pub proof fn lemma_seq_cancel(a: Seq<u8>, b: Seq<u8>, c: Seq<u8>, d: Seq<u8>)
    requires
        a + b == c + d,
        a.len() == c.len(),
    ensures
        a == c,
        b == d,
{
    assert((a + b).len() == (c + d).len());
    assert forall|i: int| 0 <= i < a.len() implies a[i] == c[i] by {
        assert((a + b)[i] == a[i]);
        assert((c + d)[i] == c[i]);
    }
    assert(a =~= c);
    assert((a + b).len() == a.len() + b.len());
    assert((c + d).len() == c.len() + d.len());
    assert(b.len() == d.len());
    assert forall|i: int| 0 <= i < b.len() implies b[i] == d[i] by {
        let j = a.len() + i;
        assert((a + b)[j] == b[i]);
        assert((a + b)[j] == (c + d)[j]);
        assert((c + d)[j] == d[i]);
    }
    assert(b =~= d);
}

/// The concatenation of fixed-width hashes has width 32 each.
pub proof fn lemma_cat_chunks_len(hs: Seq<Seq<u8>>)
    requires
        all_hashes_32(hs),
    ensures
        cat_chunks(hs).len() == 32 * hs.len(),
    decreases hs.len(),
{
    if hs.len() > 0 {
        assert(all_hashes_32(hs.drop_last()));
        lemma_cat_chunks_len(hs.drop_last());
    }
}

/// The concatenation of addresses is eighteen bytes each.
pub proof fn lemma_cat_addrs_len(ps: Seq<PeerAddress>)
    ensures
        cat_addrs(ps).len() == 18 * ps.len(),
    decreases ps.len(),
{
    if ps.len() > 0 {
        lemma_cat_addrs_len(ps.drop_last());
    }
}

/// Each length-prefixed item takes at least its four length bytes.
pub proof fn lemma_cat_lp_len_lower(items: Seq<Seq<u8>>)
    ensures
        cat_lp(items).len() >= 4 * items.len(),
    decreases items.len(),
{
    if items.len() > 0 {
        lemma_cat_lp_len_lower(items.drop_last());
    }
}

/// A non-empty concatenation starts with its first item.
pub proof fn lemma_cat_chunks_first(hs: Seq<Seq<u8>>)
    requires
        hs.len() > 0,
    ensures
        cat_chunks(hs) == hs.first() + cat_chunks(hs.drop_first()),
    decreases hs.len(),
{
    if hs.len() == 1 {
        assert(hs.drop_last().len() == 0);
        assert(hs.drop_first().len() == 0);
        assert(cat_chunks(hs) =~= hs.first() + cat_chunks(hs.drop_first()));
    } else {
        lemma_cat_chunks_first(hs.drop_last());
        assert(hs.drop_last().first() == hs.first());
        assert(hs.drop_last().drop_first() =~= hs.drop_first().drop_last());
        assert(cat_chunks(hs) == cat_chunks(hs.drop_last()) + hs.last());
        assert(cat_chunks(hs) == (hs.first() + cat_chunks(hs.drop_first().drop_last()))
            + hs.last());
        assert(hs.drop_first().last() == hs.last());
        assert((hs.first() + cat_chunks(hs.drop_first().drop_last())) + hs.last() =~= hs.first()
            + (cat_chunks(hs.drop_first().drop_last()) + hs.drop_first().last()));
    }
}

/// A non-empty length-prefixed concatenation starts with its first item.
pub proof fn lemma_cat_lp_first(items: Seq<Seq<u8>>)
    requires
        items.len() > 0,
    ensures
        cat_lp(items) == lp_bytes(items.first()) + cat_lp(items.drop_first()),
    decreases items.len(),
{
    if items.len() == 1 {
        assert(items.drop_last().len() == 0);
        assert(items.drop_first().len() == 0);
        assert(cat_lp(items.drop_last()) =~= Seq::<u8>::empty());
        assert(cat_lp(items.drop_first()) =~= Seq::<u8>::empty());
        assert(cat_lp(items) =~= lp_bytes(items.first()) + cat_lp(items.drop_first()));
    } else {
        lemma_cat_lp_first(items.drop_last());
        assert(items.drop_last().first() == items.first());
        assert(items.drop_last().drop_first() =~= items.drop_first().drop_last());
        assert(items.drop_first().last() == items.last());
        assert((lp_bytes(items.first()) + cat_lp(items.drop_first().drop_last())) + lp_bytes(
            items.last(),
        ) =~= lp_bytes(items.first()) + (cat_lp(items.drop_first().drop_last()) + lp_bytes(
            items.drop_first().last(),
        )));
    }
}

/// A non-empty address concatenation starts with its first address.
pub proof fn lemma_cat_addrs_first(items: Seq<PeerAddress>)
    requires
        items.len() > 0,
    ensures
        cat_addrs(items) == addr_bytes(items.first()) + cat_addrs(items.drop_first()),
    decreases items.len(),
{
    if items.len() == 1 {
        assert(items.drop_last().len() == 0);
        assert(items.drop_first().len() == 0);
        assert(cat_addrs(items.drop_last()) =~= Seq::<u8>::empty());
        assert(cat_addrs(items.drop_first()) =~= Seq::<u8>::empty());
        assert(cat_addrs(items) =~= addr_bytes(items.first()) + cat_addrs(items.drop_first()));
    } else {
        lemma_cat_addrs_first(items.drop_last());
        assert(items.drop_last().first() == items.first());
        assert(items.drop_last().drop_first() =~= items.drop_first().drop_last());
        assert(items.drop_first().last() == items.last());
        assert((addr_bytes(items.first()) + cat_addrs(items.drop_first().drop_last())) + addr_bytes(
            items.last(),
        ) =~= addr_bytes(items.first()) + (cat_addrs(items.drop_first().drop_last()) + addr_bytes(
            items.drop_first().last(),
        )));
    }
}

/// One more item extends the concatenation of a prefix by that item.
pub proof fn lemma_cat_chunks_take_succ(items: Seq<Seq<u8>>, i: int)
    requires
        0 <= i < items.len(),
    ensures
        cat_chunks(items.take(i + 1)) == cat_chunks(items.take(i)) + items[i],
{
    assert(items.take(i + 1).drop_last() =~= items.take(i));
    assert(items.take(i + 1).last() == items[i]);
}

/// One more item extends the length-prefixed concatenation of a prefix by
/// that item.
pub proof fn lemma_cat_lp_take_succ(items: Seq<Seq<u8>>, i: int)
    requires
        0 <= i < items.len(),
    ensures
        cat_lp(items.take(i + 1)) == cat_lp(items.take(i)) + lp_bytes(items[i]),
{
    assert(items.take(i + 1).drop_last() =~= items.take(i));
    assert(items.take(i + 1).last() == items[i]);
}

/// One more address extends the concatenation of a prefix by that
/// address.
pub proof fn lemma_cat_addrs_take_succ(items: Seq<PeerAddress>, i: int)
    requires
        0 <= i < items.len(),
    ensures
        cat_addrs(items.take(i + 1)) == cat_addrs(items.take(i)) + addr_bytes(items[i]),
{
    assert(items.take(i + 1).drop_last() =~= items.take(i));
    assert(items.take(i + 1).last() == items[i]);
}

/// A prefix of the items concatenates to at most the whole.
pub proof fn lemma_cat_lp_take_le(items: Seq<Seq<u8>>, j: int)
    requires
        0 <= j <= items.len(),
    ensures
        cat_lp(items.take(j)).len() <= cat_lp(items).len(),
    decreases items.len() - j,
{
    if j == items.len() {
        assert(items.take(j) =~= items);
    } else {
        lemma_cat_lp_take_succ(items, j);
        lemma_cat_lp_take_le(items, j + 1);
    }
}

// ---------------------------------------------------------------------
// Small executable helpers over byte vectors.
// ---------------------------------------------------------------------

/// Appends all bytes of `b` to `out`.
pub fn push_bytes(out: &mut Vec<u8>, b: &Vec<u8>)
    ensures
        final(out)@ == old(out)@ + b@,
{
    let n = b.len();
    let mut i: usize = 0;
    while i < n
        invariant
            n == b@.len(),
            0 <= i <= n,
            out@ == old(out)@ + b@.take(i as int),
        decreases n - i,
    {
        out.push(b[i]);
        proof {
            assert(b@.take(i + 1) =~= b@.take(i as int).push(b@[i as int]));
            assert(old(out)@ + b@.take(i + 1) =~= (old(out)@ + b@.take(i as int)).push(
                b@[i as int],
            ));
        }
        i = i + 1;
    }
    proof {
        assert(b@.take(n as int) =~= b@);
    }
}

/// Compares two byte vectors by content.
pub fn bytes_eq(a: &Vec<u8>, b: &Vec<u8>) -> (r: bool)
    ensures
        r == (a@ == b@),
{
    if a.len() != b.len() {
        proof {
            assert(a@.len() != b@.len());
        }
        return false;
    }
    let n = a.len();
    let mut i: usize = 0;
    while i < n
        invariant
            n == a@.len(),
            n == b@.len(),
            0 <= i <= n,
            forall|j: int| 0 <= j < i ==> a@[j] == b@[j],
        decreases n - i,
    {
        if a[i] != b[i] {
            return false;
        }
        i = i + 1;
    }
    proof {
        assert(a@ =~= b@);
    }
    true
}

/// Copies the bytes of `b` between `from` and `to` into a fresh vector.
pub fn copy_range(b: &Vec<u8>, from: usize, to: usize) -> (v: Vec<u8>)
    requires
        from <= to <= b@.len(),
    ensures
        v@ == b@.subrange(from as int, to as int),
{
    let mut v: Vec<u8> = Vec::new();
    let mut i: usize = from;
    while i < to
        invariant
            from <= i <= to <= b@.len(),
            v@ == b@.subrange(from as int, i as int),
        decreases to - i,
    {
        v.push(b[i]);
        proof {
            assert(b@.subrange(from as int, i + 1) =~= b@.subrange(from as int, i as int).push(
                b@[i as int],
            ));
        }
        i = i + 1;
    }
    v
}

// ---------------------------------------------------------------------
// Encoding.
// ---------------------------------------------------------------------

/// Encodes a tag byte followed by one length-prefixed byte string.
fn encode_lp(tag: u8, b: &Vec<u8>) -> (r: Result<Vec<u8>, CodecError>)
    ensures
        r is Ok ==> 5 + b@.len() <= MAX_MESSAGE_SIZE && r->Ok_0@ == seq![tag] + lp_bytes(b@),
        r is Err ==> 5 + b@.len() > MAX_MESSAGE_SIZE && r->Err_0 == CodecError::EncodingTooLarge,
{
    if b.len() > (MAX_MESSAGE_SIZE as usize) - 5 {
        return Err(CodecError::EncodingTooLarge);
    }
    let mut out: Vec<u8> = Vec::new();
    out.push(tag);
    write_u32_le(&mut out, b.len() as u32);
    push_bytes(&mut out, b);
    proof {
        assert(out@ =~= seq![tag] + lp_bytes(b@));
    }
    Ok(out)
}

/// Encodes a tag byte followed by a counted list of 32-byte hashes.
fn encode_hash_list(tag: u8, hs: &Vec<BlockHeaderHash>) -> (r: Result<Vec<u8>, CodecError>)
    requires
        forall|i: int| 0 <= i < hs@.len() ==> (#[trigger] hs@[i]).wf(),
    ensures
        r is Ok ==> 5 + 32 * hs@.len() <= MAX_MESSAGE_SIZE && r->Ok_0@ == seq![tag] + (u32_le(
            hs@.len() as u32,
        ) + cat_chunks(hashes_view(hs@))),
        r is Err ==> 5 + 32 * hs@.len() > MAX_MESSAGE_SIZE && r->Err_0
            == CodecError::EncodingTooLarge,
{
    let n = hs.len();
    if n > ((MAX_MESSAGE_SIZE as usize) - 5) / 32 {
        return Err(CodecError::EncodingTooLarge);
    }
    let ghost hv = hashes_view(hs@);
    let mut out: Vec<u8> = Vec::new();
    out.push(tag);
    write_u32_le(&mut out, n as u32);
    let ghost head = seq![tag] + u32_le(hs@.len() as u32);
    proof {
        assert(out@ =~= head + cat_chunks(hv.take(0)));
    }
    let mut i: usize = 0;
    while i < n
        invariant
            n == hs@.len(),
            0 <= i <= n,
            hv == hashes_view(hs@),
            forall|j: int| 0 <= j < hs@.len() ==> (#[trigger] hs@[j]).wf(),
            head == seq![tag] + u32_le(hs@.len() as u32),
            out@ == head + cat_chunks(hv.take(i as int)),
        decreases n - i,
    {
        push_bytes(&mut out, &hs[i].0);
        proof {
            assert(hv[i as int] == hs@[i as int]@);
            lemma_cat_chunks_take_succ(hv, i as int);
            assert((head + cat_chunks(hv.take(i as int))) + hs@[i as int]@ =~= head + (cat_chunks(
                hv.take(i as int),
            ) + hv[i as int]));
        }
        i = i + 1;
    }
    proof {
        assert(hv.take(n as int) =~= hv);
        assert(head + cat_chunks(hv) =~= seq![tag] + (u32_le(hs@.len() as u32) + cat_chunks(hv)));
        assert(all_hashes_32(hv));
        lemma_cat_chunks_len(hv);
    }
    Ok(out)
}

/// Encodes a tag byte followed by a counted list of length-prefixed byte
/// strings.
fn encode_tx_list(tag: u8, txs: &Vec<Vec<u8>>) -> (r: Result<Vec<u8>, CodecError>)
    ensures
        r is Ok ==> 5 + cat_lp(bytes_view(txs@)).len() <= MAX_MESSAGE_SIZE && r->Ok_0@ == seq![tag]
            + (u32_le(txs@.len() as u32) + cat_lp(bytes_view(txs@))),
        r is Err ==> 5 + cat_lp(bytes_view(txs@)).len() > MAX_MESSAGE_SIZE && r->Err_0
            == CodecError::EncodingTooLarge,
{
    let n = txs.len();
    let ghost tv = bytes_view(txs@);
    if n > ((MAX_MESSAGE_SIZE as usize) - 5) / 4 {
        proof {
            lemma_cat_lp_len_lower(tv);
        }
        return Err(CodecError::EncodingTooLarge);
    }
    let mut out: Vec<u8> = Vec::new();
    out.push(tag);
    write_u32_le(&mut out, n as u32);
    let ghost head = seq![tag] + u32_le(txs@.len() as u32);
    proof {
        assert(out@ =~= head + cat_lp(tv.take(0)));
    }
    let mut i: usize = 0;
    while i < n
        invariant
            n == txs@.len(),
            0 <= i <= n,
            tv == bytes_view(txs@),
            head == seq![tag] + u32_le(txs@.len() as u32),
            out@ == head + cat_lp(tv.take(i as int)),
            out@.len() <= MAX_MESSAGE_SIZE,
        decreases n - i,
    {
        let l = txs[i].len();
        let cur = out.len();
        if cur > (MAX_MESSAGE_SIZE as usize) - 4 || l > (MAX_MESSAGE_SIZE as usize) - 4 - cur {
            proof {
                lemma_cat_lp_take_succ(tv, i as int);
                lemma_cat_lp_take_le(tv, i + 1);
                assert(tv[i as int] == txs@[i as int]@);
                assert(cat_lp(tv).len() >= cat_lp(tv.take(i + 1)).len());
            }
            return Err(CodecError::EncodingTooLarge);
        }
        write_u32_le(&mut out, l as u32);
        push_bytes(&mut out, &txs[i]);
        proof {
            assert(tv[i as int] == txs@[i as int]@);
            lemma_cat_lp_take_succ(tv, i as int);
            assert(((head + cat_lp(tv.take(i as int))) + u32_le(txs@[i as int]@.len() as u32))
                + txs@[i as int]@ =~= head + (cat_lp(tv.take(i as int)) + lp_bytes(tv[i as int])));
        }
        i = i + 1;
    }
    proof {
        assert(tv.take(n as int) =~= tv);
        assert(head + cat_lp(tv) =~= seq![tag] + (u32_le(txs@.len() as u32) + cat_lp(tv)));
    }
    Ok(out)
}

/// Encodes a tag byte followed by a counted list of addresses.
fn encode_addr_list(tag: u8, ps: &Vec<PeerAddress>) -> (r: Result<Vec<u8>, CodecError>)
    ensures
        r is Ok ==> 5 + 18 * ps@.len() <= MAX_MESSAGE_SIZE && r->Ok_0@ == seq![tag] + (u32_le(
            ps@.len() as u32,
        ) + cat_addrs(ps@)),
        r is Err ==> 5 + 18 * ps@.len() > MAX_MESSAGE_SIZE && r->Err_0
            == CodecError::EncodingTooLarge,
{
    let n = ps.len();
    if n > ((MAX_MESSAGE_SIZE as usize) - 5) / 18 {
        return Err(CodecError::EncodingTooLarge);
    }
    let mut out: Vec<u8> = Vec::new();
    out.push(tag);
    write_u32_le(&mut out, n as u32);
    let ghost head = seq![tag] + u32_le(ps@.len() as u32);
    proof {
        assert(out@ =~= head + cat_addrs(ps@.take(0)));
    }
    let mut i: usize = 0;
    while i < n
        invariant
            n == ps@.len(),
            0 <= i <= n,
            head == seq![tag] + u32_le(ps@.len() as u32),
            out@ == head + cat_addrs(ps@.take(i as int)),
        decreases n - i,
    {
        let a = ps[i];
        write_u128_le(&mut out, a.ip);
        write_u16_le(&mut out, a.port);
        proof {
            lemma_cat_addrs_take_succ(ps@, i as int);
            assert(((head + cat_addrs(ps@.take(i as int))) + u128_le(a.ip)) + u16_le(a.port)
                =~= head + (cat_addrs(ps@.take(i as int)) + addr_bytes(ps@[i as int])));
        }
        i = i + 1;
    }
    proof {
        assert(ps@.take(n as int) =~= ps@);
        assert(head + cat_addrs(ps@) =~= seq![tag] + (u32_le(ps@.len() as u32) + cat_addrs(ps@)));
        lemma_cat_addrs_len(ps@);
    }
    Ok(out)
}

/// Encodes a payload into its byte string.
///
/// Succeeds exactly on payloads whose encoding fits under the
/// per-message cap; anything larger is refused with `EncodingTooLarge`.
pub fn encode(payload: &Payload) -> (r: Result<Vec<u8>, CodecError>)
    requires
        payload.wf(),
    ensures
        r is Ok <==> valid_payload(payload@),
        r is Ok ==> r->Ok_0@ == spec_encode(payload@),
        r is Err ==> r->Err_0 == CodecError::EncodingTooLarge,
{
    match payload {
        Payload::Block(b) => {
            let r = encode_lp(0, b);
            proof {
                assert(spec_encode(payload@).len() == 5 + b@.len());
            }
            r
        },
        Payload::GetBlocks(hs) => {
            let r = encode_hash_list(1, hs);
            proof {
                assert(all_hashes_32(hashes_view(hs@)));
                lemma_cat_chunks_len(hashes_view(hs@));
                assert(spec_encode(payload@).len() == 5 + 32 * hs@.len());
            }
            r
        },
        Payload::GetMemoryPool => {
            let mut out: Vec<u8> = Vec::new();
            out.push(2);
            proof {
                assert(out@ =~= spec_encode(payload@));
            }
            Ok(out)
        },
        Payload::GetPeers => {
            let mut out: Vec<u8> = Vec::new();
            out.push(3);
            proof {
                assert(out@ =~= spec_encode(payload@));
            }
            Ok(out)
        },
        Payload::GetSync(hs) => {
            let r = encode_hash_list(4, hs);
            proof {
                assert(all_hashes_32(hashes_view(hs@)));
                lemma_cat_chunks_len(hashes_view(hs@));
                assert(spec_encode(payload@).len() == 5 + 32 * hs@.len());
            }
            r
        },
        Payload::MemoryPool(txs) => {
            let r = encode_tx_list(5, txs);
            proof {
                assert(spec_encode(payload@).len() == 5 + cat_lp(bytes_view(txs@)).len());
            }
            r
        },
        Payload::Ping(h) => {
            let mut out: Vec<u8> = Vec::new();
            out.push(6);
            write_u32_le(&mut out, *h);
            proof {
                assert(out@ =~= spec_encode(payload@));
            }
            Ok(out)
        },
        Payload::Pong => {
            let mut out: Vec<u8> = Vec::new();
            out.push(7);
            proof {
                assert(out@ =~= spec_encode(payload@));
            }
            Ok(out)
        },
        Payload::Sync(hs) => {
            let r = encode_hash_list(8, hs);
            proof {
                assert(all_hashes_32(hashes_view(hs@)));
                lemma_cat_chunks_len(hashes_view(hs@));
                assert(spec_encode(payload@).len() == 5 + 32 * hs@.len());
            }
            r
        },
        Payload::SyncBlock(b) => {
            let r = encode_lp(9, b);
            proof {
                assert(spec_encode(payload@).len() == 5 + b@.len());
            }
            r
        },
        Payload::Transaction(b) => {
            let r = encode_lp(10, b);
            proof {
                assert(spec_encode(payload@).len() == 5 + b@.len());
            }
            r
        },
        Payload::Verack(v) => {
            let mut out: Vec<u8> = Vec::new();
            out.push(11);
            write_u64_le(&mut out, v.nonce);
            proof {
                assert(out@ =~= spec_encode(payload@));
            }
            Ok(out)
        },
        Payload::Version(v) => {
            let mut out: Vec<u8> = Vec::new();
            out.push(12);
            write_u64_le(&mut out, v.version);
            write_u16_le(&mut out, v.listener_port);
            write_u32_le(&mut out, v.height);
            write_u64_le(&mut out, v.nonce);
            proof {
                assert(out@ =~= spec_encode(payload@));
            }
            Ok(out)
        },
        Payload::Peers(ps) => {
            let r = encode_addr_list(13, ps);
            proof {
                lemma_cat_addrs_len(ps@);
                assert(spec_encode(payload@).len() == 5 + 18 * ps@.len());
            }
            r
        },
    }
}

// ---------------------------------------------------------------------
// Decoding.
// ---------------------------------------------------------------------

/// Whether every byte string in the sequence is short enough for its
/// `u32` length prefix.
pub open spec fn small_txs(items: Seq<Seq<u8>>) -> bool {
    forall|i: int| 0 <= i < items.len() ==> (#[trigger] items[i]).len() < 0x100000000
}

/// An encoded payload splits into its tag byte and its body.
pub proof fn lemma_peel_tag(m: PayloadModel, b: Seq<u8>)
    requires
        b.len() >= 1,
        spec_encode(m) == b,
    ensures
        tag_of(m) == b[0],
        body_bytes(m) == b.skip(1),
{
    assert(b =~= seq![b[0]] + b.skip(1));
    lemma_seq_cancel(seq![tag_of(m)], body_bytes(m), seq![b[0]], b.skip(1));
    assert(seq![tag_of(m)][0] == seq![b[0]][0]);
}

/// Each item is no longer than the whole length-prefixed concatenation.
pub proof fn lemma_cat_lp_item_le(items: Seq<Seq<u8>>, i: int)
    requires
        0 <= i < items.len(),
    ensures
        lp_bytes(items[i]).len() <= cat_lp(items).len(),
    decreases items.len(),
{
    if i == items.len() - 1 {
        assert(cat_lp(items) == cat_lp(items.drop_last()) + lp_bytes(items.last()));
    } else {
        lemma_cat_lp_item_le(items.drop_last(), i);
        assert(items.drop_last()[i] == items[i]);
    }
}

/// Parses a length-prefixed byte string filling the whole buffer after
/// the tag.
fn parse_lp(b: &Vec<u8>) -> (r: Result<Vec<u8>, CodecError>)
    requires
        1 <= b@.len(),
    ensures
        r is Ok ==> b@.skip(1) == lp_bytes(r->Ok_0@),
        r is Err ==> forall|s: Seq<u8>| s.len() < 0x100000000 ==> b@.skip(1) != lp_bytes(s),
{
    let n = b.len();
    if n < 5 {
        proof {
            assert forall|s: Seq<u8>| s.len() < 0x100000000 implies b@.skip(1) != lp_bytes(s) by {
                assert(lp_bytes(s).len() == 4 + s.len());
            }
        }
        return Err(CodecError::MalformedFrame);
    }
    let l = read_u32_le(b, 1);
    if (l as usize) != n - 5 {
        proof {
            assert forall|s: Seq<u8>| s.len() < 0x100000000 implies b@.skip(1) != lp_bytes(s) by {
                if b@.skip(1) == lp_bytes(s) {
                    assert(b@.skip(1) =~= b@.subrange(1, 5) + b@.subrange(5, n as int));
                    lemma_seq_cancel(
                        u32_le(s.len() as u32),
                        s,
                        b@.subrange(1, 5),
                        b@.subrange(5, n as int),
                    );
                    lemma_u32_le_injective(s.len() as u32, l);
                    assert(s.len() == n - 5);
                }
            }
        }
        return Err(CodecError::MalformedFrame);
    }
    let v = copy_range(b, 5, n);
    proof {
        assert(u32_le(v@.len() as u32) == b@.subrange(1, 5));
        assert(b@.skip(1) =~= b@.subrange(1, 5) + b@.subrange(5, n as int));
        assert(b@.skip(1) =~= lp_bytes(v@));
    }
    Ok(v)
}

/// Parses a counted list of 32-byte hashes filling the whole buffer
/// after the tag.
fn parse_hash_list(b: &Vec<u8>) -> (r: Result<Vec<BlockHeaderHash>, CodecError>)
    requires
        1 <= b@.len(),
    ensures
        r is Ok ==> {
            let hs = r->Ok_0;
            &&& forall|i: int| 0 <= i < hs@.len() ==> (#[trigger] hs@[i]).wf()
            &&& all_hashes_32(hashes_view(hs@))
            &&& b@.skip(1) == u32_le(hs@.len() as u32) + cat_chunks(hashes_view(hs@))
        },
        r is Err ==> forall|items: Seq<Seq<u8>>|
            all_hashes_32(items) && 5 + 32 * items.len() <= MAX_MESSAGE_SIZE ==> b@.skip(1)
                != u32_le(items.len() as u32) + cat_chunks(items),
{
    let n = b.len();
    if n < 5 {
        proof {
            assert forall|items: Seq<Seq<u8>>|
                all_hashes_32(items) && 5 + 32 * items.len()
                    <= MAX_MESSAGE_SIZE implies b@.skip(1) != u32_le(items.len() as u32)
                + cat_chunks(items) by {
                assert((u32_le(items.len() as u32) + cat_chunks(items)).len() >= 4);
            }
        }
        return Err(CodecError::MalformedFrame);
    }
    let cnt = read_u32_le(b, 1);
    let over = (cnt as usize) > ((MAX_MESSAGE_SIZE as usize) - 5) / 32;
    if over || n != 5 + 32 * (cnt as usize) {
        proof {
            assert forall|items: Seq<Seq<u8>>|
                all_hashes_32(items) && 5 + 32 * items.len()
                    <= MAX_MESSAGE_SIZE implies b@.skip(1) != u32_le(items.len() as u32)
                + cat_chunks(items) by {
                if b@.skip(1) == u32_le(items.len() as u32) + cat_chunks(items) {
                    lemma_cat_chunks_len(items);
                    assert(b@.skip(1) =~= b@.subrange(1, 5) + b@.subrange(5, n as int));
                    lemma_seq_cancel(
                        u32_le(items.len() as u32),
                        cat_chunks(items),
                        b@.subrange(1, 5),
                        b@.subrange(5, n as int),
                    );
                    lemma_u32_le_injective(items.len() as u32, cnt);
                    assert(items.len() <= ((MAX_MESSAGE_SIZE as int) - 5) / 32);
                    assert(items.len() == cnt);
                    assert(32 * items.len() == n - 5);
                }
            }
        }
        return Err(CodecError::MalformedFrame);
    }
    let mut hs: Vec<BlockHeaderHash> = Vec::new();
    let mut i: usize = 0;
    while i < (cnt as usize)
        invariant
            n == b@.len(),
            n == 5 + 32 * (cnt as usize),
            0 <= i <= cnt as usize,
            hs@.len() == i,
            forall|j: int| 0 <= j < hs@.len() ==> (#[trigger] hs@[j]).wf(),
            cat_chunks(hashes_view(hs@)) == b@.subrange(5, 5 + 32 * (i as int)),
        decreases (cnt as usize) - i,
    {
        let start = 5 + 32 * i;
        let bytes = copy_range(b, start, start + 32);
        let h = BlockHeaderHash::new(bytes);
        let ghost old_hv = hashes_view(hs@);
        hs.push(h);
        proof {
            assert(hashes_view(hs@) =~= old_hv.push(h@));
            assert(hashes_view(hs@).drop_last() =~= old_hv);
            assert(cat_chunks(hashes_view(hs@)) == cat_chunks(old_hv) + h@);
            assert(cat_chunks(old_hv) + h@ =~= b@.subrange(5, 5 + 32 * (i + 1)));
        }
        i = i + 1;
    }
    proof {
        assert(u32_le(hs@.len() as u32) == u32_le(cnt)) by {
            assert(hs@.len() == cnt as usize);
        }
        assert(b@.skip(1) =~= b@.subrange(1, 5) + b@.subrange(5, n as int));
        assert(b@.subrange(5, 5 + 32 * (cnt as int)) == b@.subrange(5, n as int));
        assert(all_hashes_32(hashes_view(hs@)));
    }
    Ok(hs)
}

/// Parses a counted list of addresses filling the whole buffer after the
/// tag.
fn parse_addr_list(b: &Vec<u8>) -> (r: Result<Vec<PeerAddress>, CodecError>)
    requires
        1 <= b@.len(),
    ensures
        r is Ok ==> b@.skip(1) == u32_le(r->Ok_0@.len() as u32) + cat_addrs(r->Ok_0@),
        r is Err ==> forall|items: Seq<PeerAddress>|
            5 + 18 * items.len() <= MAX_MESSAGE_SIZE ==> b@.skip(1) != u32_le(items.len() as u32)
                + cat_addrs(items),
{
    let n = b.len();
    if n < 5 {
        proof {
            assert forall|items: Seq<PeerAddress>|
                5 + 18 * items.len() <= MAX_MESSAGE_SIZE implies b@.skip(1) != u32_le(
                items.len() as u32,
            ) + cat_addrs(items) by {
                assert((u32_le(items.len() as u32) + cat_addrs(items)).len() >= 4);
            }
        }
        return Err(CodecError::MalformedFrame);
    }
    let cnt = read_u32_le(b, 1);
    let over = (cnt as usize) > ((MAX_MESSAGE_SIZE as usize) - 5) / 18;
    if over || n != 5 + 18 * (cnt as usize) {
        proof {
            assert forall|items: Seq<PeerAddress>|
                5 + 18 * items.len() <= MAX_MESSAGE_SIZE implies b@.skip(1) != u32_le(
                items.len() as u32,
            ) + cat_addrs(items) by {
                if b@.skip(1) == u32_le(items.len() as u32) + cat_addrs(items) {
                    lemma_cat_addrs_len(items);
                    assert(b@.skip(1) =~= b@.subrange(1, 5) + b@.subrange(5, n as int));
                    lemma_seq_cancel(
                        u32_le(items.len() as u32),
                        cat_addrs(items),
                        b@.subrange(1, 5),
                        b@.subrange(5, n as int),
                    );
                    lemma_u32_le_injective(items.len() as u32, cnt);
                    assert(items.len() <= ((MAX_MESSAGE_SIZE as int) - 5) / 18);
                    assert(items.len() == cnt);
                    assert(18 * items.len() == n - 5);
                }
            }
        }
        return Err(CodecError::MalformedFrame);
    }
    let mut ps: Vec<PeerAddress> = Vec::new();
    let mut i: usize = 0;
    while i < (cnt as usize)
        invariant
            n == b@.len(),
            n == 5 + 18 * (cnt as usize),
            0 <= i <= cnt as usize,
            ps@.len() == i,
            cat_addrs(ps@) == b@.subrange(5, 5 + 18 * (i as int)),
        decreases (cnt as usize) - i,
    {
        let start = 5 + 18 * i;
        let ip = read_u128_le(b, start);
        let port = read_u16_le(b, start + 16);
        let a = PeerAddress { ip, port };
        let ghost old_ps = ps@;
        ps.push(a);
        proof {
            assert(ps@.drop_last() =~= old_ps);
            assert(cat_addrs(ps@) == cat_addrs(old_ps) + addr_bytes(a));
            assert(addr_bytes(a) =~= b@.subrange(start as int, start as int + 16) + b@.subrange(
                start as int + 16,
                start as int + 18,
            ));
            assert(cat_addrs(old_ps) + addr_bytes(a) =~= b@.subrange(5, 5 + 18 * (i + 1)));
        }
        i = i + 1;
    }
    proof {
        assert(u32_le(ps@.len() as u32) == u32_le(cnt)) by {
            assert(ps@.len() == cnt as usize);
        }
        assert(b@.skip(1) =~= b@.subrange(1, 5) + b@.subrange(5, n as int));
        assert(b@.subrange(5, 5 + 18 * (cnt as int)) == b@.subrange(5, n as int));
    }
    Ok(ps)
}

/// Parses a counted list of length-prefixed byte strings filling the
/// whole buffer after the tag.
fn parse_tx_list(b: &Vec<u8>) -> (r: Result<Vec<Vec<u8>>, CodecError>)
    requires
        1 <= b@.len(),
        b@.len() <= MAX_MESSAGE_SIZE,
    ensures
        r is Ok ==> b@.skip(1) == u32_le(r->Ok_0@.len() as u32) + cat_lp(bytes_view(r->Ok_0@)),
        r is Err ==> forall|items: Seq<Seq<u8>>|
            small_txs(items) && 5 + cat_lp(items).len() <= MAX_MESSAGE_SIZE ==> b@.skip(1)
                != u32_le(items.len() as u32) + cat_lp(items),
{
    let n = b.len();
    if n < 5 {
        proof {
            assert forall|items: Seq<Seq<u8>>|
                small_txs(items) && 5 + cat_lp(items).len()
                    <= MAX_MESSAGE_SIZE implies b@.skip(1) != u32_le(items.len() as u32) + cat_lp(
                items,
            ) by {
                assert((u32_le(items.len() as u32) + cat_lp(items)).len() >= 4);
            }
        }
        return Err(CodecError::MalformedFrame);
    }
    let cnt = read_u32_le(b, 1);
    if (cnt as usize) > ((MAX_MESSAGE_SIZE as usize) - 5) / 4 {
        proof {
            assert forall|items: Seq<Seq<u8>>|
                small_txs(items) && 5 + cat_lp(items).len()
                    <= MAX_MESSAGE_SIZE implies b@.skip(1) != u32_le(items.len() as u32) + cat_lp(
                items,
            ) by {
                if b@.skip(1) == u32_le(items.len() as u32) + cat_lp(items) {
                    lemma_cat_lp_len_lower(items);
                    assert(b@.skip(1) =~= b@.subrange(1, 5) + b@.subrange(5, n as int));
                    lemma_seq_cancel(
                        u32_le(items.len() as u32),
                        cat_lp(items),
                        b@.subrange(1, 5),
                        b@.subrange(5, n as int),
                    );
                    lemma_u32_le_injective(items.len() as u32, cnt);
                    assert(items.len() <= ((MAX_MESSAGE_SIZE as int) - 5) / 4);
                    assert(items.len() == cnt);
                }
            }
        }
        return Err(CodecError::MalformedFrame);
    }
    let mut txs: Vec<Vec<u8>> = Vec::new();
    let mut pos: usize = 5;
    let mut k: usize = 0;
    proof {
        assert(bytes_view(txs@) =~= Seq::<Seq<u8>>::empty());
        assert(cat_lp(bytes_view(txs@)) =~= b@.subrange(5, 5));
        assert forall|items: Seq<Seq<u8>>|
            small_txs(items) && items.len() == cnt && #[trigger] cat_lp(items) == b@.subrange(
                5,
                n as int,
            ) implies items.take(0) == bytes_view(txs@) && cat_lp(items.skip(0)) == b@.subrange(
            5,
            n as int,
        ) by {
            assert(items.take(0) =~= bytes_view(txs@));
            assert(items.skip(0) =~= items);
        }
    }
    while k < (cnt as usize)
        invariant
            n == b@.len(),
            n <= MAX_MESSAGE_SIZE,
            5 <= pos <= n,
            0 <= k <= cnt as usize,
            u32_le(cnt) == b@.subrange(1, 5),
            txs@.len() == k,
            cat_lp(bytes_view(txs@)) == b@.subrange(5, pos as int),
            forall|items: Seq<Seq<u8>>|
                small_txs(items) && items.len() == cnt && #[trigger] cat_lp(items) == b@.subrange(
                    5,
                    n as int,
                ) ==> items.take(k as int) == bytes_view(txs@) && cat_lp(items.skip(k as int))
                    == b@.subrange(pos as int, n as int),
        decreases (cnt as usize) - k,
    {
        if n - pos < 4 {
            proof {
                assert forall|items: Seq<Seq<u8>>|
                    small_txs(items) && 5 + cat_lp(items).len()
                        <= MAX_MESSAGE_SIZE implies b@.skip(1) != u32_le(items.len() as u32)
                    + cat_lp(items) by {
                    if b@.skip(1) == u32_le(items.len() as u32) + cat_lp(items) {
                        lemma_cat_lp_len_lower(items);
                        assert(b@.skip(1) =~= b@.subrange(1, 5) + b@.subrange(5, n as int));
                        lemma_seq_cancel(
                            u32_le(items.len() as u32),
                            cat_lp(items),
                            b@.subrange(1, 5),
                            b@.subrange(5, n as int),
                        );
                        lemma_u32_le_injective(items.len() as u32, cnt);
                        assert(items.len() == cnt);
                        let rest = items.skip(k as int);
                        assert(cat_lp(rest) == b@.subrange(pos as int, n as int));
                        assert(rest.len() > 0);
                        lemma_cat_lp_first(rest);
                        assert(cat_lp(rest).len() >= 4);
                    }
                }
            }
            return Err(CodecError::MalformedFrame);
        }
        let l = read_u32_le(b, pos);
        if (l as usize) > n - pos - 4 {
            proof {
                assert forall|items: Seq<Seq<u8>>|
                    small_txs(items) && 5 + cat_lp(items).len()
                        <= MAX_MESSAGE_SIZE implies b@.skip(1) != u32_le(items.len() as u32)
                    + cat_lp(items) by {
                    if b@.skip(1) == u32_le(items.len() as u32) + cat_lp(items) {
                        lemma_cat_lp_len_lower(items);
                        assert(b@.skip(1) =~= b@.subrange(1, 5) + b@.subrange(5, n as int));
                        lemma_seq_cancel(
                            u32_le(items.len() as u32),
                            cat_lp(items),
                            b@.subrange(1, 5),
                            b@.subrange(5, n as int),
                        );
                        lemma_u32_le_injective(items.len() as u32, cnt);
                        assert(items.len() == cnt);
                        let rest = items.skip(k as int);
                        assert(cat_lp(rest) == b@.subrange(pos as int, n as int));
                        assert(rest.len() > 0);
                        lemma_cat_lp_first(rest);
                        assert(cat_lp(rest) =~= b@.subrange(pos as int, pos as int + 4)
                            + b@.subrange(pos as int + 4, n as int));
                        assert(u32_le(rest.first().len() as u32) + (rest.first() + cat_lp(
                            rest.drop_first(),
                        )) =~= lp_bytes(rest.first()) + cat_lp(rest.drop_first()));
                        lemma_seq_cancel(
                            u32_le(rest.first().len() as u32),
                            rest.first() + cat_lp(rest.drop_first()),
                            b@.subrange(pos as int, pos as int + 4),
                            b@.subrange(pos as int + 4, n as int),
                        );
                        lemma_u32_le_injective(rest.first().len() as u32, l);
                        assert(rest.first().len() < 0x100000000) by {
                            assert(rest.first() == items[k as int]);
                        }
                        assert(rest.first().len() == l);
                        assert((rest.first() + cat_lp(rest.drop_first())).len() >= l);
                    }
                }
            }
            return Err(CodecError::MalformedFrame);
        }
        let tx = copy_range(b, pos + 4, pos + 4 + (l as usize));
        let ghost old_tv = bytes_view(txs@);
        let ghost old_pos = pos as int;
        txs.push(tx);
        pos = pos + 4 + (l as usize);
        k = k + 1;
        proof {
            assert(bytes_view(txs@) =~= old_tv.push(tx@));
            assert(bytes_view(txs@).drop_last() =~= old_tv);
            assert(cat_lp(bytes_view(txs@)) == cat_lp(old_tv) + lp_bytes(tx@));
            assert(u32_le(tx@.len() as u32) == b@.subrange(old_pos, old_pos + 4)) by {
                assert(tx@.len() == l);
            }
            assert(lp_bytes(tx@) =~= b@.subrange(old_pos, pos as int));
            assert(cat_lp(old_tv) + lp_bytes(tx@) =~= b@.subrange(5, pos as int));
            assert forall|items: Seq<Seq<u8>>|
                small_txs(items) && items.len() == cnt && #[trigger] cat_lp(items) == b@.subrange(
                    5,
                    n as int,
                ) implies items.take(k as int) == bytes_view(txs@) && cat_lp(items.skip(k as int))
                == b@.subrange(pos as int, n as int) by {
                let oldk = k as int - 1;
                assert(items.take(oldk) == old_tv && cat_lp(items.skip(oldk)) == b@.subrange(
                    old_pos,
                    n as int,
                ));
                let rest = items.skip(oldk);
                assert(rest.len() > 0);
                lemma_cat_lp_first(rest);
                assert(cat_lp(rest) =~= b@.subrange(old_pos, old_pos + 4) + b@.subrange(
                    old_pos + 4,
                    n as int,
                ));
                assert(u32_le(rest.first().len() as u32) + (rest.first() + cat_lp(
                    rest.drop_first(),
                )) =~= lp_bytes(rest.first()) + cat_lp(rest.drop_first()));
                lemma_seq_cancel(
                    u32_le(rest.first().len() as u32),
                    rest.first() + cat_lp(rest.drop_first()),
                    b@.subrange(old_pos, old_pos + 4),
                    b@.subrange(old_pos + 4, n as int),
                );
                lemma_u32_le_injective(rest.first().len() as u32, l);
                assert(rest.first().len() < 0x100000000) by {
                    assert(rest.first() == items[oldk]);
                }
                assert(rest.first().len() == l);
                assert(b@.subrange(old_pos + 4, n as int) =~= b@.subrange(
                    old_pos + 4,
                    pos as int,
                ) + b@.subrange(pos as int, n as int));
                lemma_seq_cancel(
                    rest.first(),
                    cat_lp(rest.drop_first()),
                    b@.subrange(old_pos + 4, pos as int),
                    b@.subrange(pos as int, n as int),
                );
                assert(rest.first() == tx@);
                assert(items.take(k as int) =~= items.take(oldk).push(items[oldk]));
                assert(items[oldk] == rest.first());
                assert(items.take(k as int) == bytes_view(txs@));
                assert(rest.drop_first() =~= items.skip(k as int));
            }
        }
    }
    if pos != n {
        proof {
            assert forall|items: Seq<Seq<u8>>|
                small_txs(items) && 5 + cat_lp(items).len()
                    <= MAX_MESSAGE_SIZE implies b@.skip(1) != u32_le(items.len() as u32) + cat_lp(
                items,
            ) by {
                if b@.skip(1) == u32_le(items.len() as u32) + cat_lp(items) {
                    lemma_cat_lp_len_lower(items);
                    assert(b@.skip(1) =~= b@.subrange(1, 5) + b@.subrange(5, n as int));
                    lemma_seq_cancel(
                        u32_le(items.len() as u32),
                        cat_lp(items),
                        b@.subrange(1, 5),
                        b@.subrange(5, n as int),
                    );
                    lemma_u32_le_injective(items.len() as u32, cnt);
                    assert(items.len() == cnt);
                    let rest = items.skip(cnt as int);
                    assert(rest.len() == 0);
                    assert(cat_lp(rest) == b@.subrange(pos as int, n as int));
                    assert(b@.subrange(pos as int, n as int).len() == 0);
                }
            }
        }
        return Err(CodecError::MalformedFrame);
    }
    proof {
        assert(u32_le(txs@.len() as u32) == u32_le(cnt)) by {
            assert(txs@.len() == cnt as usize);
        }
        assert(b@.skip(1) =~= b@.subrange(1, 5) + b@.subrange(5, n as int));
        assert(cat_lp(bytes_view(txs@)) == b@.subrange(5, n as int));
    }
    Ok(txs)
}

/// Decodes a byte string into the payload it encodes.
///
/// Accepts a byte string if and only if it is the encoding of exactly
/// one well-formed payload: an unknown tag, a truncated or overlong
/// field, an inconsistent length prefix or trailing bytes are refused
/// with `MalformedFrame`, and a buffer over the per-message cap with
/// `FrameTooLarge`.
pub fn decode(b: &Vec<u8>) -> (r: Result<Payload, CodecError>)
    ensures
        r is Ok ==> r->Ok_0.wf() && valid_payload(r->Ok_0@) && spec_encode(r->Ok_0@) == b@,
        r is Err ==> forall|m: PayloadModel| valid_payload(m) ==> spec_encode(m) != b@,
        r == Err::<Payload, CodecError>(CodecError::FrameTooLarge) <==> b@.len()
            > MAX_MESSAGE_SIZE,
        r is Err ==> r->Err_0 == CodecError::FrameTooLarge || r->Err_0
            == CodecError::MalformedFrame,
{
    let n = b.len();
    if n > MAX_MESSAGE_SIZE as usize {
        return Err(CodecError::FrameTooLarge);
    }
    if n == 0 {
        proof {
            assert forall|m: PayloadModel| valid_payload(m) implies spec_encode(m) != b@ by {
                assert(spec_encode(m).len() >= 1);
            }
        }
        return Err(CodecError::MalformedFrame);
    }
    let tag = b[0];
    if tag == 0 || tag == 9 || tag == 10 {
        match parse_lp(b) {
            Ok(v) => {
                let p = if tag == 0 {
                    Payload::Block(v)
                } else if tag == 9 {
                    Payload::SyncBlock(v)
                } else {
                    Payload::Transaction(v)
                };
                proof {
                    assert(spec_encode(p@) =~= b@) by {
                        assert(b@ =~= seq![b@[0]] + b@.skip(1));
                    }
                }
                Ok(p)
            },
            Err(_) => {
                proof {
                    assert forall|m: PayloadModel| valid_payload(m) implies spec_encode(m)
                        != b@ by {
                        if spec_encode(m) == b@ {
                            lemma_peel_tag(m, b@);
                            if tag == 0 {
                                let s = m->Block_0;
                                assert(body_bytes(m) == lp_bytes(s));
                                assert(s.len() < 0x100000000);
                            } else if tag == 9 {
                                let s = m->SyncBlock_0;
                                assert(body_bytes(m) == lp_bytes(s));
                                assert(s.len() < 0x100000000);
                            } else {
                                let s = m->Transaction_0;
                                assert(body_bytes(m) == lp_bytes(s));
                                assert(s.len() < 0x100000000);
                            }
                        }
                    }
                }
                Err(CodecError::MalformedFrame)
            },
        }
    } else if tag == 1 || tag == 4 || tag == 8 {
        match parse_hash_list(b) {
            Ok(hs) => {
                proof {
                    lemma_cat_chunks_len(hashes_view(hs@));
                }
                let p = if tag == 1 {
                    Payload::GetBlocks(hs)
                } else if tag == 4 {
                    Payload::GetSync(hs)
                } else {
                    Payload::Sync(hs)
                };
                proof {
                    assert(spec_encode(p@) =~= b@) by {
                        assert(b@ =~= seq![b@[0]] + b@.skip(1));
                    }
                }
                Ok(p)
            },
            Err(_) => {
                proof {
                    assert forall|m: PayloadModel| valid_payload(m) implies spec_encode(m)
                        != b@ by {
                        if spec_encode(m) == b@ {
                            lemma_peel_tag(m, b@);
                            if tag == 1 {
                                let hs = m->GetBlocks_0;
                                lemma_cat_chunks_len(hs);
                                assert(body_bytes(m) == u32_le(hs.len() as u32) + cat_chunks(hs));
                                assert(5 + 32 * hs.len() <= MAX_MESSAGE_SIZE);
                            } else if tag == 4 {
                                let hs = m->GetSync_0;
                                lemma_cat_chunks_len(hs);
                                assert(body_bytes(m) == u32_le(hs.len() as u32) + cat_chunks(hs));
                                assert(5 + 32 * hs.len() <= MAX_MESSAGE_SIZE);
                            } else {
                                let hs = m->Sync_0;
                                lemma_cat_chunks_len(hs);
                                assert(body_bytes(m) == u32_le(hs.len() as u32) + cat_chunks(hs));
                                assert(5 + 32 * hs.len() <= MAX_MESSAGE_SIZE);
                            }
                        }
                    }
                }
                Err(CodecError::MalformedFrame)
            },
        }
    } else if tag == 2 || tag == 3 || tag == 7 {
        if n == 1 {
            let p = if tag == 2 {
                Payload::GetMemoryPool
            } else if tag == 3 {
                Payload::GetPeers
            } else {
                Payload::Pong
            };
            proof {
                assert(spec_encode(p@) =~= b@);
            }
            Ok(p)
        } else {
            proof {
                assert forall|m: PayloadModel| valid_payload(m) implies spec_encode(m) != b@ by {
                    if spec_encode(m) == b@ {
                        lemma_peel_tag(m, b@);
                        assert(body_bytes(m).len() == 0);
                        assert(b@.skip(1).len() == 0);
                    }
                }
            }
            Err(CodecError::MalformedFrame)
        }
    } else if tag == 6 {
        if n == 5 {
            let h = read_u32_le(b, 1);
            let p = Payload::Ping(h);
            proof {
                assert(spec_encode(p@) =~= b@) by {
                    assert(b@ =~= seq![b@[0]] + b@.subrange(1, 5));
                }
            }
            Ok(p)
        } else {
            proof {
                assert forall|m: PayloadModel| valid_payload(m) implies spec_encode(m) != b@ by {
                    if spec_encode(m) == b@ {
                        lemma_peel_tag(m, b@);
                        assert(body_bytes(m).len() == 4);
                    }
                }
            }
            Err(CodecError::MalformedFrame)
        }
    } else if tag == 11 {
        if n == 9 {
            let nonce = read_u64_le(b, 1);
            let p = Payload::Verack(Verack { nonce });
            proof {
                assert(spec_encode(p@) =~= b@) by {
                    assert(b@ =~= seq![b@[0]] + b@.subrange(1, 9));
                }
            }
            Ok(p)
        } else {
            proof {
                assert forall|m: PayloadModel| valid_payload(m) implies spec_encode(m) != b@ by {
                    if spec_encode(m) == b@ {
                        lemma_peel_tag(m, b@);
                        assert(body_bytes(m).len() == 8);
                    }
                }
            }
            Err(CodecError::MalformedFrame)
        }
    } else if tag == 12 {
        if n == 23 {
            let version = read_u64_le(b, 1);
            let listener_port = read_u16_le(b, 9);
            let height = read_u32_le(b, 11);
            let nonce = read_u64_le(b, 15);
            let p = Payload::Version(Version { version, listener_port, height, nonce });
            proof {
                assert(version_bytes(Version { version, listener_port, height, nonce })
                    =~= b@.subrange(1, 23));
                assert(spec_encode(p@) =~= b@) by {
                    assert(b@ =~= seq![b@[0]] + b@.subrange(1, 23));
                }
            }
            Ok(p)
        } else {
            proof {
                assert forall|m: PayloadModel| valid_payload(m) implies spec_encode(m) != b@ by {
                    if spec_encode(m) == b@ {
                        lemma_peel_tag(m, b@);
                        assert(body_bytes(m).len() == 22);
                    }
                }
            }
            Err(CodecError::MalformedFrame)
        }
    } else if tag == 5 {
        match parse_tx_list(b) {
            Ok(txs) => {
                let p = Payload::MemoryPool(txs);
                proof {
                    assert(spec_encode(p@) =~= b@) by {
                        assert(b@ =~= seq![b@[0]] + b@.skip(1));
                    }
                }
                Ok(p)
            },
            Err(_) => {
                proof {
                    assert forall|m: PayloadModel| valid_payload(m) implies spec_encode(m)
                        != b@ by {
                        if spec_encode(m) == b@ {
                            lemma_peel_tag(m, b@);
                            let txs = m->MemoryPool_0;
                            assert(body_bytes(m) == u32_le(txs.len() as u32) + cat_lp(txs));
                            assert(small_txs(txs)) by {
                                assert forall|i: int|
                                    0 <= i < txs.len() implies (#[trigger] txs[i]).len()
                                    < 0x100000000 by {
                                    lemma_cat_lp_item_le(txs, i);
                                }
                            }
                            assert(5 + cat_lp(txs).len() <= MAX_MESSAGE_SIZE);
                        }
                    }
                }
                Err(CodecError::MalformedFrame)
            },
        }
    } else if tag == 13 {
        match parse_addr_list(b) {
            Ok(ps) => {
                proof {
                    lemma_cat_addrs_len(ps@);
                }
                let p = Payload::Peers(ps);
                proof {
                    assert(spec_encode(p@) =~= b@) by {
                        assert(b@ =~= seq![b@[0]] + b@.skip(1));
                    }
                }
                Ok(p)
            },
            Err(_) => {
                proof {
                    assert forall|m: PayloadModel| valid_payload(m) implies spec_encode(m)
                        != b@ by {
                        if spec_encode(m) == b@ {
                            lemma_peel_tag(m, b@);
                            let ps = m->Peers_0;
                            lemma_cat_addrs_len(ps);
                            assert(body_bytes(m) == u32_le(ps.len() as u32) + cat_addrs(ps));
                            assert(5 + 18 * ps.len() <= MAX_MESSAGE_SIZE);
                        }
                    }
                }
                Err(CodecError::MalformedFrame)
            },
        }
    } else {
        proof {
            assert forall|m: PayloadModel| valid_payload(m) implies spec_encode(m) != b@ by {
                if spec_encode(m) == b@ {
                    lemma_peel_tag(m, b@);
                    assert(tag_of(m) <= 13);
                }
            }
        }
        Err(CodecError::MalformedFrame)
    }
}

// ---------------------------------------------------------------------
// The encoding is injective: one byte string, one payload.
// ---------------------------------------------------------------------

/// Length-prefixed byte strings with equal encodings are equal.
proof fn lemma_lp_inj(s1: Seq<u8>, s2: Seq<u8>)
    requires
        s1.len() < 0x100000000,
        s2.len() < 0x100000000,
        lp_bytes(s1) == lp_bytes(s2),
    ensures
        s1 == s2,
{
    lemma_seq_cancel(u32_le(s1.len() as u32), s1, u32_le(s2.len() as u32), s2);
    lemma_u32_le_injective(s1.len() as u32, s2.len() as u32);
}

/// Hash lists of equal length with equal concatenations are equal.
proof fn lemma_cat_chunks_inj(a: Seq<Seq<u8>>, b: Seq<Seq<u8>>)
    requires
        a.len() == b.len(),
        all_hashes_32(a),
        all_hashes_32(b),
        cat_chunks(a) == cat_chunks(b),
    ensures
        a == b,
    decreases a.len(),
{
    if a.len() == 0 {
        assert(a =~= b);
    } else {
        lemma_cat_chunks_first(a);
        lemma_cat_chunks_first(b);
        assert(a[0] == a.first() && b[0] == b.first());
        lemma_seq_cancel(a.first(), cat_chunks(a.drop_first()), b.first(), cat_chunks(
            b.drop_first(),
        ));
        assert(all_hashes_32(a.drop_first())) by {
            assert(forall|i: int|
                0 <= i < a.drop_first().len() ==> #[trigger] a.drop_first()[i] == a[i + 1]);
        }
        assert(all_hashes_32(b.drop_first())) by {
            assert(forall|i: int|
                0 <= i < b.drop_first().len() ==> #[trigger] b.drop_first()[i] == b[i + 1]);
        }
        lemma_cat_chunks_inj(a.drop_first(), b.drop_first());
        assert forall|i: int| 0 <= i < a.len() implies a[i] == b[i] by {
            if i > 0 {
                assert(a[i] == a.drop_first()[i - 1]);
                assert(b[i] == b.drop_first()[i - 1]);
            }
        }
        assert(a =~= b);
    }
}

/// Length-prefixed lists of equal length with equal concatenations are
/// equal.
proof fn lemma_cat_lp_inj(a: Seq<Seq<u8>>, b: Seq<Seq<u8>>)
    requires
        a.len() == b.len(),
        small_txs(a),
        small_txs(b),
        cat_lp(a) == cat_lp(b),
    ensures
        a == b,
    decreases a.len(),
{
    if a.len() == 0 {
        assert(a =~= b);
    } else {
        lemma_cat_lp_first(a);
        lemma_cat_lp_first(b);
        assert(a[0] == a.first() && b[0] == b.first());
        assert(u32_le(a.first().len() as u32) + (a.first() + cat_lp(a.drop_first())) =~= lp_bytes(
            a.first(),
        ) + cat_lp(a.drop_first()));
        assert(u32_le(b.first().len() as u32) + (b.first() + cat_lp(b.drop_first())) =~= lp_bytes(
            b.first(),
        ) + cat_lp(b.drop_first()));
        lemma_seq_cancel(
            u32_le(a.first().len() as u32),
            a.first() + cat_lp(a.drop_first()),
            u32_le(b.first().len() as u32),
            b.first() + cat_lp(b.drop_first()),
        );
        lemma_u32_le_injective(a.first().len() as u32, b.first().len() as u32);
        lemma_seq_cancel(a.first(), cat_lp(a.drop_first()), b.first(), cat_lp(b.drop_first()));
        assert(small_txs(a.drop_first())) by {
            assert(forall|i: int|
                0 <= i < a.drop_first().len() ==> #[trigger] a.drop_first()[i] == a[i + 1]);
        }
        assert(small_txs(b.drop_first())) by {
            assert(forall|i: int|
                0 <= i < b.drop_first().len() ==> #[trigger] b.drop_first()[i] == b[i + 1]);
        }
        lemma_cat_lp_inj(a.drop_first(), b.drop_first());
        assert forall|i: int| 0 <= i < a.len() implies a[i] == b[i] by {
            if i > 0 {
                assert(a[i] == a.drop_first()[i - 1]);
                assert(b[i] == b.drop_first()[i - 1]);
            }
        }
        assert(a =~= b);
    }
}

/// Address lists of equal length with equal concatenations are equal.
proof fn lemma_cat_addrs_inj(a: Seq<PeerAddress>, b: Seq<PeerAddress>)
    requires
        a.len() == b.len(),
        cat_addrs(a) == cat_addrs(b),
    ensures
        a == b,
    decreases a.len(),
{
    if a.len() == 0 {
        assert(a =~= b);
    } else {
        lemma_cat_addrs_first(a);
        lemma_cat_addrs_first(b);
        assert(u128_le(a.first().ip) + (u16_le(a.first().port) + cat_addrs(a.drop_first()))
            =~= addr_bytes(a.first()) + cat_addrs(a.drop_first()));
        assert(u128_le(b.first().ip) + (u16_le(b.first().port) + cat_addrs(b.drop_first()))
            =~= addr_bytes(b.first()) + cat_addrs(b.drop_first()));
        lemma_seq_cancel(
            u128_le(a.first().ip),
            u16_le(a.first().port) + cat_addrs(a.drop_first()),
            u128_le(b.first().ip),
            u16_le(b.first().port) + cat_addrs(b.drop_first()),
        );
        lemma_u128_le_injective(a.first().ip, b.first().ip);
        lemma_seq_cancel(
            u16_le(a.first().port),
            cat_addrs(a.drop_first()),
            u16_le(b.first().port),
            cat_addrs(b.drop_first()),
        );
        lemma_u16_le_injective(a.first().port, b.first().port);
        lemma_cat_addrs_inj(a.drop_first(), b.drop_first());
        assert forall|i: int| 0 <= i < a.len() implies a[i] == b[i] by {
            if i == 0 {
                assert(a[0] == a.first() && b[0] == b.first());
            } else {
                assert(a[i] == a.drop_first()[i - 1]);
                assert(b[i] == b.drop_first()[i - 1]);
            }
        }
        assert(a =~= b);
    }
}

/// A counted hash-list body determines its hashes.
proof fn lemma_hash_body_inj(h1: Seq<Seq<u8>>, h2: Seq<Seq<u8>>)
    requires
        all_hashes_32(h1),
        all_hashes_32(h2),
        h1.len() < 0x100000000,
        h2.len() < 0x100000000,
        u32_le(h1.len() as u32) + cat_chunks(h1) == u32_le(h2.len() as u32) + cat_chunks(h2),
    ensures
        h1 == h2,
{
    lemma_seq_cancel(u32_le(h1.len() as u32), cat_chunks(h1), u32_le(h2.len() as u32), cat_chunks(
        h2,
    ));
    lemma_u32_le_injective(h1.len() as u32, h2.len() as u32);
    lemma_cat_chunks_inj(h1, h2);
}

/// Two well-formed payloads with the same byte string are the same
/// payload: no two distinct messages share an encoding.
pub proof fn lemma_encode_injective(m1: PayloadModel, m2: PayloadModel)
    requires
        valid_payload(m1),
        valid_payload(m2),
        spec_encode(m1) == spec_encode(m2),
    ensures
        m1 == m2,
{
    let b = spec_encode(m1);
    assert(b.len() >= 1);
    lemma_peel_tag(m1, b);
    lemma_peel_tag(m2, b);
    assert(tag_of(m1) == tag_of(m2));
    assert(body_bytes(m1) == body_bytes(m2));
    match m1 {
        PayloadModel::Block(s1) => {
            let s2 = m2->Block_0;
            assert(m2 is Block);
            lemma_lp_inj(s1, s2);
        },
        PayloadModel::GetBlocks(h1) => {
            let h2 = m2->GetBlocks_0;
            assert(m2 is GetBlocks);
            lemma_cat_chunks_len(h1);
            lemma_cat_chunks_len(h2);
            lemma_hash_body_inj(h1, h2);
        },
        PayloadModel::GetMemoryPool => {
            assert(m2 is GetMemoryPool);
        },
        PayloadModel::GetPeers => {
            assert(m2 is GetPeers);
        },
        PayloadModel::GetSync(h1) => {
            let h2 = m2->GetSync_0;
            assert(m2 is GetSync);
            lemma_cat_chunks_len(h1);
            lemma_cat_chunks_len(h2);
            lemma_hash_body_inj(h1, h2);
        },
        PayloadModel::MemoryPool(t1) => {
            let t2 = m2->MemoryPool_0;
            assert(m2 is MemoryPool);
            lemma_cat_lp_len_lower(t1);
            lemma_cat_lp_len_lower(t2);
            assert(small_txs(t1)) by {
                assert forall|i: int| 0 <= i < t1.len() implies (#[trigger] t1[i]).len()
                    < 0x100000000 by {
                    lemma_cat_lp_item_le(t1, i);
                }
            }
            assert(small_txs(t2)) by {
                assert forall|i: int| 0 <= i < t2.len() implies (#[trigger] t2[i]).len()
                    < 0x100000000 by {
                    lemma_cat_lp_item_le(t2, i);
                }
            }
            lemma_seq_cancel(u32_le(t1.len() as u32), cat_lp(t1), u32_le(t2.len() as u32), cat_lp(
                t2,
            ));
            lemma_u32_le_injective(t1.len() as u32, t2.len() as u32);
            lemma_cat_lp_inj(t1, t2);
        },
        PayloadModel::Ping(x1) => {
            let x2 = m2->Ping_0;
            assert(m2 is Ping);
            lemma_u32_le_injective(x1, x2);
        },
        PayloadModel::Pong => {
            assert(m2 is Pong);
        },
        PayloadModel::Sync(h1) => {
            let h2 = m2->Sync_0;
            assert(m2 is Sync);
            lemma_cat_chunks_len(h1);
            lemma_cat_chunks_len(h2);
            lemma_hash_body_inj(h1, h2);
        },
        PayloadModel::SyncBlock(s1) => {
            let s2 = m2->SyncBlock_0;
            assert(m2 is SyncBlock);
            lemma_lp_inj(s1, s2);
        },
        PayloadModel::Transaction(s1) => {
            let s2 = m2->Transaction_0;
            assert(m2 is Transaction);
            lemma_lp_inj(s1, s2);
        },
        PayloadModel::Verack(v1) => {
            let v2 = m2->Verack_0;
            assert(m2 is Verack);
            lemma_u64_le_injective(v1.nonce, v2.nonce);
        },
        PayloadModel::Version(v1) => {
            let v2 = m2->Version_0;
            assert(m2 is Version);
            assert(u64_le(v1.version) + (u16_le(v1.listener_port) + (u32_le(v1.height) + u64_le(
                v1.nonce,
            ))) =~= version_bytes(v1));
            assert(u64_le(v2.version) + (u16_le(v2.listener_port) + (u32_le(v2.height) + u64_le(
                v2.nonce,
            ))) =~= version_bytes(v2));
            lemma_seq_cancel(
                u64_le(v1.version),
                u16_le(v1.listener_port) + (u32_le(v1.height) + u64_le(v1.nonce)),
                u64_le(v2.version),
                u16_le(v2.listener_port) + (u32_le(v2.height) + u64_le(v2.nonce)),
            );
            lemma_u64_le_injective(v1.version, v2.version);
            lemma_seq_cancel(
                u16_le(v1.listener_port),
                u32_le(v1.height) + u64_le(v1.nonce),
                u16_le(v2.listener_port),
                u32_le(v2.height) + u64_le(v2.nonce),
            );
            lemma_u16_le_injective(v1.listener_port, v2.listener_port);
            lemma_seq_cancel(u32_le(v1.height), u64_le(v1.nonce), u32_le(v2.height), u64_le(
                v2.nonce,
            ));
            lemma_u32_le_injective(v1.height, v2.height);
            lemma_u64_le_injective(v1.nonce, v2.nonce);
        },
        PayloadModel::Peers(p1) => {
            let p2 = m2->Peers_0;
            assert(m2 is Peers);
            lemma_cat_addrs_len(p1);
            lemma_cat_addrs_len(p2);
            lemma_seq_cancel(u32_le(p1.len() as u32), cat_addrs(p1), u32_le(p2.len() as u32),
                cat_addrs(p2));
            lemma_u32_le_injective(p1.len() as u32, p2.len() as u32);
            lemma_cat_addrs_inj(p1, p2);
        },
    }
}

// ---------------------------------------------------------------------
// Framing: a u32 length prefix in front of each encoded payload.
// ---------------------------------------------------------------------

/// Encodes a payload and puts its `u32` little-endian length in front,
/// ready to be written to the stream.
pub fn encode_frame(payload: &Payload) -> (r: Result<Vec<u8>, CodecError>)
    requires
        payload.wf(),
    ensures
        r is Ok <==> valid_payload(payload@),
        r is Ok ==> r->Ok_0@ == u32_le(spec_encode(payload@).len() as u32) + spec_encode(payload@),
        r is Err ==> r->Err_0 == CodecError::EncodingTooLarge,
{
    match encode(payload) {
        Ok(body) => {
            let mut out: Vec<u8> = Vec::new();
            write_u32_le(&mut out, body.len() as u32);
            push_bytes(&mut out, &body);
            proof {
                assert(out@ =~= u32_le(spec_encode(payload@).len() as u32) + spec_encode(
                    payload@,
                ));
            }
            Ok(out)
        },
        Err(e) => Err(e),
    }
}

/// Takes one complete frame off the front of the buffer.
///
/// Returns the payload bytes and how many buffer bytes they and their
/// length prefix took. A buffer that does not yet hold a whole frame is
/// answered with `NeedMore` and nothing is discarded; a declared length
/// over the per-message cap with `FrameTooLarge`.
pub fn read_frame(buffer: &Vec<u8>) -> (r: Result<(Vec<u8>, usize), CodecError>)
    ensures
        r is Ok ==> ({
            let (p, consumed) = r->Ok_0;
            &&& consumed == 4 + p@.len()
            &&& consumed <= buffer@.len()
            &&& p@.len() <= MAX_MESSAGE_SIZE
            &&& u32_le(p@.len() as u32) == buffer@.subrange(0, 4)
            &&& p@ == buffer@.subrange(4, consumed as int)
        }),
        r == Err::<(Vec<u8>, usize), CodecError>(CodecError::NeedMore) <==> (buffer@.len() < 4 || (
        exists|l: u32|
            u32_le(l) == buffer@.subrange(0, 4) && l <= MAX_MESSAGE_SIZE && buffer@.len() < 4
                + l)),
        r == Err::<(Vec<u8>, usize), CodecError>(CodecError::FrameTooLarge) <==> (buffer@.len()
            >= 4 && exists|l: u32|
            u32_le(l) == buffer@.subrange(0, 4) && l > MAX_MESSAGE_SIZE),
        r is Err ==> r->Err_0 == CodecError::NeedMore || r->Err_0 == CodecError::FrameTooLarge,
{
    let n = buffer.len();
    if n < 4 {
        return Err(CodecError::NeedMore);
    }
    let l = read_u32_le(buffer, 0);
    proof {
        assert forall|l2: u32| u32_le(l2) == buffer@.subrange(0, 4) implies l2 == l by {
            lemma_u32_le_injective(l2, l);
        }
    }
    if l > MAX_MESSAGE_SIZE {
        return Err(CodecError::FrameTooLarge);
    }
    if n < 4 + (l as usize) {
        return Err(CodecError::NeedMore);
    }
    let p = copy_range(buffer, 4, 4 + (l as usize));
    proof {
        assert(u32_le(p@.len() as u32) == buffer@.subrange(0, 4)) by {
            assert(p@.len() == l);
        }
    }
    Ok((p, 4 + (l as usize)))
}

} // verus!
