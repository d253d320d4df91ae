//! The binary side of the codec.
//!
//! Layout, strictly in order and all little-endian: a signed 32-bit vertex
//! count, that many 12-byte vertices, a signed 32-bit normal count, that
//! many 12-byte normals, a signed 32-bit face count, that many 12-byte
//! faces. There is no header, magic number or version field.

use vstd::bytes::{
    lemma_auto_spec_u32_to_from_le_bytes, spec_u32_from_le_bytes, spec_u32_to_le_bytes,
    u32_from_le_bytes, u32_to_le_bytes,
};
use vstd::prelude::*;
use vstd::slice::slice_subrange;

use crate::mesh::{Face, MeshView, Normal, Vertex, OBJ};

verus! {

/// Why a binary read was rejected.
#[derive(Clone, Copy, PartialEq, Eq, Structural, Debug)]
pub enum BinError {
    /// The input ended before an expected field was fully present.
    Truncated,
    /// A count field, read as a signed 32-bit integer, was negative.
    NegativeCount,
    /// Bytes remained after the face section, so the input is not the
    /// encoding of any mesh.
    TrailingBytes,
}

// ---------------------------------------------------------------------------
// Two's-complement reinterpretation between i32 and u32.
// ---------------------------------------------------------------------------

/// The unsigned 32-bit value with the same bit pattern as `x`.
pub open spec fn u32_of_i32(x: i32) -> u32 {
    if x >= 0 {
        x as u32
    } else {
        (x + 0x1_0000_0000) as u32
    }
}

/// The signed 32-bit value with the same bit pattern as `x`.
pub open spec fn i32_of_u32(x: u32) -> i32 {
    if x <= 0x7fff_ffff {
        x as i32
    } else {
        (x - 0x1_0000_0000) as i32
    }
}

fn i32_to_u32(x: i32) -> (r: u32)
    ensures
        r == u32_of_i32(x),
{
    if x >= 0 {
        x as u32
    } else {
        ((x as i64) + 0x1_0000_0000i64) as u32
    }
}

fn u32_to_i32(x: u32) -> (r: i32)
    ensures
        r == i32_of_u32(x),
{
    if x <= 0x7fff_ffff {
        x as i32
    } else {
        ((x as i64) - 0x1_0000_0000i64) as i32
    }
}

// ---------------------------------------------------------------------------
// Encoding: mesh view -> byte sequence.
// ---------------------------------------------------------------------------

/// A sequence length as a 4-byte little-endian count field.
pub open spec fn spec_count_bytes(n: nat) -> Seq<u8> {
    spec_u32_to_le_bytes(n as u32)
}

/// The 12 bytes of one vertex.
pub open spec fn spec_vertex_bytes(v: Vertex) -> Seq<u8> {
    spec_u32_to_le_bytes(v.x) + spec_u32_to_le_bytes(v.y) + spec_u32_to_le_bytes(v.z)
}

/// The 12 bytes of one normal.
pub open spec fn spec_normal_bytes(n: Normal) -> Seq<u8> {
    spec_u32_to_le_bytes(n.x) + spec_u32_to_le_bytes(n.y) + spec_u32_to_le_bytes(n.z)
}

/// The 12 bytes of one face.
pub open spec fn spec_face_bytes(f: Face) -> Seq<u8> {
    spec_u32_to_le_bytes(u32_of_i32(f.v1)) + spec_u32_to_le_bytes(u32_of_i32(f.v2))
        + spec_u32_to_le_bytes(u32_of_i32(f.v3))
}

/// The concatenation of `enc` over all items of `items`, in order.
pub open spec fn spec_items_bytes<T>(items: Seq<T>, enc: spec_fn(T) -> Seq<u8>) -> Seq<u8>
    decreases items.len(),
{
    if items.len() == 0 {
        Seq::empty()
    } else {
        spec_items_bytes(items.drop_last(), enc) + enc(items.last())
    }
}

/// The vertex encoder, as a function value for `spec_items_bytes`.
pub open spec fn vertex_enc() -> spec_fn(Vertex) -> Seq<u8> {
    |v: Vertex| spec_vertex_bytes(v)
}

/// The normal encoder, as a function value for `spec_items_bytes`.
pub open spec fn normal_enc() -> spec_fn(Normal) -> Seq<u8> {
    |n: Normal| spec_normal_bytes(n)
}

/// The face encoder, as a function value for `spec_items_bytes`.
pub open spec fn face_enc() -> spec_fn(Face) -> Seq<u8> {
    |f: Face| spec_face_bytes(f)
}

/// The full binary image of a mesh: three count-prefixed sections.
pub open spec fn spec_encode(m: MeshView) -> Seq<u8> {
    spec_count_bytes(m.vertices.len()) + spec_items_bytes(m.vertices, vertex_enc())
        + spec_count_bytes(m.normals.len()) + spec_items_bytes(m.normals, normal_enc())
        + spec_count_bytes(m.faces.len()) + spec_items_bytes(m.faces, face_enc())
}

pub proof fn lemma_items_bytes_len<T>(items: Seq<T>, enc: spec_fn(T) -> Seq<u8>)
    requires
        forall|t: T| (#[trigger] enc(t)).len() == 12,
    ensures
        spec_items_bytes(items, enc).len() == 12 * items.len(),
    decreases items.len(),
{
    if items.len() > 0 {
        lemma_items_bytes_len(items.drop_last(), enc);
    }
}

// ---------------------------------------------------------------------------
// Decoding: byte sequence -> mesh view.
// ---------------------------------------------------------------------------

/// The vertex whose 12 bytes start `b`.
pub open spec fn spec_vertex_of_bytes(b: Seq<u8>) -> Vertex {
    Vertex {
        x: spec_u32_from_le_bytes(b.subrange(0, 4)),
        y: spec_u32_from_le_bytes(b.subrange(4, 8)),
        z: spec_u32_from_le_bytes(b.subrange(8, 12)),
    }
}

/// The normal whose 12 bytes start `b`.
pub open spec fn spec_normal_of_bytes(b: Seq<u8>) -> Normal {
    Normal {
        x: spec_u32_from_le_bytes(b.subrange(0, 4)),
        y: spec_u32_from_le_bytes(b.subrange(4, 8)),
        z: spec_u32_from_le_bytes(b.subrange(8, 12)),
    }
}

/// The face whose 12 bytes start `b`.
pub open spec fn spec_face_of_bytes(b: Seq<u8>) -> Face {
    Face {
        v1: i32_of_u32(spec_u32_from_le_bytes(b.subrange(0, 4))),
        v2: i32_of_u32(spec_u32_from_le_bytes(b.subrange(4, 8))),
        v3: i32_of_u32(spec_u32_from_le_bytes(b.subrange(8, 12))),
    }
}

/// The vertex decoder, as a function value for `spec_items_of_bytes`.
pub open spec fn vertex_dec() -> spec_fn(Seq<u8>) -> Vertex {
    |s: Seq<u8>| spec_vertex_of_bytes(s)
}

/// The normal decoder, as a function value for `spec_items_of_bytes`.
pub open spec fn normal_dec() -> spec_fn(Seq<u8>) -> Normal {
    |s: Seq<u8>| spec_normal_of_bytes(s)
}

/// The face decoder, as a function value for `spec_items_of_bytes`.
pub open spec fn face_dec() -> spec_fn(Seq<u8>) -> Face {
    |s: Seq<u8>| spec_face_of_bytes(s)
}

/// The first `n` 12-byte items of `b`, decoded with `dec`.
pub open spec fn spec_items_of_bytes<T>(b: Seq<u8>, n: nat, dec: spec_fn(Seq<u8>) -> T) -> Seq<T>
    decreases n,
{
    if n == 0 {
        Seq::empty()
    } else {
        seq![dec(b.take(12))] + spec_items_of_bytes(b.skip(12), (n - 1) as nat, dec)
    }
}

/// Reads the count field at `off` and checks that its whole section is
/// present: `Ok(c)` when the four count bytes exist, the count is
/// non-negative as a signed 32-bit integer, and `12 * c` item bytes follow.
pub open spec fn spec_section_count(b: Seq<u8>, off: int) -> Result<nat, BinError> {
    if off + 4 > b.len() {
        Err(BinError::Truncated)
    } else {
        let c = spec_u32_from_le_bytes(b.subrange(off, off + 4));
        if c > 0x7fff_ffff {
            Err(BinError::NegativeCount)
        } else if off + 4 + 12 * (c as int) > b.len() {
            Err(BinError::Truncated)
        } else {
            Ok(c as nat)
        }
    }
}

/// The mesh encoded by `b`, or the first error a strict left-to-right read
/// of the layout meets. Exactly the byte sequences produced by
/// `spec_encode` on a mesh with representable counts decode successfully.
pub open spec fn spec_read_binary(b: Seq<u8>) -> Result<MeshView, BinError> {
    match spec_section_count(b, 0) {
        Err(e) => Err(e),
        Ok(nv) => {
            let vs = spec_items_of_bytes(b.skip(4), nv, vertex_dec());
            let noff = 4 + 12 * (nv as int);
            match spec_section_count(b, noff) {
                Err(e) => Err(e),
                Ok(nn) => {
                    let ns = spec_items_of_bytes(b.skip(noff + 4), nn, normal_dec());
                    let foff = noff + 4 + 12 * (nn as int);
                    match spec_section_count(b, foff) {
                        Err(e) => Err(e),
                        Ok(nf) => {
                            let fs = spec_items_of_bytes(b.skip(foff + 4), nf, face_dec());
                            if foff + 4 + 12 * (nf as int) == b.len() {
                                Ok(MeshView { vertices: vs, normals: ns, faces: fs })
                            } else {
                                Err(BinError::TrailingBytes)
                            }
                        },
                    }
                },
            }
        },
    }
}

/// Length and elementwise description of `spec_items_of_bytes`.
pub proof fn lemma_items_of_bytes_index<T>(b: Seq<u8>, n: nat, dec: spec_fn(Seq<u8>) -> T)
    requires
        12 * n <= b.len(),
    ensures
        spec_items_of_bytes(b, n, dec).len() == n,
        forall|i: int|
            0 <= i < n ==> #[trigger] spec_items_of_bytes(b, n, dec)[i] == dec(
                b.subrange(12 * i, 12 * i + 12),
            ),
    decreases n,
{
    if n > 0 {
        lemma_items_of_bytes_index(b.skip(12), (n - 1) as nat, dec);
        assert forall|i: int| 0 <= i < n implies #[trigger] spec_items_of_bytes(b, n, dec)[i]
            == dec(b.subrange(12 * i, 12 * i + 12)) by {
            if i == 0 {
                assert(b.take(12) =~= b.subrange(0, 12));
            } else {
                assert(b.skip(12).subrange(12 * (i - 1), 12 * (i - 1) + 12) =~= b.subrange(
                    12 * i,
                    12 * i + 12,
                ));
            }
        }
    }
}

// ---------------------------------------------------------------------------
// Round-trip laws.
// ---------------------------------------------------------------------------

/// `spec_items_bytes` also decomposes at the front.
proof fn lemma_items_bytes_head<T>(items: Seq<T>, enc: spec_fn(T) -> Seq<u8>)
    requires
        items.len() > 0,
    ensures
        spec_items_bytes(items, enc) == enc(items[0]) + spec_items_bytes(items.skip(1), enc),
    decreases items.len(),
{
    if items.len() == 1 {
        assert(items.drop_last() =~= Seq::<T>::empty());
        assert(items.skip(1) =~= Seq::<T>::empty());
        assert(spec_items_bytes(items, enc) =~= enc(items[0]) + spec_items_bytes(
            items.skip(1),
            enc,
        ));
    } else {
        lemma_items_bytes_head(items.drop_last(), enc);
        assert(items.drop_last()[0] == items[0]);
        assert(items.drop_last().skip(1) =~= items.skip(1).drop_last());
        assert(items.skip(1).last() == items.last());
        assert(spec_items_bytes(items.skip(1), enc) == spec_items_bytes(
            items.skip(1).drop_last(),
            enc,
        ) + enc(items.skip(1).last()));
        assert(spec_items_bytes(items, enc) =~= enc(items[0]) + spec_items_bytes(
            items.skip(1),
            enc,
        ));
    }
}

/// Encoding a sequence of items and decoding the same number of items from
/// the front of the result (whatever follows it) gives the items back.
proof fn lemma_items_encode_then_decode<T>(
    items: Seq<T>,
    enc: spec_fn(T) -> Seq<u8>,
    dec: spec_fn(Seq<u8>) -> T,
    rest: Seq<u8>,
)
    requires
        forall|t: T| (#[trigger] enc(t)).len() == 12,
        forall|t: T| #[trigger] dec(enc(t)) == t,
    ensures
        spec_items_of_bytes(spec_items_bytes(items, enc) + rest, items.len(), dec) == items,
    decreases items.len(),
{
    if items.len() == 0 {
        assert(spec_items_of_bytes(spec_items_bytes(items, enc) + rest, 0, dec) =~= items);
    } else {
        lemma_items_bytes_head(items, enc);
        let tail_bytes = spec_items_bytes(items.skip(1), enc);
        let b = spec_items_bytes(items, enc) + rest;
        assert(b.take(12) =~= enc(items[0]));
        assert(b.skip(12) =~= tail_bytes + rest);
        lemma_items_encode_then_decode(items.skip(1), enc, dec, rest);
        assert(spec_items_of_bytes(b, items.len(), dec) =~= items);
    }
}

/// Decoding `n` items and re-encoding them reproduces the first `12 * n`
/// bytes exactly.
proof fn lemma_items_decode_then_encode<T>(
    b: Seq<u8>,
    n: nat,
    enc: spec_fn(T) -> Seq<u8>,
    dec: spec_fn(Seq<u8>) -> T,
)
    requires
        12 * n <= b.len(),
        forall|s: Seq<u8>| s.len() == 12 ==> #[trigger] enc(dec(s)) == s,
    ensures
        spec_items_bytes(spec_items_of_bytes(b, n, dec), enc) == b.take(12 * n as int),
    decreases n,
{
    if n == 0 {
        assert(spec_items_bytes(spec_items_of_bytes(b, 0, dec), enc) =~= b.take(0));
    } else {
        let items = spec_items_of_bytes(b, n, dec);
        lemma_items_of_bytes_index(b, n, dec);
        lemma_items_bytes_head(items, enc);
        assert(items.skip(1) =~= spec_items_of_bytes(b.skip(12), (n - 1) as nat, dec));
        lemma_items_decode_then_encode(b.skip(12), (n - 1) as nat, enc, dec);
        assert(b.take(12).len() == 12);
        assert(enc(dec(b.take(12))) == b.take(12));
        assert(items[0] == dec(b.take(12)));
        assert(spec_items_bytes(items, enc) == b.take(12) + b.skip(12).take(12 * (n - 1)));
        assert(b.take(12) + b.skip(12).take(12 * (n - 1)) =~= b.take(12 * n as int));
    }
}

/// The vertex encoder and decoder are mutually inverse on 12-byte chunks.
proof fn lemma_vertex_codec()
    ensures
        forall|v: Vertex| (#[trigger] vertex_enc()(v)).len() == 12,
        forall|v: Vertex| #[trigger] vertex_dec()(vertex_enc()(v)) == v,
        forall|s: Seq<u8>| s.len() == 12 ==> #[trigger] vertex_enc()(vertex_dec()(s)) == s,
{
    lemma_auto_spec_u32_to_from_le_bytes();
    assert forall|v: Vertex| (#[trigger] vertex_enc()(v)).len() == 12
        && #[trigger] vertex_dec()(vertex_enc()(v)) == v by {
        let b = spec_vertex_bytes(v);
        assert(b.subrange(0, 4) =~= spec_u32_to_le_bytes(v.x));
        assert(b.subrange(4, 8) =~= spec_u32_to_le_bytes(v.y));
        assert(b.subrange(8, 12) =~= spec_u32_to_le_bytes(v.z));
    }
    assert forall|s: Seq<u8>| s.len() == 12 implies #[trigger] vertex_enc()(vertex_dec()(s))
        == s by {
        assert(vertex_enc()(vertex_dec()(s)) =~= s);
    }
}

/// The normal encoder and decoder are mutually inverse on 12-byte chunks.
proof fn lemma_normal_codec()
    ensures
        forall|v: Normal| (#[trigger] normal_enc()(v)).len() == 12,
        forall|v: Normal| #[trigger] normal_dec()(normal_enc()(v)) == v,
        forall|s: Seq<u8>| s.len() == 12 ==> #[trigger] normal_enc()(normal_dec()(s)) == s,
{
    lemma_auto_spec_u32_to_from_le_bytes();
    assert forall|v: Normal| (#[trigger] normal_enc()(v)).len() == 12
        && #[trigger] normal_dec()(normal_enc()(v)) == v by {
        let b = spec_normal_bytes(v);
        assert(b.subrange(0, 4) =~= spec_u32_to_le_bytes(v.x));
        assert(b.subrange(4, 8) =~= spec_u32_to_le_bytes(v.y));
        assert(b.subrange(8, 12) =~= spec_u32_to_le_bytes(v.z));
    }
    assert forall|s: Seq<u8>| s.len() == 12 implies #[trigger] normal_enc()(normal_dec()(s))
        == s by {
        assert(normal_enc()(normal_dec()(s)) =~= s);
    }
}

/// The face encoder and decoder are mutually inverse on 12-byte chunks.
proof fn lemma_face_codec()
    ensures
        forall|f: Face| (#[trigger] face_enc()(f)).len() == 12,
        forall|f: Face| #[trigger] face_dec()(face_enc()(f)) == f,
        forall|s: Seq<u8>| s.len() == 12 ==> #[trigger] face_enc()(face_dec()(s)) == s,
{
    lemma_auto_spec_u32_to_from_le_bytes();
    assert forall|f: Face| (#[trigger] face_enc()(f)).len() == 12 && #[trigger] face_dec()(
        face_enc()(f),
    ) == f by {
        let b = spec_face_bytes(f);
        assert(b.subrange(0, 4) =~= spec_u32_to_le_bytes(u32_of_i32(f.v1)));
        assert(b.subrange(4, 8) =~= spec_u32_to_le_bytes(u32_of_i32(f.v2)));
        assert(b.subrange(8, 12) =~= spec_u32_to_le_bytes(u32_of_i32(f.v3)));
    }
    assert forall|s: Seq<u8>| s.len() == 12 implies #[trigger] face_enc()(face_dec()(s)) == s by {
        assert(face_enc()(face_dec()(s)) =~= s);
    }
}

/// Round-trip law, encode side: the binary image of any mesh whose counts
/// fit the format reads back as exactly that mesh — every vertex, normal and
/// face in its original position.
pub proof fn lemma_encode_then_read(m: MeshView)
    requires
        m.counts_representable(),
    ensures
        spec_read_binary(spec_encode(m)) == Ok::<MeshView, BinError>(m),
{
    lemma_auto_spec_u32_to_from_le_bytes();
    lemma_vertex_codec();
    lemma_normal_codec();
    lemma_face_codec();
    lemma_items_bytes_len(m.vertices, vertex_enc());
    lemma_items_bytes_len(m.normals, normal_enc());
    lemma_items_bytes_len(m.faces, face_enc());

    let b = spec_encode(m);
    let nv = m.vertices.len();
    let nn = m.normals.len();
    let nf = m.faces.len();
    let c1 = spec_count_bytes(nv);
    let i1 = spec_items_bytes(m.vertices, vertex_enc());
    let c2 = spec_count_bytes(nn);
    let i2 = spec_items_bytes(m.normals, normal_enc());
    let c3 = spec_count_bytes(nf);
    let i3 = spec_items_bytes(m.faces, face_enc());
    let noff: int = 4 + 12 * (nv as int);
    let foff: int = noff + 4 + 12 * (nn as int);

    assert(b.len() == foff + 4 + 12 * (nf as int));
    assert(b.subrange(0, 4) =~= c1);
    assert(spec_u32_from_le_bytes(c1) == nv as u32);
    assert(spec_section_count(b, 0) == Ok::<nat, BinError>(nv));

    assert(b.skip(4) =~= i1 + (c2 + i2 + c3 + i3));
    lemma_items_encode_then_decode(m.vertices, vertex_enc(), vertex_dec(), c2 + i2 + c3 + i3);
    assert(spec_items_of_bytes(b.skip(4), nv, vertex_dec()) == m.vertices);

    assert(b.subrange(noff, noff + 4) =~= c2);
    assert(spec_u32_from_le_bytes(c2) == nn as u32);
    assert(spec_section_count(b, noff) == Ok::<nat, BinError>(nn));

    assert(b.skip(noff + 4) =~= i2 + (c3 + i3));
    lemma_items_encode_then_decode(m.normals, normal_enc(), normal_dec(), c3 + i3);
    assert(spec_items_of_bytes(b.skip(noff + 4), nn, normal_dec()) == m.normals);

    assert(b.subrange(foff, foff + 4) =~= c3);
    assert(spec_u32_from_le_bytes(c3) == nf as u32);
    assert(spec_section_count(b, foff) == Ok::<nat, BinError>(nf));

    assert(b.skip(foff + 4) =~= i3 + Seq::<u8>::empty());
    lemma_items_encode_then_decode(m.faces, face_enc(), face_dec(), Seq::<u8>::empty());
    assert(spec_items_of_bytes(b.skip(foff + 4), nf, face_dec()) == m.faces);

    assert(spec_read_binary(b)->Ok_0 =~= m);
}

/// Round-trip law, read side: any byte sequence that reads successfully is
/// reproduced byte for byte by writing the mesh that was read (and the mesh
/// that was read has representable counts).
pub proof fn lemma_read_then_encode(b: Seq<u8>)
    requires
        spec_read_binary(b) is Ok,
    ensures
        (spec_read_binary(b)->Ok_0).counts_representable(),
        spec_encode(spec_read_binary(b)->Ok_0) == b,
{
    lemma_auto_spec_u32_to_from_le_bytes();
    lemma_vertex_codec();
    lemma_normal_codec();
    lemma_face_codec();

    let nv = spec_section_count(b, 0)->Ok_0;
    let noff: int = 4 + 12 * (nv as int);
    let nn = spec_section_count(b, noff)->Ok_0;
    let foff: int = noff + 4 + 12 * (nn as int);
    let nf = spec_section_count(b, foff)->Ok_0;
    let m = spec_read_binary(b)->Ok_0;

    lemma_items_of_bytes_index(b.skip(4), nv, vertex_dec());
    lemma_items_of_bytes_index(b.skip(noff + 4), nn, normal_dec());
    lemma_items_of_bytes_index(b.skip(foff + 4), nf, face_dec());
    assert(m.vertices.len() == nv);
    assert(m.normals.len() == nn);
    assert(m.faces.len() == nf);

    assert(spec_u32_from_le_bytes(b.subrange(0, 4)) == nv as u32);
    assert(spec_count_bytes(nv) == spec_u32_to_le_bytes(spec_u32_from_le_bytes(b.subrange(0, 4))));
    assert(spec_count_bytes(nv) == b.subrange(0, 4));

    lemma_items_decode_then_encode(b.skip(4), nv, vertex_enc(), vertex_dec());
    assert(spec_items_bytes(m.vertices, vertex_enc()) == b.skip(4).take(12 * (nv as int)));
    assert(b.skip(4).take(12 * (nv as int)) =~= b.subrange(4, noff));

    assert(spec_u32_from_le_bytes(b.subrange(noff, noff + 4)) == nn as u32);
    assert(spec_count_bytes(nn) == b.subrange(noff, noff + 4));

    lemma_items_decode_then_encode(b.skip(noff + 4), nn, normal_enc(), normal_dec());
    assert(spec_items_bytes(m.normals, normal_enc()) == b.skip(noff + 4).take(12 * (nn as int)));
    assert(b.skip(noff + 4).take(12 * (nn as int)) =~= b.subrange(noff + 4, foff));

    assert(spec_u32_from_le_bytes(b.subrange(foff, foff + 4)) == nf as u32);
    assert(spec_count_bytes(nf) == b.subrange(foff, foff + 4));

    lemma_items_decode_then_encode(b.skip(foff + 4), nf, face_enc(), face_dec());
    assert(spec_items_bytes(m.faces, face_enc()) == b.skip(foff + 4).take(12 * (nf as int)));
    assert(foff + 4 + 12 * (nf as int) == b.len());
    assert(b.skip(foff + 4).take(12 * (nf as int)) =~= b.subrange(foff + 4, b.len() as int));

    assert(spec_encode(m) =~= b.subrange(0, 4) + b.subrange(4, noff) + b.subrange(noff, noff + 4)
        + b.subrange(noff + 4, foff) + b.subrange(foff, foff + 4) + b.subrange(
        foff + 4,
        b.len() as int,
    ));
    assert(b.subrange(0, 4) + b.subrange(4, noff) + b.subrange(noff, noff + 4) + b.subrange(
        noff + 4,
        foff,
    ) + b.subrange(foff, foff + 4) + b.subrange(foff + 4, b.len() as int) =~= b);
}

/// Order preservation across a binary round trip: every vertex, normal and
/// face comes back at its original position, so face indices keep referring
/// to the same relative vertex and normal positions — nothing is reordered
/// or deduplicated.
pub proof fn lemma_binary_round_trip_preserves_order(m: MeshView, i: int)
    requires
        m.counts_representable(),
    ensures
        spec_read_binary(spec_encode(m)) is Ok,
        ({
            let m2 = spec_read_binary(spec_encode(m))->Ok_0;
            &&& m2.vertices.len() == m.vertices.len()
            &&& m2.normals.len() == m.normals.len()
            &&& m2.faces.len() == m.faces.len()
            &&& (0 <= i < m.vertices.len() ==> m2.vertices[i] == m.vertices[i])
            &&& (0 <= i < m.normals.len() ==> m2.normals[i] == m.normals[i])
            &&& (0 <= i < m.faces.len() ==> m2.faces[i] == m.faces[i])
        }),
{
    lemma_encode_then_read(m);
}

// ---------------------------------------------------------------------------
// Executable reader and writer.
// ---------------------------------------------------------------------------

/// Appends the 4 little-endian bytes of `x`.
fn push_u32_le(out: &mut Vec<u8>, x: u32)
    ensures
        final(out)@ == old(out)@ + spec_u32_to_le_bytes(x),
{
    let mut b = u32_to_le_bytes(x);
    out.append(&mut b);
}

/// Reads the count field at `off` and checks its section is fully present.
fn read_section_count(bytes: &[u8], off: usize) -> (r: Result<usize, BinError>)
    requires
        off <= bytes@.len(),
    ensures
        match spec_section_count(bytes@, off as int) {
            Ok(c) => r is Ok && r->Ok_0 as nat == c && off + 4 + 12 * c <= bytes@.len(),
            Err(e) => r == Err::<usize, BinError>(e),
        },
{
    let len = bytes.len();
    if len - off < 4 {
        return Err(BinError::Truncated);
    }
    let cw = u32_from_le_bytes(slice_subrange(bytes, off, off + 4));
    if cw > 0x7fff_ffff {
        return Err(BinError::NegativeCount);
    }
    let avail = len - (off + 4);
    if (avail as u64) < 12u64 * (cw as u64) {
        return Err(BinError::Truncated);
    }
    Ok(cw as usize)
}

/// Reads `n` vertices of 12 bytes each, starting at `off`.
fn read_vertices(bytes: &[u8], off: usize, n: usize) -> (vs: Vec<Vertex>)
    requires
        off + 12 * n <= bytes@.len(),
    ensures
        vs@ == spec_items_of_bytes(bytes@.skip(off as int), n as nat, vertex_dec()),
        vs@.len() == n,
{
    let blen = bytes.len();
    proof {
        lemma_items_of_bytes_index(bytes@.skip(off as int), n as nat, vertex_dec());
    }
    let ghost target = spec_items_of_bytes(bytes@.skip(off as int), n as nat, vertex_dec());
    let mut vs: Vec<Vertex> = Vec::new();
    let mut i: usize = 0;
    while i < n
        invariant
            i <= n,
            off + 12 * n <= bytes@.len(),
            blen == bytes@.len(),
            vs@.len() == i,
            target == spec_items_of_bytes(bytes@.skip(off as int), n as nat, vertex_dec()),
            target.len() == n,
            forall|j: int| 0 <= j < i ==> vs@[j] == target[j],
        decreases n - i,
    {
        let base = off + 12 * i;
        let x = u32_from_le_bytes(slice_subrange(bytes, base, base + 4));
        let y = u32_from_le_bytes(slice_subrange(bytes, base + 4, base + 8));
        let z = u32_from_le_bytes(slice_subrange(bytes, base + 8, base + 12));
        proof {
            let b = bytes@.skip(off as int);
            lemma_items_of_bytes_index(b, n as nat, vertex_dec());
            let chunk = b.subrange(12 * (i as int), 12 * (i as int) + 12);
            assert(chunk.subrange(0, 4) =~= bytes@.subrange(base as int, base as int + 4));
            assert(chunk.subrange(4, 8) =~= bytes@.subrange(base as int + 4, base as int + 8));
            assert(chunk.subrange(8, 12) =~= bytes@.subrange(base as int + 8, base as int + 12));
            assert(spec_items_of_bytes(b, n as nat, vertex_dec())[i as int] == vertex_dec()(
                b.subrange(12 * (i as int), 12 * (i as int) + 12),
            ));
            assert(vertex_dec()(chunk) == spec_vertex_of_bytes(chunk));
        }
        vs.push(Vertex { x, y, z });
        i = i + 1;
    }
    proof {
        assert(vs@ =~= target);
    }
    vs
}

/// Reads `n` normals of 12 bytes each, starting at `off`.
fn read_normals(bytes: &[u8], off: usize, n: usize) -> (ns: Vec<Normal>)
    requires
        off + 12 * n <= bytes@.len(),
    ensures
        ns@ == spec_items_of_bytes(bytes@.skip(off as int), n as nat, normal_dec()),
        ns@.len() == n,
{
    let blen = bytes.len();
    proof {
        lemma_items_of_bytes_index(bytes@.skip(off as int), n as nat, normal_dec());
    }
    let ghost target = spec_items_of_bytes(bytes@.skip(off as int), n as nat, normal_dec());
    let mut ns: Vec<Normal> = Vec::new();
    let mut i: usize = 0;
    while i < n
        invariant
            i <= n,
            off + 12 * n <= bytes@.len(),
            blen == bytes@.len(),
            ns@.len() == i,
            target == spec_items_of_bytes(bytes@.skip(off as int), n as nat, normal_dec()),
            target.len() == n,
            forall|j: int| 0 <= j < i ==> ns@[j] == target[j],
        decreases n - i,
    {
        let base = off + 12 * i;
        let x = u32_from_le_bytes(slice_subrange(bytes, base, base + 4));
        let y = u32_from_le_bytes(slice_subrange(bytes, base + 4, base + 8));
        let z = u32_from_le_bytes(slice_subrange(bytes, base + 8, base + 12));
        proof {
            let b = bytes@.skip(off as int);
            lemma_items_of_bytes_index(b, n as nat, normal_dec());
            let chunk = b.subrange(12 * (i as int), 12 * (i as int) + 12);
            assert(chunk.subrange(0, 4) =~= bytes@.subrange(base as int, base as int + 4));
            assert(chunk.subrange(4, 8) =~= bytes@.subrange(base as int + 4, base as int + 8));
            assert(chunk.subrange(8, 12) =~= bytes@.subrange(base as int + 8, base as int + 12));
            assert(spec_items_of_bytes(b, n as nat, normal_dec())[i as int] == normal_dec()(
                b.subrange(12 * (i as int), 12 * (i as int) + 12),
            ));
            assert(normal_dec()(chunk) == spec_normal_of_bytes(chunk));
        }
        ns.push(Normal { x, y, z });
        i = i + 1;
    }
    proof {
        assert(ns@ =~= target);
    }
    ns
}

/// Reads `n` faces of 12 bytes each, starting at `off`.
fn read_faces(bytes: &[u8], off: usize, n: usize) -> (fs: Vec<Face>)
    requires
        off + 12 * n <= bytes@.len(),
    ensures
        fs@ == spec_items_of_bytes(bytes@.skip(off as int), n as nat, face_dec()),
        fs@.len() == n,
{
    let blen = bytes.len();
    proof {
        lemma_items_of_bytes_index(bytes@.skip(off as int), n as nat, face_dec());
    }
    let ghost target = spec_items_of_bytes(bytes@.skip(off as int), n as nat, face_dec());
    let mut fs: Vec<Face> = Vec::new();
    let mut i: usize = 0;
    while i < n
        invariant
            i <= n,
            off + 12 * n <= bytes@.len(),
            blen == bytes@.len(),
            fs@.len() == i,
            target == spec_items_of_bytes(bytes@.skip(off as int), n as nat, face_dec()),
            target.len() == n,
            forall|j: int| 0 <= j < i ==> fs@[j] == target[j],
        decreases n - i,
    {
        let base = off + 12 * i;
        let v1 = u32_to_i32(u32_from_le_bytes(slice_subrange(bytes, base, base + 4)));
        let v2 = u32_to_i32(u32_from_le_bytes(slice_subrange(bytes, base + 4, base + 8)));
        let v3 = u32_to_i32(u32_from_le_bytes(slice_subrange(bytes, base + 8, base + 12)));
        proof {
            let b = bytes@.skip(off as int);
            lemma_items_of_bytes_index(b, n as nat, face_dec());
            let chunk = b.subrange(12 * (i as int), 12 * (i as int) + 12);
            assert(chunk.subrange(0, 4) =~= bytes@.subrange(base as int, base as int + 4));
            assert(chunk.subrange(4, 8) =~= bytes@.subrange(base as int + 4, base as int + 8));
            assert(chunk.subrange(8, 12) =~= bytes@.subrange(base as int + 8, base as int + 12));
            assert(spec_items_of_bytes(b, n as nat, face_dec())[i as int] == face_dec()(
                b.subrange(12 * (i as int), 12 * (i as int) + 12),
            ));
            assert(face_dec()(chunk) == spec_face_of_bytes(chunk));
        }
        fs.push(Face { v1, v2, v3 });
        i = i + 1;
    }
    proof {
        assert(fs@ =~= target);
    }
    fs
}

impl OBJ {
    /// Replaces this mesh with the one encoded in `bytes`, or reports why
    /// the bytes are not a valid encoding, leaving the mesh empty. Succeeds
    /// exactly on the byte sequences that `spec_read_binary` accepts.
    #[allow(non_snake_case)]
    pub fn ReadBinary(&mut self, bytes: &[u8]) -> (r: Result<(), BinError>)
        ensures
            final(self).wf(),
            spec_read_binary(bytes@) is Ok ==> r is Ok && final(self)@ == spec_read_binary(
                bytes@,
            )->Ok_0,
            spec_read_binary(bytes@) is Err ==> r == Err::<(), BinError>(
                spec_read_binary(bytes@)->Err_0,
            ) && final(self)@ == MeshView::empty(),
    {
        self.reset();
        let blen = bytes.len();
        let nv = match read_section_count(bytes, 0) {
            Ok(c) => c,
            Err(e) => {
                return Err(e);
            },
        };
        let vs = read_vertices(bytes, 4, nv);
        let noff = 4 + 12 * nv;
        let nn = match read_section_count(bytes, noff) {
            Ok(c) => c,
            Err(e) => {
                return Err(e);
            },
        };
        let ns = read_normals(bytes, noff + 4, nn);
        let foff = noff + 4 + 12 * nn;
        let nf = match read_section_count(bytes, foff) {
            Ok(c) => c,
            Err(e) => {
                return Err(e);
            },
        };
        let fs = read_faces(bytes, foff + 4, nf);
        if foff + 4 + 12 * nf != bytes.len() {
            return Err(BinError::TrailingBytes);
        }
        *self = OBJ::from_parts(vs, ns, fs);
        proof {
            assert(self@ =~= spec_read_binary(bytes@)->Ok_0);
        }
        Ok(())
    }

    /// Encodes this mesh in the binary layout: the result is exactly
    /// `spec_encode` of the mesh's model.
    #[allow(non_snake_case)]
    pub fn WriteAsBinary(&self) -> (out: Vec<u8>)
        requires
            self.wf(),
        ensures
            out@ == spec_encode(self@),
    {
        let mut out: Vec<u8> = Vec::new();

        let nv = self.vertex_count();
        push_u32_le(&mut out, nv as u32);
        let ghost sec1 = spec_count_bytes(self@.vertices.len());
        proof {
            assert(out@ =~= sec1 + spec_items_bytes(self@.vertices.take(0), vertex_enc()));
        }
        let mut i: usize = 0;
        let nvu = nv as usize;
        while i < nvu
            invariant
                i <= nvu,
                self.wf(),
                nvu == self@.vertices.len(),
                sec1 == spec_count_bytes(self@.vertices.len()),
                out@ == sec1 + spec_items_bytes(self@.vertices.take(i as int), vertex_enc()),
            decreases nvu - i,
        {
            let v = self.vertex(i);
            push_u32_le(&mut out, v.x);
            push_u32_le(&mut out, v.y);
            push_u32_le(&mut out, v.z);
            proof {
                let vs = self@.vertices;
                assert(vs.take(i + 1).drop_last() =~= vs.take(i as int));
                assert(vs.take(i + 1).last() == vs[i as int]);
                assert(spec_items_bytes(vs.take(i + 1), vertex_enc()) == spec_items_bytes(
                    vs.take(i as int),
                    vertex_enc(),
                ) + spec_vertex_bytes(vs[i as int]));
                assert(out@ =~= sec1 + spec_items_bytes(vs.take(i + 1), vertex_enc()));
            }
            i = i + 1;
        }
        proof {
            assert(self@.vertices.take(nvu as int) =~= self@.vertices);
        }
        let ghost part1 = sec1 + spec_items_bytes(self@.vertices, vertex_enc());

        let nn = self.normal_count();
        push_u32_le(&mut out, nn as u32);
        let ghost sec2 = spec_count_bytes(self@.normals.len());
        proof {
            assert(out@ =~= part1 + sec2 + spec_items_bytes(self@.normals.take(0), normal_enc()));
        }
        let mut i: usize = 0;
        let nnu = nn as usize;
        while i < nnu
            invariant
                i <= nnu,
                self.wf(),
                nnu == self@.normals.len(),
                sec2 == spec_count_bytes(self@.normals.len()),
                part1 == spec_count_bytes(self@.vertices.len()) + spec_items_bytes(
                    self@.vertices,
                    vertex_enc(),
                ),
                out@ == part1 + sec2 + spec_items_bytes(self@.normals.take(i as int), normal_enc()),
            decreases nnu - i,
        {
            let n = self.normal(i);
            push_u32_le(&mut out, n.x);
            push_u32_le(&mut out, n.y);
            push_u32_le(&mut out, n.z);
            proof {
                let ns = self@.normals;
                assert(ns.take(i + 1).drop_last() =~= ns.take(i as int));
                assert(ns.take(i + 1).last() == ns[i as int]);
                assert(spec_items_bytes(ns.take(i + 1), normal_enc()) == spec_items_bytes(
                    ns.take(i as int),
                    normal_enc(),
                ) + spec_normal_bytes(ns[i as int]));
                assert(out@ =~= part1 + sec2 + spec_items_bytes(ns.take(i + 1), normal_enc()));
            }
            i = i + 1;
        }
        proof {
            assert(self@.normals.take(nnu as int) =~= self@.normals);
        }
        let ghost part2 = part1 + sec2 + spec_items_bytes(self@.normals, normal_enc());

        let nf = self.face_count();
        push_u32_le(&mut out, nf as u32);
        let ghost sec3 = spec_count_bytes(self@.faces.len());
        proof {
            assert(out@ =~= part2 + sec3 + spec_items_bytes(self@.faces.take(0), face_enc()));
        }
        let mut i: usize = 0;
        let nfu = nf as usize;
        while i < nfu
            invariant
                i <= nfu,
                self.wf(),
                nfu == self@.faces.len(),
                sec3 == spec_count_bytes(self@.faces.len()),
                part2 == part1 + spec_count_bytes(self@.normals.len()) + spec_items_bytes(
                    self@.normals,
                    normal_enc(),
                ),
                part1 == spec_count_bytes(self@.vertices.len()) + spec_items_bytes(
                    self@.vertices,
                    vertex_enc(),
                ),
                out@ == part2 + sec3 + spec_items_bytes(self@.faces.take(i as int), face_enc()),
            decreases nfu - i,
        {
            let f = self.face(i);
            push_u32_le(&mut out, i32_to_u32(f.v1));
            push_u32_le(&mut out, i32_to_u32(f.v2));
            push_u32_le(&mut out, i32_to_u32(f.v3));
            proof {
                let fs = self@.faces;
                assert(fs.take(i + 1).drop_last() =~= fs.take(i as int));
                assert(fs.take(i + 1).last() == fs[i as int]);
                assert(spec_items_bytes(fs.take(i + 1), face_enc()) == spec_items_bytes(
                    fs.take(i as int),
                    face_enc(),
                ) + spec_face_bytes(fs[i as int]));
                assert(out@ =~= part2 + sec3 + spec_items_bytes(fs.take(i + 1), face_enc()));
            }
            i = i + 1;
        }
        proof {
            assert(self@.faces.take(nfu as int) =~= self@.faces);
            assert(out@ =~= spec_encode(self@));
        }
        out
    }
}

} // verus!
