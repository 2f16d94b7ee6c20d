//! The codec's round-trip law: wherever the encoding of a value stands in
//! a buffer, decoding there yields that value back and consumes exactly
//! the encoding.

use vstd::prelude::*;
use vstd::utf8::{encode_utf8, encode_utf8_decode_utf8, encode_utf8_valid_utf8};

use crate::codec::{
    elems_enc, encodable, lemma_upsert_all_unique, pairs_enc, parse_elems, parse_pairs,
    parse_sized, parse_typed, sized_enc, typed_enc, TypedV,
};
use crate::stream::CodecError;
use crate::varint::{lemma_uvarint_round_trip, lemma_zigzag_round_trip, uvarint_enc, zigzag};

verus! {

/// A piece of a run that stands in a buffer stands there too, at its
/// offset.
proof fn lemma_part_at(data: Seq<u8>, pos: int, whole: Seq<u8>, off: int, len: int)
    requires
        0 <= pos,
        pos + whole.len() <= data.len(),
        data.subrange(pos, pos + whole.len() as int) == whole,
        0 <= off,
        0 <= len,
        off + len <= whole.len(),
    ensures
        data.subrange(pos + off, pos + off + len) == whole.subrange(off, off + len),
{
    assert forall|j: int| 0 <= j < len implies #[trigger] data[pos + off + j] == whole[off + j] by {
        assert(data.subrange(pos, pos + whole.len() as int)[off + j] == whole[off + j]);
    }
    assert(data.subrange(pos + off, pos + off + len) =~= whole.subrange(off, off + len));
}

/// Every encoding opens with its tag byte.
proof fn lemma_typed_enc_len(v: TypedV)
    ensures
        1 <= typed_enc(v).len(),
{
}

/// Law: sized round-trip. Wherever the framing of a byte run — varint
/// length, then the bytes — stands in a buffer, reading a sized run there
/// yields the bytes back and consumes exactly the framing.
pub proof fn lemma_sized_round_trip(data: Seq<u8>, pos: int, b: Seq<u8>)
    requires
        b.len() < 0x1_0000_0000_0000_0000,
        0 <= pos,
        pos + sized_enc(b).len() <= data.len(),
        data.subrange(pos, pos + sized_enc(b).len() as int) == sized_enc(b),
    ensures
        parse_sized(data, pos) == Ok::<(Seq<u8>, int), CodecError>(
            (b, pos + sized_enc(b).len()),
        ),
{
    let u = b.len() as u64;
    let ue = uvarint_enc(u as nat);
    lemma_part_at(data, pos, sized_enc(b), 0, ue.len() as int);
    assert(sized_enc(b).subrange(0, ue.len() as int) =~= ue);
    lemma_uvarint_round_trip(data, pos, u);
    let p1 = pos + ue.len();
    lemma_part_at(data, pos, sized_enc(b), ue.len() as int, b.len() as int);
    assert(sized_enc(b).subrange(ue.len() as int, sized_enc(b).len() as int) =~= b);
    assert(data.subrange(p1, p1 + b.len()) == b);
}

/// Law: value round-trip. Wherever the encoding of an encodable value
/// stands in a buffer, reading one tagged value there yields the value
/// back and consumes exactly the encoding. Text survives because what was
/// written is its exact UTF-8, which the lossy decode maps back to the
/// same characters; maps survive because their keys are unique, so the
/// last-write-wins fold re-reads the entries exactly as written.
pub proof fn lemma_typed_round_trip(data: Seq<u8>, pos: int, v: TypedV)
    requires
        encodable(v),
        0 <= pos,
        pos + typed_enc(v).len() <= data.len(),
        data.subrange(pos, pos + typed_enc(v).len() as int) == typed_enc(v),
    ensures
        parse_typed(data, pos) == Ok::<(TypedV, int), CodecError>(
            (v, pos + typed_enc(v).len()),
        ),
    decreases v, 0int, 0int,
{
    let enc = typed_enc(v);
    assert(data[pos] == enc[0]);
    match v {
        TypedV::Int(n) => {
            lemma_zigzag_round_trip(n);
            let u = zigzag(n) as u64;
            lemma_part_at(data, pos, enc, 1, uvarint_enc(u as nat).len() as int);
            assert(enc.subrange(1, enc.len() as int) =~= uvarint_enc(u as nat));
            lemma_uvarint_round_trip(data, pos + 1, u);
        },
        TypedV::Uint(u) => {
            lemma_part_at(data, pos, enc, 1, uvarint_enc(u).len() as int);
            assert(enc.subrange(1, enc.len() as int) =~= uvarint_enc(u));
            lemma_uvarint_round_trip(data, pos + 1, u as u64);
        },
        TypedV::Float(bits) => {
            lemma_part_at(data, pos, enc, 1, uvarint_enc(bits).len() as int);
            assert(enc.subrange(1, enc.len() as int) =~= uvarint_enc(bits));
            lemma_uvarint_round_trip(data, pos + 1, bits as u64);
        },
        TypedV::Bytes(b) => {
            lemma_part_at(data, pos, enc, 1, sized_enc(b).len() as int);
            assert(enc.subrange(1, enc.len() as int) =~= sized_enc(b));
            lemma_sized_round_trip(data, pos + 1, b);
        },
        TypedV::String(s) => {
            let b = encode_utf8(s);
            lemma_part_at(data, pos, enc, 1, sized_enc(b).len() as int);
            assert(enc.subrange(1, enc.len() as int) =~= sized_enc(b));
            lemma_sized_round_trip(data, pos + 1, b);
            encode_utf8_valid_utf8(s);
            encode_utf8_decode_utf8(s);
        },
        TypedV::List(l) => {
            assert(enc[1] == l.len() as u8);
            assert(data[pos + 1] == l.len() as u8);
            lemma_part_at(data, pos, enc, 2, elems_enc(l).len() as int);
            assert(enc.subrange(2, enc.len() as int) =~= elems_enc(l));
            assert(l.skip(0) =~= l);
            lemma_elems_round_trip(data, pos + 2, l, 0);
            assert((l.len() as u8) as nat == l.len());
        },
        TypedV::Dict(m) => {
            assert(enc[1] == m.len() as u8);
            assert(data[pos + 1] == m.len() as u8);
            lemma_part_at(data, pos, enc, 2, pairs_enc(m).len() as int);
            assert(enc.subrange(2, enc.len() as int) =~= pairs_enc(m));
            assert(m.skip(0) =~= m);
            lemma_pairs_round_trip(data, pos + 2, m, 0);
            assert((m.len() as u8) as nat == m.len());
            lemma_upsert_all_unique(Seq::empty(), m);
            assert(Seq::empty() + m =~= m);
        },
    }
}

/// The elements of a list from position `k` on decode back in order.
proof fn lemma_elems_round_trip(data: Seq<u8>, pos: int, l: Seq<TypedV>, k: int)
    requires
        0 <= k <= l.len(),
        forall|j: int| 0 <= j < l.len() ==> encodable(#[trigger] l[j]),
        0 <= pos,
        pos + elems_enc(l.skip(k)).len() <= data.len(),
        data.subrange(pos, pos + elems_enc(l.skip(k)).len() as int) == elems_enc(l.skip(k)),
    ensures
        parse_elems(data, pos, (l.len() - k) as nat) == Ok::<(Seq<TypedV>, int), CodecError>(
            (l.skip(k), pos + elems_enc(l.skip(k)).len()),
        ),
    decreases l, 1int, l.len() - k,
{
    if k == l.len() {
        assert(l.skip(k) =~= Seq::<TypedV>::empty());
    } else {
        let rest = l.skip(k);
        assert(rest[0] == l[k]);
        assert(rest.drop_first() =~= l.skip(k + 1));
        assert(elems_enc(rest) == typed_enc(l[k]) + elems_enc(l.skip(k + 1)));
        let e1 = typed_enc(l[k]).len() as int;
        lemma_part_at(data, pos, elems_enc(rest), 0, e1);
        assert(elems_enc(rest).subrange(0, e1) =~= typed_enc(l[k]));
        lemma_typed_round_trip(data, pos, l[k]);
        lemma_typed_enc_len(l[k]);
        lemma_part_at(data, pos, elems_enc(rest), e1, elems_enc(l.skip(k + 1)).len() as int);
        assert(elems_enc(rest).subrange(e1, elems_enc(rest).len() as int) =~= elems_enc(
            l.skip(k + 1),
        ));
        lemma_elems_round_trip(data, pos + e1, l, k + 1);
        assert(seq![l[k]] + l.skip(k + 1) =~= rest);
    }
}

/// The entries of a map from position `k` on decode back in order.
proof fn lemma_pairs_round_trip(data: Seq<u8>, pos: int, m: Seq<(Seq<char>, TypedV)>, k: int)
    requires
        0 <= k <= m.len(),
        forall|j: int|
            0 <= j < m.len() ==> encodable(#[trigger] m[j].1) && encode_utf8(m[j].0).len()
                < 0x1_0000_0000_0000_0000,
        0 <= pos,
        pos + pairs_enc(m.skip(k)).len() <= data.len(),
        data.subrange(pos, pos + pairs_enc(m.skip(k)).len() as int) == pairs_enc(m.skip(k)),
    ensures
        parse_pairs(data, pos, (m.len() - k) as nat) == Ok::<
            (Seq<(Seq<char>, TypedV)>, int),
            CodecError,
        >((m.skip(k), pos + pairs_enc(m.skip(k)).len())),
    decreases m, 1int, m.len() - k,
{
    if k == m.len() {
        assert(m.skip(k) =~= Seq::<(Seq<char>, TypedV)>::empty());
    } else {
        let rest = m.skip(k);
        assert(rest[0] == m[k]);
        assert(rest.drop_first() =~= m.skip(k + 1));
        let kb = encode_utf8(m[k].0);
        assert(pairs_enc(rest) == sized_enc(kb) + typed_enc(m[k].1) + pairs_enc(m.skip(k + 1)));
        let e1 = sized_enc(kb).len() as int;
        let e2 = typed_enc(m[k].1).len() as int;
        lemma_part_at(data, pos, pairs_enc(rest), 0, e1);
        assert(pairs_enc(rest).subrange(0, e1) =~= sized_enc(kb));
        lemma_sized_round_trip(data, pos, kb);
        encode_utf8_valid_utf8(m[k].0);
        encode_utf8_decode_utf8(m[k].0);
        lemma_part_at(data, pos, pairs_enc(rest), e1, e2);
        assert(pairs_enc(rest).subrange(e1, e1 + e2) =~= typed_enc(m[k].1));
        lemma_typed_round_trip(data, pos + e1, m[k].1);
        lemma_typed_enc_len(m[k].1);
        lemma_part_at(data, pos, pairs_enc(rest), e1 + e2, pairs_enc(m.skip(k + 1)).len() as int);
        assert(pairs_enc(rest).subrange(e1 + e2, pairs_enc(rest).len() as int) =~= pairs_enc(
            m.skip(k + 1),
        ));
        lemma_pairs_round_trip(data, pos + e1 + e2, m, k + 1);
        assert(seq![m[k]] + m.skip(k + 1) =~= rest);
    }
}

} // verus!

