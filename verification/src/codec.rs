//! The tagged-value codec: a recursive encoder and decoder for the
//! seven-variant value model, built on the varint layer.
//!
//! Every value carries a one-byte ASCII type tag. Scalars are varints
//! (signed ones zigzagged, floats by their bit pattern); byte strings,
//! text and map keys are length-prefixed byte runs; lists and maps carry a
//! single count byte, capped at 254, followed by their elements.

use vstd::prelude::*;
use vstd::utf8::{decode_utf8, encode_utf8, valid_utf8};

use crate::stream::{ByteReader, ByteWriter, CodecError};
use crate::varint::{
    lemma_parse_rec_ok, parse_uvarint, parse_varint, uvarint_enc, zigzag, VarintReadExt,
    VarintWriteExt,
};

verus! {

/// Tag byte for a signed integer, ASCII `i`.
pub const TAG_INT: u8 = 105;

/// Tag byte for an unsigned integer, ASCII `u`.
pub const TAG_UINT: u8 = 117;

/// Tag byte for a float bit pattern, ASCII `f`.
pub const TAG_FLOAT: u8 = 102;

/// Tag byte for a byte string, ASCII `b`.
pub const TAG_BYTES: u8 = 98;

/// Tag byte for UTF-8 text, ASCII `s`.
pub const TAG_STRING: u8 = 115;

/// Tag byte for an ordered list, ASCII `l`.
pub const TAG_LIST: u8 = 108;

/// Tag byte for a string-keyed map, ASCII `m`.
pub const TAG_MAP: u8 = 109;

/// Largest element or entry count a container may encode.
pub const MAX_CONTAINER_LEN: usize = 254;

/// What `String::from_utf8_lossy` returns on bytes that are not valid
/// UTF-8: a result this crate only names, never describes.
pub uninterp spec fn lossy_utf8(bytes: Seq<u8>) -> Seq<char>;

/// The characters a byte run decodes to: valid UTF-8 decodes exactly,
/// anything else goes through the named lossy replacement.
pub open spec fn lossy_decode(bytes: Seq<u8>) -> Seq<char> {
    if valid_utf8(bytes) {
        decode_utf8(bytes)
    } else {
        lossy_utf8(bytes)
    }
}

/// Relies on `String::from_utf8_lossy`: its documentation promises that
/// valid UTF-8 comes back unchanged — so the result's characters are
/// exactly the input's decoding — and that invalid byte runs come back
/// with replacement characters, a result this crate only names via
/// [`lossy_utf8`].
#[verifier::external_body]
fn from_utf8_lossy(bytes: &Vec<u8>) -> (r: String)
    ensures
        r@ == lossy_decode(bytes@),
        !valid_utf8(bytes@) ==> r@ == lossy_utf8(bytes@),
{
    String::from_utf8_lossy(bytes.as_slice()).into_owned()
}

/// The mathematical shape of a tagged value: what the exec [`Typed`] looks
/// like to contracts.
pub ghost enum TypedV {
    Int(int),
    Uint(nat),
    Float(nat),
    Bytes(Seq<u8>),
    String(Seq<char>),
    List(Seq<TypedV>),
    Dict(Seq<(Seq<char>, TypedV)>),
}

/// The byte encoding of a value: one tag byte, then the payload. Container
/// encodings are meaningful only for counts below 255, which is what
/// [`size_ok`] demands of anything actually encoded.
pub open spec fn typed_enc(v: TypedV) -> Seq<u8>
    decreases v,
{
    match v {
        TypedV::Int(n) => seq![TAG_INT] + uvarint_enc(zigzag(n)),
        TypedV::Uint(u) => seq![TAG_UINT] + uvarint_enc(u),
        TypedV::Float(bits) => seq![TAG_FLOAT] + uvarint_enc(bits),
        TypedV::Bytes(b) => seq![TAG_BYTES] + sized_enc(b),
        TypedV::String(s) => seq![TAG_STRING] + sized_enc(encode_utf8(s)),
        TypedV::List(l) => seq![TAG_LIST] + seq![l.len() as u8] + elems_enc(l),
        TypedV::Dict(m) => seq![TAG_MAP] + seq![m.len() as u8] + pairs_enc(m),
    }
}

/// The shared framing for byte strings, text and map keys: a varint length
/// prefix, then the raw bytes.
pub open spec fn sized_enc(b: Seq<u8>) -> Seq<u8> {
    uvarint_enc(b.len()) + b
}

/// The concatenated encodings of a list's elements, in order.
pub open spec fn elems_enc(l: Seq<TypedV>) -> Seq<u8>
    decreases l,
{
    if l.len() == 0 {
        seq![]
    } else {
        typed_enc(l[0]) + elems_enc(l.drop_first())
    }
}

/// The concatenated encodings of a map's entries, in order: sized key,
/// then the value.
pub open spec fn pairs_enc(m: Seq<(Seq<char>, TypedV)>) -> Seq<u8>
    decreases m,
{
    if m.len() == 0 {
        seq![]
    } else {
        sized_enc(encode_utf8(m[0].0)) + typed_enc(m[0].1) + pairs_enc(m.drop_first())
    }
}

/// Every container in the value is small enough to encode: at most 254
/// elements or entries. This is exactly what encoding checks; a value that
/// fails it is refused with [`CodecError::ContainerTooLarge`].
pub open spec fn size_ok(v: TypedV) -> bool
    decreases v,
{
    match v {
        TypedV::List(l) => l.len() <= 254 && (forall|j: int|
            0 <= j < l.len() ==> size_ok(#[trigger] l[j])),
        TypedV::Dict(m) => m.len() <= 254 && (forall|j: int|
            0 <= j < m.len() ==> size_ok(#[trigger] m[j].1)),
        _ => true,
    }
}

/// No two entries share a key.
pub open spec fn dict_keys_unique(m: Seq<(Seq<char>, TypedV)>) -> bool {
    forall|i: int, j: int| 0 <= i < j < m.len() ==> m[i].0 != m[j].0
}

/// A value a round trip is promised for: containers within the count cap,
/// map keys unique, and every scalar and length within its machine range.
/// Values built from the exec types satisfy all of this by construction;
/// only arbitrary mathematical values can step outside it.
pub open spec fn encodable(v: TypedV) -> bool
    decreases v,
{
    match v {
        TypedV::Int(n) => -0x8000_0000_0000_0000 <= n < 0x8000_0000_0000_0000,
        TypedV::Uint(u) => u < 0x1_0000_0000_0000_0000,
        TypedV::Float(bits) => bits < 0x1_0000_0000_0000_0000,
        TypedV::Bytes(b) => b.len() < 0x1_0000_0000_0000_0000,
        TypedV::String(s) => encode_utf8(s).len() < 0x1_0000_0000_0000_0000,
        TypedV::List(l) => l.len() <= 254 && (forall|j: int|
            0 <= j < l.len() ==> encodable(#[trigger] l[j])),
        TypedV::Dict(m) => {
            &&& m.len() <= 254
            &&& dict_keys_unique(m)
            &&& forall|j: int|
                0 <= j < m.len() ==> encodable(#[trigger] m[j].1) && encode_utf8(m[j].0).len()
                    < 0x1_0000_0000_0000_0000
        },
    }
}

/// Insert with last-write-wins: replace the value of an existing key in
/// place, else append the new entry at the end.
pub open spec fn upsert(m: Seq<(Seq<char>, TypedV)>, k: Seq<char>, v: TypedV) -> Seq<
    (Seq<char>, TypedV),
>
    decreases m.len(),
{
    if m.len() == 0 {
        seq![(k, v)]
    } else if m[0].0 == k {
        seq![(k, v)] + m.drop_first()
    } else {
        seq![m[0]] + upsert(m.drop_first(), k, v)
    }
}

/// Fold [`upsert`] over a run of entries, first to last.
pub open spec fn upsert_all(
    m: Seq<(Seq<char>, TypedV)>,
    ps: Seq<(Seq<char>, TypedV)>,
) -> Seq<(Seq<char>, TypedV)>
    decreases ps.len(),
{
    if ps.len() == 0 {
        m
    } else {
        upsert_all(upsert(m, ps[0].0, ps[0].1), ps.drop_first())
    }
}

/// What reading a sized byte run at `pos` yields: a varint length, then
/// exactly that many raw bytes.
pub open spec fn parse_sized(data: Seq<u8>, pos: int) -> Result<(Seq<u8>, int), CodecError> {
    match parse_uvarint(data, pos) {
        Ok((n, p)) => if p + n <= data.len() {
            Ok((data.subrange(p, p + n), p + n))
        } else {
            Err(CodecError::UnexpectedEndOfInput)
        },
        Err(e) => Err(e),
    }
}

/// What reading one tagged value at `pos` yields: dispatch on the tag
/// byte; an unrecognized tag fails with [`CodecError::UnknownTypeTag`]
/// carrying that byte.
pub open spec fn parse_typed(data: Seq<u8>, pos: int) -> Result<(TypedV, int), CodecError>
    decreases data.len() - pos, 0int, 0int,
{
    if pos < 0 || pos >= data.len() {
        Err(CodecError::UnexpectedEndOfInput)
    } else {
        let t = data[pos];
        let p = pos + 1;
        if t == TAG_INT {
            match parse_varint(data, p) {
                Ok((n, e)) => Ok((TypedV::Int(n), e)),
                Err(er) => Err(er),
            }
        } else if t == TAG_UINT {
            match parse_uvarint(data, p) {
                Ok((u, e)) => Ok((TypedV::Uint(u), e)),
                Err(er) => Err(er),
            }
        } else if t == TAG_FLOAT {
            match parse_uvarint(data, p) {
                Ok((u, e)) => Ok((TypedV::Float(u), e)),
                Err(er) => Err(er),
            }
        } else if t == TAG_BYTES {
            match parse_sized(data, p) {
                Ok((b, e)) => Ok((TypedV::Bytes(b), e)),
                Err(er) => Err(er),
            }
        } else if t == TAG_STRING {
            match parse_sized(data, p) {
                Ok((b, e)) => Ok((TypedV::String(lossy_decode(b)), e)),
                Err(er) => Err(er),
            }
        } else if t == TAG_LIST {
            match parse_list_at(data, p) {
                Ok((l, e)) => Ok((TypedV::List(l), e)),
                Err(er) => Err(er),
            }
        } else if t == TAG_MAP {
            match parse_map_at(data, p) {
                Ok((ps, e)) => Ok((TypedV::Dict(upsert_all(Seq::empty(), ps)), e)),
                Err(er) => Err(er),
            }
        } else {
            Err(CodecError::UnknownTypeTag(t))
        }
    }
}

/// What reading a list body at `pos` yields: a count byte, then that many
/// tagged values, in order.
pub open spec fn parse_list_at(data: Seq<u8>, pos: int) -> Result<(Seq<TypedV>, int), CodecError>
    decreases data.len() - pos, 2int, 0int,
{
    if pos < 0 || pos >= data.len() {
        Err(CodecError::UnexpectedEndOfInput)
    } else {
        parse_elems(data, pos + 1, data[pos] as nat)
    }
}

/// What reading `count` consecutive tagged values at `pos` yields.
pub open spec fn parse_elems(data: Seq<u8>, pos: int, count: nat) -> Result<
    (Seq<TypedV>, int),
    CodecError,
>
    decreases data.len() - pos, 1int, count,
{
    if count == 0 {
        Ok((seq![], pos))
    } else {
        match parse_typed(data, pos) {
            Ok((v, e)) => if e <= pos || e > data.len() {
                Err(CodecError::UnexpectedEndOfInput)
            } else {
                match parse_elems(data, e, (count - 1) as nat) {
                    Ok((s, e2)) => Ok((seq![v] + s, e2)),
                    Err(er) => Err(er),
                }
            },
            Err(er) => Err(er),
        }
    }
}

/// What reading a map body at `pos` yields: a count byte, then that many
/// key-value pairs, in read order, duplicates included.
pub open spec fn parse_map_at(data: Seq<u8>, pos: int) -> Result<
    (Seq<(Seq<char>, TypedV)>, int),
    CodecError,
>
    decreases data.len() - pos, 2int, 0int,
{
    if pos < 0 || pos >= data.len() {
        Err(CodecError::UnexpectedEndOfInput)
    } else {
        parse_pairs(data, pos + 1, data[pos] as nat)
    }
}

/// What reading `count` consecutive key-value pairs at `pos` yields: each
/// a sized key, decoded as text, then a tagged value.
pub open spec fn parse_pairs(data: Seq<u8>, pos: int, count: nat) -> Result<
    (Seq<(Seq<char>, TypedV)>, int),
    CodecError,
>
    decreases data.len() - pos, 1int, count,
{
    if count == 0 {
        Ok((seq![], pos))
    } else {
        match parse_sized(data, pos) {
            Ok((kb, e1)) => if e1 <= pos || e1 > data.len() {
                Err(CodecError::UnexpectedEndOfInput)
            } else {
                match parse_typed(data, e1) {
                    Ok((v, e2)) => if e2 <= e1 || e2 > data.len() {
                        Err(CodecError::UnexpectedEndOfInput)
                    } else {
                        match parse_pairs(data, e2, (count - 1) as nat) {
                            Ok((ps, e3)) => Ok((seq![(lossy_decode(kb), v)] + ps, e3)),
                            Err(er) => Err(er),
                        }
                    },
                    Err(er) => Err(er),
                }
            },
            Err(er) => Err(er),
        }
    }
}

/// A tagged value: the single recursive entity of the format. A `Float`
/// holds the raw IEEE-754 bit pattern of a 64-bit float, which is exactly
/// what the wire format carries; converting to and from a live float is
/// the caller's one-line affair and keeps NaN payloads and signed zeros
/// intact.
#[derive(Debug, PartialEq)]
pub enum Typed {
    Int(i64),
    Uint(u64),
    Float(u64),
    Bytes(Vec<u8>),
    String(String),
    List(Vec<Typed>),
    Dict(Dict),
}

/// An ordered run of tagged values.
pub type List = Vec<Typed>;

/// A string-keyed map with unique keys by construction: inserting a
/// duplicate key overwrites the prior value in place.
#[derive(Debug, PartialEq)]
pub struct Dict {
    entries: Vec<(String, Typed)>,
}

impl Typed {
    /// The mathematical value this exec value stands for.
    pub open spec fn dv(self) -> TypedV
        decreases self,
    {
        match self {
            Typed::Int(n) => TypedV::Int(n as int),
            Typed::Uint(u) => TypedV::Uint(u as nat),
            Typed::Float(bits) => TypedV::Float(bits as nat),
            Typed::Bytes(b) => TypedV::Bytes(b@),
            Typed::String(s) => TypedV::String(s@),
            Typed::List(l) => TypedV::List(seq_dv(l@)),
            Typed::Dict(d) => TypedV::Dict(d@),
        }
    }
}

/// The mathematical values a run of exec values stands for.
pub open spec fn seq_dv(l: Seq<Typed>) -> Seq<TypedV>
    decreases l,
{
    // the bound guard keeps the recursion inside the sequence, where an
    // element stands below the whole
    Seq::new(l.len(), |j: int| if 0 <= j < l.len() { l[j].dv() } else { TypedV::Int(0) })
}

impl View for Dict {
    type V = Seq<(Seq<char>, TypedV)>;

    closed spec fn view(&self) -> Seq<(Seq<char>, TypedV)>
        decreases self,
    {
        Seq::new(
            self.entries@.len(),
            |j: int|
                if 0 <= j < self.entries@.len() {
                    (self.entries@[j].0@, self.entries@[j].1.dv())
                } else {
                    (Seq::empty(), TypedV::Int(0))
                },
        )
    }
}

impl Dict {
    /// A fresh, empty map.
    pub fn new() -> (d: Dict)
        ensures
            d@ == Seq::<(Seq<char>, TypedV)>::empty(),
    {
        Dict { entries: Vec::new() }
    }

    /// How many entries the map holds.
    pub fn len(&self) -> (n: usize)
        ensures
            n == self@.len(),
    {
        self.entries.len()
    }

    /// Hand out the entries in order, consuming the map.
    pub fn into_entries(self) -> (r: Vec<(String, Typed)>)
        ensures
            r@.len() == self@.len(),
            forall|j: int| 0 <= j < r@.len() ==> (#[trigger] r@[j].0@, r@[j].1.dv()) == self@[j],
    {
        self.entries
    }

    /// Insert an entry; a duplicate key overwrites the prior value in
    /// place, so keys stay unique.
    pub fn insert(&mut self, k: String, v: Typed)
        ensures
            final(self)@ == upsert(old(self)@, k@, v.dv()),
    {
        let ghost kk = k@;
        let ghost vv = v.dv();
        let n = self.entries.len();
        let mut i: usize = 0;
        while i < n
            invariant
                i <= n,
                n == self.entries.len(),
                *self == *old(self),
                kk == k@,
                vv == v.dv(),
                forall|j: int| 0 <= j < i ==> old(self)@[j].0 != kk,
            decreases n - i,
        {
            let hit = self.entries[i].0 == k;
            proof {
                assert(self@[i as int].0 == self.entries@[i as int].0@);
            }
            if hit {
                let ghost m = self@;
                self.entries.set(i, (k, v));
                proof {
                    assert(self@ =~= m.update(i as int, (kk, vv)));
                    lemma_upsert_found(m, kk, vv, i as int);
                }
                return ;
            }
            i = i + 1;
        }
        let ghost m = self@;
        self.entries.push((k, v));
        proof {
            assert(self@ =~= m.push((kk, vv)));
            lemma_upsert_fresh(m, kk, vv);
        }
    }
}

/// One more element's encoding lands at the end of the run.
proof fn lemma_elems_enc_snoc(s: Seq<TypedV>, j: int)
    requires
        0 <= j < s.len(),
    ensures
        elems_enc(s.take(j + 1)) == elems_enc(s.take(j)) + typed_enc(s[j]),
    decreases j,
{
    if j == 0 {
        assert(s.take(0) =~= Seq::<TypedV>::empty());
        assert(s.take(1) =~= seq![s[0]]);
        assert(seq![s[0]].drop_first() =~= Seq::<TypedV>::empty());
        assert(elems_enc(Seq::<TypedV>::empty()) == Seq::<u8>::empty());
        assert(elems_enc(s.take(0)) + typed_enc(s[0]) =~= typed_enc(s[0]) + elems_enc(
            seq![s[0]].drop_first(),
        ));
    } else {
        let t = s.drop_first();
        lemma_elems_enc_snoc(t, j - 1);
        assert(s.take(j + 1).drop_first() =~= t.take(j));
        assert(s.take(j).drop_first() =~= t.take(j - 1));
        assert(s.take(j + 1)[0] == s[0]);
        assert(s.take(j)[0] == s[0]);
        assert(t[j - 1] == s[j]);
        assert(elems_enc(s.take(j + 1)) == typed_enc(s[0]) + elems_enc(t.take(j)));
        assert(elems_enc(s.take(j)) == typed_enc(s[0]) + elems_enc(t.take(j - 1)));
        assert(typed_enc(s[0]) + (elems_enc(t.take(j - 1)) + typed_enc(s[j])) =~= (typed_enc(s[0])
            + elems_enc(t.take(j - 1))) + typed_enc(s[j]));
    }
}

/// One more entry's encoding lands at the end of the run.
proof fn lemma_pairs_enc_snoc(s: Seq<(Seq<char>, TypedV)>, j: int)
    requires
        0 <= j < s.len(),
    ensures
        pairs_enc(s.take(j + 1)) == pairs_enc(s.take(j)) + sized_enc(encode_utf8(s[j].0))
            + typed_enc(s[j].1),
    decreases j,
{
    let one = sized_enc(encode_utf8(s[j].0)) + typed_enc(s[j].1);
    if j == 0 {
        assert(s.take(0) =~= Seq::<(Seq<char>, TypedV)>::empty());
        assert(s.take(1) =~= seq![s[0]]);
        assert(seq![s[0]].drop_first() =~= Seq::<(Seq<char>, TypedV)>::empty());
        assert(pairs_enc(s.take(1)) == sized_enc(encode_utf8(s[0].0)) + typed_enc(s[0].1)
            + pairs_enc(seq![s[0]].drop_first()));
        assert(pairs_enc(s.take(0)) + sized_enc(encode_utf8(s[0].0)) + typed_enc(s[0].1)
            =~= sized_enc(encode_utf8(s[0].0)) + typed_enc(s[0].1) + pairs_enc(
            seq![s[0]].drop_first(),
        ));
    } else {
        let t = s.drop_first();
        lemma_pairs_enc_snoc(t, j - 1);
        let head = sized_enc(encode_utf8(s[0].0)) + typed_enc(s[0].1);
        assert(s.take(j + 1).drop_first() =~= t.take(j));
        assert(s.take(j).drop_first() =~= t.take(j - 1));
        assert(s.take(j + 1)[0] == s[0]);
        assert(s.take(j)[0] == s[0]);
        assert(t[j - 1] == s[j]);
        assert(pairs_enc(s.take(j + 1)) == head + pairs_enc(t.take(j)));
        assert(pairs_enc(s.take(j)) == head + pairs_enc(t.take(j - 1)));
        assert(head + (pairs_enc(t.take(j - 1)) + sized_enc(encode_utf8(s[j].0)) + typed_enc(
            s[j].1,
        )) =~= (head + pairs_enc(t.take(j - 1))) + sized_enc(encode_utf8(s[j].0)) + typed_enc(
            s[j].1,
        ));
    }
}

impl ByteWriter {
    /// Append a length prefix and the raw bytes: the shared framing for
    /// byte strings, text and map keys.
    fn write_sized_impl(&mut self, buf: &[u8])
        ensures
            final(self).out() == old(self).out() + sized_enc(buf@),
    {
        self.write_uvarint(buf.len() as u64);
        self.write_all(buf);
        proof {
            assert(final(self).out() =~= old(self).out() + sized_enc(buf@));
        }
    }

    /// Append one tagged value's full encoding; a container anywhere
    /// inside with 255 or more entries fails the whole write.
    fn write_typed_impl(&mut self, v: &Typed) -> (r: Result<(), CodecError>)
        ensures
            match r {
                Ok(_) => size_ok(v.dv()) && final(self).out() == old(self).out() + typed_enc(
                    v.dv(),
                ),
                Err(e) => {
                    &&& e == CodecError::ContainerTooLarge
                    &&& !size_ok(v.dv())
                    &&& old(self).out().is_prefix_of(final(self).out())
                },
            },
        decreases v,
    {
        match v {
            Typed::Int(n) => {
                self.write_byte(TAG_INT);
                self.write_varint(*n);
                proof {
                    assert(final(self).out() =~= old(self).out() + typed_enc(v.dv()));
                }
                Ok(())
            },
            Typed::Uint(un) => {
                self.write_byte(TAG_UINT);
                self.write_uvarint(*un);
                proof {
                    assert(final(self).out() =~= old(self).out() + typed_enc(v.dv()));
                }
                Ok(())
            },
            Typed::Float(bits) => {
                self.write_byte(TAG_FLOAT);
                self.write_uvarint(*bits);
                proof {
                    assert(final(self).out() =~= old(self).out() + typed_enc(v.dv()));
                }
                Ok(())
            },
            Typed::Bytes(buf) => {
                self.write_byte(TAG_BYTES);
                self.write_sized_impl(buf.as_slice());
                proof {
                    assert(final(self).out() =~= old(self).out() + typed_enc(v.dv()));
                }
                Ok(())
            },
            Typed::String(s) => {
                self.write_byte(TAG_STRING);
                self.write_sized_impl(s.as_str().as_bytes());
                proof {
                    assert(final(self).out() =~= old(self).out() + typed_enc(v.dv()));
                }
                Ok(())
            },
            Typed::List(l) => {
                self.write_byte(TAG_LIST);
                let r = self.write_list_impl(l);
                proof {
                    if r is Ok {
                        assert(final(self).out() =~= old(self).out() + typed_enc(v.dv()));
                    } else {
                        assert(old(self).out().is_prefix_of(final(self).out())) by {
                            assert(final(self).out().subrange(0, old(self).out().len() as int)
                                =~= old(self).out());
                        }
                    }
                }
                r
            },
            Typed::Dict(d) => {
                self.write_byte(TAG_MAP);
                let r = self.write_map_impl(d);
                proof {
                    if r is Ok {
                        assert(final(self).out() =~= old(self).out() + typed_enc(v.dv()));
                    } else {
                        assert(old(self).out().is_prefix_of(final(self).out())) by {
                            assert(final(self).out().subrange(0, old(self).out().len() as int)
                                =~= old(self).out());
                        }
                    }
                }
                r
            },
        }
    }

    /// Append a list body: its count byte, then every element in order.
    /// Succeeds exactly when every container within fits the count cap.
    fn write_list_impl(&mut self, l: &Vec<Typed>) -> (r: Result<(), CodecError>)
        ensures
            match r {
                Ok(_) => size_ok(TypedV::List(seq_dv(l@))) && final(self).out() == old(self).out()
                    + seq![l@.len() as u8] + elems_enc(seq_dv(l@)),
                Err(e) => {
                    &&& e == CodecError::ContainerTooLarge
                    &&& !size_ok(TypedV::List(seq_dv(l@)))
                    &&& old(self).out().is_prefix_of(final(self).out())
                },
            },
        decreases l,
    {
        let n = l.len();
        if n > MAX_CONTAINER_LEN {
            proof {
                assert(old(self).out().is_prefix_of(final(self).out())) by {
                    assert(final(self).out().subrange(0, old(self).out().len() as int) =~= old(
                        self,
                    ).out());
                }
            }
            return Err(CodecError::ContainerTooLarge);
        }
        self.write_byte(n as u8);
        let ghost lv = seq_dv(l@);
        let mut j: usize = 0;
        while j < n
            invariant
                j <= n,
                n <= 254,
                n == l@.len(),
                lv == seq_dv(l@),
                lv.len() == n,
                self.out() == old(self).out().push(n as u8) + elems_enc(lv.take(j as int)),
                forall|t: int| 0 <= t < j ==> size_ok(#[trigger] lv[t]),
            decreases n - j,
        {
            match self.write_typed_impl(&l[j]) {
                Ok(_) => {},
                Err(e) => {
                    proof {
                        assert(lv[j as int] == l@[j as int].dv());
                        assert(!size_ok(TypedV::List(lv)));
                        assert(old(self).out().is_prefix_of(final(self).out())) by {
                            assert(final(self).out().subrange(0, old(self).out().len() as int)
                                =~= old(self).out());
                        }
                    }
                    return Err(e);
                },
            }
            proof {
                assert(lv[j as int] == l@[j as int].dv());
                lemma_elems_enc_snoc(lv, j as int);
                assert(self.out() =~= old(self).out().push(n as u8) + elems_enc(
                    lv.take(j as int + 1),
                ));
            }
            j = j + 1;
        }
        proof {
            assert(lv.take(n as int) =~= lv);
        }
        Ok(())
    }

    /// Append a map body: its count byte, then every entry — sized key,
    /// then value — in the map's own order. Succeeds exactly when every
    /// container within fits the count cap.
    fn write_map_impl(&mut self, m: &Dict) -> (r: Result<(), CodecError>)
        ensures
            match r {
                Ok(_) => size_ok(TypedV::Dict(m@)) && final(self).out() == old(self).out()
                    + seq![m@.len() as u8] + pairs_enc(m@),
                Err(e) => {
                    &&& e == CodecError::ContainerTooLarge
                    &&& !size_ok(TypedV::Dict(m@))
                    &&& old(self).out().is_prefix_of(final(self).out())
                },
            },
        decreases m,
    {
        let n = m.entries.len();
        proof {
            assert(m@.len() == n);
        }
        if n > MAX_CONTAINER_LEN {
            proof {
                assert(old(self).out().is_prefix_of(final(self).out())) by {
                    assert(final(self).out().subrange(0, old(self).out().len() as int) =~= old(
                        self,
                    ).out());
                }
            }
            return Err(CodecError::ContainerTooLarge);
        }
        self.write_byte(n as u8);
        let ghost mv = m@;
        let mut j: usize = 0;
        while j < n
            invariant
                j <= n,
                n <= 254,
                n == m.entries.len(),
                mv == m@,
                mv.len() == n,
                self.out() == old(self).out().push(n as u8) + pairs_enc(mv.take(j as int)),
                forall|t: int| 0 <= t < j ==> size_ok(#[trigger] mv[t].1),
            decreases n - j,
        {
            proof {
                assert(mv[j as int] == (m.entries@[j as int].0@, m.entries@[j as int].1.dv()));
            }
            self.write_sized_impl(m.entries[j].0.as_str().as_bytes());
            match self.write_typed_impl(&m.entries[j].1) {
                Ok(_) => {},
                Err(e) => {
                    proof {
                        assert(!size_ok(mv[j as int].1));
                        assert(!size_ok(TypedV::Dict(mv)));
                        assert(old(self).out().is_prefix_of(final(self).out())) by {
                            assert(final(self).out().subrange(0, old(self).out().len() as int)
                                =~= old(self).out());
                        }
                    }
                    return Err(e);
                },
            }
            proof {
                lemma_pairs_enc_snoc(mv, j as int);
                assert(self.out() =~= old(self).out().push(n as u8) + pairs_enc(
                    mv.take(j as int + 1),
                ));
            }
            j = j + 1;
        }
        proof {
            assert(mv.take(n as int) =~= mv);
        }
        Ok(())
    }
}

impl ByteReader {
    /// Read a sized byte run: a varint length, then exactly that many
    /// bytes.
    fn read_sized_impl(&mut self) -> (r: Result<Vec<u8>, CodecError>)
        requires
            old(self).wf(),
        ensures
            final(self).wf(),
            final(self).data() == old(self).data(),
            old(self).at() <= final(self).at() <= final(self).data().len(),
            match r {
                Ok(b) => parse_sized(old(self).data(), old(self).at()) == Ok::<
                    (Seq<u8>, int),
                    CodecError,
                >((b@, final(self).at())) && old(self).at() < final(self).at(),
                Err(e) => parse_sized(old(self).data(), old(self).at()) == Err::<
                    (Seq<u8>, int),
                    CodecError,
                >(e),
            },
    {
        let ghost data = self.data();
        let ghost start = self.at();
        let sz = match self.read_uvarint() {
            Ok(sz) => sz,
            Err(e) => {
                return Err(e);
            },
        };
        proof {
            lemma_parse_rec_ok(data, start, 0);
        }
        let rem = self.remaining();
        if sz > rem as u64 {
            return Err(CodecError::UnexpectedEndOfInput);
        }
        match self.read_exact(sz as usize) {
            Ok(b) => Ok(b),
            Err(e) => Err(e),
        }
    }

    /// Read one tagged value: a tag byte, then its payload, recursing
    /// through lists and maps.
    fn read_typed_impl(&mut self) -> (r: Result<Typed, CodecError>)
        requires
            old(self).wf(),
        ensures
            final(self).wf(),
            final(self).data() == old(self).data(),
            old(self).at() <= final(self).at() <= final(self).data().len(),
            match r {
                Ok(v) => parse_typed(old(self).data(), old(self).at()) == Ok::<
                    (TypedV, int),
                    CodecError,
                >((v.dv(), final(self).at())) && old(self).at() < final(self).at(),
                Err(e) => parse_typed(old(self).data(), old(self).at()) == Err::<
                    (TypedV, int),
                    CodecError,
                >(e),
            },
        decreases old(self).data().len() - old(self).at(),
    {
        let t = match self.read_byte() {
            Ok(t) => t,
            Err(e) => {
                return Err(e);
            },
        };
        if t == TAG_INT {
            match self.read_varint() {
                Ok(n) => Ok(Typed::Int(n)),
                Err(e) => Err(e),
            }
        } else if t == TAG_UINT {
            match self.read_uvarint() {
                Ok(un) => Ok(Typed::Uint(un)),
                Err(e) => Err(e),
            }
        } else if t == TAG_FLOAT {
            match self.read_uvarint() {
                Ok(un) => Ok(Typed::Float(un)),
                Err(e) => Err(e),
            }
        } else if t == TAG_BYTES {
            match self.read_sized_impl() {
                Ok(b) => Ok(Typed::Bytes(b)),
                Err(e) => Err(e),
            }
        } else if t == TAG_STRING {
            match self.read_sized_impl() {
                Ok(b) => {
                    let s = from_utf8_lossy(&b);
                    Ok(Typed::String(s))
                },
                Err(e) => Err(e),
            }
        } else if t == TAG_LIST {
            match self.read_list_impl() {
                Ok(l) => Ok(Typed::List(l)),
                Err(e) => Err(e),
            }
        } else if t == TAG_MAP {
            match self.read_map_impl() {
                Ok(d) => Ok(Typed::Dict(d)),
                Err(e) => Err(e),
            }
        } else {
            Err(CodecError::UnknownTypeTag(t))
        }
    }

    /// Read a list body: a count byte, then that many tagged values, in
    /// order.
    fn read_list_impl(&mut self) -> (r: Result<Vec<Typed>, CodecError>)
        requires
            old(self).wf(),
        ensures
            final(self).wf(),
            final(self).data() == old(self).data(),
            old(self).at() <= final(self).at() <= final(self).data().len(),
            match r {
                Ok(l) => parse_list_at(old(self).data(), old(self).at()) == Ok::<
                    (Seq<TypedV>, int),
                    CodecError,
                >((seq_dv(l@), final(self).at())) && old(self).at() < final(self).at(),
                Err(e) => parse_list_at(old(self).data(), old(self).at()) == Err::<
                    (Seq<TypedV>, int),
                    CodecError,
                >(e),
            },
        decreases old(self).data().len() - old(self).at(),
    {
        let ghost data = self.data();
        let ghost start = self.at();
        let count = match self.read_byte() {
            Ok(c) => c,
            Err(e) => {
                return Err(e);
            },
        };
        let ghost pos0 = self.at();
        let n = count as usize;
        let mut l: Vec<Typed> = Vec::new();
        let mut k: usize = 0;
        while k < n
            invariant
                data == old(self).data(),
                start == old(self).at(),
                pos0 == start + 1,
                self.wf(),
                self.data() == data,
                pos0 <= self.at() <= data.len(),
                k <= n,
                n == count as int,
                k == l@.len(),
                parse_list_at(data, start) == parse_elems(data, pos0, count as nat),
                match parse_elems(data, self.at(), (n - k) as nat) {
                    Ok((s, e)) => parse_elems(data, pos0, count as nat) == Ok::<
                        (Seq<TypedV>, int),
                        CodecError,
                    >((seq_dv(l@) + s, e)),
                    Err(er) => parse_elems(data, pos0, count as nat) == Err::<
                        (Seq<TypedV>, int),
                        CodecError,
                    >(er),
                },
            decreases n - k,
        {
            let ghost lv = seq_dv(l@);
            let v = match self.read_typed_impl() {
                Ok(v) => v,
                Err(e) => {
                    return Err(e);
                },
            };
            proof {
                assert(seq_dv(l@.push(v)) =~= lv.push(v.dv()));
            }
            l.push(v);
            k = k + 1;
            proof {
                if parse_elems(data, self.at(), (n - k) as nat) is Ok {
                    let (s2, e2) = parse_elems(data, self.at(), (n - k) as nat)->Ok_0;
                    assert(lv + (seq![l@[k - 1].dv()] + s2) =~= seq_dv(l@) + s2);
                }
            }
        }
        proof {
            assert(seq_dv(l@) + Seq::<TypedV>::empty() =~= seq_dv(l@));
        }
        Ok(l)
    }

    /// Read a map body: a count byte, then that many sized-key /
    /// tagged-value pairs, folding them in with last-write-wins.
    fn read_map_impl(&mut self) -> (r: Result<Dict, CodecError>)
        requires
            old(self).wf(),
        ensures
            final(self).wf(),
            final(self).data() == old(self).data(),
            old(self).at() <= final(self).at() <= final(self).data().len(),
            match r {
                Ok(d) => {
                    &&& parse_map_at(old(self).data(), old(self).at()) is Ok
                    &&& ({
                        let (ps, e) = parse_map_at(old(self).data(), old(self).at())->Ok_0;
                        d@ == upsert_all(Seq::empty(), ps) && e == final(self).at()
                    })
                    &&& old(self).at() < final(self).at()
                },
                Err(e) => parse_map_at(old(self).data(), old(self).at()) == Err::<
                    (Seq<(Seq<char>, TypedV)>, int),
                    CodecError,
                >(e),
            },
        decreases old(self).data().len() - old(self).at(),
    {
        let ghost data = self.data();
        let ghost start = self.at();
        let count = match self.read_byte() {
            Ok(c) => c,
            Err(e) => {
                return Err(e);
            },
        };
        let ghost pos0 = self.at();
        let n = count as usize;
        let mut d = Dict::new();
        let mut k: usize = 0;
        while k < n
            invariant
                data == old(self).data(),
                start == old(self).at(),
                pos0 == start + 1,
                self.wf(),
                self.data() == data,
                pos0 <= self.at() <= data.len(),
                k <= n,
                n == count as int,
                parse_map_at(data, start) == parse_pairs(data, pos0, count as nat),
                match parse_pairs(data, self.at(), (n - k) as nat) {
                    Ok((ps, e)) => parse_pairs(data, pos0, count as nat) is Ok && ({
                        let (full, e2) = parse_pairs(data, pos0, count as nat)->Ok_0;
                        e2 == e && upsert_all(Seq::empty(), full) == upsert_all(d@, ps)
                    }),
                    Err(er) => parse_pairs(data, pos0, count as nat) == Err::<
                        (Seq<(Seq<char>, TypedV)>, int),
                        CodecError,
                    >(er),
                },
            decreases n - k,
        {
            let ghost acc = d@;
            let kb = match self.read_sized_impl() {
                Ok(kb) => kb,
                Err(e) => {
                    return Err(e);
                },
            };
            let ks = from_utf8_lossy(&kb);
            let v = match self.read_typed_impl() {
                Ok(v) => v,
                Err(e) => {
                    return Err(e);
                },
            };
            let ghost p0 = (ks@, v.dv());
            d.insert(ks, v);
            k = k + 1;
            proof {
                if parse_pairs(data, self.at(), (n - k) as nat) is Ok {
                    let (ps2, e2) = parse_pairs(data, self.at(), (n - k) as nat)->Ok_0;
                    assert((seq![p0] + ps2)[0] == p0);
                    assert((seq![p0] + ps2).drop_first() =~= ps2);
                    assert(upsert_all(acc, seq![p0] + ps2) == upsert_all(
                        upsert(acc, p0.0, p0.1),
                        ps2,
                    ));
                }
            }
        }
        proof {
            assert(upsert_all(d@, Seq::<(Seq<char>, TypedV)>::empty()) == d@);
        }
        Ok(d)
    }
}

/// Extends a byte source with tagged-value reads.
pub trait CodecReadExt: VarintReadExt {
    /// Read a sized byte run: a varint length, then exactly that many
    /// bytes.
    fn read_sized(&mut self) -> (r: Result<Vec<u8>, CodecError>)
        requires
            old(self).inv(),
        ensures
            final(self).inv(),
            final(self).buf() == old(self).buf(),
            old(self).cursor() <= final(self).cursor() <= final(self).buf().len(),
            match r {
                Ok(b) => parse_sized(old(self).buf(), old(self).cursor()) == Ok::<
                    (Seq<u8>, int),
                    CodecError,
                >((b@, final(self).cursor())) && old(self).cursor() < final(self).cursor(),
                Err(e) => parse_sized(old(self).buf(), old(self).cursor()) == Err::<
                    (Seq<u8>, int),
                    CodecError,
                >(e),
            },
    ;

    /// Read one tagged value: a tag byte, then its payload.
    fn read_typed(&mut self) -> (r: Result<Typed, CodecError>)
        requires
            old(self).inv(),
        ensures
            final(self).inv(),
            final(self).buf() == old(self).buf(),
            old(self).cursor() <= final(self).cursor() <= final(self).buf().len(),
            match r {
                Ok(v) => parse_typed(old(self).buf(), old(self).cursor()) == Ok::<
                    (TypedV, int),
                    CodecError,
                >((v.dv(), final(self).cursor())) && old(self).cursor() < final(self).cursor(),
                Err(e) => parse_typed(old(self).buf(), old(self).cursor()) == Err::<
                    (TypedV, int),
                    CodecError,
                >(e),
            },
    ;

    /// Read a list body: a count byte, then that many tagged values, in
    /// order.
    fn read_list(&mut self) -> (r: Result<List, CodecError>)
        requires
            old(self).inv(),
        ensures
            final(self).inv(),
            final(self).buf() == old(self).buf(),
            old(self).cursor() <= final(self).cursor() <= final(self).buf().len(),
            match r {
                Ok(l) => parse_list_at(old(self).buf(), old(self).cursor()) == Ok::<
                    (Seq<TypedV>, int),
                    CodecError,
                >((seq_dv(l@), final(self).cursor())) && old(self).cursor()
                    < final(self).cursor(),
                Err(e) => parse_list_at(old(self).buf(), old(self).cursor()) == Err::<
                    (Seq<TypedV>, int),
                    CodecError,
                >(e),
            },
    ;

    /// Read a map body: a count byte, then that many sized-key /
    /// tagged-value pairs; a repeated key keeps its last value.
    fn read_map(&mut self) -> (r: Result<Dict, CodecError>)
        requires
            old(self).inv(),
        ensures
            final(self).inv(),
            final(self).buf() == old(self).buf(),
            old(self).cursor() <= final(self).cursor() <= final(self).buf().len(),
            match r {
                Ok(d) => {
                    &&& parse_map_at(old(self).buf(), old(self).cursor()) is Ok
                    &&& ({
                        let (ps, e) = parse_map_at(old(self).buf(), old(self).cursor())->Ok_0;
                        d@ == upsert_all(Seq::empty(), ps) && e == final(self).cursor()
                    })
                    &&& old(self).cursor() < final(self).cursor()
                },
                Err(e) => parse_map_at(old(self).buf(), old(self).cursor()) == Err::<
                    (Seq<(Seq<char>, TypedV)>, int),
                    CodecError,
                >(e),
            },
    ;
}

/// Extends a byte sink with tagged-value writes.
pub trait CodecWriteExt: VarintWriteExt {
    /// Append a length prefix and the raw bytes: the shared framing for
    /// byte strings, text and map keys.
    fn write_sized(&mut self, buf: &[u8])
        ensures
            final(self).sink() == old(self).sink() + sized_enc(buf@),
    ;

    /// Append one tagged value's full encoding. Fails, with
    /// [`CodecError::ContainerTooLarge`], exactly when a container
    /// anywhere inside holds 255 or more entries; the sink then keeps
    /// whatever was already written, plus a partial encoding.
    fn write_typed(&mut self, v: &Typed) -> (r: Result<(), CodecError>)
        ensures
            match r {
                Ok(_) => size_ok(v.dv()) && final(self).sink() == old(self).sink() + typed_enc(
                    v.dv(),
                ),
                Err(e) => {
                    &&& e == CodecError::ContainerTooLarge
                    &&& !size_ok(v.dv())
                    &&& old(self).sink().is_prefix_of(final(self).sink())
                },
            },
    ;

    /// Append a list body: its count byte, then every element in order.
    fn write_list(&mut self, l: &List) -> (r: Result<(), CodecError>)
        ensures
            match r {
                Ok(_) => size_ok(TypedV::List(seq_dv(l@))) && final(self).sink() == old(
                    self,
                ).sink() + seq![l@.len() as u8] + elems_enc(seq_dv(l@)),
                Err(e) => {
                    &&& e == CodecError::ContainerTooLarge
                    &&& !size_ok(TypedV::List(seq_dv(l@)))
                    &&& old(self).sink().is_prefix_of(final(self).sink())
                },
            },
    ;

    /// Append a map body: its count byte, then every entry — sized key,
    /// then value — in the map's own entry order.
    fn write_map(&mut self, m: &Dict) -> (r: Result<(), CodecError>)
        ensures
            match r {
                Ok(_) => size_ok(TypedV::Dict(m@)) && final(self).sink() == old(self).sink()
                    + seq![m@.len() as u8] + pairs_enc(m@),
                Err(e) => {
                    &&& e == CodecError::ContainerTooLarge
                    &&& !size_ok(TypedV::Dict(m@))
                    &&& old(self).sink().is_prefix_of(final(self).sink())
                },
            },
    ;
}

impl CodecReadExt for ByteReader {
    fn read_sized(&mut self) -> (r: Result<Vec<u8>, CodecError>) {
        self.read_sized_impl()
    }

    fn read_typed(&mut self) -> (r: Result<Typed, CodecError>) {
        self.read_typed_impl()
    }

    fn read_list(&mut self) -> (r: Result<List, CodecError>) {
        self.read_list_impl()
    }

    fn read_map(&mut self) -> (r: Result<Dict, CodecError>) {
        self.read_map_impl()
    }
}

impl CodecWriteExt for ByteWriter {
    fn write_sized(&mut self, buf: &[u8]) {
        self.write_sized_impl(buf)
    }

    fn write_typed(&mut self, v: &Typed) -> (r: Result<(), CodecError>) {
        self.write_typed_impl(v)
    }

    fn write_list(&mut self, l: &List) -> (r: Result<(), CodecError>) {
        self.write_list_impl(l)
    }

    fn write_map(&mut self, m: &Dict) -> (r: Result<(), CodecError>) {
        self.write_map_impl(m)
    }
}

/// Where a key already stands, [`upsert`] replaces its entry in place.
proof fn lemma_upsert_found(m: Seq<(Seq<char>, TypedV)>, k: Seq<char>, v: TypedV, i: int)
    requires
        0 <= i < m.len(),
        m[i].0 == k,
        forall|j: int| 0 <= j < i ==> m[j].0 != k,
    ensures
        upsert(m, k, v) == m.update(i, (k, v)),
    decreases i,
{
    if i == 0 {
        assert(upsert(m, k, v) =~= m.update(0, (k, v)));
    } else {
        lemma_upsert_found(m.drop_first(), k, v, i - 1);
        assert(upsert(m, k, v) =~= m.update(i, (k, v)));
    }
}

/// Where no entry has the key, [`upsert`] appends at the end.
proof fn lemma_upsert_fresh(m: Seq<(Seq<char>, TypedV)>, k: Seq<char>, v: TypedV)
    requires
        forall|j: int| 0 <= j < m.len() ==> m[j].0 != k,
    ensures
        upsert(m, k, v) == m.push((k, v)),
    decreases m.len(),
{
    if m.len() == 0 {
        assert(upsert(m, k, v) =~= m.push((k, v)));
    } else {
        lemma_upsert_fresh(m.drop_first(), k, v);
        assert(upsert(m, k, v) =~= m.push((k, v)));
    }
}

/// Law: inserting entries whose keys are fresh and pairwise distinct
/// changes nothing — the fold of [`upsert`] is plain concatenation, so a
/// map decodes back exactly as its unique-keyed entries were written.
pub proof fn lemma_upsert_all_unique(m: Seq<(Seq<char>, TypedV)>, ps: Seq<(Seq<char>, TypedV)>)
    requires
        dict_keys_unique(ps),
        forall|i: int, j: int|
            #![trigger m[i], ps[j]]
            0 <= i < m.len() && 0 <= j < ps.len() ==> m[i].0 != ps[j].0,
    ensures
        upsert_all(m, ps) == m + ps,
    decreases ps.len(),
{
    if ps.len() == 0 {
        assert(upsert_all(m, ps) =~= m + ps);
    } else {
        assert(forall|j: int| 0 <= j < m.len() ==> m[j].0 != ps[0].0);
        lemma_upsert_fresh(m, ps[0].0, ps[0].1);
        assert(forall|i: int, j: int|
            #![trigger m.push(ps[0])[i], ps.drop_first()[j]]
            0 <= i < m.push(ps[0]).len() && 0 <= j < ps.drop_first().len() ==> m.push(ps[0])[i].0
                != ps.drop_first()[j].0);
        lemma_upsert_all_unique(m.push(ps[0]), ps.drop_first());
        assert(m.push(ps[0]) + ps.drop_first() =~= m + ps);
    }
}

} // verus!
