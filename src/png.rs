use crate::chunk::{
    created, decode_chunk, encode_chunk, is_chunk, lemma_be32_value, lemma_created_round_trip,
    lemma_decode_encode, Chunk, ChunkView, InvalidChunk,
};
use crate::chunk::append_bytes;
use crate::chunk_type::{lemma_text_names_type, type_text};
use vstd::prelude::*;
use vstd::slice::slice_subrange;
use vstd::string::StringSliceAdditionalSpecFns;

verus! {

/// The eight bytes that open every container.
pub open spec fn signature() -> Seq<u8> {
    seq![137u8, 80u8, 78u8, 71u8, 13u8, 10u8, 26u8, 10u8]
}

/// The chunks' wire forms, one after another.
pub open spec fn encode_chunks(cs: Seq<ChunkView>) -> Seq<u8>
    decreases cs.len(),
{
    if cs.len() == 0 {
        Seq::empty()
    } else {
        encode_chunk(cs[0]) + encode_chunks(cs.subrange(1, cs.len() as int))
    }
}

/// The wire form of a container: the signature, then every chunk in order.
pub open spec fn encode_png(cs: Seq<ChunkView>) -> Seq<u8> {
    signature() + encode_chunks(cs)
}

/// The big-endian length field at the front of `b`.
pub open spec fn length_field(b: Seq<u8>) -> int {
    crate::chunk::be32_value(b.subrange(0, 4)) as int
}

/// What splitting `b` into chunks gives: each length field says how many bytes
/// its chunk takes, and bytes too few for the next chunk are a `Length` error.
pub open spec fn decode_chunks(b: Seq<u8>) -> Result<Seq<ChunkView>, InvalidChunk>
    decreases b.len(),
{
    if b.len() == 0 {
        Ok(Seq::empty())
    } else if b.len() < 4 || length_field(b) + 12 > b.len() {
        Err(InvalidChunk::Length)
    } else {
        let n = length_field(b) + 12;
        match decode_chunk(b.subrange(0, n)) {
            Err(e) => Err(e),
            Ok(c) => match decode_chunks(b.subrange(n, b.len() as int)) {
                Err(e) => Err(e),
                Ok(rest) => Ok(seq![c] + rest),
            },
        }
    }
}

/// What decoding `b` as a container gives.
pub open spec fn decode_png(b: Seq<u8>) -> Result<Seq<ChunkView>, InvalidChunk> {
    if b.len() < 8 || b.subrange(0, 8) != signature() {
        Err(InvalidChunk::Header)
    } else {
        decode_chunks(b.subrange(8, b.len() as int))
    }
}

/// `name` is the text of chunk `v`'s type code.
pub open spec fn has_type(v: ChunkView, name: Seq<char>) -> bool {
    type_text(v.kind) == name
}

/// `i` is the position of the first chunk of `cs` whose type reads `name`.
pub open spec fn first_match_at(cs: Seq<ChunkView>, name: Seq<char>, i: int) -> bool {
    &&& 0 <= i < cs.len()
    &&& has_type(cs[i], name)
    &&& forall|j: int| 0 <= j < i ==> !has_type(#[trigger] cs[j], name)
}

/// No chunk of `cs` has a type that reads `name`.
pub open spec fn no_match(cs: Seq<ChunkView>, name: Seq<char>) -> bool {
    forall|j: int| 0 <= j < cs.len() ==> !has_type(#[trigger] cs[j], name)
}

/// A container: the signature followed by an ordered sequence of chunks.
#[derive(Debug)]
pub struct Png {
    chunks: Vec<Chunk>,
}

impl View for Png {
    type V = Seq<ChunkView>;

    closed spec fn view(&self) -> Seq<ChunkView> {
        self.chunks@.map_values(|c: Chunk| c@)
    }
}

/// The outcome of a decode, with the container seen through its view.
pub open spec fn png_result(r: Result<Png, InvalidChunk>) -> Result<Seq<ChunkView>, InvalidChunk> {
    match r {
        Ok(p) => Ok(p@),
        Err(e) => Err(e),
    }
}

impl Png {
    pub const STANDARD_HEADER: [u8; 8] = [137, 80, 78, 71, 13, 10, 26, 10];

    /// A container holding `chunks` in order.
    pub fn from_chunks(chunks: Vec<Chunk>) -> (r: Png)
        ensures
            r@ == chunks@.map_values(|c: Chunk| c@),
    {
        Png { chunks }
    }

    /// The chunks, in order.
    pub fn chunks(&self) -> (r: &[Chunk])
        ensures
            r@.map_values(|c: Chunk| c@) == self@,
    {
        self.chunks.as_slice()
    }

    /// Decodes a whole container: the signature, then chunks until the bytes run out.
    pub fn decode(bytes: &[u8]) -> (r: Result<Png, InvalidChunk>)
        ensures
            png_result(r) == decode_png(bytes@),
    {
        let len = bytes.len();
        if len < 8 {
            return Err(InvalidChunk::Header);
        }
        let mut k: usize = 0;
        while k < 8
            invariant
                k <= 8 <= len == bytes@.len(),
                forall|j: int| 0 <= j < k ==> bytes@[j] == #[trigger] signature()[j],
            decreases 8 - k,
        {
            if bytes[k] != Self::STANDARD_HEADER[k] {
                assert(bytes@.subrange(0, 8)[k as int] != signature()[k as int]);
                return Err(InvalidChunk::Header);
            }
            k = k + 1;
        }
        assert(bytes@.subrange(0, 8) =~= signature());
        let mut chunks: Vec<Chunk> = Vec::new();
        let mut cursor: usize = 8;
        while cursor < len
            invariant
                8 <= cursor <= len == bytes@.len(),
                decode_png(bytes@) == match decode_chunks(bytes@.subrange(cursor as int, len as int)) {
                    Ok(rest) => Ok(chunks@.map_values(|c: Chunk| c@) + rest),
                    Err(e) => Err::<Seq<ChunkView>, InvalidChunk>(e),
                },
            decreases len - cursor,
        {
            let ghost tail = bytes@.subrange(cursor as int, len as int);
            if len - cursor < 4 {
                return Err(InvalidChunk::Length);
            }
            let length = read_length(bytes, cursor);
            assert(tail.subrange(0, 4) =~= bytes@.subrange(cursor as int, cursor + 4));
            if len - cursor < 12 || length as usize > len - cursor - 12 {
                return Err(InvalidChunk::Length);
            }
            let end = cursor + 12 + length as usize;
            let piece = slice_subrange(bytes, cursor, end);
            assert(tail.subrange(0, end - cursor) =~= piece@);
            assert(tail.subrange(end - cursor, tail.len() as int) =~= bytes@.subrange(
                end as int,
                len as int,
            ));
            match Chunk::decode(piece) {
                Ok(c) => {
                    let ghost before = chunks@.map_values(|c: Chunk| c@);
                    chunks.push(c);
                    assert(chunks@.map_values(|c: Chunk| c@) =~= before.push(c@));
                    proof {
                        let rest = decode_chunks(bytes@.subrange(end as int, len as int));
                        if rest is Ok {
                            assert(before + (seq![c@] + rest->Ok_0) =~= before.push(c@)
                                + rest->Ok_0);
                        }
                    }
                    cursor = end;
                },
                Err(e) => {
                    return Err(e);
                },
            }
        }
        assert(bytes@.subrange(cursor as int, len as int) =~= Seq::<u8>::empty());
        assert(chunks@.map_values(|c: Chunk| c@) + Seq::<ChunkView>::empty() =~= chunks@.map_values(
            |c: Chunk| c@,
        ));
        Ok(Png { chunks })
    }

    /// The first chunk, in order, whose type reads `chunk_type`.
    pub fn chunk_by_type(&self, chunk_type: &str) -> (r: Option<&Chunk>)
        ensures
            r is None <==> no_match(self@, chunk_type@),
            r is Some ==> exists|i: int|
                first_match_at(self@, chunk_type@, i) && #[trigger] self@[i] == r->Some_0@,
    {
        match self.position_of(chunk_type) {
            Some(i) => Some(&self.chunks[i]),
            None => None,
        }
    }

    /// Removes and returns the first chunk, in order, whose type reads
    /// `chunk_type`; without one, the container stays as it was.
    pub fn remove_first_chunk(&mut self, chunk_type: &str) -> (r: Option<Chunk>)
        ensures
            r is None <==> no_match(old(self)@, chunk_type@),
            r is None ==> final(self)@ == old(self)@,
            r is Some ==> exists|i: int|
                first_match_at(old(self)@, chunk_type@, i) && #[trigger] old(self)@[i]
                    == r->Some_0@ && final(self)@ == old(self)@.remove(i),
    {
        match self.position_of(chunk_type) {
            Some(i) => {
                let ghost before = self.chunks@;
                let c = self.chunks.remove(i);
                assert(self.chunks@.map_values(|c: Chunk| c@) =~= before.map_values(
                    |c: Chunk| c@,
                ).remove(i as int));
                Some(c)
            },
            None => None,
        }
    }

    /// Adds `chunk` after every chunk already held.
    pub fn append_chunk(&mut self, chunk: Chunk)
        ensures
            final(self)@ == old(self)@.push(chunk@),
    {
        let ghost before = self.chunks@;
        self.chunks.push(chunk);
        assert(self.chunks@.map_values(|c: Chunk| c@) =~= before.map_values(|c: Chunk| c@).push(
            chunk@,
        ));
    }

    /// The wire form: the signature, then each chunk's bytes in order.
    pub fn as_bytes(&self) -> (r: Vec<u8>)
        ensures
            r@ == encode_png(self@),
    {
        let mut out: Vec<u8> = Vec::new();
        append_bytes(&mut out, Self::STANDARD_HEADER.as_slice());
        assert(Self::STANDARD_HEADER@ =~= signature());
        let mut i: usize = 0;
        while i < self.chunks.len()
            invariant
                i <= self.chunks@.len(),
                out@ == signature() + encode_chunks(self@.subrange(0, i as int)),
            decreases self.chunks@.len() - i,
        {
            let bytes = self.chunks[i].as_bytes();
            append_bytes(&mut out, bytes.as_slice());
            proof {
                lemma_encode_chunks_push(self@.subrange(0, i as int), self@[i as int]);
                assert(self@.subrange(0, i as int).push(self@[i as int]) =~= self@.subrange(
                    0,
                    i + 1,
                ));
            }
            i = i + 1;
        }
        assert(self@.subrange(0, i as int) =~= self@);
        out
    }

    /// The position of the first chunk whose type reads `name`.
    fn position_of(&self, name: &str) -> (r: Option<usize>)
        ensures
            r is None <==> no_match(self@, name@),
            r is Some ==> first_match_at(self@, name@, r->Some_0 as int),
    {
        let wanted = name.as_bytes();
        let mut i: usize = 0;
        while i < self.chunks.len()
            invariant
                i <= self.chunks@.len(),
                wanted@ == name.spec_bytes(),
                forall|j: int| 0 <= j < i ==> !has_type(#[trigger] self@[j], name@),
            decreases self.chunks@.len() - i,
        {
            let kind = self.chunks[i].chunk_type().bytes();
            proof {
                lemma_text_names_type(name@, kind@);
            }
            assert(self@[i as int] == self.chunks@[i as int]@);
            if same_bytes(kind.as_slice(), wanted) {
                assert(has_type(self@[i as int], name@));
                return Some(i);
            }
            i = i + 1;
        }
        None
    }
}

/// Whether `a` and `b` hold the same bytes.
fn same_bytes(a: &[u8], b: &[u8]) -> (r: bool)
    ensures
        r == (a@ == b@),
{
    if a.len() != b.len() {
        return false;
    }
    let mut i: usize = 0;
    while i < a.len()
        invariant
            i <= a@.len() == b@.len(),
            a@.subrange(0, i as int) == b@.subrange(0, i as int),
        decreases a@.len() - i,
    {
        if a[i] != b[i] {
            assert(a@[i as int] != b@[i as int]);
            return false;
        }
        assert(a@.subrange(0, i + 1) =~= a@.subrange(0, i as int).push(a@[i as int]));
        assert(b@.subrange(0, i + 1) =~= b@.subrange(0, i as int).push(b@[i as int]));
        i = i + 1;
    }
    assert(a@.subrange(0, i as int) =~= a@);
    assert(b@.subrange(0, i as int) =~= b@);
    true
}

/// Reads the big-endian length field at `at`.
fn read_length(b: &[u8], at: usize) -> (r: u32)
    requires
        at + 4 <= b@.len(),
    ensures
        r == crate::chunk::be32_value(b@.subrange(at as int, at + 4)),
{
    ((b[at] as u32) << 24u32) | ((b[at + 1] as u32) << 16u32) | ((b[at + 2] as u32) << 8u32) | (
    b[at + 3] as u32)
}

/// Encoding one more chunk appends its wire form.
pub proof fn lemma_encode_chunks_push(cs: Seq<ChunkView>, c: ChunkView)
    ensures
        encode_chunks(cs.push(c)) == encode_chunks(cs) + encode_chunk(c),
    decreases cs.len(),
{
    if cs.len() == 0 {
        assert(cs.push(c).subrange(1, 1) =~= Seq::<ChunkView>::empty());
        assert(encode_chunks(Seq::<ChunkView>::empty()) =~= Seq::<u8>::empty());
        assert(encode_chunks(cs.push(c)) =~= encode_chunk(c));
    } else {
        lemma_encode_chunks_push(cs.subrange(1, cs.len() as int), c);
        assert(cs.push(c).subrange(1, cs.len() as int + 1) =~= cs.subrange(1, cs.len() as int).push(c));
        assert(encode_chunks(cs.push(c)) =~= encode_chunks(cs) + encode_chunk(c));
    }
}

/// Bytes that split into chunks are exactly those chunks' wire forms.
pub proof fn lemma_chunks_reencode(b: Seq<u8>)
    requires
        decode_chunks(b) is Ok,
    ensures
        encode_chunks(decode_chunks(b)->Ok_0) == b,
    decreases b.len(),
{
    if b.len() > 0 {
        let n = length_field(b) + 12;
        let first = b.subrange(0, n);
        let tail = b.subrange(n, b.len() as int);
        let c = decode_chunk(first)->Ok_0;
        let rest = decode_chunks(tail)->Ok_0;
        let cs = decode_chunks(b)->Ok_0;
        assert(cs == seq![c] + rest);
        lemma_decode_encode(first);
        lemma_chunks_reencode(tail);
        assert(cs.subrange(1, cs.len() as int) =~= rest);
        assert(encode_chunks(cs) == encode_chunk(c) + encode_chunks(rest));
        assert(first + tail =~= b);
    } else {
        assert(encode_chunks(Seq::<ChunkView>::empty()) =~= b);
    }
}

/// Bytes accepted as a container are exactly the signature followed by its
/// chunks' wire forms, in order.
pub proof fn lemma_png_reencode(b: Seq<u8>)
    requires
        decode_png(b) is Ok,
    ensures
        encode_png(decode_png(b)->Ok_0) == b,
{
    let body = b.subrange(8, b.len() as int);
    assert(decode_png(b) == decode_chunks(body));
    lemma_chunks_reencode(body);
    assert(b.subrange(0, 8) == signature());
    assert(b.subrange(0, 8) + body =~= b);
}

/// Well-formed chunks, encoded one after another, split back into the same
/// chunks in the same order.
pub proof fn lemma_chunks_round_trip(cs: Seq<ChunkView>)
    requires
        forall|i: int| 0 <= i < cs.len() ==> is_chunk(#[trigger] cs[i]),
    ensures
        decode_chunks(encode_chunks(cs)) == Ok::<Seq<ChunkView>, InvalidChunk>(cs),
    decreases cs.len(),
{
    let b = encode_chunks(cs);
    if cs.len() == 0 {
        assert(b =~= Seq::<u8>::empty());
        assert(cs =~= Seq::<ChunkView>::empty());
    } else {
        let c = cs[0];
        let rest = cs.subrange(1, cs.len() as int);
        assert(is_chunk(c));
        assert(c == created(c.kind, c.data));
        lemma_created_round_trip(c.kind, c.data);
        lemma_chunks_round_trip(rest);
        let e = encode_chunk(c);
        let n = e.len() as int;
        assert(b == e + encode_chunks(rest));
        lemma_be32_value(c.length);
        assert(b.subrange(0, 4) =~= crate::chunk::be32(c.length));
        assert(length_field(b) + 12 == n);
        assert(b.subrange(0, n) =~= e);
        assert(b.subrange(n, b.len() as int) =~= encode_chunks(rest));
        assert(b.len() >= n >= 12);
        assert(decode_chunk(b.subrange(0, n)) == Ok::<ChunkView, InvalidChunk>(c));
        assert(decode_chunks(b.subrange(n, b.len() as int)) == Ok::<Seq<ChunkView>, InvalidChunk>(
            rest,
        ));
        assert(seq![c] + rest =~= cs);
    }
}

/// Well-formed chunks, written as a container and decoded again, come back
/// the same and in the same order.
pub proof fn lemma_png_round_trip(cs: Seq<ChunkView>)
    requires
        forall|i: int| 0 <= i < cs.len() ==> is_chunk(#[trigger] cs[i]),
    ensures
        decode_png(encode_png(cs)) == Ok::<Seq<ChunkView>, InvalidChunk>(cs),
{
    let b = encode_png(cs);
    assert(b.subrange(0, 8) =~= signature());
    assert(b.subrange(8, b.len() as int) =~= encode_chunks(cs));
    lemma_chunks_round_trip(cs);
}

/// Chunk bytes that split into at least one chunk fail with `Length` once
/// their last byte is cut off.
pub proof fn lemma_chunks_truncated(b: Seq<u8>)
    requires
        decode_chunks(b) is Ok,
        decode_chunks(b)->Ok_0.len() > 0,
    ensures
        decode_chunks(b.drop_last()) == Err::<Seq<ChunkView>, InvalidChunk>(InvalidChunk::Length),
    decreases b.len(),
{
    let d = b.drop_last();
    let n = length_field(b) + 12;
    assert(d.subrange(0, 4) =~= b.subrange(0, 4));
    if n < b.len() {
        let tail = b.subrange(n, b.len() as int);
        assert(d.subrange(0, n) =~= b.subrange(0, n));
        assert(d.subrange(n, d.len() as int) =~= tail.drop_last());
        lemma_chunks_truncated(tail);
    }
}

/// A container with at least one chunk, its last byte cut off, fails to
/// decode with `Length`.
pub proof fn lemma_png_truncated(b: Seq<u8>)
    requires
        decode_png(b) is Ok,
        decode_png(b)->Ok_0.len() > 0,
    ensures
        decode_png(b.drop_last()) == Err::<Seq<ChunkView>, InvalidChunk>(InvalidChunk::Length),
{
    let d = b.drop_last();
    let body = b.subrange(8, b.len() as int);
    assert(body.len() > 0);
    assert(d.subrange(0, 8) =~= b.subrange(0, 8));
    assert(d.subrange(8, d.len() as int) =~= body.drop_last());
    lemma_chunks_truncated(body);
}

/// Bytes whose first eight differ from the signature fail to decode as a
/// container, with `Header`.
pub proof fn lemma_png_bad_signature(b: Seq<u8>)
    requires
        b.len() < 8 || b.subrange(0, 8) != signature(),
    ensures
        decode_png(b) == Err::<Seq<ChunkView>, InvalidChunk>(InvalidChunk::Header),
{
}

} // verus!
