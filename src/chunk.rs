use crate::chunk_type::{is_type_code, string_from_utf8, ChunkType};
use vstd::prelude::*;
use vstd::slice::{slice_subrange, slice_to_vec};
use vstd::utf8::{decode_utf8, valid_utf8};

verus! {

/// The CRC-32/ISO-HDLC checksum of a byte sequence.
pub uninterp spec fn crc32_of(bytes: Seq<u8>) -> u32;

/// Relies on `crc::Crc::<u32>::checksum` with the `crc::CRC_32_ISO_HDLC` algorithm:
/// the checksum is a function of the bytes alone.
#[verifier::external_body]
fn crc32(bytes: &[u8]) -> (r: u32)
    ensures
        r == crc32_of(bytes@),
{
    crc::Crc::<u32>::new(&crc::CRC_32_ISO_HDLC).checksum(bytes)
}

/// The four big-endian bytes of `n`.
pub open spec fn be32(n: u32) -> Seq<u8> {
    seq![(n >> 24u32) as u8, (n >> 16u32) as u8, (n >> 8u32) as u8, n as u8]
}

/// The number that four big-endian bytes stand for.
pub open spec fn be32_value(s: Seq<u8>) -> u32 {
    ((s[0] as u32) << 24u32) | ((s[1] as u32) << 16u32) | ((s[2] as u32) << 8u32) | (s[3] as u32)
}

/// What a chunk holds: its length field, type code, payload and checksum field.
pub struct ChunkView {
    pub length: u32,
    pub kind: Seq<u8>,
    pub data: Seq<u8>,
    pub crc: u32,
}

/// A well-formed chunk: a type code, a length equal to the payload's, and the
/// checksum of type and payload.
pub open spec fn is_chunk(v: ChunkView) -> bool {
    &&& is_type_code(v.kind)
    &&& v.length == v.data.len()
    &&& v.crc == crc32_of(v.kind + v.data)
}

/// The chunk that holds `data` under type code `kind`.
pub open spec fn created(kind: Seq<u8>, data: Seq<u8>) -> ChunkView {
    ChunkView { length: data.len() as u32, kind, data, crc: crc32_of(kind + data) }
}

/// The wire form of a chunk: length, type, payload, checksum.
pub open spec fn encode_chunk(v: ChunkView) -> Seq<u8> {
    be32(v.length) + v.kind + v.data + be32(v.crc)
}

/// What decoding `b` as one chunk gives.
#[verifier::opaque]
pub open spec fn decode_chunk(b: Seq<u8>) -> Result<ChunkView, InvalidChunk> {
    if b.len() < 8 {
        Err(InvalidChunk::Length)
    } else if !is_type_code(b.subrange(4, 8)) {
        Err(InvalidChunk::Type)
    } else if b.len() != be32_value(b.subrange(0, 4)) + 12 {
        Err(InvalidChunk::Length)
    } else if be32_value(b.subrange(b.len() - 4, b.len() as int)) != crc32_of(
        b.subrange(4, b.len() - 4),
    ) {
        Err(InvalidChunk::Crc)
    } else {
        Ok(
            ChunkView {
                length: be32_value(b.subrange(0, 4)),
                kind: b.subrange(4, 8),
                data: b.subrange(8, b.len() - 4),
                crc: be32_value(b.subrange(b.len() - 4, b.len() as int)),
            },
        )
    }
}

/// The decimal digits of `n`, as ASCII bytes.
pub open spec fn decimal(n: nat) -> Seq<u8>
    decreases n,
{
    if n < 10 {
        seq![(48 + n) as u8]
    } else {
        decimal(n / 10).push((48 + n % 10) as u8)
    }
}

/// A chunk as a line of text: length, type, payload and checksum, each
/// followed by a space.
pub open spec fn display_bytes(v: ChunkView) -> Seq<u8> {
    decimal(v.length as nat) + seq![32u8] + v.kind + seq![32u8] + v.data + seq![32u8] + decimal(
        v.crc as nat,
    ) + seq![32u8]
}

/// Why bytes are no chunk, or a chunk's payload is no text.
#[derive(Debug, Clone, Copy, PartialEq, Eq, Structural)]
pub enum InvalidChunk {
    Header,
    Length,
    Type,
    Data,
    Crc,
}

/// One length-prefixed, typed, checksummed record.
#[derive(Debug)]
pub struct Chunk {
    length: u32,
    chunk_type: ChunkType,
    chunk_data: Vec<u8>,
    crc: u32,
}

impl View for Chunk {
    type V = ChunkView;

    closed spec fn view(&self) -> ChunkView {
        ChunkView {
            length: self.length,
            kind: self.chunk_type@,
            data: self.chunk_data@,
            crc: self.crc,
        }
    }
}

/// The outcome of a decode, with the chunk seen through its view.
pub open spec fn view_result(r: Result<Chunk, InvalidChunk>) -> Result<ChunkView, InvalidChunk> {
    match r {
        Ok(c) => Ok(c@),
        Err(e) => Err(e),
    }
}

/// Appends `src` to `out`.
pub(crate) fn append_bytes(out: &mut Vec<u8>, src: &[u8])
    ensures
        final(out)@ == old(out)@ + src@,
{
    let mut i: usize = 0;
    while i < src.len()
        invariant
            i <= src@.len(),
            out@ == old(out)@ + src@.subrange(0, i as int),
        decreases src@.len() - i,
    {
        out.push(src[i]);
        i = i + 1;
        assert(out@ =~= old(out)@ + src@.subrange(0, i as int));
    }
    assert(src@.subrange(0, i as int) =~= src@);
}

/// Appends the decimal digits of `n` to `out`.
fn push_decimal(out: &mut Vec<u8>, n: u32)
    ensures
        final(out)@ == old(out)@ + decimal(n as nat),
    decreases n,
{
    if n >= 10 {
        push_decimal(out, n / 10);
    }
    out.push(48 + (n % 10) as u8);
    assert(out@ =~= old(out)@ + decimal(n as nat));
}

/// Decimal digits are ASCII.
proof fn lemma_decimal_ascii(n: nat)
    ensures
        forall|i: int| 0 <= i < decimal(n).len() ==> #[trigger] decimal(n)[i] < 128,
    decreases n,
{
    if n >= 10 {
        lemma_decimal_ascii(n / 10);
        let d = (48 + n % 10) as u8;
        assert(d < 128);
        assert(decimal(n) == decimal(n / 10).push(d));
    } else {
        assert(((48 + n) as u8) < 128);
    }
}

/// Appends the four big-endian bytes of `n` to `out`.
fn push_be32(out: &mut Vec<u8>, n: u32)
    ensures
        final(out)@ == old(out)@ + be32(n),
{
    out.push((n >> 24u32) as u8);
    out.push((n >> 16u32) as u8);
    out.push((n >> 8u32) as u8);
    out.push(n as u8);
    assert(out@ =~= old(out)@ + be32(n));
}

/// Reads four big-endian bytes of `b` starting at `at`.
fn read_be32(b: &[u8], at: usize) -> (r: u32)
    requires
        at + 4 <= b@.len(),
    ensures
        r == be32_value(b@.subrange(at as int, at + 4)),
{
    ((b[at] as u32) << 24u32) | ((b[at + 1] as u32) << 16u32) | ((b[at + 2] as u32) << 8u32) | (
    b[at + 3] as u32)
}

impl Chunk {
    #[verifier::type_invariant]
    spec fn well_formed(self) -> bool {
        is_chunk(self@)
    }

    /// The chunk holding `data` under `chunk_type`, with its length and checksum.
    pub fn new(chunk_type: ChunkType, data: Vec<u8>) -> (r: Chunk)
        requires
            data@.len() <= u32::MAX,
        ensures
            r@ == created(chunk_type@, data@),
    {
        let length = data.len() as u32;
        let kind = chunk_type.bytes();
        let mut whole: Vec<u8> = Vec::new();
        append_bytes(&mut whole, kind.as_slice());
        append_bytes(&mut whole, data.as_slice());
        let crc = crc32(whole.as_slice());
        Chunk { length, chunk_type, chunk_data: data, crc }
    }

    /// Decodes one chunk that fills `bytes` exactly, checking its type and checksum.
    pub fn decode(bytes: &[u8]) -> (r: Result<Chunk, InvalidChunk>)
        ensures
            view_result(r) == decode_chunk(bytes@),
    {
        reveal(decode_chunk);
        let len = bytes.len();
        if len < 8 {
            return Err(InvalidChunk::Length);
        }
        let length = read_be32(bytes, 0);
        let chunk_type = match ChunkType::from_bytes([bytes[4], bytes[5], bytes[6], bytes[7]]) {
            Ok(t) => t,
            Err(_) => {
                assert(bytes@.subrange(4, 8) =~= seq![bytes@[4], bytes@[5], bytes@[6], bytes@[7]]);
                return Err(InvalidChunk::Type);
            },
        };
        assert(bytes@.subrange(4, 8) =~= chunk_type@);
        if len < 12 || length as usize != len - 12 {
            return Err(InvalidChunk::Length);
        }
        let data_end = len - 4;
        let stored = read_be32(bytes, data_end);
        let computed = crc32(slice_subrange(bytes, 4, data_end));
        if computed != stored {
            return Err(InvalidChunk::Crc);
        }
        let chunk_data = slice_to_vec(slice_subrange(bytes, 8, data_end));
        assert(bytes@.subrange(4, data_end as int) =~= chunk_type@ + chunk_data@);
        Ok(Chunk { length, chunk_type, chunk_data, crc: stored })
    }

    /// The length field: the number of payload bytes.
    pub fn length(&self) -> (r: u32)
        ensures
            r == self@.length,
            r == self@.data.len(),
    {
        proof {
            use_type_invariant(self);
        }
        self.length
    }

    /// The chunk's type code.
    pub fn chunk_type(&self) -> (r: &ChunkType)
        ensures
            r@ == self@.kind,
    {
        &self.chunk_type
    }

    /// The payload.
    pub fn data(&self) -> (r: &[u8])
        ensures
            r@ == self@.data,
    {
        self.chunk_data.as_slice()
    }

    /// The payload read as UTF-8 text.
    pub fn data_as_string(&self) -> (r: Result<String, InvalidChunk>)
        ensures
            r is Ok <==> valid_utf8(self@.data),
            r is Ok ==> r->Ok_0@ == decode_utf8(self@.data),
            r is Err ==> r->Err_0 == InvalidChunk::Data,
    {
        match string_from_utf8(self.chunk_data.clone()) {
            Some(s) => Ok(s),
            None => Err(InvalidChunk::Data),
        }
    }

    /// The checksum field.
    pub fn crc(&self) -> (r: u32)
        ensures
            r == self@.crc,
            r == crc32_of(self@.kind + self@.data),
    {
        proof {
            use_type_invariant(self);
        }
        self.crc
    }

    /// The chunk as text: length, type, payload and checksum, each followed
    /// by a space.
    pub fn to_string(&self) -> (r: String)
        requires
            valid_utf8(self@.data),
        ensures
            valid_utf8(display_bytes(self@)),
            r@ == decode_utf8(display_bytes(self@)),
    {
        let mut out: Vec<u8> = Vec::new();
        push_decimal(&mut out, self.length);
        out.push(32);
        let kind = self.chunk_type.bytes();
        append_bytes(&mut out, kind.as_slice());
        out.push(32);
        let ghost head = out@;
        append_bytes(&mut out, self.chunk_data.as_slice());
        let ghost mid = out@;
        out.push(32);
        push_decimal(&mut out, self.crc);
        out.push(32);
        proof {
            let tail = out@.subrange(mid.len() as int, out@.len() as int);
            lemma_decimal_ascii(self.length as nat);
            lemma_decimal_ascii(self.crc as nat);
            assert(forall|i: int| 0 <= i < 4 ==> #[trigger] kind@[i] < 128);
            assert(head =~= decimal(self.length as nat) + seq![32u8] + kind@ + seq![32u8]);
            assert(forall|i: int| 0 <= i < head.len() ==> #[trigger] head[i] < 128) by {
                assert forall|i: int| 0 <= i < head.len() implies #[trigger] head[i] < 128 by {
                    let d = decimal(self.length as nat).len();
                    if i >= d + 1 && i < d + 5 {
                        assert(head[i] == kind@[i - d - 1]);
                    }
                }
            }
            assert(tail =~= seq![32u8] + decimal(self.crc as nat) + seq![32u8]);
            assert(forall|i: int| 0 <= i < tail.len() ==> #[trigger] tail[i] < 128) by {
                assert forall|i: int| 0 <= i < tail.len() implies #[trigger] tail[i] < 128 by {
                    if i >= 1 && i < tail.len() - 1 {
                        assert(tail[i] == decimal(self.crc as nat)[i - 1]);
                    }
                }
            }
            crate::chunk_type::lemma_ascii_utf8(head);
            crate::chunk_type::lemma_ascii_utf8(tail);
            vstd::utf8::valid_utf8_concat(head, self.chunk_data@);
            vstd::utf8::valid_utf8_concat(head + self.chunk_data@, tail);
            assert(out@ =~= head + self.chunk_data@ + tail);
            assert(out@ =~= display_bytes(self@));
        }
        match string_from_utf8(out) {
            Some(s) => s,
            None => String::new(),
        }
    }

    /// The wire form: length, type, payload and checksum, of a chunk that is
    /// always well formed.
    pub fn as_bytes(&self) -> (r: Vec<u8>)
        ensures
            r@ == encode_chunk(self@),
            is_chunk(self@),
    {
        proof {
            use_type_invariant(self);
        }
        let mut ans: Vec<u8> = Vec::new();
        push_be32(&mut ans, self.length);
        let kind = self.chunk_type.bytes();
        append_bytes(&mut ans, kind.as_slice());
        append_bytes(&mut ans, self.chunk_data.as_slice());
        push_be32(&mut ans, self.crc);
        ans
    }
}

impl<'a> TryFrom<&'a [u8]> for Chunk {
    type Error = InvalidChunk;

    fn try_from(value: &'a [u8]) -> Result<Self, Self::Error> {
        Chunk::decode(value)
    }
}

impl<'a> vstd::std_specs::convert::TryFromSpecImpl<&'a [u8]> for Chunk {
    /// The contract stands on `Chunk::decode`, whose result is stated through the view.
    open spec fn obeys_try_from_spec() -> bool {
        false
    }

    open spec fn try_from_spec(value: &'a [u8]) -> Result<Self, InvalidChunk> {
        Err(InvalidChunk::Length)
    }
}

/// Four bytes read big-endian and written back are the same four bytes.
pub proof fn lemma_be32_bytes(s: Seq<u8>)
    requires
        s.len() == 4,
    ensures
        be32(be32_value(s)) == s,
{
    let (b0, b1, b2, b3) = (s[0], s[1], s[2], s[3]);
    let v = be32_value(s);
    assert(v == ((b0 as u32) << 24u32) | ((b1 as u32) << 16u32) | ((b2 as u32) << 8u32) | (
    b3 as u32));
    assert((v >> 24u32) as u8 == b0 && (v >> 16u32) as u8 == b1 && (v >> 8u32) as u8 == b2
        && v as u8 == b3) by (bit_vector)
        requires
            v == ((b0 as u32) << 24u32) | ((b1 as u32) << 16u32) | ((b2 as u32) << 8u32) | (
            b3 as u32),
    ;
    assert(be32(v) =~= s);
}

/// A number written big-endian and read back is the same number.
pub proof fn lemma_be32_value(n: u32)
    ensures
        be32_value(be32(n)) == n,
{
    assert(((((n >> 24u32) as u8) as u32) << 24u32) | ((((n >> 16u32) as u8) as u32) << 16u32)
        | ((((n >> 8u32) as u8) as u32) << 8u32) | ((n as u8) as u32) == n) by (bit_vector);
}

/// Encoding a freshly created chunk and decoding the bytes gives back the same
/// length, type, payload and checksum.
pub proof fn lemma_created_round_trip(kind: Seq<u8>, data: Seq<u8>)
    requires
        is_type_code(kind),
        data.len() <= u32::MAX,
    ensures
        decode_chunk(encode_chunk(created(kind, data))) == Ok::<ChunkView, InvalidChunk>(
            created(kind, data),
        ),
{
    reveal(decode_chunk);
    let v = created(kind, data);
    let b = encode_chunk(v);
    lemma_be32_value(v.length);
    lemma_be32_value(v.crc);
    assert(b.subrange(0, 4) =~= be32(v.length));
    assert(b.subrange(4, 8) =~= kind);
    assert(b.subrange(4, b.len() - 4) =~= kind + data);
    assert(b.subrange(8, b.len() - 4) =~= data);
    assert(b.subrange(b.len() - 4, b.len() as int) =~= be32(v.crc));
}

/// Bytes that decode as a chunk are exactly that chunk's encoding.
pub proof fn lemma_decode_encode(b: Seq<u8>)
    requires
        decode_chunk(b) is Ok,
    ensures
        encode_chunk(decode_chunk(b)->Ok_0) == b,
{
    reveal(decode_chunk);
    let v = decode_chunk(b)->Ok_0;
    lemma_be32_bytes(b.subrange(0, 4));
    lemma_be32_bytes(b.subrange(b.len() - 4, b.len() as int));
    assert(encode_chunk(v) =~= b);
}

/// Flipping one bit of the checksum field of a chunk's bytes makes them fail
/// to decode, with `Crc`.
pub proof fn lemma_checksum_bit_flip(b: Seq<u8>, i: int, bit: u8)
    requires
        decode_chunk(b) is Ok,
        b.len() - 4 <= i < b.len(),
        bit < 8,
    ensures
        decode_chunk(b.update(i, b[i] ^ (1u8 << bit))) == Err::<ChunkView, InvalidChunk>(
            InvalidChunk::Crc,
        ),
{
    reveal(decode_chunk);
    let x = b[i];
    assert(x ^ (1u8 << bit) != x) by (bit_vector)
        requires
            bit < 8,
    ;
    let f = b.update(i, x ^ (1u8 << bit));
    let n = b.len() as int;
    assert(f.subrange(0, 4) =~= b.subrange(0, 4));
    assert(f.subrange(4, 8) =~= b.subrange(4, 8));
    assert(f.subrange(4, n - 4) =~= b.subrange(4, n - 4));
    let old_field = b.subrange(n - 4, n);
    let new_field = f.subrange(n - 4, n);
    assert(new_field[i - (n - 4)] != old_field[i - (n - 4)]);
    lemma_be32_bytes(old_field);
    lemma_be32_bytes(new_field);
}

} // verus!
