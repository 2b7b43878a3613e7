use vstd::prelude::*;
use vstd::string::StringSliceAdditionalSpecFns;
use vstd::utf8::{decode_utf8, valid_utf8};

verus! {

/// A byte that may stand in a chunk type code: an ASCII letter.
pub open spec fn is_type_byte(b: u8) -> bool {
    (65 <= b && b <= 90) || (97 <= b && b <= 122)
}

/// Four bytes, each an ASCII letter.
pub open spec fn is_type_code(s: Seq<u8>) -> bool {
    &&& s.len() == 4
    &&& forall|i: int| 0 <= i < 4 ==> is_type_byte(#[trigger] s[i])
}

/// The text that a type code renders to: one character per byte.
pub open spec fn type_text(s: Seq<u8>) -> Seq<char> {
    s.map_values(|b: u8| b as char)
}

/// Relies on `String::from_utf8`: it succeeds exactly on valid UTF-8, and the
/// string then holds the decoded characters.
#[verifier::external_body]
pub(crate) fn string_from_utf8(bytes: Vec<u8>) -> (r: Option<String>)
    ensures
        r is Some <==> valid_utf8(bytes@),
        r is Some ==> r->Some_0@ == decode_utf8(bytes@),
{
    String::from_utf8(bytes).ok()
}

/// Why a byte sequence is no chunk type code.
#[derive(Debug, Clone, Copy, PartialEq, Eq, Structural)]
pub enum ChunkTypeError {
    InvalidChunk,
}

/// A four-letter chunk type code. Bit 5 of each byte carries a property flag.
#[derive(Debug, Clone, Copy, PartialEq, Eq, Structural)]
pub struct ChunkType {
    a: u8,
    b: u8,
    c: u8,
    d: u8,
}

impl View for ChunkType {
    type V = Seq<u8>;

    closed spec fn view(&self) -> Seq<u8> {
        seq![self.a, self.b, self.c, self.d]
    }
}

fn check(val: u8) -> (r: Result<u8, ChunkTypeError>)
    ensures
        r == (if is_type_byte(val) {
            Ok(val)
        } else {
            Err(ChunkTypeError::InvalidChunk)
        }),
{
    if (65 <= val && val < 91) || (97 <= val && val < 123) {
        Ok(val)
    } else {
        Err(ChunkTypeError::InvalidChunk)
    }
}

impl ChunkType {
    #[verifier::type_invariant]
    spec fn letters(self) -> bool {
        is_type_code(self@)
    }

    /// The chunk type whose bytes are `s`, where `s` is a type code.
    pub closed spec fn spec_from_seq(s: Seq<u8>) -> Result<ChunkType, ChunkTypeError> {
        if is_type_code(s) {
            Ok(ChunkType { a: s[0], b: s[1], c: s[2], d: s[3] })
        } else {
            Err(ChunkTypeError::InvalidChunk)
        }
    }

    /// Builds a chunk type from four bytes; fails unless every byte is an ASCII letter.
    pub fn from_bytes(value: [u8; 4]) -> (r: Result<ChunkType, ChunkTypeError>)
        ensures
            r == Self::spec_from_seq(value@),
            r is Ok <==> is_type_code(value@),
            r is Ok ==> r->Ok_0@ == value@,
    {
        let a = match check(value[0]) {
            Ok(v) => v,
            Err(e) => return Err(e),
        };
        let b = match check(value[1]) {
            Ok(v) => v,
            Err(e) => return Err(e),
        };
        let c = match check(value[2]) {
            Ok(v) => v,
            Err(e) => return Err(e),
        };
        let d = match check(value[3]) {
            Ok(v) => v,
            Err(e) => return Err(e),
        };
        let r = ChunkType { a, b, c, d };
        assert(r@ =~= value@);
        Ok(r)
    }

    /// Builds a chunk type from text; fails unless it is exactly four ASCII letters.
    pub fn from_text(s: &str) -> (r: Result<ChunkType, ChunkTypeError>)
        ensures
            r == Self::spec_from_seq(s.spec_bytes()),
            r is Ok <==> is_type_code(s.spec_bytes()),
            r is Ok ==> r->Ok_0@ == s.spec_bytes(),
    {
        let bytes = s.as_bytes();
        if bytes.len() != 4 {
            return Err(ChunkTypeError::InvalidChunk);
        }
        Self::from_bytes([bytes[0], bytes[1], bytes[2], bytes[3]])
    }

    /// The four stored bytes, which are always ASCII letters.
    pub fn bytes(&self) -> (r: [u8; 4])
        ensures
            r@ == self@,
            is_type_code(self@),
    {
        proof {
            use_type_invariant(self);
        }
        let r = [self.a, self.b, self.c, self.d];
        assert(r@ =~= self@);
        r
    }

    /// The third byte is an uppercase letter.
    pub fn is_valid(&self) -> (r: bool)
        ensures
            r == (65 <= self@[2] && self@[2] <= 90),
    {
        65 <= self.c && self.c <= 90
    }

    /// Bit 5 of the first byte is clear.
    pub fn is_critical(&self) -> (r: bool)
        ensures
            r == (self@[0] & 0x20 == 0),
    {
        self.a & 0x20 == 0
    }

    /// Bit 5 of the second byte is clear.
    pub fn is_public(&self) -> (r: bool)
        ensures
            r == (self@[1] & 0x20 == 0),
    {
        self.b & 0x20 == 0
    }

    /// Bit 5 of the third byte is clear; for a letter, that is an uppercase one.
    pub fn is_reserved_bit_valid(&self) -> (r: bool)
        ensures
            r == (self@[2] & 0x20 == 0),
            r == (65 <= self@[2] && self@[2] <= 90),
    {
        proof {
            use_type_invariant(self);
            lemma_letter_case(self.c);
        }
        self.c & 0x20 == 0
    }

    /// Bit 5 of the fourth byte is set.
    pub fn is_safe_to_copy(&self) -> (r: bool)
        ensures
            r == (self@[3] & 0x20 != 0),
    {
        self.d & 0x20 != 0
    }

    /// The four letters as text.
    pub fn to_string(&self) -> (r: String)
        ensures
            r@ == type_text(self@),
    {
        let bytes = vec![self.a, self.b, self.c, self.d];
        proof {
            use_type_invariant(self);
            assert(bytes@ =~= self@);
            lemma_type_text_utf8(self@);
        }
        match string_from_utf8(bytes) {
            Some(s) => s,
            None => String::new(),
        }
    }
}

/// For an ASCII letter, bit 5 is clear exactly when the letter is uppercase.
pub proof fn lemma_letter_case(b: u8)
    requires
        is_type_byte(b),
    ensures
        (b & 0x20 == 0) <==> (65 <= b && b <= 90),
{
    assert(((65 <= b && b <= 90) || (97 <= b && b <= 122)) ==> ((b & 0x20 == 0) <==> (65 <= b
        && b <= 90))) by (bit_vector);
}

/// A type code is valid UTF-8, decodes to its own text, and is that text's encoding.
pub proof fn lemma_type_text_utf8(s: Seq<u8>)
    requires
        is_type_code(s),
    ensures
        valid_utf8(s),
        decode_utf8(s) == type_text(s),
        vstd::utf8::encode_utf8(type_text(s)) == s,
{
    let t = type_text(s);
    assert(vstd::utf8::is_ascii_chars(t));
    vstd::utf8::is_ascii_chars_encode_utf8(t);
    assert(vstd::utf8::encode_utf8(t) =~= s);
    vstd::utf8::encode_utf8_valid_utf8(t);
    vstd::utf8::encode_utf8_decode_utf8(t);
}

/// Bytes that are all ASCII are valid UTF-8.
pub proof fn lemma_ascii_utf8(s: Seq<u8>)
    requires
        forall|i: int| 0 <= i < s.len() ==> #[trigger] s[i] < 128,
    ensures
        valid_utf8(s),
{
    let t = s.map_values(|b: u8| b as char);
    assert(vstd::utf8::is_ascii_chars(t));
    vstd::utf8::is_ascii_chars_encode_utf8(t);
    assert(vstd::utf8::encode_utf8(t) =~= s);
    vstd::utf8::encode_utf8_valid_utf8(t);
}

/// Text names a type code exactly when its UTF-8 bytes are the code's bytes.
pub proof fn lemma_text_names_type(name: Seq<char>, s: Seq<u8>)
    requires
        is_type_code(s),
    ensures
        (name == type_text(s)) <==> (vstd::utf8::encode_utf8(name) == s),
{
    lemma_type_text_utf8(s);
    vstd::utf8::encode_utf8_decode_utf8(name);
}

impl TryFrom<[u8; 4]> for ChunkType {
    type Error = ChunkTypeError;

    fn try_from(value: [u8; 4]) -> (r: Result<Self, Self::Error>) {
        ChunkType::from_bytes(value)
    }
}

impl vstd::std_specs::convert::TryFromSpecImpl<[u8; 4]> for ChunkType {
    open spec fn obeys_try_from_spec() -> bool {
        true
    }

    open spec fn try_from_spec(value: [u8; 4]) -> Result<Self, ChunkTypeError> {
        ChunkType::spec_from_seq(value@)
    }
}

impl std::str::FromStr for ChunkType {
    type Err = ChunkTypeError;

    fn from_str(s: &str) -> Result<Self, Self::Err> {
        ChunkType::from_text(s)
    }
}

} // verus!
