use pngme::chunk::{Chunk, InvalidChunk};
use pngme::chunk_type::ChunkType;
use pngme::png::Png;

const MESSAGE: &str = "This is where your secret message will be!";

fn chunk(kind: &str, data: &str) -> Chunk {
    Chunk::new(ChunkType::from_text(kind).unwrap(), data.as_bytes().to_vec())
}

fn sample() -> Png {
    Png::from_chunks(vec![chunk("FrSt", "one"), chunk("miDl", ""), chunk("LASt", "three")])
}

#[test]
fn secret_message_end_to_end() {
    let c = chunk("RuSt", MESSAGE);
    assert_eq!(c.length(), 42);
    assert_eq!(c.crc(), 2882656334);
    let mut png = sample();
    png.append_chunk(c);
    let found = png.chunk_by_type("RuSt").unwrap();
    assert_eq!(found.data(), MESSAGE.as_bytes());
    assert_eq!(found.crc(), 2882656334);
    let removed = png.remove_first_chunk("RuSt").unwrap();
    assert_eq!(removed.data_as_string().unwrap(), MESSAGE);
    assert!(png.remove_first_chunk("RuSt").is_none());
    assert!(png.chunk_by_type("RuSt").is_none());
    assert_eq!(png.chunks().len(), 3);
}

#[test]
fn encoding_starts_with_signature_and_round_trips() {
    let png = sample();
    let bytes = png.as_bytes();
    assert_eq!(&bytes[..8], &Png::STANDARD_HEADER);
    assert_eq!(bytes.len(), 8 + (3 + 12) + 12 + (5 + 12));
    let back = Png::decode(&bytes).unwrap();
    assert_eq!(back.chunks().len(), 3);
    assert_eq!(back.chunks()[2].data(), b"three");
    assert_eq!(back.as_bytes(), bytes);
}

#[test]
fn empty_container() {
    let png = Png::from_chunks(Vec::new());
    assert_eq!(png.as_bytes(), Png::STANDARD_HEADER.to_vec());
    let back = Png::decode(&Png::STANDARD_HEADER).unwrap();
    assert!(back.chunks().is_empty());
}

#[test]
fn altered_signature_is_a_header_error() {
    let bytes = sample().as_bytes();
    for i in 0..8 {
        let mut bad = bytes.clone();
        bad[i] ^= 0x01;
        assert_eq!(Png::decode(&bad).unwrap_err(), InvalidChunk::Header);
    }
    assert_eq!(Png::decode(&bytes[..5]).unwrap_err(), InvalidChunk::Header);
}

#[test]
fn truncated_last_chunk_is_a_length_error() {
    let bytes = sample().as_bytes();
    assert_eq!(Png::decode(&bytes[..bytes.len() - 1]).unwrap_err(), InvalidChunk::Length);
    assert_eq!(Png::decode(&bytes[..10]).unwrap_err(), InvalidChunk::Length);
}

#[test]
fn inner_chunk_errors_propagate() {
    let mut bytes = sample().as_bytes();
    bytes[8 + 4] = b'9';
    assert_eq!(Png::decode(&bytes).unwrap_err(), InvalidChunk::Type);
    let mut bytes = sample().as_bytes();
    bytes[8 + 8] ^= 0x10;
    assert_eq!(Png::decode(&bytes).unwrap_err(), InvalidChunk::Crc);
}

#[test]
fn first_of_equal_types_wins() {
    let mut png = Png::from_chunks(vec![chunk("RuSt", "a"), chunk("teXt", "b"), chunk("RuSt", "c")]);
    assert_eq!(png.chunk_by_type("RuSt").unwrap().data(), b"a");
    assert_eq!(png.remove_first_chunk("RuSt").unwrap().data(), b"a");
    assert_eq!(png.chunk_by_type("RuSt").unwrap().data(), b"c");
    assert_eq!(png.chunks()[0].data(), b"b");
    assert!(png.chunk_by_type("rust").is_none());
    assert!(png.remove_first_chunk("nope").is_none());
    assert_eq!(png.chunks().len(), 2);
}

#[test]
fn append_keeps_order() {
    let mut png = sample();
    png.append_chunk(chunk("RuSt", "x"));
    let kinds: Vec<String> = png.chunks().iter().map(|c| c.chunk_type().to_string()).collect();
    assert_eq!(kinds, vec!["FrSt", "miDl", "LASt", "RuSt"]);
}
