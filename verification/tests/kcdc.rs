use chunky_gltf::bits::BitReader;
use chunky_gltf::error::{CorruptKind, Error};
use chunky_gltf::kauai::kcdc::{decode, read_offset_length, OFFSET_STOP};

/// Packs bits into bytes, the first bit into the least significant place.
fn pack(bits: &[u8]) -> Vec<u8> {
    let mut bytes = vec![0u8; (bits.len() + 7) / 8];
    for (i, bit) in bits.iter().enumerate() {
        bytes[i / 8] |= (bit & 1) << (i % 8);
    }
    bytes
}

#[test]
fn decode_aba() {
    assert_eq!(
        &b"aba"[..],
        &decode(&[
            0x0,
            0x0,
            0x0,
            0x3,
            0x0,
            0b0_1000011u8.reverse_bits(),
            0b0_0_010001u8.reverse_bits(),
            0b10_0_10000u8.reverse_bits(),
            0b110_1111_1u8.reverse_bits(),
            0b11111111u8.reverse_bits(),
            0b11111111u8.reverse_bits(),
            0b111_11111u8.reverse_bits(),
        ])
        .unwrap()[..],
    );
}

#[test]
fn read_offset_length_1_36() {
    let bits = [
        // 6 bit offset
        0,
        // offset = 0 + 1 = 1
        0, 0, 0, 0, 0, 0,
        // length encoded in next 5 bits
        1, 1, 1, 1, 1, 0,
        // length = 1 + 3 + (1 << 5) = 36
        1, 1, 0, 0, 0,
    ];
    let bytes = pack(&bits);
    let mut bits = BitReader::prefix(&bytes, bits.len()).unwrap();
    assert_eq!(Some((1, 36)), read_offset_length(&mut bits));
    assert!(bits.is_empty());
}

#[test]
fn read_offset_length_3_4() {
    let bits = [
        // 6 bit offset
        0,
        // offset = 2 + 1 = 3
        0, 1, 0, 0, 0, 0,
        // length encoded in next 1 bit
        1, 0,
        // length = 1 + 1 + (1 << 1) = 4
        1,
    ];
    let bytes = pack(&bits);
    let mut bits = BitReader::prefix(&bytes, bits.len()).unwrap();
    assert_eq!(Some((3, 4)), read_offset_length(&mut bits));
    assert!(bits.is_empty());
}

#[test]
fn read_offset_length_4_5() {
    let bits = [
        // 6 bit offset
        0,
        // offset = 3 + 1 = 4
        1, 1, 0, 0, 0, 0,
        // length encoded in next 2 bits
        1, 1, 0,
        // length = 1 + 0 + (1 << 2) = 5
        0, 0,
    ];
    let bytes = pack(&bits);
    let mut bits = BitReader::prefix(&bytes, bits.len()).unwrap();
    assert_eq!(Some((4, 5)), read_offset_length(&mut bits));
    assert!(bits.is_empty());
}

#[test]
fn read_offset_length_5_2() {
    let bits = [
        // 6 bit offset
        0,
        // offset = 4 + 1 = 5
        0, 0, 1, 0, 0, 0,
        // length encoded in next 0 bits
        0,
        // length = 1 + 0 + (1 << 0) = 2
    ];
    let bytes = pack(&bits);
    let mut bits = BitReader::prefix(&bytes, bits.len()).unwrap();
    assert_eq!(Some((5, 2)), read_offset_length(&mut bits));
    assert!(bits.is_empty());
}

#[test]
fn read_offset_length_stop() {
    let bits = [
        // 20 bit offset
        1, 1, 1,
        // offset = 1048575 + 4673 = 1053248
        1, 1, 1, 1, 1, 1, 1, 1, 1, 1, 1, 1, 1, 1, 1, 1, 1, 1, 1, 1,
    ];
    let bytes = pack(&bits);
    let mut bits = BitReader::prefix(&bytes, bits.len()).unwrap();
    assert_eq!(Some((OFFSET_STOP, 0)), read_offset_length(&mut bits));
    assert!(bits.is_empty());
}

#[test]
fn kcdc_rejects_a_stream_that_stops_short() {
    // Announces three bytes, delivers one literal, then the end marker.
    let mut bits = vec![0, 1, 0, 0, 0, 0, 1, 1, 0];
    bits.extend([1, 1, 1, 1]);
    bits.extend([1; 20]);
    let mut input = vec![0, 0, 0, 3, 0];
    input.extend(pack(&bits));
    assert_eq!(decode(&input), Err(Error::Corrupt(CorruptKind::LengthMismatch)));
}

/// A payload that announces `announced` bytes and holds the given bits.
fn payload(announced: u32, bits: &[u8]) -> Vec<u8> {
    let mut input = announced.to_be_bytes().to_vec();
    input.push(0);
    input.extend(pack(bits));
    input
}

/// The bits of a literal byte, its flag first.
fn literal(byte: u8) -> Vec<u8> {
    let mut bits = vec![0];
    bits.extend((0..8).map(|i| (byte >> i) & 1));
    bits
}

/// The bits that end a stream.
fn end() -> Vec<u8> {
    vec![1; 24]
}

#[test]
fn kcdc_copies_overlapping_runs() {
    // One literal, then a copy of five bytes from one byte back.
    let mut bits = literal(b'z');
    // The flag, offset 1, and length 5: two ones, a zero, raw 0, plus the one that the family adds.
    bits.extend([1, 0, 0, 0, 0, 0, 0, 0]);
    bits.extend([1, 1, 0, 0, 0]);
    bits.extend(end());
    assert_eq!(decode(&payload(6, &bits)).unwrap(), b"zzzzzz".to_vec());
}

#[test]
fn kcdc_errors() {
    assert_eq!(decode(&[0, 0, 0]), Err(Error::TruncatedHeader));
    assert_eq!(decode(&[0, 0, 0, 0]), Err(Error::TruncatedHeader));
    // No bits at all.
    assert_eq!(decode(&[0, 0, 0, 0, 0]), Err(Error::TruncatedPayload));
    // A literal when the output is already full.
    let mut full = literal(b'a');
    full.extend(literal(b'b'));
    full.extend(end());
    assert_eq!(decode(&payload(1, &full)), Err(Error::Corrupt(CorruptKind::Overflow)));
    // A literal of which only seven bits are there.
    assert_eq!(decode(&payload(1, &[0, 0, 0, 0, 0, 0, 0, 0])), Err(Error::TruncatedPayload));
    // A copy from before the start of the output.
    let mut far = literal(b'a');
    far.extend([1, 0, 1, 0, 0, 0, 0, 0]);
    far.extend([0]);
    far.extend(end());
    assert_eq!(decode(&payload(3, &far)), Err(Error::Corrupt(CorruptKind::OffsetOutOfRange)));
    // A copy that would make the output longer than announced.
    let mut long = literal(b'a');
    long.extend([1, 0, 0, 0, 0, 0, 0, 0]);
    long.extend([1, 0, 1]);
    long.extend(end());
    assert_eq!(decode(&payload(4, &long)), Err(Error::Corrupt(CorruptKind::LengthOverflow)));
    // A back-reference whose length field is twelve ones.
    let mut ones = literal(b'a');
    ones.extend([1, 0, 0, 0, 0, 0, 0, 0]);
    ones.extend([1; 12]);
    ones.extend([0; 4]);
    assert_eq!(decode(&payload(4, &ones)), Err(Error::Corrupt(CorruptKind::InvalidBackref)));
    // A back-reference whose offset is cut short.
    let mut cut = literal(b'a');
    cut.extend([1, 0, 0, 0, 0, 0, 0]);
    assert_eq!(cut.len(), 16);
    assert_eq!(decode(&payload(4, &cut)), Err(Error::Corrupt(CorruptKind::InvalidBackref)));
}

#[test]
fn read_offset_length_reads_nothing_when_it_fails() {
    // An offset, and a length field whose raw bits are missing.
    let bits = [0, 1, 1, 0, 0, 0, 0, 1, 1, 0, 1];
    let bytes = pack(&bits);
    let mut reader = BitReader::prefix(&bytes, bits.len()).unwrap();
    assert_eq!(read_offset_length(&mut reader), None);
    assert_eq!(reader.read_bits(11), Some(0b101_1000_0110));
}
