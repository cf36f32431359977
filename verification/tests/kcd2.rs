use chunky_gltf::bits::BitReader;
use chunky_gltf::error::{CorruptKind, Error};
use chunky_gltf::kauai::fields::{read_length, read_offset, Length};
use chunky_gltf::kauai::kcd2::{decode, read_literal_run};

/// A bit stream under construction, the first bit of each byte the least significant.
struct Stream {
    bits: Vec<u8>,
}

impl Stream {
    fn new() -> Stream {
        Stream { bits: Vec::new() }
    }

    fn bit(&mut self, bit: u8) {
        self.bits.push(bit & 1);
    }

    fn number(&mut self, value: u32, width: usize) {
        for i in 0..width {
            self.bit(((value >> i) & 1) as u8);
        }
    }

    fn length(&mut self, value: u32) {
        let k = 31 - value.leading_zeros() as usize;
        for _ in 0..k {
            self.bit(1);
        }
        self.bit(0);
        self.number(value - (1 << k), k);
    }

    fn offset(&mut self, offset: u32) {
        if offset <= 0x40 {
            self.bit(0);
            self.number(offset - 1, 6);
        } else if offset <= 0x240 {
            self.bit(1);
            self.bit(0);
            self.number(offset - 0x41, 9);
        } else if offset <= 0x1240 {
            self.bit(1);
            self.bit(1);
            self.bit(0);
            self.number(offset - 0x241, 12);
        } else {
            self.bit(1);
            self.bit(1);
            self.bit(1);
            self.number(offset - 0x1241, 20);
        }
    }

    /// A literal run as the codec lays it out: whole bytes of the packed data
    /// first, and the byte that straddles them last.
    fn literal(&mut self, bytes: &[u8]) {
        self.length(bytes.len() as u32);
        self.bit(0);
        let phase = self.bits.len() % 8;
        if phase == 0 {
            for byte in bytes {
                self.number(*byte as u32, 8);
            }
        } else {
            let last = *bytes.last().unwrap() as u32;
            self.number(last, 8 - phase);
            for byte in &bytes[..bytes.len() - 1] {
                self.number(*byte as u32, 8);
            }
            self.number(last >> (8 - phase), phase);
        }
    }

    fn backref(&mut self, offset: u32, length: u32) {
        let bonus = if offset <= 0x1240 { 1 } else { 2 };
        self.length(length - bonus);
        self.bit(1);
        self.offset(offset);
    }

    fn end(&mut self) {
        for _ in 0..12 {
            self.bit(1);
        }
    }

    fn bytes(&self) -> Vec<u8> {
        let mut bytes = vec![0u8; (self.bits.len() + 7) / 8];
        for (i, bit) in self.bits.iter().enumerate() {
            bytes[i / 8] |= bit << (i % 8);
        }
        bytes
    }

    fn payload(&self, announced: u32) -> Vec<u8> {
        let mut payload = announced.to_be_bytes().to_vec();
        payload.push(0);
        payload.extend(self.bytes());
        payload
    }
}

#[test]
fn kcd2_literals_and_backref() {
    let mut stream = Stream::new();
    stream.literal(b"abc");
    stream.backref(3, 2);
    stream.end();
    assert_eq!(decode(&stream.payload(5)).unwrap(), b"abcab".to_vec());
}

#[test]
fn kcd2_backref_longer_than_offset_repeats() {
    let mut stream = Stream::new();
    stream.literal(b"xy");
    stream.backref(2, 7);
    stream.end();
    assert_eq!(decode(&stream.payload(9)).unwrap(), b"xyxyxyxyx".to_vec());
}

#[test]
fn kcd2_aligned_literal_run_copies_bytes() {
    // Six bits of padding literals bring the next run to a byte boundary.
    let mut stream = Stream::new();
    stream.literal(b"q");
    assert_eq!(stream.bits.len() % 8, 2);
    stream.length(4);
    stream.bit(0);
    // The length field of four takes five bits, the flag one: the run starts at a boundary.
    assert_eq!(stream.bits.len() % 8, 0);
    for byte in b"wxyz" {
        stream.number(*byte as u32, 8);
    }
    stream.end();
    assert_eq!(decode(&stream.payload(5)).unwrap(), b"qwxyz".to_vec());
}

#[test]
fn kcd2_unaligned_run_puts_the_straddling_byte_last() {
    // Length one, flag, then sixteen bits of which the middle eight are a whole byte.
    let mut stream = Stream::new();
    stream.length(2);
    stream.bit(0);
    assert_eq!(stream.bits.len() % 8, 4);
    stream.number(0xA, 4);
    stream.number(0x5C, 8);
    stream.number(0x3, 4);
    stream.end();
    assert_eq!(decode(&stream.payload(2)).unwrap(), vec![0x5C, 0x3A]);
}

#[test]
fn kcd2_empty_stream_is_an_empty_output() {
    assert_eq!(decode(&[0, 0, 0, 0, 0]).unwrap(), Vec::<u8>::new());
}

#[test]
fn kcd2_errors() {
    assert_eq!(decode(&[0, 0, 0]), Err(Error::TruncatedHeader));
    assert_eq!(decode(&[0, 0, 0, 1]), Err(Error::TruncatedHeader));
    // The stream ends at once but one byte is announced.
    assert_eq!(decode(&[0, 0, 0, 1, 0]), Err(Error::Corrupt(CorruptKind::LengthMismatch)));

    let mut overflow = Stream::new();
    overflow.literal(b"ab");
    overflow.end();
    assert_eq!(decode(&overflow.payload(1)), Err(Error::Corrupt(CorruptKind::Overflow)));

    let mut far = Stream::new();
    far.literal(b"a");
    far.backref(2, 2);
    far.end();
    assert_eq!(decode(&far.payload(3)), Err(Error::Corrupt(CorruptKind::OffsetOutOfRange)));

    let mut long = Stream::new();
    long.literal(b"a");
    long.backref(1, 5);
    long.end();
    assert_eq!(decode(&long.payload(3)), Err(Error::Corrupt(CorruptKind::LengthOverflow)));

    // A length field, the flag of a back-reference, and no offset.
    let mut cut = Stream::new();
    cut.literal(b"a");
    cut.length(1);
    cut.bit(1);
    cut.bit(0);
    assert_eq!(decode(&cut.payload(3)), Err(Error::Corrupt(CorruptKind::InvalidBackref)));

    // A literal run that the stream does not hold.
    let mut short = Stream::new();
    short.length(3);
    short.bit(0);
    short.number(0, 8);
    assert_eq!(decode(&short.payload(3)), Err(Error::TruncatedPayload));

    // A length field whose raw bits are missing: four ones, a zero, and three bits.
    let mut field = Stream::new();
    field.number(0b1111, 4);
    field.bit(0);
    field.number(0, 3);
    assert_eq!(decode(&field.payload(3)), Err(Error::TruncatedPayload));

    // A length field, the flag of a literal run, and six bits where eight are needed.
    let mut run = Stream::new();
    run.length(1);
    run.bit(0);
    assert_eq!(decode(&run.payload(1)), Err(Error::TruncatedPayload));
}

#[test]
fn length_fields_round_trip() {
    for v in 1u32..4096 {
        let mut stream = Stream::new();
        stream.length(v);
        let used = stream.bits.len();
        let k = 31 - v.leading_zeros() as usize;
        assert_eq!(used, (k + 1) + k);
        // Something after the field, so that the end of the bits plays no part.
        stream.number(0x2a5, 13);
        let bytes = stream.bytes();
        let mut reader = BitReader::new(&bytes);
        assert_eq!(read_length(&mut reader), Some(Length::Bytes(v as usize)));
        let mut rest = BitReader::new(&bytes);
        for _ in 0..used {
            rest.read_bit();
        }
        assert_eq!(reader.read_bits(13), Some(0x2a5));
        assert_eq!(rest.read_bits(13), Some(0x2a5));
    }
}

#[test]
fn length_field_of_twelve_ones_is_the_end() {
    let bytes = [0xff, 0x0f];
    let mut reader = BitReader::new(&bytes);
    assert_eq!(read_length(&mut reader), Some(Length::Break));
    assert_eq!(reader.read_bits(16), Some(0x0fff));
}

#[test]
fn length_field_cut_short() {
    // Three ones, a zero, and only two of the three raw bits.
    let bytes = [0b0001_0111];
    let mut reader = BitReader::prefix(&bytes, 6).unwrap();
    assert_eq!(read_length(&mut reader), None);
    // Nothing was read.
    assert_eq!(reader.read_bits(6), Some(0b01_0111));
}

#[test]
fn offsets_round_trip() {
    let samples = [
        1u32, 2, 63, 64, 65, 66, 575, 576, 577, 578, 4671, 4672, 4673, 4674, 70000, 0x101240 - 1,
        0x101240,
    ];
    for offset in samples {
        let mut stream = Stream::new();
        stream.offset(offset);
        let used = stream.bits.len();
        let (expected_used, bonus) = if offset <= 64 {
            (7, 1)
        } else if offset <= 576 {
            (11, 1)
        } else if offset <= 4672 {
            (15, 1)
        } else {
            (23, 2)
        };
        assert_eq!(used, expected_used);
        stream.number(0x15, 5);
        let bytes = stream.bytes();
        let mut reader = BitReader::new(&bytes);
        assert_eq!(read_offset(&mut reader), Some((offset as usize, bonus)));
        assert_eq!(reader.read_bits(5), Some(0x15));
    }
}

#[test]
fn offset_cut_short_reads_nothing() {
    let bytes = [0b0000_0110];
    let mut reader = BitReader::prefix(&bytes, 5).unwrap();
    assert_eq!(read_offset(&mut reader), None);
    assert_eq!(reader.read_bits(5), Some(0b0_0110));
}

#[test]
fn literal_run_that_is_not_there_reads_nothing() {
    let bytes = [0x12, 0x34];
    let mut reader = BitReader::new(&bytes);
    let mut out = vec![9u8];
    assert!(!read_literal_run(&mut reader, 3, &mut out));
    assert_eq!(out, vec![9]);
    assert!(read_literal_run(&mut reader, 2, &mut out));
    assert_eq!(out, vec![9, 0x12, 0x34]);
    assert!(reader.is_empty());
}
