use chunky_gltf::error::Error;
use chunky_gltf::kauai::{decode, unpack};

const ABA: [u8; 12] = [
    0x0,
    0x0,
    0x0,
    0x3,
    0x0,
    0b1100_0010,
    0b1000_1000,
    0b0000_1001,
    0b1111_1011,
    0xff,
    0xff,
    0xff,
];

fn tagged(tag: &[u8], rest: &[u8]) -> Vec<u8> {
    let mut bytes = tag.to_vec();
    bytes.extend_from_slice(rest);
    bytes
}

#[test]
fn decode_picks_the_codec_by_its_tag() {
    assert_eq!(decode(&tagged(b"KCDC", &ABA)).unwrap(), b"aba".to_vec());
    // In the newer codec the same bits are an empty stream that announces three bytes.
    assert!(decode(&tagged(b"KCD2", &[0, 0, 0, 0, 0])).unwrap().is_empty());
}

#[test]
fn decode_refuses_other_tags() {
    assert_eq!(decode(&tagged(b"KCD3", &ABA)), Err(Error::UnsupportedCodec));
    assert_eq!(decode(b"KCD"), Err(Error::TruncatedHeader));
    assert_eq!(decode(b"KCDC"), Err(Error::TruncatedHeader));
}

#[test]
fn unpack_hands_stored_bytes_back() {
    let stored = unpack(b"puakhello").unwrap();
    assert_eq!(&stored[..], b"hello");
    assert!(matches!(stored, std::borrow::Cow::Borrowed(_)));
    assert_eq!(&unpack(b"puakXYZ").unwrap()[..], b"XYZ");
    assert!(matches!(unpack(b"puakXYZ").unwrap(), std::borrow::Cow::Borrowed(_)));
    assert_eq!(&unpack(b"puak").unwrap()[..], b"");
}

#[test]
fn unpack_decodes_packed_bytes() {
    let packed = tagged(b"apak", &tagged(b"KCDC", &ABA));
    let unpacked = unpack(&packed).unwrap();
    assert_eq!(&unpacked[..], b"aba");
    assert!(matches!(unpacked, std::borrow::Cow::Owned(_)));
}

#[test]
fn unpack_refuses_other_tags() {
    assert_eq!(unpack(b"kaupxxxx"), Err(Error::UnsupportedCodec));
    assert_eq!(unpack(b"pu"), Err(Error::TruncatedHeader));
    assert_eq!(unpack(b"apakKCD9"), Err(Error::UnsupportedCodec));
}

#[test]
fn decoded_length_is_the_announced_length() {
    for announced in 0u8..6 {
        let mut payload = ABA;
        payload[3] = announced;
        match decode(&tagged(b"KCDC", &payload)) {
            Ok(out) => assert_eq!(out.len(), announced as usize),
            Err(_) => assert_ne!(announced, 3),
        }
    }
}
