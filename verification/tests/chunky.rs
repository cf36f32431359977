use chunky_gltf::chunky::{
    decoded_name, read_name, sort_links, GrfcrpCb, ChildLink, ChunkFlags, ChunkId, ChunkTag, ChunkyFile, IndexEntry, Prefix,
};
use chunky_gltf::error::Error;
use chunky_gltf::order::{Endian, Loader};

fn tag(name: &[u8; 4]) -> ChunkTag {
    ChunkTag(u32::from_be_bytes(*name))
}

fn id(name: &[u8; 4], number: u32) -> ChunkId {
    ChunkId { tag: tag(name), number }
}

struct Out {
    big: bool,
    bytes: Vec<u8>,
}

impl Out {
    fn u16(&mut self, v: u16) {
        if self.big {
            self.bytes.extend(v.to_be_bytes());
        } else {
            self.bytes.extend(v.to_le_bytes());
        }
    }

    fn u32(&mut self, v: u32) {
        if self.big {
            self.bytes.extend(v.to_be_bytes());
        } else {
            self.bytes.extend(v.to_le_bytes());
        }
    }
}

/// What the index is to say of one chunk.
struct Chunk {
    id: ChunkId,
    flags: u8,
    payload: Vec<u8>,
    children: Vec<(ChunkId, u32)>,
    name: Vec<u8>,
}

fn byte_name(text: &str) -> Vec<u8> {
    let mut name = vec![3, 3, text.len() as u8];
    name.extend(text.as_bytes());
    name
}

fn wide_name(big: bool, text: &str) -> Vec<u8> {
    let units: Vec<u16> = text.encode_utf16().collect();
    let mut out = Out { big, bytes: vec![5, 5, units.len() as u8] };
    for unit in units {
        out.u16(unit);
    }
    out.bytes
}

/// An archive of the given chunks: the prefix, the payloads, the index.
fn archive(big: bool, chunks: &[Chunk]) -> Vec<u8> {
    let mut payloads: Vec<u8> = Vec::new();
    let mut records: Vec<Vec<u8>> = Vec::new();
    for chunk in chunks {
        let mut record = Out { big, bytes: Vec::new() };
        record.u32(chunk.id.tag.0);
        record.u32(chunk.id.number);
        record.u32(55 + payloads.len() as u32);
        record.u32(((chunk.payload.len() as u32) << 8) | chunk.flags as u32);
        record.u16(chunk.children.len() as u16);
        record.u16(0);
        for (child, child_id) in &chunk.children {
            record.u32(child.tag.0);
            record.u32(child.number);
            record.u32(*child_id);
        }
        record.bytes.extend(&chunk.name);
        records.push(record.bytes);
        payloads.extend(&chunk.payload);
    }
    let mut index = Out { big, bytes: Vec::new() };
    index.u16(1);
    index.u16(0x0303);
    index.u32(records.len() as u32);
    index.u32(records.iter().map(|r| r.len() as u32).sum());
    index.u32(0xffff_ffff);
    index.u32(20);
    let mut at = 0u32;
    let mut locations: Vec<(u32, u32)> = Vec::new();
    for record in &records {
        locations.push((at, record.len() as u32));
        at += record.len() as u32;
        index.bytes.extend(record);
    }
    for (offset, length) in locations {
        index.u32(offset);
        index.u32(length);
    }

    let mut out = Out { big, bytes: Vec::new() };
    out.u32(u32::from_le_bytes(*b"CHN2"));
    out.u32(0x1234);
    out.u16(5);
    out.u16(4);
    out.u16(1);
    out.u16(0x0303);
    let end = 55 + payloads.len() + index.bytes.len();
    out.u32(end as u32);
    out.u32(55 + payloads.len() as u32);
    out.u32(index.bytes.len() as u32);
    out.u32(end as u32);
    out.bytes.extend([0u8; 23]);
    assert_eq!(out.bytes.len(), 55);
    out.bytes.extend(payloads);
    out.bytes.extend(index.bytes);
    out.bytes
}

const ABA: [u8; 16] = [
    b'K', b'C', b'D', b'C', 0, 0, 0, 3, 0, 0b1100_0010, 0b1000_1000, 0b0000_1001, 0b1111_1011, 0xff, 0xff,
    0xff,
];

fn sample(big: bool) -> Vec<u8> {
    archive(
        big,
        &[
            Chunk {
                id: id(b"TMPL", 7),
                flags: ChunkFlags::LONER,
                payload: vec![1, 2, 3, 4],
                children: vec![
                    (id(b"GLPI", 9), 0),
                    (id(b"BMDL", 2), 1),
                    (id(b"BMDL", 1), 0),
                    (id(b"ACTN", 3), 0),
                    (id(b"BMDL", 0), 0),
                ],
                name: byte_name("Willy"),
            },
            Chunk {
                id: id(b"GLPI", 9),
                flags: ChunkFlags::PACKED,
                payload: ABA.to_vec(),
                children: vec![],
                name: wide_name(big, "Gl\u{00fc}ck"),
            },
            Chunk { id: id(b"BMDL", 1), flags: 0, payload: vec![], children: vec![], name: vec![] },
        ],
    )
}

#[test]
fn archive_loads_the_same_from_either_byte_order() {
    for big in [false, true] {
        let bytes = sample(big);
        let file = ChunkyFile::load(&bytes).unwrap();
        assert_eq!(file.data(), &bytes[..]);
        assert_eq!(file.ids(), &vec![id(b"TMPL", 7), id(b"GLPI", 9), id(b"BMDL", 1)]);

        let template = file.get(&id(b"TMPL", 7)).unwrap();
        assert_eq!(template.name(), "Willy");
        assert_eq!(template.offset(), 55);
        assert_eq!(template.length(), 4);
        assert!(template.flags().contains(ChunkFlags::LONER));
        assert!(!template.flags().contains(ChunkFlags::PACKED));
        assert_eq!(
            template.children(),
            &vec![
                ChildLink { chunk_id: id(b"ACTN", 3), child_id: 0 },
                ChildLink { chunk_id: id(b"BMDL", 0), child_id: 0 },
                ChildLink { chunk_id: id(b"BMDL", 1), child_id: 0 },
                ChildLink { chunk_id: id(b"GLPI", 9), child_id: 0 },
                ChildLink { chunk_id: id(b"BMDL", 2), child_id: 1 },
            ]
        );
        let stored = file.get_chunk(template).unwrap();
        assert_eq!(&stored[..], &[1, 2, 3, 4]);
        // A chunk that is not packed is a view into the archive.
        match stored {
            std::borrow::Cow::Borrowed(view) => assert_eq!(view.as_ptr(), bytes[55..].as_ptr()),
            std::borrow::Cow::Owned(_) => panic!("copied"),
        }

        let armature = file.get(&id(b"GLPI", 9)).unwrap();
        assert_eq!(armature.name(), "Gl\u{00fc}ck");
        assert_eq!(armature.flags(), ChunkFlags(ChunkFlags::PACKED));
        assert_eq!(&file.get_chunk(armature).unwrap()[..], b"aba");
        assert!(matches!(file.get_chunk(armature).unwrap(), std::borrow::Cow::Owned(_)));

        let model = file.get(&id(b"BMDL", 1)).unwrap();
        assert_eq!(model.name(), "");
        assert!(file.get_chunk(model).unwrap().is_empty());
        assert!(file.get(&id(b"BMDL", 2)).is_none());
    }
}

#[test]
fn children_are_found_by_number_and_tag() {
    let bytes = sample(false);
    let file = ChunkyFile::load(&bytes).unwrap();
    let template = file.get(&id(b"TMPL", 7)).unwrap();
    assert_eq!(template.get_child(0, b"GLPI"), Some(id(b"GLPI", 9)));
    assert_eq!(template.get_child(0, b"ACTN"), Some(id(b"ACTN", 3)));
    // Of two children of one number and tag, the one with the lesser chunk number.
    assert_eq!(template.get_child(0, b"BMDL"), Some(id(b"BMDL", 0)));
    assert_eq!(template.get_child(1, b"BMDL"), Some(id(b"BMDL", 2)));
    assert_eq!(template.get_child(1, b"GLPI"), None);
    assert_eq!(template.get_child(2, b"BMDL"), None);
    assert_eq!(template.get_child(0, b"GGCM"), None);
    assert_eq!(template.get_child(0, b"GLP"), None);
    assert_eq!(template.get_child(0, b"GLPIX"), None);
    assert_eq!(template.find_child(0, tag(b"GLPI")), Some(id(b"GLPI", 9)));

    assert_eq!(file.child_of(template, 0, tag(b"GLPI")).unwrap().name(), "Gl\u{00fc}ck");
    // A child that the template has not.
    assert_eq!(
        file.child_of(template, 0, tag(b"GGCM")).unwrap_err(),
        Error::MissingChild(u32::from_be_bytes(*b"GGCM"))
    );
    // A child that the template has, but the archive has not.
    assert_eq!(
        file.child_of(template, 0, tag(b"ACTN")).unwrap_err(),
        Error::MissingChild(u32::from_be_bytes(*b"ACTN"))
    );
}

#[test]
fn the_first_matching_child_decides() {
    let with_children = |children: Vec<(ChunkId, u32)>| {
        archive(
            false,
            &[
                Chunk { id: id(b"TMPL", 7), flags: 0, payload: vec![], children, name: byte_name("parent") },
                Chunk { id: id(b"BMDL", 1), flags: 0, payload: vec![], children: vec![], name: byte_name("one") },
                Chunk { id: id(b"BMDL", 5), flags: 0, payload: vec![], children: vec![], name: byte_name("five") },
            ],
        )
    };
    let missing = Error::MissingChild(u32::from_be_bytes(*b"BMDL"));

    // Both children are chunks of the archive: the one that comes first is taken.
    let bytes = with_children(vec![(id(b"BMDL", 5), 0), (id(b"BMDL", 1), 0)]);
    let file = ChunkyFile::load(&bytes).unwrap();
    let parent = file.get(&id(b"TMPL", 7)).unwrap();
    assert_eq!(parent.find_child(0, tag(b"BMDL")), Some(id(b"BMDL", 1)));
    assert_eq!(file.child_of(parent, 0, tag(b"BMDL")).unwrap().name(), "one");
    assert_eq!(file.child_of(parent, 1, tag(b"BMDL")).unwrap_err(), missing);

    // The one that comes first is no chunk of the archive: the one after it is not asked for.
    let bytes = with_children(vec![(id(b"BMDL", 5), 0), (id(b"BMDL", 0), 0)]);
    let file = ChunkyFile::load(&bytes).unwrap();
    let parent = file.get(&id(b"TMPL", 7)).unwrap();
    assert_eq!(parent.find_child(0, tag(b"BMDL")), Some(id(b"BMDL", 0)));
    assert_eq!(file.child_of(parent, 0, tag(b"BMDL")).unwrap_err(), missing);

    // Another number or another tag is another child.
    let bytes = with_children(vec![(id(b"BMDL", 5), 3), (id(b"GLPI", 1), 0)]);
    let file = ChunkyFile::load(&bytes).unwrap();
    let parent = file.get(&id(b"TMPL", 7)).unwrap();
    assert_eq!(file.child_of(parent, 3, tag(b"BMDL")).unwrap().name(), "five");
    assert_eq!(file.child_of(parent, 0, tag(b"BMDL")).unwrap_err(), missing);
}

#[test]
fn chunks_and_children_are_picked_by_tag() {
    let bytes = sample(true);
    let file = ChunkyFile::load(&bytes).unwrap();
    assert_eq!(file.loners(tag(b"TMPL")), vec![id(b"TMPL", 7)]);
    // A chunk with an owner, and a tag that no chunk has.
    assert!(file.loners(tag(b"GLPI")).is_empty());
    assert!(file.loners(tag(b"ACTN")).is_empty());
    let template = file.get(&id(b"TMPL", 7)).unwrap();
    assert_eq!(
        template.children_with_tag(tag(b"BMDL")),
        vec![
            ChildLink { chunk_id: id(b"BMDL", 0), child_id: 0 },
            ChildLink { chunk_id: id(b"BMDL", 1), child_id: 0 },
            ChildLink { chunk_id: id(b"BMDL", 2), child_id: 1 },
        ]
    );
    assert!(template.children_with_tag(tag(b"TMAP")).is_empty());
}

#[test]
fn later_records_replace_earlier_ones() {
    let chunk = |payload: Vec<u8>, name: &str| Chunk {
        id: id(b"TMPL", 1),
        flags: 0,
        payload,
        children: vec![],
        name: byte_name(name),
    };
    let bytes = archive(false, &[chunk(vec![1], "first"), chunk(vec![2, 3], "second")]);
    let file = ChunkyFile::load(&bytes).unwrap();
    assert_eq!(file.ids(), &vec![id(b"TMPL", 1)]);
    let entry = file.get(&id(b"TMPL", 1)).unwrap();
    assert_eq!(entry.name(), "second");
    assert_eq!(&file.get_chunk(entry).unwrap()[..], &[2, 3]);
}

/// The archive with the fields of its prefix in the other byte order.
fn with_prefix_swapped(bytes: &[u8]) -> Vec<u8> {
    let mut out = bytes.to_vec();
    for (from, width) in [(0, 4), (4, 4), (8, 2), (10, 2), (12, 2), (14, 2), (16, 4), (20, 4), (24, 4), (28, 4)] {
        out[from..from + width].reverse();
    }
    out
}

#[test]
fn the_byte_order_of_the_prefix_does_not_matter() {
    for big in [false, true] {
        let bytes = sample(big);
        let other = with_prefix_swapped(&bytes);
        assert_ne!(other, bytes);
        let file = ChunkyFile::load(&bytes).unwrap();
        let swapped = ChunkyFile::load(&other).unwrap();
        assert_eq!(swapped.ids(), file.ids());
        for id in file.ids() {
            let entry = file.get(id).unwrap();
            let same = swapped.get(id).unwrap();
            assert_eq!(same.name(), entry.name());
            assert_eq!(same.offset(), entry.offset());
            assert_eq!(same.length(), entry.length());
            assert_eq!(same.flags(), entry.flags());
            assert_eq!(same.children(), entry.children());
        }

        let unnamed = archive(
            big,
            &[Chunk { id: id(b"TMPL", 1), flags: 0, payload: vec![], children: vec![], name: vec![4, 4, 1, b'a'] }],
        );
        assert!(matches!(ChunkyFile::load(&unnamed), Err(Error::UnsupportedEncoding)));
        assert!(matches!(ChunkyFile::load(&with_prefix_swapped(&unnamed)), Err(Error::UnsupportedEncoding)));
        let cut = &bytes[..bytes.len() - 1];
        assert!(matches!(ChunkyFile::load(cut), Err(Error::TruncatedPayload)));
        assert!(matches!(ChunkyFile::load(&with_prefix_swapped(cut)), Err(Error::TruncatedPayload)));
    }
}

#[test]
fn archive_errors() {
    let good = sample(false);
    assert!(matches!(ChunkyFile::load(&good[..54]), Err(Error::TruncatedHeader)));

    let mut magic = good.clone();
    magic[3] = b'3';
    assert!(matches!(ChunkyFile::load(&magic), Err(Error::WrongMagic)));

    let mut order = good.clone();
    order[12] = 2;
    assert!(matches!(ChunkyFile::load(&order), Err(Error::UnknownByteOrder)));

    let mut old = good.clone();
    old[8] = 0;
    assert!(matches!(ChunkyFile::load(&old), Err(Error::IncompatibleVersion)));
    let mut new = good.clone();
    new[10] = 6;
    assert!(matches!(ChunkyFile::load(&new), Err(Error::IncompatibleVersion)));

    // An index that reaches beyond the end of the archive.
    assert!(matches!(ChunkyFile::load(&good[..good.len() - 1]), Err(Error::TruncatedPayload)));

    // An index of another byte order than either.
    let mut index_order = good.clone();
    let index_at = u32::from_le_bytes([good[20], good[21], good[22], good[23]]) as usize;
    index_order[index_at] = 9;
    assert!(matches!(ChunkyFile::load(&index_order), Err(Error::UnknownByteOrder)));

    // An index too short for its own header.
    let mut short = good.clone();
    short[24..28].copy_from_slice(&19u32.to_le_bytes());
    assert!(matches!(ChunkyFile::load(&short), Err(Error::TruncatedHeader)));
}

#[test]
fn index_record_errors() {
    let with_name = |name: Vec<u8>| {
        archive(
            false,
            &[Chunk { id: id(b"TMPL", 1), flags: 0, payload: vec![], children: vec![], name }],
        )
    };
    assert!(matches!(ChunkyFile::load(&with_name(vec![3, 3])), Err(Error::TruncatedPayload)));
    assert!(matches!(ChunkyFile::load(&with_name(vec![3, 3, 4, b'a'])), Err(Error::TruncatedPayload)));
    assert!(matches!(ChunkyFile::load(&with_name(vec![5, 5, 2, b'a', 0, b'b'])), Err(Error::TruncatedPayload)));
    assert!(matches!(ChunkyFile::load(&with_name(vec![4, 4, 1, b'a'])), Err(Error::UnsupportedEncoding)));
    assert!(matches!(ChunkyFile::load(&with_name(vec![3, 3, 1, 0xff])), Err(Error::UnsupportedEncoding)));
    // A lone surrogate.
    assert!(matches!(
        ChunkyFile::load(&with_name(vec![5, 5, 1, 0x00, 0xd8])),
        Err(Error::UnsupportedEncoding)
    ));
    // Bytes after the name are not looked at.
    assert!(ChunkyFile::load(&with_name(vec![3, 3, 1, b'a', 0xff])).is_ok());
}

#[test]
fn archives_are_rejected_alike_in_either_byte_order() {
    for big in [false, true] {
        let with_name = |name: Vec<u8>| {
            archive(
                big,
                &[
                    Chunk { id: id(b"GLPI", 2), flags: 0, payload: vec![], children: vec![], name: vec![] },
                    Chunk {
                        id: id(b"TMPL", 1),
                        flags: 0,
                        payload: vec![],
                        children: vec![(id(b"GLPI", 2), 0)],
                        name,
                    },
                ],
            )
        };
        let lone_surrogate = if big { vec![5, 5, 1, 0xd8, 0x00] } else { vec![5, 5, 1, 0x00, 0xd8] };
        assert!(matches!(ChunkyFile::load(&with_name(vec![3, 3])), Err(Error::TruncatedPayload)));
        assert!(matches!(ChunkyFile::load(&with_name(vec![3, 3, 4, b'a'])), Err(Error::TruncatedPayload)));
        assert!(matches!(ChunkyFile::load(&with_name(vec![5, 5, 2, b'a', 0, b'b'])), Err(Error::TruncatedPayload)));
        assert!(matches!(ChunkyFile::load(&with_name(vec![4, 4, 1, b'a'])), Err(Error::UnsupportedEncoding)));
        assert!(matches!(ChunkyFile::load(&with_name(vec![3, 3, 1, 0xff])), Err(Error::UnsupportedEncoding)));
        assert!(matches!(ChunkyFile::load(&with_name(lone_surrogate)), Err(Error::UnsupportedEncoding)));

        // A record that counts more child links than it holds.
        let mut counted = with_name(vec![]);
        let index_at = counted.len() - (20 + 20 + 32 + 16);
        let count_at = index_at + 20 + 20 + 16;
        counted[count_at..count_at + 2].copy_from_slice(&if big { [0, 2] } else { [2, 0] });
        assert!(matches!(ChunkyFile::load(&counted), Err(Error::TruncatedPayload)));
    }
}

#[test]
fn names_are_read_in_both_encodings() {
    assert_eq!(read_name(&[], Endian::Little).unwrap(), "");
    assert_eq!(read_name(&[3, 3, 2, b'h', b'i', b'!'], Endian::Little).unwrap(), "hi");
    assert_eq!(read_name(&[3, 3, 2, 0xc3, 0xbc], Endian::Big).unwrap(), "\u{00fc}");
    assert_eq!(read_name(&[5, 5, 2, b'h', 0, b'i', 0], Endian::Little).unwrap(), "hi");
    assert_eq!(read_name(&[5, 5, 2, 0, b'h', 0, b'i'], Endian::Big).unwrap(), "hi");
    assert_eq!(read_name(&[5, 5, 2, 0xd8, 0x3d, 0xde, 0x00], Endian::Big).unwrap(), "\u{1f600}");
    assert_eq!(read_name(&[5, 5, 0], Endian::Big).unwrap(), "");
    assert_eq!(read_name(&[5, 5], Endian::Big), Err(Error::TruncatedPayload));
}

#[test]
fn payload_beyond_the_archive_is_refused() {
    let bytes = sample(false);
    let file = ChunkyFile::load(&bytes).unwrap();
    let beyond = IndexEntry::new(bytes.len() as u32 - 1, ChunkFlags(0), 2, String::new(), vec![]);
    assert_eq!(file.get_chunk(&beyond).unwrap_err(), Error::TruncatedPayload);
    let last = IndexEntry::new(bytes.len() as u32 - 1, ChunkFlags(0), 1, String::new(), vec![]);
    assert_eq!(file.get_chunk(&last).unwrap().len(), 1);
    let garbled = IndexEntry::new(55, ChunkFlags(ChunkFlags::PACKED), 4, String::new(), vec![]);
    assert_eq!(file.get_chunk(&garbled).unwrap_err(), Error::UnsupportedCodec);
}

#[test]
fn entries_keep_their_children_sorted() {
    let links = vec![
        ChildLink { chunk_id: id(b"BBBB", 1), child_id: 2 },
        ChildLink { chunk_id: id(b"BBBB", 5), child_id: 0 },
        ChildLink { chunk_id: id(b"AAAA", 9), child_id: 2 },
        ChildLink { chunk_id: id(b"BBBB", 4), child_id: 0 },
        ChildLink { chunk_id: id(b"BBBB", 1), child_id: 2 },
    ];
    let sorted = vec![links[3], links[1], links[2], links[0], links[4]];
    let entry = IndexEntry::new(0, ChunkFlags(0), 0, "x".to_string(), links.clone());
    assert_eq!(entry.children(), &sorted);
    assert_eq!(entry.name(), "x");
    let mut again = links;
    sort_links(&mut again);
    assert_eq!(again, sorted);
    assert_eq!(entry.get_child(2, b"BBBB"), Some(id(b"BBBB", 1)));
    assert_eq!(entry.get_child(0, b"BBBB"), Some(id(b"BBBB", 4)));
    assert_eq!(entry.get_child(1, b"BBBB"), None);
}

#[test]
fn names_that_cannot_be_decoded_are_refused() {
    assert_eq!(decoded_name(Some("x".to_string())), Ok("x".to_string()));
    assert_eq!(decoded_name(None), Err(Error::UnsupportedEncoding));
}

#[test]
fn flags_and_length_share_a_word() {
    let word = GrfcrpCb(0x00abcd_06);
    assert_eq!(word.grfcrp(), 0x06);
    assert_eq!(word.length(), 0xabcd);
    assert_eq!(GrfcrpCb(u32::MAX).length(), 0xff_ffff);
    assert_eq!(GrfcrpCb(u32::MAX).grfcrp(), 0xff);
}

#[test]
fn tags_and_keys() {
    assert_eq!(tag(b"TMPL").bytes(), *b"TMPL");
    assert_eq!(ChunkTag(0x01020304).bytes(), [1, 2, 3, 4]);
    assert_eq!(ChunkTag::from_bytes(b"TMPL"), Some(ChunkTag(0x544d504c)));
    assert_eq!(ChunkTag::from_bytes(b"TMP"), None);
    assert!(tag(b"TMPL").matches_bytes(b"TMPL"));
    assert!(!tag(b"TMPL").matches_bytes(b"TMPK"));
    assert!(!tag(b"TMPL").matches_bytes(b"TMPLX"));
    let chunk = id(b"TMPL", 0x01020304);
    assert_eq!(chunk.key(), 0x544d504c_01020304);
    assert_eq!(ChunkId::from_key(chunk.key()), chunk);
    assert!(id(b"AAAA", 9).key() < id(b"AAAB", 0).key());
    assert!(id(b"AAAA", 9) < id(b"AAAB", 0));
    assert_eq!(ChunkFlags::from_bits_retain(0x86).bits(), 0x86);
    assert!(ChunkFlags(0x16).contains(ChunkFlags::PACKED | ChunkFlags::FOREST));
    assert!(!ChunkFlags(0x16).contains(ChunkFlags::EXTRA));
}

#[test]
fn prefix_fields() {
    let bytes = sample(true);
    let prefix = Prefix::read(&bytes, Endian::Big);
    assert_eq!(prefix.magic, 0x324e4843);
    assert_eq!(prefix.creator, 0x1234);
    assert_eq!((prefix.current_version, prefix.backwards_compatible), (5, 4));
    assert!(prefix.is_readable());
    assert_eq!(prefix.index_offset as usize + prefix.index_len as usize, bytes.len());
    assert!(!Prefix { current_version: 0, ..prefix }.is_readable());
    assert!(!Prefix { backwards_compatible: 6, ..prefix }.is_readable());
    assert!(Prefix { current_version: 9, backwards_compatible: 5, ..prefix }.is_readable());
}
