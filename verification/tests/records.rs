use chunky_gltf::brender::{Fraction, Scalar, UFraction};
use chunky_gltf::error::Error;
use chunky_gltf::ggcl::{AnimationCells, CellPartSpec};
use chunky_gltf::ggcm::Costumes;
use chunky_gltf::ggf::{Group, GroupOnFile};
use chunky_gltf::glbs::BodyPartSets;
use chunky_gltf::glf::{List, ListOnFile};
use chunky_gltf::glpi::Armature;
use chunky_gltf::glxf::AnimationTransforms;
use chunky_gltf::modl::{
    contributors, promote_smoothing, vertex_of_corner, weld, BoundsOnFile, FaceOnFile, Model, Vector3OnFile,
};
use chunky_gltf::mtrl::Material;
use chunky_gltf::order::{detect, read_i16, read_i32, read_u16, read_u32, Endian, Loader};
use chunky_gltf::tmap::TextureMap;
use chunky_gltf::tmpl::Template;
use chunky_gltf::txxf::TextureTransform;

/// Bytes under construction in one byte order.
struct Out {
    big: bool,
    bytes: Vec<u8>,
}

impl Out {
    fn new(big: bool) -> Out {
        let mut out = Out { big, bytes: Vec::new() };
        // The byte-order mark and the two bytes after it.
        out.u16(1);
        out.u16(0x0303);
        out
    }

    fn u8(&mut self, v: u8) {
        self.bytes.push(v);
    }

    fn u16(&mut self, v: u16) {
        if self.big {
            self.bytes.extend(v.to_be_bytes());
        } else {
            self.bytes.extend(v.to_le_bytes());
        }
    }

    fn u32(&mut self, v: u32) {
        if self.big {
            self.bytes.extend(v.to_be_bytes());
        } else {
            self.bytes.extend(v.to_le_bytes());
        }
    }

    fn i16(&mut self, v: i16) {
        self.u16(v as u16);
    }

    fn i32(&mut self, v: i32) {
        self.u32(v as u32);
    }
}

fn list_of_u16(big: bool, values: &[u16]) -> Vec<u8> {
    let mut out = Out::new(big);
    out.u32(2);
    out.u32(values.len() as u32);
    for v in values {
        out.u16(*v);
    }
    out.bytes
}

#[test]
fn fields_are_read_in_either_order() {
    let bytes = [0x12, 0x34, 0x56, 0x78, 0xff, 0xfe];
    assert_eq!(read_u16(&bytes, 0, Endian::Little), 0x3412);
    assert_eq!(read_u16(&bytes, 0, Endian::Big), 0x1234);
    assert_eq!(read_u16(&bytes, 1, Endian::Big), 0x3456);
    assert_eq!(read_u32(&bytes, 0, Endian::Little), 0x78563412);
    assert_eq!(read_u32(&bytes, 0, Endian::Big), 0x12345678);
    assert_eq!(read_i16(&bytes, 4, Endian::Big), -2);
    assert_eq!(read_i16(&bytes, 4, Endian::Little), -257);
    assert_eq!(read_i32(&bytes, 2, Endian::Big), 0x5678fffe);
    assert_eq!(read_i32(&bytes, 2, Endian::Little), 0xfeff7856u32 as i32);
    assert_eq!(read_i32(&bytes, 2, Endian::Little), -16811946);
    assert_eq!(read_i32(&[0, 0, 0, 0x80], 0, Endian::Little), i32::MIN);
    assert_eq!(read_i16(&[0x80, 0], 0, Endian::Big), i16::MIN);
}

#[test]
fn the_mark_decides_the_byte_order() {
    assert_eq!(detect(&[1, 0], 0), Ok(Endian::Little));
    assert_eq!(detect(&[0, 1], 0), Ok(Endian::Big));
    assert_eq!(detect(&[1, 1], 0), Err(Error::UnknownByteOrder));
    assert_eq!(detect(&[0, 0], 0), Err(Error::UnknownByteOrder));
    assert_eq!(detect(&[9, 9, 0, 1], 2), Ok(Endian::Big));
}

#[test]
fn armature_loads_the_same_from_either_byte_order() {
    let parents = [65535u16, 0, 0, 1, 513];
    let little = Armature::load(&list_of_u16(false, &parents)).unwrap();
    let big = Armature::load(&list_of_u16(true, &parents)).unwrap();
    assert_eq!(little.parents, parents.to_vec());
    assert_eq!(big.parents, parents.to_vec());
}

#[test]
fn body_part_sets_load() {
    let sets = BodyPartSets::load(&list_of_u16(true, &[0, 0, 1, 2, 1])).unwrap();
    assert_eq!(sets.groups, vec![0, 0, 1, 2, 1]);
    assert!(BodyPartSets::load(&list_of_u16(false, &[])).unwrap().groups.is_empty());
}

#[test]
fn list_errors() {
    let whole = list_of_u16(false, &[1, 2, 3]);
    assert!(matches!(Armature::load(&whole[..11]), Err(Error::TruncatedHeader)));
    assert!(matches!(Armature::load(&whole[..17]), Err(Error::TruncatedPayload)));
    let mut strange = whole.clone();
    strange[0] = 7;
    assert!(matches!(Armature::load(&strange), Err(Error::UnknownByteOrder)));
    // Entries of three bytes where two are expected.
    let mut wide = Out::new(false);
    wide.u32(3);
    wide.u32(1);
    wide.bytes.extend([1, 2, 3]);
    assert!(matches!(Armature::load(&wide.bytes), Err(Error::UnsupportedEncoding)));
    // With no entries their size does not matter.
    let mut none = Out::new(false);
    none.u32(3);
    none.u32(0);
    assert!(Armature::load(&none.bytes).unwrap().parents.is_empty());
}

#[test]
fn list_entries() {
    let mut out = Out::new(true);
    out.u32(3);
    out.u32(4);
    out.bytes.extend(1u8..=12);
    out.bytes.extend([99, 98]);
    let header = ListOnFile::read(&out.bytes, Endian::Big);
    assert_eq!(header, ListOnFile { entry_size: 3, length: 4 });
    let list = List::from_file(&header, &out.bytes).unwrap();
    assert_eq!(list.len(), 4);
    assert_eq!(list.get(0), Some(&[1u8, 2, 3][..]));
    assert_eq!(list.get(3), Some(&[10u8, 11, 12][..]));
    assert_eq!(list.get(4), None);
    assert_eq!(list.get(usize::MAX), None);

    let mut items = list.iter();
    assert_eq!(items.size_hint(), (4, Some(4)));
    assert_eq!(items.next(), Some(&[1u8, 2, 3][..]));
    assert_eq!(items.next_back(), Some(&[10u8, 11, 12][..]));
    assert_eq!(items.size_hint(), (2, Some(2)));
    assert_eq!(items.next(), Some(&[4u8, 5, 6][..]));
    assert_eq!(items.next(), Some(&[7u8, 8, 9][..]));
    assert_eq!(items.next(), None);
    assert_eq!(items.next_back(), None);

    let loaded = List::load(&out.bytes).unwrap();
    assert_eq!(loaded.len(), 4);
    assert_eq!(loaded.get(2), Some(&[7u8, 8, 9][..]));
}

#[test]
fn list_of_empty_entries_is_empty() {
    let mut out = Out::new(false);
    out.u32(0);
    out.u32(5);
    let list = List::load(&out.bytes).unwrap();
    assert_eq!(list.len(), 0);
    assert_eq!(list.get(0), None);
    assert_eq!(list.iter().next(), None);
}

/// A group of the given records; each record is its prefix and what follows.
fn group(big: bool, fixed: u32, records: &[(Vec<u8>, Vec<u8>)]) -> Vec<u8> {
    let mut data: Vec<u8> = Vec::new();
    let mut locations: Vec<(u32, u32)> = Vec::new();
    for (prefix, rest) in records {
        locations.push((data.len() as u32, (prefix.len() + rest.len()) as u32));
        data.extend(prefix);
        data.extend(rest);
    }
    let mut out = Out::new(big);
    out.u32(records.len() as u32);
    out.u32(data.len() as u32);
    out.u32(0xffff_ffff);
    out.u32(fixed);
    out.bytes.extend(data);
    for (offset, length) in locations {
        out.u32(offset);
        out.u32(length);
    }
    out.bytes
}

fn words(big: bool, values: &[u32]) -> Vec<u8> {
    let mut out = Out { big, bytes: Vec::new() };
    for v in values {
        out.u32(*v);
    }
    out.bytes
}

fn halves(big: bool, values: &[u16]) -> Vec<u8> {
    let mut out = Out { big, bytes: Vec::new() };
    for v in values {
        out.u16(*v);
    }
    out.bytes
}

#[test]
fn group_records() {
    let bytes = group(
        false,
        2,
        &[(vec![1, 2], vec![3, 4, 5]), (vec![6, 7], vec![]), (vec![8, 9], vec![10])],
    );
    let header = GroupOnFile::read(&bytes, Endian::Little);
    assert_eq!(header.length_entries, 3);
    assert_eq!(header.data_length_bytes, 10);
    assert_eq!(header.fixed, 2);
    let group = Group::from_file(&header, &bytes).unwrap();
    assert_eq!(group.len(), 3);
    assert_eq!(group.byte_order(), Endian::Little);
    let first = group.get(0).unwrap();
    assert_eq!((first.fixed, first.variable), (&[1u8, 2][..], &[3u8, 4, 5][..]));
    let second = group.get(1).unwrap();
    assert_eq!((second.fixed, second.variable), (&[6u8, 7][..], &[][..]));
    assert!(group.get(3).is_none());

    let mut items = group.iter();
    assert_eq!(items.size_hint(), (3, Some(3)));
    assert_eq!(items.next_back().unwrap().variable, &[10u8][..]);
    assert_eq!(items.next().unwrap().fixed, &[1u8, 2][..]);
    assert_eq!(items.next().unwrap().fixed, &[6u8, 7][..]);
    assert!(items.next().is_none());
    assert!(items.next_back().is_none());
}

#[test]
fn group_errors() {
    let bytes = group(true, 2, &[(vec![1, 2], vec![3])]);
    let header = GroupOnFile::read(&bytes, Endian::Big);
    assert!(matches!(Group::from_file(&header, &bytes[..bytes.len() - 1]), Err(Error::TruncatedPayload)));
    // A record shorter than the prefix.
    let short = GroupOnFile { fixed: 4, ..header };
    assert!(matches!(Group::from_file(&short, &bytes), Err(Error::TruncatedPayload)));
    // A record that reaches beyond the record region.
    let mut beyond = bytes.clone();
    let at = beyond.len() - 1;
    beyond[at] = 4;
    assert!(matches!(Group::from_file(&header, &beyond), Err(Error::TruncatedPayload)));
}

#[test]
fn costumes_load_the_same_from_either_byte_order() {
    for big in [false, true] {
        let bytes = group(
            big,
            4,
            &[
                (words(big, &[2]), words(big, &[7, 9])),
                (words(big, &[0]), vec![]),
                (words(big, &[1]), words(big, &[0x01020304, 5])),
            ],
        );
        let costumes = Costumes::load(&bytes).unwrap();
        assert_eq!(costumes.part_sets, vec![vec![7, 9], vec![], vec![0x01020304]]);
    }
}

#[test]
fn costumes_errors() {
    let counted_too_many = group(false, 4, &[(words(false, &[3]), words(false, &[7, 9]))]);
    assert!(matches!(Costumes::load(&counted_too_many), Err(Error::TruncatedPayload)));
    let wrong_prefix = group(false, 2, &[(vec![1, 0], words(false, &[7]))]);
    assert!(matches!(Costumes::load(&wrong_prefix), Err(Error::UnsupportedEncoding)));
    assert!(matches!(Costumes::load(&counted_too_many[..19]), Err(Error::TruncatedHeader)));
}

#[test]
fn costumes_are_rejected_alike_in_either_byte_order() {
    for big in [false, true] {
        let counted_too_many = group(
            big,
            4,
            &[(words(big, &[1]), words(big, &[7])), (words(big, &[0x0100_0000]), words(big, &[7]))],
        );
        assert!(matches!(Costumes::load(&counted_too_many), Err(Error::TruncatedPayload)));
        let wrong_prefix = group(big, 2, &[(halves(big, &[1]), words(big, &[7]))]);
        assert!(matches!(Costumes::load(&wrong_prefix), Err(Error::UnsupportedEncoding)));
        let whole = group(big, 4, &[(words(big, &[1]), words(big, &[7]))]);
        assert!(matches!(Costumes::load(&whole[..whole.len() - 3]), Err(Error::TruncatedPayload)));
        let mut beyond = whole.clone();
        let at = if big { whole.len() - 1 } else { whole.len() - 4 };
        beyond[at] = 9;
        assert!(matches!(Costumes::load(&beyond), Err(Error::TruncatedPayload)));
    }
}

#[test]
fn animation_cells_load_the_same_from_either_byte_order() {
    for big in [false, true] {
        let mut prefix = words(big, &[0xdead]);
        prefix.extend(words(big, &[0x0001_8000]));
        let bytes = group(
            big,
            8,
            &[(prefix.clone(), halves(big, &[3, 0, 65535, 1, 4, 2])), (prefix.clone(), vec![])],
        );
        let cells = AnimationCells::load(&bytes).unwrap().cells;
        assert_eq!(cells.len(), 2);
        assert_eq!(cells[0].dwr, Scalar(0x0001_8000));
        assert_eq!(
            cells[0].parts,
            vec![
                CellPartSpec { model_id: Some(3), matrix_id: 0 },
                CellPartSpec { model_id: None, matrix_id: 1 },
                CellPartSpec { model_id: Some(4), matrix_id: 2 },
            ]
        );
        assert!(cells[1].parts.is_empty());
    }
}

#[test]
fn animation_cells_are_rejected_alike_in_either_byte_order() {
    for big in [false, true] {
        let mut prefix = words(big, &[0xdead]);
        prefix.extend(words(big, &[0x0001_8000]));
        let mut ragged_parts = halves(big, &[3, 0, 4]);
        ragged_parts.push(1);
        let ragged = group(big, 8, &[(prefix.clone(), halves(big, &[3, 0])), (prefix.clone(), ragged_parts)]);
        assert!(matches!(AnimationCells::load(&ragged), Err(Error::TruncatedPayload)));
        let wrong_prefix = group(big, 6, &[(halves(big, &[1, 2, 3]), vec![])]);
        assert!(matches!(AnimationCells::load(&wrong_prefix), Err(Error::UnsupportedEncoding)));
        let whole = group(big, 8, &[(prefix.clone(), halves(big, &[3, 0]))]);
        assert!(matches!(AnimationCells::load(&whole[..whole.len() - 1]), Err(Error::TruncatedPayload)));
    }
}

#[test]
fn animation_cells_errors() {
    let prefix = vec![0u8; 8];
    let ragged = group(false, 8, &[(prefix.clone(), vec![1, 0, 2, 0, 3])]);
    assert!(matches!(AnimationCells::load(&ragged), Err(Error::TruncatedPayload)));
    let wrong_prefix = group(false, 6, &[(vec![0u8; 6], vec![])]);
    assert!(matches!(AnimationCells::load(&wrong_prefix), Err(Error::UnsupportedEncoding)));
}

#[test]
fn animation_transforms_load_the_same_from_either_byte_order() {
    for big in [false, true] {
        let mut out = Out::new(big);
        out.u32(48);
        out.u32(2);
        for m in 0..2 {
            for k in 0..12 {
                out.i32((m * 100 + k) * 65536 - 7);
            }
        }
        let transforms = AnimationTransforms::load(&out.bytes).unwrap().transforms;
        assert_eq!(transforms.len(), 2);
        for m in 0..2 {
            for k in 0..12 {
                assert_eq!(transforms[m].m[k], Scalar((m as i32 * 100 + k as i32) * 65536 - 7));
            }
        }
    }
}

#[test]
fn material_loads_the_same_from_either_byte_order() {
    for big in [false, true] {
        let mut out = Out::new(big);
        out.u32(0xaabbccdd);
        out.u16(0x8000);
        out.u16(0x4000);
        out.u16(0xffff);
        out.u8(17);
        out.u8(3);
        out.i32(-65536 * 20);
        assert_eq!(out.bytes.len(), 20);
        assert_eq!(
            Material::load(&out.bytes),
            Ok(Material {
                color: 17,
                ambient: UFraction(0x8000),
                diffuse: UFraction(0x4000),
                specular: UFraction(0xffff),
                specular_exponent: Scalar(-65536 * 20),
            })
        );
    }
    assert_eq!(Material::load(&[1, 0, 3, 3]), Err(Error::TruncatedHeader));
}

#[test]
fn template_loads_the_same_from_either_byte_order() {
    for big in [false, true] {
        let mut out = Out::new(big);
        out.u16(0x1000);
        out.u16(0x2000);
        out.u16(0x3000);
        out.u16(0);
        out.u32(0x80000001);
        assert_eq!(
            Template::load(&out.bytes),
            Ok(Template {
                xa_rest: UFraction(0x1000),
                ya_rest: UFraction(0x2000),
                za_rest: UFraction(0x3000),
                flags: 0x80000001,
            })
        );
    }
}

#[test]
fn texture_transform_loads_the_same_from_either_byte_order() {
    for big in [false, true] {
        let mut out = Out::new(big);
        // Half the width, a quarter of the height, moved by a quarter and a half.
        for v in [0x8000, 0, 0, 0x4000, 0x4000, 0x8000] {
            out.i32(v);
        }
        let transform = TextureTransform::load(&out.bytes).unwrap();
        assert_eq!(
            transform,
            TextureTransform { min_x: 0x4000, min_y: 0x8000, max_x: 0xc000, max_y: 0xc000 }
        );
        assert_eq!(transform.size(), (0x8000, 0x4000));
    }
}

#[test]
fn texture_transform_pixel_sizes() {
    let identity = TextureTransform::default();
    assert_eq!(identity, TextureTransform { min_x: 0, min_y: 0, max_x: 65536, max_y: 65536 });
    let size = identity.pixel_size(64, 32);
    assert_eq!((size.width, size.height), (64, 32));
    // Three quarters of 10 pixels is 7.5, which rounds up to 8; a third of 65536 is not whole.
    let part = TextureTransform { min_x: 0, min_y: 0, max_x: 0xc000, max_y: 21846 };
    let size = part.pixel_size(10, 3);
    assert_eq!((size.width, size.height), (8, 2));
    // Exactly whole numbers are not rounded up.
    let half = TextureTransform { min_x: 0, min_y: 0, max_x: 0x8000, max_y: 0x8000 };
    let size = half.pixel_size(10, 7);
    assert_eq!((size.width, size.height), (5, 4));
    // Negative coordinates give nothing, and great ones no more than fits.
    let wild = TextureTransform { min_x: 0, min_y: 0, max_x: -1, max_y: 0x1_8000_0000 };
    let size = wild.pixel_size(100, 65535);
    assert_eq!((size.width, size.height), (0, u32::MAX));
}

fn texture(big: bool, stride: u16, width: u16, height: u16, rows: &[u8]) -> Vec<u8> {
    let mut out = Out::new(big);
    out.u16(stride);
    out.u8(3);
    out.u8(0);
    out.u16(0);
    out.u16(0);
    out.u16(width);
    out.u16(height);
    out.u16(0);
    out.u16(0);
    assert_eq!(out.bytes.len(), 20);
    out.bytes.extend(rows);
    out.bytes
}

#[test]
fn texture_map_loads_the_same_from_either_byte_order() {
    for big in [false, true] {
        let map = TextureMap::load(&texture(big, 3, 3, 2, &[1, 2, 3, 4, 5, 6])).unwrap();
        assert_eq!((map.width, map.height), (3, 2));
        assert_eq!(map.data, vec![1, 2, 3, 4, 5, 6]);
    }
}

#[test]
fn texture_map_drops_the_padding_of_rows() {
    let map = TextureMap::load(&texture(false, 4, 2, 3, &[1, 2, 0, 0, 3, 4, 0, 0, 5, 6, 0, 0])).unwrap();
    assert_eq!((map.width, map.height), (2, 3));
    assert_eq!(map.data, vec![1, 2, 3, 4, 5, 6]);
}

#[test]
fn texture_map_errors() {
    let good = texture(false, 2, 2, 2, &[1, 2, 3, 4]);
    assert!(matches!(TextureMap::load(&good[..23]), Err(Error::TruncatedPayload)));
    assert!(matches!(TextureMap::load(&good[..19]), Err(Error::TruncatedHeader)));
    let mut format = good.clone();
    format[6] = 4;
    assert!(matches!(TextureMap::load(&format), Err(Error::UnsupportedEncoding)));
    let mut origin = good.clone();
    origin[16] = 1;
    assert!(matches!(TextureMap::load(&origin), Err(Error::UnsupportedEncoding)));
    let narrow = texture(false, 1, 2, 2, &[1, 2, 3, 4]);
    assert!(matches!(TextureMap::load(&narrow), Err(Error::UnsupportedEncoding)));
}

fn vector(x: i32, y: i32, z: i32) -> Vector3OnFile {
    Vector3OnFile { x: Scalar(x), y: Scalar(y), z: Scalar(z) }
}

/// A model of the given points and faces, with a header that gives no bounds.
fn model(big: bool, radius: i32, points: &[(i32, i32, i32)], faces: &[([u16; 3], u16)]) -> Vec<u8> {
    let mut out = Out::new(big);
    out.u16(points.len() as u16);
    out.u16(faces.len() as u16);
    out.i32(radius);
    for _ in 0..6 {
        out.i32(0);
    }
    for v in [5, 6, 7] {
        out.i32(v);
    }
    assert_eq!(out.bytes.len(), 48);
    for (i, (x, y, z)) in points.iter().enumerate() {
        out.i32(*x);
        out.i32(*y);
        out.i32(*z);
        out.i32(i as i32 * 100);
        out.i32(-(i as i32));
        out.u8(i as u8);
        out.u8(1);
        out.u8(2);
        out.u8(3);
        out.u16(0);
        out.i16(-1);
        out.i16(2);
        out.i16(-3);
    }
    for (vertices, smoothing) in faces {
        for v in vertices {
            out.u16(*v);
        }
        for e in [10u16, 11, 12] {
            out.u16(e);
        }
        out.u32(77);
        out.u16(*smoothing);
        out.u8(9);
        out.u8(0);
        out.i16(100);
        out.i16(200);
        out.i16(300);
        out.i32(-4);
        out.bytes.extend([0, 0]);
    }
    out.bytes
}

#[test]
fn model_loads_the_same_from_either_byte_order() {
    for big in [false, true] {
        let bytes = model(
            big,
            0,
            &[(10, -20, 30), (-5, 40, 0), (7, 7, -70)],
            &[([0, 1, 2], 0), ([2, 1, 0], 6)],
        );
        let model = Model::load(&bytes).unwrap();
        assert_eq!(model.radius, Scalar(0));
        assert!(model.needs_normals());
        assert_eq!(model.pivot, vector(5, 6, 7));
        assert_eq!(model.vertices.len(), 3);
        assert_eq!(model.vertices[1].point, vector(-5, 40, 0));
        assert_eq!(model.vertices[2].map.x, Scalar(200));
        assert_eq!(model.vertices[2].map.y, Scalar(-2));
        assert_eq!(model.vertices[2].index, 2);
        assert_eq!((model.vertices[0].red, model.vertices[0].green, model.vertices[0].blue), (1, 2, 3));
        assert_eq!(model.vertices[0].normal.x, Fraction(-1));
        assert_eq!(model.vertices[0].normal.z, Fraction(-3));
        assert_eq!(model.faces.len(), 2);
        assert_eq!(model.faces[0].smoothing, 0xffff);
        assert_eq!(model.faces[1].vertices, [2, 1, 0]);
        assert_eq!(model.faces[1].edges, [10, 11, 12]);
        assert_eq!(model.faces[1].material, 77);
        assert_eq!(model.faces[1].smoothing, 6);
        assert_eq!(model.faces[1].flags, 9);
        assert_eq!(model.faces[1].normal.y, Fraction(200));
        assert_eq!(model.faces[1].d, Scalar(-4));
        assert_eq!(
            model.bounds,
            BoundsOnFile { min: vector(-5, -20, -70), max: vector(10, 40, 30) }
        );
    }
}

#[test]
fn model_bounds_start_from_those_of_the_header() {
    let mut bytes = model(false, 65536, &[(1, 2, 3)], &[]);
    // The header gives the box from (-9, 0, 0) to (0, 0, 1).
    bytes[12..16].copy_from_slice(&(-9i32).to_le_bytes());
    bytes[32..36].copy_from_slice(&1i32.to_le_bytes());
    let model = Model::load(&bytes).unwrap();
    assert!(!model.needs_normals());
    assert_eq!(model.bounds, BoundsOnFile { min: vector(-9, 0, 0), max: vector(1, 2, 3) });
}

#[test]
fn model_without_vertices_has_the_box_of_zeros() {
    let model = Model::load(&model(true, 0, &[], &[])).unwrap();
    assert!(!model.needs_normals());
    assert_eq!(model.bounds, BoundsOnFile::default());
    assert_eq!(model.bounds, BoundsOnFile { min: vector(0, 0, 0), max: vector(0, 0, 0) });
}

#[test]
fn model_errors() {
    let bytes = model(false, 0, &[(1, 2, 3)], &[([0, 0, 0], 1)]);
    assert!(matches!(Model::load(&bytes[..47]), Err(Error::TruncatedHeader)));
    assert!(matches!(Model::load(&bytes[..60]), Err(Error::TruncatedPayload)));
    assert!(matches!(Model::load(&bytes[..bytes.len() - 1]), Err(Error::TruncatedPayload)));
    let mut longer = bytes.clone();
    longer.push(0);
    assert!(matches!(Model::load(&longer), Err(Error::UnsupportedEncoding)));
}

#[test]
fn smoothing_of_no_group_becomes_every_group() {
    // A model stored without radius, with faces: the loader puts faces of no group into every group.
    let bytes = model(false, 0, &[(0, 0, 0)], &[([0, 0, 0], 0), ([0, 0, 0], 5)]);
    let loaded = Model::load(&bytes).unwrap();
    assert!(loaded.needs_normals());
    assert_eq!(loaded.faces[0].smoothing, 0xffff);
    assert_eq!(loaded.faces[1].smoothing, 5);
    assert_eq!(loaded.faces[0], FaceOnFile { smoothing: 0xffff, ..loaded.faces[1] });
    assert!(loaded.faces[0].shares_group(&loaded.faces[1]));
    // The same from the other byte order.
    let big = Model::load(&model(true, 0, &[(0, 0, 0)], &[([0, 0, 0], 0), ([0, 0, 0], 5)])).unwrap();
    assert_eq!(big.faces, loaded.faces);

    // A model stored with a radius keeps its masks as they are.
    let kept = Model::load(&model(false, 65536, &[(0, 0, 0)], &[([0, 0, 0], 0), ([0, 0, 0], 5)])).unwrap();
    assert!(!kept.needs_normals());
    assert_eq!(kept.faces[0].smoothing, 0);
    assert_eq!(kept.faces[1].smoothing, 5);
    assert!(!kept.faces[0].shares_group(&kept.faces[1]));

    let mut faces = kept.faces.clone();
    promote_smoothing(&mut faces);
    assert_eq!(faces[0], FaceOnFile { smoothing: 0xffff, ..kept.faces[0] });
    assert_eq!(faces[1], kept.faces[1]);
    let other = FaceOnFile { smoothing: 2, ..kept.faces[1] };
    assert!(!other.shares_group(&kept.faces[1]));
    assert!(FaceOnFile { smoothing: 4, ..other }.shares_group(&kept.faces[1]));
}

#[test]
fn weld_sorts_corners_by_point() {
    // Vertices 0 and 3 coincide, as do 1 and 4.
    let points = [(0, 0, 0), (-1, 5, 5), (3, 0, 0), (0, 0, 0), (-1, 5, 5), (0, 0, -9)];
    let bytes = model(false, 0, &points, &[([0, 1, 2], 1), ([3, 4, 5], 1)]);
    let model = Model::load(&bytes).unwrap();
    let weld = weld(&model.vertices, &model.faces).unwrap();
    // Corners 1 and 4 lie at (-1, 5, 5), corner 5 at (0, 0, -9), corners 0 and 3 at the
    // origin, corner 2 at (3, 0, 0).
    assert_eq!(weld.order, vec![1, 4, 5, 0, 3, 2]);
    assert_eq!(weld.ends, vec![2, 3, 5, 6]);
}

#[test]
fn normals_meet_where_faces_share_a_smoothing_group() {
    // Three faces meet at the origin: two in group 1, one in group 2.
    let points = [(0, 0, 0), (1, 0, 0), (0, 1, 0), (0, 0, 1)];
    let bytes = model(false, 0, &points, &[([0, 1, 2], 1), ([0, 2, 3], 1), ([0, 3, 1], 2)]);
    let model = Model::load(&bytes).unwrap();
    let weld = weld(&model.vertices, &model.faces).unwrap();
    // The corners at the origin come first: corners 0, 3 and 6.
    assert_eq!(&weld.order[..3], &[0, 3, 6]);
    assert_eq!(weld.ends[0], 3);
    assert_eq!(vertex_of_corner(&model.faces, 3), 0);
    assert_eq!(vertex_of_corner(&model.faces, 5), 3);
    assert_eq!(contributors(&model.faces, &weld.order, 0, 3, 0), vec![0, 1]);
    assert_eq!(contributors(&model.faces, &weld.order, 0, 3, 1), vec![0, 1]);
    assert_eq!(contributors(&model.faces, &weld.order, 0, 3, 2), vec![2]);
}

#[test]
fn weld_of_no_faces_is_empty() {
    let model = Model::load(&model(false, 0, &[(1, 1, 1)], &[])).unwrap();
    let weld = weld(&model.vertices, &model.faces).unwrap();
    assert!(weld.order.is_empty());
    assert!(weld.ends.is_empty());
}

#[test]
fn weld_refuses_a_face_without_its_vertex() {
    let bytes = model(false, 0, &[(0, 0, 0), (1, 1, 1)], &[([0, 1, 2], 1)]);
    let model = Model::load(&bytes).unwrap();
    assert!(weld(&model.vertices, &model.faces).is_none());
}
