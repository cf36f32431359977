use chunky_gltf::error::{CorruptKind, Error};
use chunky_gltf::mbmp::{decode_row, Bitmap, BitmapHeader};
use chunky_gltf::order::{Endian, Loader};

/// A masked bitmap whose rows are the given runs.
fn bitmap(big: bool, mask: u8, fill: u8, rect: (u32, u32, u32, u32), rows: &[&[u8]]) -> Vec<u8> {
    let word = |v: u32| if big { v.to_be_bytes() } else { v.to_le_bytes() };
    let half = |v: u16| if big { v.to_be_bytes() } else { v.to_le_bytes() };
    let mut body = Vec::new();
    for row in rows {
        body.extend(half(row.len() as u16));
    }
    for row in rows {
        body.extend(*row);
    }
    let mut out = Vec::new();
    out.extend(half(1));
    out.extend(half(0x0303));
    out.push(mask);
    out.push(fill);
    out.extend(half(0));
    for v in [rect.0, rect.1, rect.2, rect.3] {
        out.extend(word(v));
    }
    out.extend(word(28 + body.len() as u32));
    out.extend(body);
    out
}

#[test]
fn rows_are_runs_of_transparent_and_opaque_pixels() {
    assert_eq!(decode_row(&[], 4, 0, 9), Ok(vec![0, 0, 0, 0]));
    assert_eq!(decode_row(&[1, 2, 7, 8], 5, 0, 9), Ok(vec![0, 7, 8, 0, 0]));
    assert_eq!(decode_row(&[1, 1, 7, 0, 2, 5, 6], 4, 0, 9), Ok(vec![0, 7, 5, 6]));
    assert_eq!(decode_row(&[0, 0, 2, 0, 0, 1, 3], 3, 0, 9), Ok(vec![0, 0, 3]));
    // In a mask the opaque pixels are not stored.
    assert_eq!(decode_row(&[1, 2, 0, 1], 5, 1, 9), Ok(vec![0, 9, 9, 9, 0]));
    assert_eq!(decode_row(&[], 0, 0, 9), Ok(vec![]));
}

#[test]
fn row_errors() {
    assert_eq!(decode_row(&[5, 0], 4, 0, 0), Err(Error::Corrupt(CorruptKind::Overflow)));
    assert_eq!(decode_row(&[2, 3, 1, 1, 1], 4, 0, 0), Err(Error::Corrupt(CorruptKind::Overflow)));
    assert_eq!(decode_row(&[2, 3], 4, 1, 0), Err(Error::Corrupt(CorruptKind::Overflow)));
    assert_eq!(decode_row(&[2], 4, 0, 0), Err(Error::TruncatedPayload));
    assert_eq!(decode_row(&[1, 2, 7], 4, 0, 0), Err(Error::TruncatedPayload));
    assert_eq!(decode_row(&[4, 0, 0], 4, 0, 0), Err(Error::TruncatedPayload));
    assert_eq!(decode_row(&[4, 0, 1, 0], 4, 0, 0), Err(Error::Corrupt(CorruptKind::Overflow)));
}

#[test]
fn bitmap_loads_the_same_from_either_byte_order() {
    for big in [false, true] {
        let bytes = bitmap(big, 0, 0, (1, 2, 4, 5), &[&[0, 3, 1, 2, 3], &[], &[2, 1, 9]]);
        let header = BitmapHeader::read(&bytes, if big { Endian::Big } else { Endian::Little });
        assert_eq!((header.left, header.top, header.right, header.bottom), (1, 2, 4, 5));
        assert_eq!(header.size as usize, bytes.len());
        let image = Bitmap::load(&bytes).unwrap();
        assert_eq!((image.width, image.height), (4, 5));
        let expected = vec![
            0, 0, 0, 0, //
            0, 0, 0, 0, //
            0, 1, 2, 3, //
            0, 0, 0, 0, //
            0, 0, 0, 9, //
        ];
        assert_eq!(image.pixels, expected);
    }
}

#[test]
fn mask_is_filled() {
    let bytes = bitmap(false, 1, 0xaa, (0, 0, 3, 2), &[&[1, 1], &[0, 3]]);
    let image = Bitmap::load(&bytes).unwrap();
    assert_eq!(image.pixels, vec![0, 0xaa, 0, 0xaa, 0xaa, 0xaa]);
}

#[test]
fn bitmap_without_columns_is_blank() {
    // The rows are not looked at.
    let bytes = bitmap(false, 0, 0, (3, 0, 3, 2), &[&[9, 9], &[9]]);
    let image = Bitmap::load(&bytes).unwrap();
    assert_eq!((image.width, image.height), (3, 2));
    assert_eq!(image.pixels, vec![0; 6]);
    let empty = Bitmap::load(&bitmap(true, 0, 0, (0, 0, 0, 0), &[])).unwrap();
    assert!(empty.pixels.is_empty());
}

#[test]
fn bitmap_errors() {
    let good = bitmap(false, 0, 0, (0, 0, 2, 2), &[&[0, 2, 1, 2], &[1, 1, 3]]);
    assert!(Bitmap::load(&good).is_ok());
    assert!(matches!(Bitmap::load(&good[..27]), Err(Error::TruncatedHeader)));
    assert!(matches!(Bitmap::load(&good[..good.len() - 1]), Err(Error::TruncatedPayload)));
    let mut longer = good.clone();
    longer.push(0);
    assert!(matches!(Bitmap::load(&longer), Err(Error::UnsupportedEncoding)));
    let mut mark = good.clone();
    mark[0] = 3;
    assert!(matches!(Bitmap::load(&mark), Err(Error::UnknownByteOrder)));

    let upside_down = bitmap(false, 0, 0, (0, 3, 2, 2), &[]);
    assert!(matches!(Bitmap::load(&upside_down), Err(Error::UnsupportedEncoding)));
    // Two rows are announced by the rectangle, one length is stored.
    let lengths = bitmap(false, 0, 0, (0, 0, 2, 2), &[]);
    assert!(matches!(Bitmap::load(&lengths), Err(Error::TruncatedPayload)));
    // A row that is longer than what is left.
    let mut row = bitmap(false, 0, 0, (0, 0, 2, 1), &[&[0, 2, 1, 2]]);
    row[28] = 5;
    assert!(matches!(Bitmap::load(&row), Err(Error::TruncatedPayload)));
    let wide = bitmap(false, 0, 0, (0, 0, 2, 1), &[&[1, 2, 1, 2]]);
    assert!(matches!(Bitmap::load(&wide), Err(Error::Corrupt(CorruptKind::Overflow))));
}
