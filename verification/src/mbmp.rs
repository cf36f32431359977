//! Masked bitmaps: images whose rows are stored as runs of transparent and
//! opaque pixels.

use vstd::prelude::*;
use vstd::slice::slice_subrange;
use crate::error::{CorruptKind, Error};
use crate::order::{
    lemma_half_kept, lemma_permuted, lemma_permuted_u16, lemma_permuted_u32, lemma_swapped_elsewhere,
    lemma_swapped_u16, lemma_word_kept, mirrored, permuted, read_u16, read_u32, swapped_run, u16_at, u32_at,
    Endian, Loader, Symmetric,
};

verus! {

/// Size in bytes of the bitmap header.
pub const BITMAP_HEADER: usize = 28;

/// The header of a masked bitmap.
#[derive(Clone, Copy, Debug, PartialEq, Eq, Structural)]
pub struct BitmapHeader {
    /// 1 where the opaque pixels all have the fill value and are not stored.
    pub mask: u8,
    pub fill: u8,
    /// The rectangle that the rows cover; `left` and `top` are inside,
    /// `right` and `bottom` just outside.
    pub left: u32,
    pub top: u32,
    pub right: u32,
    pub bottom: u32,
    /// Size in bytes of the whole bitmap.
    pub size: u32,
}

impl BitmapHeader {
    /// The header that `input` starts with, read in byte order `e`.
    pub open spec fn of(input: Seq<u8>, e: Endian) -> BitmapHeader {
        BitmapHeader {
            mask: input[4],
            fill: input[5],
            left: u32_at(input, 8, e) as u32,
            top: u32_at(input, 12, e) as u32,
            right: u32_at(input, 16, e) as u32,
            bottom: u32_at(input, 20, e) as u32,
            size: u32_at(input, 24, e) as u32,
        }
    }

    /// Reads the header that `input` starts with.
    pub fn read(input: &[u8], e: Endian) -> (r: BitmapHeader)
        requires
            input@.len() >= BITMAP_HEADER,
        ensures
            r == BitmapHeader::of(input@, e),
    {
        BitmapHeader {
            mask: input[4],
            fill: input[5],
            left: read_u32(input, 8, e),
            top: read_u32(input, 12, e),
            right: read_u32(input, 16, e),
            bottom: read_u32(input, 20, e),
            size: read_u32(input, 24, e),
        }
    }

    /// Number of rows that are stored.
    pub open spec fn rows(self) -> int {
        self.bottom - self.top
    }

    /// Number of pixels that a stored row covers.
    pub open spec fn row_width(self) -> int {
        self.right - self.left
    }
}

/// An image of one byte per pixel, stored row by row.
#[derive(Debug)]
pub struct Bitmap {
    pub width: u32,
    pub height: u32,
    pub pixels: Vec<u8>,
}

/// `n` pixels of value `value`.
pub open spec fn run_of(n: int, value: u8) -> Seq<u8> {
    Seq::new(n as nat, |i: int| value)
}

/// The pixels of a row of `width` pixels of which `done` are settled and
/// the runs in `src` are still to come.
///
/// A run is a number of transparent pixels, which stay zero, and a number
/// of opaque pixels, which have the fill value where the bitmap is a mask and
/// are stored after the two numbers where it is not. What the runs do not
/// reach stays zero.
pub open spec fn row_pixels(src: Seq<u8>, done: Seq<u8>, width: int, mask: u8, fill: u8) -> Result<
    Seq<u8>,
    Error,
>
    decreases src.len(),
{
    if src.len() == 0 {
        Ok(done + run_of(width - done.len(), 0))
    } else if done.len() + src[0] > width {
        Err(Error::Corrupt(CorruptKind::Overflow))
    } else if src.len() < 2 {
        Err(Error::TruncatedPayload)
    } else if done.len() + src[0] + src[1] > width {
        Err(Error::Corrupt(CorruptKind::Overflow))
    } else if mask == 1 {
        row_pixels(src.skip(2), done + run_of(src[0] as int, 0) + run_of(src[1] as int, fill), width, mask, fill)
    } else if src.len() - 2 < src[1] {
        Err(Error::TruncatedPayload)
    } else {
        row_pixels(
            src.skip(2 + src[1]),
            done + run_of(src[0] as int, 0) + src.subrange(2, 2 + src[1]),
            width,
            mask,
            fill,
        )
    }
}

/// A row that is accepted has `width` pixels.
pub proof fn lemma_row_pixels(src: Seq<u8>, done: Seq<u8>, width: int, mask: u8, fill: u8)
    requires
        done.len() <= width,
    ensures
        row_pixels(src, done, width, mask, fill) matches Ok(row) ==> row.len() == width,
    decreases src.len(),
{
    if src.len() >= 2 && done.len() + src[0] + src[1] <= width {
        if mask == 1 {
            lemma_row_pixels(
                src.skip(2),
                done + run_of(src[0] as int, 0) + run_of(src[1] as int, fill),
                width,
                mask,
                fill,
            );
        } else if src.len() - 2 >= src[1] {
            lemma_row_pixels(
                src.skip(2 + src[1]),
                done + run_of(src[0] as int, 0) + src.subrange(2, 2 + src[1]),
                width,
                mask,
                fill,
            );
        }
    }
}

/// Decodes the runs of one row.
pub fn decode_row(src: &[u8], width: usize, mask: u8, fill: u8) -> (r: Result<Vec<u8>, Error>)
    ensures
        match r {
            Ok(row) => row_pixels(src@, Seq::empty(), width as int, mask, fill) == Ok::<Seq<u8>, Error>(
                row@,
            ) && row@.len() == width,
            Err(err) => row_pixels(src@, Seq::empty(), width as int, mask, fill) == Err::<Seq<u8>, Error>(
                err,
            ),
        },
{
    let mut row: Vec<u8> = Vec::new();
    let mut at: usize = 0;
    assert(src@.skip(0) =~= src@);
    assert(row@ =~= Seq::<u8>::empty());
    while at < src.len()
        invariant
            at <= src.len(),
            row@.len() <= width,
            row_pixels(src@, Seq::empty(), width as int, mask, fill) == row_pixels(
                src@.skip(at as int),
                row@,
                width as int,
                mask,
                fill,
            ),
        decreases src.len() - at,
    {
        let ghost rest = src@.skip(at as int);
        let ghost done = row@;
        let transparent = src[at] as usize;
        if transparent > width - row.len() {
            return Err(Error::Corrupt(CorruptKind::Overflow));
        }
        if src.len() - at < 2 {
            return Err(Error::TruncatedPayload);
        }
        let opaque = src[at + 1] as usize;
        if opaque > width - row.len() - transparent {
            return Err(Error::Corrupt(CorruptKind::Overflow));
        }
        if mask != 1 && src.len() - at - 2 < opaque {
            return Err(Error::TruncatedPayload);
        }
        let mut k: usize = 0;
        while k < transparent
            invariant
                k <= transparent,
                row@ == done + run_of(k as int, 0),
            decreases transparent - k,
        {
            row.push(0);
            assert(row@ =~= done + run_of(k + 1, 0));
            k += 1;
        }
        let ghost cleared = row@;
        if mask == 1 {
            let mut k: usize = 0;
            while k < opaque
                invariant
                    k <= opaque,
                    row@ == cleared + run_of(k as int, fill),
                decreases opaque - k,
            {
                row.push(fill);
                assert(row@ =~= cleared + run_of(k + 1, fill));
                k += 1;
            }
            assert(rest.skip(2) =~= src@.skip(at + 2));
            at = at + 2;
        } else {
            let mut k: usize = 0;
            while k < opaque
                invariant
                    k <= opaque,
                    at + 2 + opaque <= src.len(),
                    rest == src@.skip(at as int),
                    row@ == cleared + rest.subrange(2, 2 + k),
                decreases opaque - k,
            {
                row.push(src[at + 2 + k]);
                assert(row@ =~= cleared + rest.subrange(2, 2 + k + 1));
                k += 1;
            }
            assert(rest.skip(2 + opaque) =~= src@.skip(at + 2 + opaque));
            at = at + 2 + opaque;
        }
    }
    let ghost done = row@;
    let mut k: usize = row.len();
    while k < width
        invariant
            done.len() <= k <= width,
            row@ == done + run_of(k - done.len(), 0),
        decreases width - k,
    {
        row.push(0);
        assert(row@ =~= done + run_of(k + 1 - done.len(), 0));
        k += 1;
    }
    assert(src@.skip(src@.len() as int).len() == 0);
    Ok(row)
}

/// Number of bytes that the runs of row `r` take.
pub open spec fn row_len(input: Seq<u8>, e: Endian, r: int) -> int {
    u16_at(input, BITMAP_HEADER + 2 * r, e)
}

/// Where the runs of row `r` start: after the header, the lengths of all
/// rows, and the runs of the rows before.
pub open spec fn row_start(input: Seq<u8>, e: Endian, r: int) -> int
    decreases r,
{
    if r <= 0 {
        BITMAP_HEADER + 2 * BitmapHeader::of(input, e).rows()
    } else {
        row_start(input, e, r - 1) + row_len(input, e, r - 1)
    }
}

/// The pixels of stored row `r`, or why the row is rejected.
pub open spec fn stored_row(input: Seq<u8>, e: Endian, r: int) -> Result<Seq<u8>, Error> {
    let header = BitmapHeader::of(input, e);
    let start = row_start(input, e, r);
    if input.len() < start + row_len(input, e, r) {
        Err(Error::TruncatedPayload)
    } else {
        row_pixels(
            input.subrange(start, start + row_len(input, e, r)),
            Seq::empty(),
            header.row_width(),
            header.mask,
            header.fill,
        )
    }
}

/// The error of the first of the rows `0..n` that is rejected.
pub open spec fn rows_error(input: Seq<u8>, e: Endian, n: int) -> Option<Error>
    decreases n,
{
    if n <= 0 {
        None
    } else {
        match rows_error(input, e, n - 1) {
            Some(err) => Some(err),
            None => match stored_row(input, e, n - 1) {
                Ok(_) => None,
                Err(err) => Some(err),
            },
        }
    }
}

/// Once a row has been rejected, the rows after it do not matter.
pub proof fn lemma_rows_error_stays(input: Seq<u8>, e: Endian, n: int, m: int)
    requires
        0 <= n <= m,
        rows_error(input, e, n).is_some(),
    ensures
        rows_error(input, e, m) == rows_error(input, e, n),
    decreases m - n,
{
    if n < m {
        lemma_rows_error_stays(input, e, n, m - 1);
    }
}

/// Why a bitmap is rejected, if it is: its size is not the size of the
/// input, its rectangle is upside down, the input ends within the row
/// lengths, the image is larger than can be held, or a row is rejected.
pub open spec fn bitmap_error(input: Seq<u8>, e: Endian) -> Option<Error> {
    let header = BitmapHeader::of(input, e);
    if input.len() < header.size {
        Some(Error::TruncatedPayload)
    } else if input.len() > header.size {
        Some(Error::UnsupportedEncoding)
    } else if header.bottom < header.top {
        Some(Error::UnsupportedEncoding)
    } else if input.len() < BITMAP_HEADER + 2 * header.rows() {
        Some(Error::TruncatedPayload)
    } else if header.right * header.bottom > usize::MAX {
        Some(Error::UnsupportedEncoding)
    } else if header.right <= header.left {
        None
    } else {
        rows_error(input, e, header.rows())
    }
}

/// The pixels of the first `n` stored rows, each after the `left` pixels
/// that no row covers.
pub open spec fn rows_pixels(input: Seq<u8>, e: Endian, n: int) -> Seq<u8>
    decreases n,
{
    if n <= 0 {
        Seq::empty()
    } else {
        rows_pixels(input, e, n - 1) + run_of(BitmapHeader::of(input, e).left as int, 0) + stored_row(
            input,
            e,
            n - 1,
        ).unwrap()
    }
}

/// The pixels of an accepted bitmap: `right` pixels wide and `bottom` high,
/// zero above the stored rows and left of them.
pub open spec fn bitmap_pixels(input: Seq<u8>, e: Endian) -> Seq<u8> {
    let header = BitmapHeader::of(input, e);
    if header.right <= header.left {
        run_of(header.right * header.bottom, 0)
    } else {
        run_of(header.top * header.right, 0) + rows_pixels(input, e, header.rows())
    }
}

/// The first `n` stored rows of an accepted bitmap take `n` times `right` pixels.
pub proof fn lemma_rows_pixels_len(input: Seq<u8>, e: Endian, n: int)
    requires
        0 <= n,
        BitmapHeader::of(input, e).left < BitmapHeader::of(input, e).right,
        rows_error(input, e, n).is_none(),
    ensures
        rows_pixels(input, e, n).len() == n * BitmapHeader::of(input, e).right,
    decreases n,
{
    let header = BitmapHeader::of(input, e);
    if n > 0 {
        lemma_rows_pixels_len(input, e, n - 1);
        lemma_row_pixels(
            input.subrange(row_start(input, e, n - 1), row_start(input, e, n - 1) + row_len(input, e, n - 1)),
            Seq::empty(),
            header.row_width(),
            header.mask,
            header.fill,
        );
        assert(n * header.right == (n - 1) * header.right + header.right) by (nonlinear_arith);
    } else {
        assert(0 * header.right == 0);
    }
}

impl<'a> Loader<'a> for Bitmap {
    open spec fn header_len() -> nat {
        BITMAP_HEADER as nat
    }

    open spec fn mark_at() -> nat {
        0
    }

    open spec fn decodes_to(input: Seq<u8>, e: Endian, r: Result<Self, Error>) -> bool {
        let header = BitmapHeader::of(input, e);
        match bitmap_error(input, e) {
            Some(err) => r == Err::<Self, Error>(err),
            None => r matches Ok(bitmap) && bitmap.width == header.right && bitmap.height
                == header.bottom && bitmap.pixels@ == bitmap_pixels(input, e) && bitmap.pixels@.len()
                == header.right * header.bottom,
        }
    }

    fn header_size() -> (n: usize) {
        BITMAP_HEADER
    }

    fn mark_offset() -> (n: usize) {
        0
    }

    fn into_native(input: &'a [u8], e: Endian) -> (r: Result<Self, Error>) {
        let header = BitmapHeader::read(input, e);
        if (input.len() as u64) < header.size as u64 {
            return Err(Error::TruncatedPayload);
        }
        if input.len() as u64 > header.size as u64 {
            return Err(Error::UnsupportedEncoding);
        }
        if header.bottom < header.top {
            return Err(Error::UnsupportedEncoding);
        }
        let rows = (header.bottom - header.top) as usize;
        if 2 * rows as u64 > (input.len() - BITMAP_HEADER) as u64 {
            return Err(Error::TruncatedPayload);
        }
        assert(header.right * header.bottom <= 0xFFFF_FFFF * 0xFFFF_FFFF) by (nonlinear_arith)
            requires
                0 <= header.right <= 0xFFFF_FFFF,
                0 <= header.bottom <= 0xFFFF_FFFF,
        ;
        let area = header.right as u64 * header.bottom as u64;
        if area > usize::MAX as u64 {
            return Err(Error::UnsupportedEncoding);
        }
        let right = header.right as usize;
        if header.right <= header.left {
            let pixels = vec![0u8; area as usize];
            assert(pixels@ =~= run_of(header.right * header.bottom, 0));
            return Ok(Bitmap { width: header.right, height: header.bottom, pixels });
        }
        let left = header.left as usize;
        let width = right - left;
        assert(header.top * header.right <= header.right * header.bottom) by (nonlinear_arith)
            requires
                0 <= header.top <= header.bottom,
                0 <= header.right,
        ;
        let mut pixels = vec![0u8; header.top as usize * right];
        assert(pixels@ =~= run_of(header.top * header.right, 0));
        let mut at: usize = BITMAP_HEADER + 2 * rows;
        let mut r: usize = 0;
        while r < rows
            invariant
                r <= rows,
                rows == header.rows(),
                header == BitmapHeader::of(input@, e),
                header.left < header.right,
                left == header.left,
                right == header.right,
                width == header.row_width(),
                header.top <= header.bottom,
                header.right * header.bottom <= usize::MAX,
                BITMAP_HEADER + 2 * rows <= input.len(),
                input@.len() == header.size,
                at == row_start(input@, e, r as int),
                at <= input.len(),
                rows_error(input@, e, r as int).is_none(),
                pixels@ == run_of(header.top * header.right, 0) + rows_pixels(input@, e, r as int),
            decreases rows - r,
        {
            let length = read_u16(input, BITMAP_HEADER + 2 * r, e) as usize;
            if input.len() - at < length {
                proof {
                    assert(stored_row(input@, e, r as int) == Err::<Seq<u8>, Error>(Error::TruncatedPayload));
                    assert(rows_error(input@, e, r + 1) == Some(Error::TruncatedPayload));
                    lemma_rows_error_stays(input@, e, r + 1, rows as int);
                }
                return Err(Error::TruncatedPayload);
            }
            let src = slice_subrange(input, at, at + length);
            let row = match decode_row(src, width, header.mask, header.fill) {
                Ok(row) => row,
                Err(err) => {
                    proof {
                        assert(stored_row(input@, e, r as int) == Err::<Seq<u8>, Error>(err));
                        assert(rows_error(input@, e, r + 1) == Some(err));
                        lemma_rows_error_stays(input@, e, r + 1, rows as int);
                    }
                    return Err(err);
                },
            };
            proof {
                lemma_rows_pixels_len(input@, e, r as int);
                assert(r * header.right + header.right <= rows * header.right) by (nonlinear_arith)
                    requires
                        r < rows,
                        0 <= header.right,
                ;
                assert(header.top * header.right + rows * header.right == header.right * header.bottom)
                    by (nonlinear_arith)
                    requires
                        rows == header.bottom - header.top,
                ;
            }
            let ghost before = pixels@;
            let mut k: usize = 0;
            while k < left
                invariant
                    k <= left,
                    left < right,
                    before.len() + right <= usize::MAX,
                    pixels@ == before + run_of(k as int, 0),
                decreases left - k,
            {
                pixels.push(0);
                assert(pixels@ =~= before + run_of(k + 1, 0));
                k += 1;
            }
            let ghost padded = pixels@;
            let mut k: usize = 0;
            while k < width
                invariant
                    k <= width,
                    row@.len() == width,
                    pixels@ == padded + row@.take(k as int),
                decreases width - k,
            {
                pixels.push(row[k]);
                assert(pixels@ =~= padded + row@.take(k + 1));
                k += 1;
            }
            proof {
                assert(row@.take(width as int) =~= row@);
                assert(pixels@ =~= run_of(header.top * header.right, 0) + rows_pixels(input@, e, r + 1));
            }
            at = at + length;
            r += 1;
        }
        proof {
            lemma_rows_pixels_len(input@, e, rows as int);
            assert(header.top * header.right + rows * header.right == header.right * header.bottom)
                by (nonlinear_arith)
                requires
                    rows == header.bottom - header.top,
            ;
        }
        Ok(Bitmap { width: header.right, height: header.bottom, pixels })
    }
}


/// Where byte `o` of a bitmap lies when its header is written in the other
/// byte order: the mark and the word after it, two single bytes, a field of
/// two bytes, five fields of four bytes.
pub open spec fn bitmap_header_mirror(o: int) -> int {
    if o < 4 {
        mirrored(o, 0, 2)
    } else if o < 6 {
        o
    } else if o < 8 {
        mirrored(o, 6, 2)
    } else if o < BITMAP_HEADER {
        mirrored(o, 8, 4)
    } else {
        o
    }
}

/// Whether the input holds the lengths of all rows.
pub open spec fn has_row_lengths(input: Seq<u8>, e: Endian) -> bool {
    let header = BitmapHeader::of(input, e);
    header.top <= header.bottom && input.len() >= BITMAP_HEADER + 2 * header.rows()
}

/// The bitmap as it is written in the other byte order: the header and
/// the lengths of the rows have their bytes in reverse order, the runs are
/// single bytes.
pub open spec fn bitmap_swapped(input: Seq<u8>, e: Endian) -> Seq<u8> {
    let header = permuted(input, |o: int| bitmap_header_mirror(o));
    if has_row_lengths(input, e) {
        swapped_run(header, BITMAP_HEADER as int, BITMAP_HEADER + 2 * BitmapHeader::of(input, e).rows(), 2)
    } else {
        header
    }
}

/// The counterpart of a bitmap: as long, with the same header and the same
/// row lengths read in the other byte order, and the same bytes after them.
proof fn lemma_bitmap_swapped(input: Seq<u8>, e: Endian)
    requires
        input.len() >= BITMAP_HEADER,
    ensures
        bitmap_swapped(input, e).len() == input.len(),
        u16_at(bitmap_swapped(input, e), 0, e.flipped()) == u16_at(input, 0, e),
        BitmapHeader::of(bitmap_swapped(input, e), e.flipped()) == BitmapHeader::of(input, e),
        has_row_lengths(input, e) ==> (forall|r: int|
            0 <= r < BitmapHeader::of(input, e).rows() ==> #[trigger] row_len(
                bitmap_swapped(input, e),
                e.flipped(),
                r,
            ) == row_len(input, e, r)) && (forall|i: int|
            BITMAP_HEADER + 2 * BitmapHeader::of(input, e).rows() <= i < input.len()
                ==> #[trigger] bitmap_swapped(input, e)[i] == input[i]),
{
    let mirror = |o: int| bitmap_header_mirror(o);
    let header = permuted(input, mirror);
    let other = bitmap_swapped(input, e);
    let rows = BitmapHeader::of(input, e).rows();
    lemma_permuted(input, mirror);
    lemma_permuted_u16(input, mirror, 0, e);
    assert(header[4] == input[mirror(4)]);
    assert(header[5] == input[mirror(5)]);
    lemma_permuted_u32(input, mirror, 8, e);
    lemma_permuted_u32(input, mirror, 12, e);
    lemma_permuted_u32(input, mirror, 16, e);
    lemma_permuted_u32(input, mirror, 20, e);
    lemma_permuted_u32(input, mirror, 24, e);
    assert(BitmapHeader::of(header, e.flipped()) == BitmapHeader::of(input, e));
    if has_row_lengths(input, e) {
        lemma_swapped_elsewhere(header, BITMAP_HEADER as int, BITMAP_HEADER + 2 * rows, 2);
        lemma_half_kept(other, header, 0, e.flipped());
        lemma_word_kept(other, header, 8, e.flipped());
        lemma_word_kept(other, header, 12, e.flipped());
        lemma_word_kept(other, header, 16, e.flipped());
        lemma_word_kept(other, header, 20, e.flipped());
        lemma_word_kept(other, header, 24, e.flipped());
        assert(other[4] == header[4] && other[5] == header[5]);
        assert forall|r: int| 0 <= r < rows implies #[trigger] row_len(other, e.flipped(), r) == row_len(
            input,
            e,
            r,
        ) by {
            let at = BITMAP_HEADER + 2 * r;
            lemma_swapped_u16(header, BITMAP_HEADER as int, BITMAP_HEADER + 2 * rows, at, e);
            assert(mirror(at) == at && mirror(at + 1) == at + 1);
            lemma_half_kept(header, input, at, e);
        }
        assert forall|i: int| BITMAP_HEADER + 2 * rows <= i < input.len() implies #[trigger] other[i]
            == input[i] by {
            assert(mirror(i) == i);
            assert(header[i] == input[mirror(i)]);
        }
    }
}

/// The rows of a bitmap and of its counterpart start at the same places
/// and hold the same pixels.
proof fn lemma_rows_swapped(input: Seq<u8>, e: Endian, n: int)
    requires
        input.len() >= BITMAP_HEADER,
        has_row_lengths(input, e),
        0 <= n <= BitmapHeader::of(input, e).rows(),
    ensures
        row_start(bitmap_swapped(input, e), e.flipped(), n) == row_start(input, e, n),
        row_start(input, e, n) >= BITMAP_HEADER + 2 * BitmapHeader::of(input, e).rows(),
        rows_error(bitmap_swapped(input, e), e.flipped(), n) == rows_error(input, e, n),
        rows_pixels(bitmap_swapped(input, e), e.flipped(), n) == rows_pixels(input, e, n),
        n > 0 ==> stored_row(bitmap_swapped(input, e), e.flipped(), n - 1) == stored_row(input, e, n - 1),
    decreases n,
{
    lemma_bitmap_swapped(input, e);
    if n > 0 {
        let other = bitmap_swapped(input, e);
        lemma_rows_swapped(input, e, n - 1);
        let start = row_start(input, e, n - 1);
        let length = row_len(input, e, n - 1);
        assert(row_len(other, e.flipped(), n - 1) == length);
        if input.len() >= start + length {
            assert(other.subrange(start, start + length) =~= input.subrange(start, start + length));
        }
    }
}

impl<'a> Symmetric<'a> for Bitmap {
    open spec fn byte_swapped(input: Seq<u8>, e: Endian) -> Seq<u8> {
        bitmap_swapped(input, e)
    }

    open spec fn swappable(input: Seq<u8>, e: Endian) -> bool {
        true
    }

    proof fn lemma_byte_swapped(input: Seq<u8>, e: Endian, r: Result<Self, Error>) {
        lemma_bitmap_swapped(input, e);
        if has_row_lengths(input, e) {
            lemma_rows_swapped(input, e, BitmapHeader::of(input, e).rows());
        }
    }
}

} // verus!
