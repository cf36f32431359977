//! Texture atlases: which part of every texture a costume set uses, how the
//! used rectangles are laid out on a square canvas, and how the canvas of one
//! costume is filled.

use rectangle_pack::{
    contains_smallest_box, pack_rects, volume_heuristic, GroupedRectsToPlace, RectToInsert, TargetBin,
};
use vstd::prelude::*;
use crate::chunky::ChunkId;
use crate::error::Error;
use crate::tmap::TextureMap;

verus! {

/// A rectangle of texture pixels; `min` is inside, `max` is just outside.
#[derive(Clone, Copy, Debug, PartialEq, Eq, Structural)]
pub struct Extents {
    pub min_x: u32,
    pub min_y: u32,
    pub max_x: u32,
    pub max_y: u32,
}

impl Extents {
    /// Neither side is negative.
    pub open spec fn wf(self) -> bool {
        self.min_x <= self.max_x && self.min_y <= self.max_y
    }

    pub open spec fn spec_width(self) -> int {
        self.max_x - self.min_x
    }

    pub open spec fn spec_height(self) -> int {
        self.max_y - self.min_y
    }

    /// The smallest rectangle that holds both `self` and `rhs`.
    pub open spec fn spec_union(self, rhs: Extents) -> Extents {
        Extents {
            min_x: if self.min_x <= rhs.min_x { self.min_x } else { rhs.min_x },
            min_y: if self.min_y <= rhs.min_y { self.min_y } else { rhs.min_y },
            max_x: if self.max_x >= rhs.max_x { self.max_x } else { rhs.max_x },
            max_y: if self.max_y >= rhs.max_y { self.max_y } else { rhs.max_y },
        }
    }

    /// Every pixel of `inner` is a pixel of `self`.
    pub open spec fn covers(self, inner: Extents) -> bool {
        self.min_x <= inner.min_x && self.min_y <= inner.min_y && inner.max_x <= self.max_x
            && inner.max_y <= self.max_y
    }

    /// Number of pixel columns.
    pub fn width(&self) -> (w: u32)
        requires
            self.wf(),
        ensures
            w == self.spec_width(),
    {
        self.max_x - self.min_x
    }

    /// Number of pixel rows.
    pub fn height(&self) -> (h: u32)
        requires
            self.wf(),
        ensures
            h == self.spec_height(),
    {
        self.max_y - self.min_y
    }

    /// The smallest rectangle that holds both `self` and `rhs`.
    pub fn union(self, rhs: Extents) -> (r: Extents)
        ensures
            r == self.spec_union(rhs),
            r.covers(self),
            r.covers(rhs),
            self.wf() ==> r.wf(),
    {
        Extents {
            min_x: if self.min_x <= rhs.min_x { self.min_x } else { rhs.min_x },
            min_y: if self.min_y <= rhs.min_y { self.min_y } else { rhs.min_y },
            max_x: if self.max_x >= rhs.max_x { self.max_x } else { rhs.max_x },
            max_y: if self.max_y >= rhs.max_y { self.max_y } else { rhs.max_y },
        }
    }
}

/// The pixels of one texture that one mesh addresses.
#[derive(Clone, Copy, Debug, PartialEq, Eq, Structural)]
pub struct TextureUse {
    pub texture: ChunkId,
    pub extents: Extents,
}

/// The texture whose use by a part is measured: that of the part's material
/// in the first costume, provided that the part shows a mesh and the mesh has
/// vertices.
pub fn measured_texture(model_id: Option<u16>, texture: Option<ChunkId>, vertices: usize) -> (r: Option<
    ChunkId,
>)
    ensures
        r == if model_id.is_some() && vertices > 0 { texture } else { None },
{
    if model_id.is_some() && vertices > 0 {
        texture
    } else {
        None
    }
}

/// The texture whose size in a later costume is compared with the first
/// costume's: that of the part's material in the later costume, provided that
/// the part shows a mesh and was measured in the first costume.
pub fn compared_texture(model_id: Option<u16>, first_size: Option<PixelSize>, texture: Option<ChunkId>) -> (r:
    Option<ChunkId>)
    ensures
        r == if model_id.is_some() && first_size.is_some() { texture } else { None },
{
    if model_id.is_some() && first_size.is_some() {
        texture
    } else {
        None
    }
}

/// The rectangle of the layout that a part of a costume is copied to: that
/// of the texture of the part in the first costume, provided that the part
/// shows a mesh and is textured in both costumes.
pub fn copied_texture(model_id: Option<u16>, texture: Option<ChunkId>, first_texture: Option<ChunkId>) -> (r:
    Option<ChunkId>)
    ensures
        r == if model_id.is_some() && texture.is_some() { first_texture } else { None },
{
    if model_id.is_some() && texture.is_some() {
        first_texture
    } else {
        None
    }
}

/// Position of `texture` among `uses`, if it is there.
pub open spec fn position_of(uses: Seq<TextureUse>, texture: ChunkId) -> Option<int>
    decreases uses.len(),
{
    if uses.len() == 0 {
        None
    } else if uses.last().texture == texture {
        match position_of(uses.drop_last(), texture) {
            Some(i) => Some(i),
            None => Some(uses.len() - 1),
        }
    } else {
        position_of(uses.drop_last(), texture)
    }
}

/// `uses` with one more use taken in: the entry of the same texture grows to
/// hold it, or a new entry is added at the end.
pub open spec fn merge_use(uses: Seq<TextureUse>, u: TextureUse) -> Seq<TextureUse> {
    match position_of(uses, u.texture) {
        Some(i) => uses.update(
            i,
            TextureUse { texture: u.texture, extents: uses[i].extents.spec_union(u.extents) },
        ),
        None => uses.push(u),
    }
}

/// The used extents of every texture that `parts` mention: one entry per
/// texture, in the order in which the textures first occur, each holding the
/// union of the uses of its texture.
pub open spec fn merged_uses(parts: Seq<Option<TextureUse>>) -> Seq<TextureUse>
    decreases parts.len(),
{
    if parts.len() == 0 {
        Seq::empty()
    } else {
        let before = merged_uses(parts.drop_last());
        match parts.last() {
            Some(u) => merge_use(before, u),
            None => before,
        }
    }
}

/// No texture has two entries.
pub open spec fn distinct_textures(uses: Seq<TextureUse>) -> bool {
    forall|i: int, j: int|
        0 <= i < j < uses.len() ==> (#[trigger] uses[i]).texture != (#[trigger] uses[j]).texture
}

/// What `position_of` finds is the first entry of the texture, and it finds
/// one whenever there is any.
pub proof fn lemma_position_of(uses: Seq<TextureUse>, texture: ChunkId)
    ensures
        match position_of(uses, texture) {
            Some(i) => 0 <= i < uses.len() && uses[i].texture == texture && forall|j: int|
                0 <= j < i ==> (#[trigger] uses[j]).texture != texture,
            None => forall|j: int| 0 <= j < uses.len() ==> (#[trigger] uses[j]).texture != texture,
        },
    decreases uses.len(),
{
    if uses.len() > 0 {
        lemma_position_of(uses.drop_last(), texture);
        let before = uses.drop_last();
        assert(forall|j: int| 0 <= j < before.len() ==> before[j] == uses[j]);
    }
}

/// Taking in one more use keeps the textures distinct, keeps every earlier
/// entry in place and only lets extents grow.
pub proof fn lemma_merge_use(uses: Seq<TextureUse>, u: TextureUse)
    requires
        distinct_textures(uses),
    ensures
        distinct_textures(merge_use(uses, u)),
        merge_use(uses, u).len() >= uses.len(),
        forall|i: int|
            0 <= i < uses.len() ==> (#[trigger] merge_use(uses, u)[i]).texture == uses[i].texture
                && merge_use(uses, u)[i].extents.covers(uses[i].extents),
        exists|i: int|
            0 <= i < merge_use(uses, u).len() && (#[trigger] merge_use(uses, u)[i]).texture
                == u.texture && merge_use(uses, u)[i].extents.covers(u.extents),
{
    lemma_position_of(uses, u.texture);
    let merged = merge_use(uses, u);
    match position_of(uses, u.texture) {
        Some(i) => {
            assert(merged[i].texture == u.texture && merged[i].extents.covers(u.extents));
        },
        None => {
            let last = uses.len() as int;
            assert(merged[last].texture == u.texture && merged[last].extents.covers(u.extents));
        },
    }
}

/// Every texture that a part uses has exactly one entry in `merged_uses`, and
/// that entry covers the part's use.
pub proof fn lemma_merged_uses(parts: Seq<Option<TextureUse>>)
    ensures
        distinct_textures(merged_uses(parts)),
        forall|k: int|
            0 <= k < parts.len() && (#[trigger] parts[k]).is_some() ==> exists|i: int|
                0 <= i < merged_uses(parts).len() && (#[trigger] merged_uses(parts)[i]).texture
                    == parts[k].unwrap().texture && merged_uses(parts)[i].extents.covers(
                    parts[k].unwrap().extents,
                ),
    decreases parts.len(),
{
    if parts.len() > 0 {
        let init = parts.drop_last();
        lemma_merged_uses(init);
        let before = merged_uses(init);
        let after = merged_uses(parts);
        match parts.last() {
            Some(u) => {
                lemma_merge_use(before, u);
                assert forall|k: int| 0 <= k < parts.len() && (#[trigger] parts[k]).is_some() implies exists|
                    i: int,
                |
                    0 <= i < after.len() && (#[trigger] after[i]).texture == parts[k].unwrap().texture
                        && after[i].extents.covers(parts[k].unwrap().extents) by {
                    if k < init.len() {
                        assert(init[k] == parts[k]);
                        let i = choose|i: int|
                            0 <= i < before.len() && (#[trigger] before[i]).texture
                                == parts[k].unwrap().texture && before[i].extents.covers(
                                parts[k].unwrap().extents,
                            );
                        assert(after[i].texture == before[i].texture && after[i].extents.covers(
                            before[i].extents,
                        ));
                    }
                }
            },
            None => {
                assert forall|k: int| 0 <= k < parts.len() && (#[trigger] parts[k]).is_some() implies exists|
                    i: int,
                |
                    0 <= i < after.len() && (#[trigger] after[i]).texture == parts[k].unwrap().texture
                        && after[i].extents.covers(parts[k].unwrap().extents) by {
                    assert(init[k] == parts[k]);
                }
            },
        }
    }
}

/// Finds the entry of `texture` among `uses`.
pub fn find_use(uses: &Vec<TextureUse>, texture: ChunkId) -> (r: Option<usize>)
    ensures
        match r {
            Some(i) => i < uses@.len() && position_of(uses@, texture) == Some(i as int),
            None => position_of(uses@, texture).is_none(),
        },
{
    let mut i: usize = 0;
    while i < uses.len()
        invariant
            i <= uses.len(),
            forall|j: int| 0 <= j < i ==> (#[trigger] uses@[j]).texture != texture,
        decreases uses.len() - i,
    {
        if uses[i].texture == texture {
            proof {
                lemma_position_of(uses@, texture);
            }
            return Some(i);
        }
        i += 1;
    }
    proof {
        lemma_position_of(uses@, texture);
    }
    None
}

/// Unions the uses of every texture over the parts of a set.
///
/// A part without a textured mesh is `None`. The result has one entry per
/// texture, in the order in which the textures first occur.
pub fn collect_extents(parts: &Vec<Option<TextureUse>>) -> (r: Vec<TextureUse>)
    ensures
        r@ == merged_uses(parts@),
        distinct_textures(r@),
        forall|k: int|
            0 <= k < parts@.len() && (#[trigger] parts@[k]).is_some() ==> exists|i: int|
                0 <= i < r@.len() && (#[trigger] r@[i]).texture == parts@[k].unwrap().texture
                    && r@[i].extents.covers(parts@[k].unwrap().extents),
{
    let mut uses: Vec<TextureUse> = Vec::new();
    let mut k: usize = 0;
    while k < parts.len()
        invariant
            k <= parts.len(),
            uses@ == merged_uses(parts@.take(k as int)),
        decreases parts.len() - k,
    {
        proof {
            assert(parts@.take(k + 1).drop_last() == parts@.take(k as int));
        }
        match parts[k] {
            Some(u) => {
                match find_use(&uses, u.texture) {
                    Some(i) => {
                        let grown = uses[i].extents.union(u.extents);
                        uses[i] = TextureUse { texture: u.texture, extents: grown };
                    },
                    None => {
                        uses.push(u);
                    },
                }
            },
            None => {},
        }
        k += 1;
    }
    proof {
        assert(parts@.take(parts@.len() as int) == parts@);
        lemma_merged_uses(parts@);
    }
    uses
}


/// Size in pixels that a part's texture has once its transform is applied.
#[derive(Clone, Copy, Debug, PartialEq, Eq, Structural)]
pub struct PixelSize {
    pub width: u32,
    pub height: u32,
}

/// Both costumes texture the part, and with different sizes.
pub open spec fn sizes_clash(first: Option<PixelSize>, other: Option<PixelSize>) -> bool {
    first.is_some() && other.is_some() && first != other
}

/// The first part from `from` on at which the two costumes clash.
pub open spec fn first_clash(
    first: Seq<Option<PixelSize>>,
    other: Seq<Option<PixelSize>>,
    from: int,
) -> Option<int>
    decreases first.len() - from,
{
    if from < 0 || from >= first.len() {
        None
    } else if sizes_clash(first[from], other[from]) {
        Some(from)
    } else {
        first_clash(first, other, from + 1)
    }
}

/// `first_clash` finds the smallest clashing part, and finds one whenever
/// there is any.
pub proof fn lemma_first_clash(
    first: Seq<Option<PixelSize>>,
    other: Seq<Option<PixelSize>>,
    from: int,
)
    requires
        0 <= from,
    ensures
        match first_clash(first, other, from) {
            Some(p) => from <= p < first.len() && sizes_clash(first[p], other[p]) && forall|q: int|
                from <= q < p ==> !sizes_clash(#[trigger] first[q], other[q]),
            None => forall|q: int|
                from <= q < first.len() ==> !sizes_clash(#[trigger] first[q], other[q]),
        },
    decreases first.len() - from,
{
    if from < first.len() && !sizes_clash(first[from], other[from]) {
        lemma_first_clash(first, other, from + 1);
    }
}

/// Compares the texture sizes of a costume with those of the first costume
/// of its set, part by part, and returns the first part at which they clash.
pub fn first_mismatch(first: &Vec<Option<PixelSize>>, other: &Vec<Option<PixelSize>>) -> (r: Option<
    usize,
>)
    requires
        first@.len() == other@.len(),
    ensures
        match r {
            Some(p) => first_clash(first@, other@, 0) == Some(p as int),
            None => first_clash(first@, other@, 0).is_none(),
        },
{
    let mut p: usize = 0;
    while p < first.len()
        invariant
            p <= first.len(),
            first@.len() == other@.len(),
            first_clash(first@, other@, 0) == first_clash(first@, other@, p as int),
        decreases first.len() - p,
    {
        let clash = match (first[p], other[p]) {
            (Some(a), Some(b)) => a.width != b.width || a.height != b.height,
            _ => false,
        };
        if clash {
            return Some(p);
        }
        p += 1;
    }
    None
}

/// Checks that the texture sizes of a costume agree with those of the first
/// costume of its set on every part that both texture.
pub fn check_costume(first: &Vec<Option<PixelSize>>, other: &Vec<Option<PixelSize>>) -> (r: Result<
    (),
    Error,
>)
    requires
        first@.len() == other@.len(),
    ensures
        match r {
            Ok(_) => first_clash(first@, other@, 0).is_none(),
            Err(err) => err == Error::IncompatibleTextureTransform && first_clash(
                first@,
                other@,
                0,
            ).is_some(),
        },
{
    match first_mismatch(first, other) {
        None => Ok(()),
        Some(_) => Err(Error::IncompatibleTextureTransform),
    }
}

/// A costume that is left out of the atlas, and the first part whose texture
/// size differs from the first costume's.
#[derive(Clone, Copy, Debug, PartialEq, Eq, Structural)]
pub struct Mismatch {
    pub costume: u32,
    pub part: usize,
}

/// The costumes of a set that share the atlas layout, and those that do not.
#[derive(Debug)]
pub struct Validation {
    pub valid: Vec<u32>,
    pub rejected: Vec<Mismatch>,
}

/// Whether costume `k` of the set shares the layout of costume 0.
pub open spec fn costume_is_valid(sizes: Seq<Vec<Option<PixelSize>>>, k: int) -> bool {
    k == 0 || first_clash(sizes[0]@, sizes[k]@, 0).is_none()
}

/// The valid costumes among the first `n` of a set, in order.
pub open spec fn valid_ids(costumes: Seq<u32>, sizes: Seq<Vec<Option<PixelSize>>>, n: int) -> Seq<
    u32,
>
    decreases n,
{
    if n <= 0 {
        Seq::empty()
    } else if costume_is_valid(sizes, n - 1) {
        valid_ids(costumes, sizes, n - 1).push(costumes[n - 1])
    } else {
        valid_ids(costumes, sizes, n - 1)
    }
}

/// The rejected costumes among the first `n` of a set, in order, each with
/// its first clashing part.
pub open spec fn rejected_ids(
    costumes: Seq<u32>,
    sizes: Seq<Vec<Option<PixelSize>>>,
    n: int,
) -> Seq<Mismatch>
    decreases n,
{
    if n <= 0 {
        Seq::empty()
    } else if costume_is_valid(sizes, n - 1) {
        rejected_ids(costumes, sizes, n - 1)
    } else {
        rejected_ids(costumes, sizes, n - 1).push(
            Mismatch {
                costume: costumes[n - 1],
                part: first_clash(sizes[0]@, sizes[n - 1]@, 0).unwrap() as usize,
            },
        )
    }
}

/// Sorts the costumes of a set into those whose texture sizes agree with the
/// first costume's on every part that both texture, and those that do not.
///
/// `sizes[k]` holds the texture size of every part in costume `costumes[k]`,
/// `None` where the part has no textured mesh. The first costume is always
/// valid; a clash in one costume does not affect the others.
pub fn validate_costumes(costumes: &Vec<u32>, sizes: &Vec<Vec<Option<PixelSize>>>) -> (r:
    Validation)
    requires
        costumes@.len() == sizes@.len(),
        forall|k: int| 0 <= k < sizes@.len() ==> (#[trigger] sizes@[k])@.len() == sizes@[0]@.len(),
    ensures
        r.valid@ == valid_ids(costumes@, sizes@, costumes@.len() as int),
        r.rejected@ == rejected_ids(costumes@, sizes@, costumes@.len() as int),
        costumes@.len() > 0 ==> r.valid@.len() > 0 && r.valid@[0] == costumes@[0],
{
    let mut valid: Vec<u32> = Vec::new();
    let mut rejected: Vec<Mismatch> = Vec::new();
    let mut k: usize = 0;
    while k < costumes.len()
        invariant
            k <= costumes.len(),
            costumes@.len() == sizes@.len(),
            forall|j: int| 0 <= j < sizes@.len() ==> (#[trigger] sizes@[j])@.len() == sizes@[0]@.len(),
            valid@ == valid_ids(costumes@, sizes@, k as int),
            rejected@ == rejected_ids(costumes@, sizes@, k as int),
            k > 0 ==> valid@.len() > 0 && valid@[0] == costumes@[0],
        decreases costumes.len() - k,
    {
        if k == 0 {
            valid.push(costumes[k]);
        } else {
            match first_mismatch(&sizes[0], &sizes[k]) {
                None => {
                    valid.push(costumes[k]);
                },
                Some(part) => {
                    rejected.push(Mismatch { costume: costumes[k], part });
                },
            }
        }
        k += 1;
    }
    Validation { valid, rejected }
}

/// Part `i` has a key, and no earlier part has the same one.
pub open spec fn is_first_use(keys: Seq<Option<ChunkId>>, i: int) -> bool {
    keys[i].is_some() && forall|j: int| 0 <= j < i ==> #[trigger] keys[j] != keys[i]
}

/// The parts that are the first to use their texture, in ascending order.
///
/// When the atlas of a costume is filled, each rectangle of the layout is
/// copied once, from the texture of the first part that uses it; `keys[i]` is
/// the rectangle that part `i` copies to, or `None` if it copies nothing.
pub fn first_uses(keys: &Vec<Option<ChunkId>>) -> (r: Vec<usize>)
    ensures
        forall|a: int, b: int| 0 <= a < b < r@.len() ==> r@[a] < r@[b],
        forall|a: int| 0 <= a < r@.len() ==> (#[trigger] r@[a]) < keys@.len() && is_first_use(keys@, r@[a] as int),
        forall|i: int| 0 <= i < keys@.len() && is_first_use(keys@, i) ==> r@.contains(i as usize),
{
    let mut firsts: Vec<usize> = Vec::new();
    let mut i: usize = 0;
    while i < keys.len()
        invariant
            i <= keys.len(),
            forall|a: int, b: int| 0 <= a < b < firsts@.len() ==> firsts@[a] < firsts@[b],
            forall|a: int| 0 <= a < firsts@.len() ==> (#[trigger] firsts@[a]) < i && is_first_use(keys@, firsts@[a] as int),
            forall|k: int| 0 <= k < i && is_first_use(keys@, k) ==> firsts@.contains(k as usize),
        decreases keys.len() - i,
    {
        match keys[i] {
            Some(key) => {
                let mut seen = false;
                let mut j: usize = 0;
                while j < i
                    invariant
                        j <= i < keys.len(),
                        keys@[i as int] == Some(key),
                        seen <==> exists|m: int| 0 <= m < j && #[trigger] keys@[m] == keys@[i as int],
                    decreases i - j,
                {
                    match keys[j] {
                        Some(other) => {
                            if other == key {
                                seen = true;
                            }
                        },
                        None => {},
                    }
                    j += 1;
                }
                if !seen {
                    let ghost before = firsts@;
                    firsts.push(i);
                    proof {
                        assert(firsts@[before.len() as int] == i);
                        assert forall|k: int| 0 <= k < i + 1 && is_first_use(keys@, k) implies firsts@.contains(k as usize) by {
                            if k < i {
                                let a = choose|a: int| 0 <= a < before.len() && before[a] == k as usize;
                                assert(firsts@[a] == k as usize);
                            }
                        }
                    }
                }
            },
            None => {},
        }
        i += 1;
    }
    firsts
}


/// A rectangle to be placed on the canvas. Rectangles are told apart by
/// their key; among rectangles of equal area the smaller key is placed first.
#[derive(Clone, Copy, Debug, PartialEq, Eq, Structural)]
pub struct RectToPack {
    pub key: u64,
    pub width: u32,
    pub height: u32,
}

/// The rectangles to lay out for the textures that are used: for every
/// texture one rectangle of the size of its used extents, told apart by the
/// key of the texture.
pub fn rects_of(uses: &Vec<TextureUse>) -> (r: Vec<RectToPack>)
    requires
        forall|i: int| 0 <= i < uses@.len() ==> (#[trigger] uses@[i]).extents.wf(),
    ensures
        r@.len() == uses@.len(),
        forall|i: int|
            0 <= i < uses@.len() ==> (#[trigger] r@[i]).key == uses@[i].texture.spec_key() && r@[i].width
                == uses@[i].extents.spec_width() && r@[i].height == uses@[i].extents.spec_height(),
{
    let mut rects: Vec<RectToPack> = Vec::new();
    let mut i: usize = 0;
    while i < uses.len()
        invariant
            i <= uses@.len(),
            forall|k: int| 0 <= k < uses@.len() ==> (#[trigger] uses@[k]).extents.wf(),
            rects@.len() == i,
            forall|k: int|
                0 <= k < i ==> (#[trigger] rects@[k]).key == uses@[k].texture.spec_key() && rects@[k].width
                    == uses@[k].extents.spec_width() && rects@[k].height == uses@[k].extents.spec_height(),
        decreases uses.len() - i,
    {
        let used = uses[i];
        rects.push(RectToPack { key: used.texture.key(), width: used.extents.width(), height: used.extents.height() });
        i += 1;
    }
    rects
}

/// Where a rectangle lies on the canvas.
#[derive(Clone, Copy, Debug, PartialEq, Eq, Structural)]
pub struct Placement {
    pub x: u32,
    pub y: u32,
    pub width: u32,
    pub height: u32,
}

impl Placement {
    /// Pixel `(x, y)` belongs to the rectangle.
    pub open spec fn holds(self, x: int, y: int) -> bool {
        self.x <= x < self.x + self.width && self.y <= y < self.y + self.height
    }

    /// The rectangle lies within a canvas of `size` by `size` pixels.
    pub open spec fn inside(self, size: u32) -> bool {
        self.x + self.width <= size && self.y + self.height <= size
    }

    /// The two rectangles have no pixel in common.
    pub open spec fn disjoint(self, other: Placement) -> bool {
        forall|x: int, y: int| !(#[trigger] self.holds(x, y) && other.holds(x, y))
    }

    /// Decides whether the two rectangles have no pixel in common.
    pub fn is_disjoint(&self, other: &Placement) -> (r: bool)
        ensures
            r == self.disjoint(*other),
    {
        let apart = self.width == 0 || self.height == 0 || other.width == 0 || other.height == 0
            || self.x as u64 + self.width as u64 <= other.x as u64 || other.x as u64
            + other.width as u64 <= self.x as u64 || self.y as u64 + self.height as u64
            <= other.y as u64 || other.y as u64 + other.height as u64 <= self.y as u64;
        proof {
            if !apart {
                let x = if self.x >= other.x { self.x as int } else { other.x as int };
                let y = if self.y >= other.y { self.y as int } else { other.y as int };
                assert(self.holds(x, y) && other.holds(x, y));
            }
        }
        apart
    }
}

/// The locations that `rectangle_pack::pack_rects` gives the rectangles in
/// one bin of `size` by `size`, in the order of `rects`, or `None` where it
/// reports that the bin is too small.
pub uninterp spec fn packed_locations(rects: Seq<RectToPack>, size: u32) -> Option<Seq<Option<Placement>>>;

/// `rectangle_pack::pack_rects` on one bin of `size` by `size` and depth 1,
/// with every rectangle in a group of its own, the volume heuristic and
/// `contains_smallest_box`. Returns the location recorded for each
/// rectangle, in the order of `rects`. The packer keeps its rectangles in
/// ordered maps, so the outcome depends on `rects` and `size` alone; nothing
/// is claimed here of where the rectangles lie.
#[verifier::external_body]
fn pack_into_square(rects: &Vec<RectToPack>, size: u32) -> (r: Option<Vec<Option<Placement>>>)
    ensures
        match r {
            Some(found) => packed_locations(rects@, size) == Some(found@),
            None => packed_locations(rects@, size).is_none(),
        },
{
    let mut group = GroupedRectsToPlace::<u64, u32>::new();
    for r in rects.iter() {
        group.push_rect(r.key, None, RectToInsert::new(r.width, r.height, 1));
    }
    let mut bins = std::collections::BTreeMap::new();
    bins.insert(0u32, TargetBin::new(size, size, 1));
    let packed = pack_rects(&group, &mut bins, &volume_heuristic, &contains_smallest_box).ok()?;
    let at = |r: &RectToPack| {
        let (_, l) = packed.packed_locations().get(&r.key)?;
        Some(Placement { x: l.x(), y: l.y(), width: l.width(), height: l.height() })
    };
    Some(rects.iter().map(at).collect())
}

/// Every rectangle has a location of its own size within the canvas, and no
/// two locations share a pixel.
pub open spec fn layout_valid(rects: Seq<RectToPack>, size: u32, found: Seq<Option<Placement>>) -> bool {
    &&& found.len() == rects.len()
    &&& forall|i: int|
        0 <= i < found.len() ==> (#[trigger] found[i]).is_some() && found[i].unwrap().width
            == rects[i].width && found[i].unwrap().height == rects[i].height
            && found[i].unwrap().inside(size)
    &&& forall|i: int, j: int|
        0 <= i < j < found.len() ==> (#[trigger] found[i]).unwrap().disjoint(
            (#[trigger] found[j]).unwrap(),
        )
}

/// Checks a proposed layout: every rectangle must have a location of its own
/// size that lies within the canvas, and no two locations may share a pixel.
/// Returns the locations if the layout passes.
pub fn check_layout(rects: &Vec<RectToPack>, size: u32, found: &Vec<Option<Placement>>) -> (r:
    Option<Vec<Placement>>)
    ensures
        match r {
            Some(placed) => layout_valid(rects@, size, found@) && placed@.len() == found@.len()
                && forall|i: int| 0 <= i < found@.len() ==> found@[i] == Some(#[trigger] placed@[i]),
            None => !layout_valid(rects@, size, found@),
        },
{
    if found.len() != rects.len() {
        return None;
    }
    let mut placed: Vec<Placement> = Vec::new();
    let mut i: usize = 0;
    while i < found.len()
        invariant
            i <= found.len(),
            found@.len() == rects@.len(),
            placed@.len() == i,
            forall|k: int| 0 <= k < i ==> found@[k] == Some(#[trigger] placed@[k]),
            forall|k: int|
                0 <= k < i ==> (#[trigger] found@[k]).is_some() && found@[k].unwrap().width
                    == rects@[k].width && found@[k].unwrap().height == rects@[k].height
                    && found@[k].unwrap().inside(size),
            forall|k: int, m: int|
                0 <= k < m < i ==> (#[trigger] found@[k]).unwrap().disjoint(
                    (#[trigger] found@[m]).unwrap(),
                ),
        decreases found.len() - i,
    {
        let here = match found[i] {
            Some(p) => p,
            None => {
                return None;
            },
        };
        if here.width != rects[i].width || here.height != rects[i].height || here.x as u64
            + here.width as u64 > size as u64 || here.y as u64 + here.height as u64 > size as u64 {
            return None;
        }
        let mut k: usize = 0;
        while k < i
            invariant
                k <= i < found.len(),
                placed@.len() == i,
                found@[i as int] == Some(here),
                forall|m: int| 0 <= m < i ==> found@[m] == Some(#[trigger] placed@[m]),
                forall|m: int| 0 <= m < k ==> (#[trigger] found@[m]).unwrap().disjoint(here),
            decreases i - k,
        {
            if !placed[k].is_disjoint(&here) {
                proof {
                    assert(found@[k as int].unwrap() == placed@[k as int]);
                }
                return None;
            }
            proof {
                assert(found@[k as int].unwrap() == placed@[k as int]);
            }
            k += 1;
        }
        placed.push(here);
        i += 1;
    }
    Some(placed)
}

/// Number of canvas sizes that are tried.
pub const CANVAS_SIZES: usize = 10;

/// The canvas sizes in ascending order: the powers of two from 8 to 4096.
pub open spec fn spec_canvas_size(i: int) -> u32 {
    if i <= 0 {
        8
    } else if i == 1 {
        16
    } else if i == 2 {
        32
    } else if i == 3 {
        64
    } else if i == 4 {
        128
    } else if i == 5 {
        256
    } else if i == 6 {
        512
    } else if i == 7 {
        1024
    } else if i == 8 {
        2048
    } else {
        4096
    }
}

/// The `i`-th canvas size.
pub fn canvas_size(i: usize) -> (size: u32)
    requires
        i < CANVAS_SIZES,
    ensures
        size == spec_canvas_size(i as int),
        8 <= size <= 4096,
{
    if i == 0 {
        8
    } else if i == 1 {
        16
    } else if i == 2 {
        32
    } else if i == 3 {
        64
    } else if i == 4 {
        128
    } else if i == 5 {
        256
    } else if i == 6 {
        512
    } else if i == 7 {
        1024
    } else if i == 8 {
        2048
    } else {
        4096
    }
}

/// The packer finds room for the rectangles on the `i`-th canvas size, and
/// the layout it proposes is valid.
pub open spec fn fits(rects: Seq<RectToPack>, i: int) -> bool {
    match packed_locations(rects, spec_canvas_size(i)) {
        Some(found) => layout_valid(rects, spec_canvas_size(i), found),
        None => false,
    }
}

/// The canvas size on which a binary search over sizes `lo..hi` settles,
/// given the best size `best` found so far: the middle size is tried, the
/// search goes on below it if the rectangles fit and above it if not.
pub open spec fn searched_size(rects: Seq<RectToPack>, lo: int, hi: int, best: Option<int>) -> Option<int>
    decreases hi - lo,
{
    if lo >= hi {
        best
    } else {
        let mid = lo + (hi - lo) / 2;
        if fits(rects, mid) {
            searched_size(rects, lo, mid, Some(mid))
        } else {
            searched_size(rects, mid + 1, hi, best)
        }
    }
}

/// A square canvas and where each rectangle lies on it.
#[derive(Debug)]
pub struct Layout {
    pub size: u32,
    pub placements: Vec<Placement>,
}

impl Layout {
    /// Every rectangle lies within the canvas and no two share a pixel.
    pub open spec fn wf(&self) -> bool {
        &&& forall|i: int| 0 <= i < self.placements@.len() ==> (#[trigger] self.placements@[i]).inside(self.size)
        &&& forall|i: int, j: int|
            0 <= i < j < self.placements@.len() ==> (#[trigger] self.placements@[i]).disjoint(
                #[trigger] self.placements@[j],
            )
    }

    /// There is one location for each of `rects`, of the rectangle's size.
    pub open spec fn places(&self, rects: Seq<RectToPack>) -> bool {
        &&& self.placements@.len() == rects.len()
        &&& forall|i: int|
            0 <= i < rects.len() ==> (#[trigger] self.placements@[i]).width == rects[i].width
                && self.placements@[i].height == rects[i].height
    }
}

/// Packs the rectangles onto one canvas size and checks the outcome.
fn try_size(rects: &Vec<RectToPack>, i: usize) -> (r: Option<Vec<Placement>>)
    requires
        i < CANVAS_SIZES,
    ensures
        r.is_some() == fits(rects@, i as int),
        r matches Some(placed) ==> placed@.len() == rects@.len() && forall|k: int|
            0 <= k < placed@.len() ==> packed_locations(rects@, spec_canvas_size(i as int)).unwrap()[k]
                == Some(#[trigger] placed@[k]),
{
    let size = canvas_size(i);
    match pack_into_square(rects, size) {
        Some(found) => check_layout(rects, size, &found),
        None => None,
    }
}

/// Lays the rectangles out on the smallest square canvas that the search
/// finds room on.
///
/// The canvas sizes are searched by bisection, so the packer is asked about
/// at most four of the ten sizes. The size that is chosen fits, and it is
/// the first size or the size before it does not fit; where none is chosen,
/// the largest size does not fit. Rectangles of which one is wider or
/// taller than the largest canvas are never laid out. The layout that is
/// returned has been checked: every rectangle lies within the canvas and no
/// two overlap.
pub fn pack_to_minimal_square(rects: &Vec<RectToPack>) -> (r: Result<Layout, Error>)
    ensures
        match r {
            Ok(layout) => searched_size(rects@, 0, CANVAS_SIZES as int, None) matches Some(i) && 0 <= i
                < CANVAS_SIZES && layout.size == spec_canvas_size(i) && fits(rects@, i) && (i == 0
                || !fits(rects@, i - 1)) && layout.wf() && layout.places(rects@) && forall|k: int|
                0 <= k < rects@.len() ==> packed_locations(rects@, layout.size).unwrap()[k] == Some(
                    #[trigger] layout.placements@[k],
                ),
            Err(e) => e == Error::PackingFailed && searched_size(
                rects@,
                0,
                CANVAS_SIZES as int,
                None,
            ).is_none() && !fits(rects@, CANVAS_SIZES - 1),
        },
        has_oversized(rects@) ==> r.is_err(),
{
    proof {
        lemma_searched_size_first(rects@, 0, CANVAS_SIZES as int, None);
        if has_oversized(rects@) {
            let k = choose|k: int| 0 <= k < rects@.len() && #[trigger] is_oversized(rects@[k]);
            lemma_oversized_fails(rects@, k);
        }
    }
    let mut lo: usize = 0;
    let mut hi: usize = CANVAS_SIZES;
    let mut best: Option<Layout> = None;
    let ghost mut best_index: Option<int> = None;
    while lo < hi
        invariant
            lo <= hi <= CANVAS_SIZES,
            searched_size(rects@, 0, CANVAS_SIZES as int, None) == searched_size(
                rects@,
                lo as int,
                hi as int,
                best_index,
            ),
            best.is_some() == best_index.is_some(),
            best_index matches Some(i) ==> 0 <= i < CANVAS_SIZES && fits(rects@, i) && best.unwrap().size
                == spec_canvas_size(i) && best.unwrap().placements@.len() == rects@.len()
                && forall|k: int|
                0 <= k < rects@.len() ==> packed_locations(rects@, spec_canvas_size(i)).unwrap()[k]
                    == Some(#[trigger] best.unwrap().placements@[k]),
        decreases hi - lo,
    {
        let mid = lo + (hi - lo) / 2;
        match try_size(rects, mid) {
            Some(placements) => {
                best = Some(Layout { size: canvas_size(mid), placements });
                proof {
                    best_index = Some(mid as int);
                }
                hi = mid;
            },
            None => {
                lo = mid + 1;
            },
        }
    }
    match best {
        Some(layout) => {
            proof {
                let i = best_index.unwrap();
                let found = packed_locations(rects@, layout.size).unwrap();
                assert forall|k: int| 0 <= k < layout.placements@.len() implies (
                #[trigger] layout.placements@[k]).inside(layout.size) by {
                    assert(found[k] == Some(layout.placements@[k]));
                }
                assert forall|a: int, b: int| 0 <= a < b < layout.placements@.len() implies (
                #[trigger] layout.placements@[a]).disjoint(#[trigger] layout.placements@[b]) by {
                    assert(found[a] == Some(layout.placements@[a]));
                    assert(found[b] == Some(layout.placements@[b]));
                }
                assert forall|k: int| 0 <= k < rects@.len() implies (
                #[trigger] layout.placements@[k]).width == rects@[k].width
                    && layout.placements@[k].height == rects@[k].height by {
                    assert(found[k] == Some(layout.placements@[k]));
                }
            }
            Ok(layout)
        },
        None => Err(Error::PackingFailed),
    }
}

/// A search settles on a size that fits and that is the first size or
/// comes after one that does not fit; it settles on none only if the largest
/// size does not fit.
pub proof fn lemma_searched_size_first(rects: Seq<RectToPack>, lo: int, hi: int, best: Option<int>)
    requires
        0 <= lo <= hi <= CANVAS_SIZES,
        lo == 0 || !fits(rects, lo - 1),
        hi < CANVAS_SIZES ==> best == Some(hi) && fits(rects, hi),
        hi == CANVAS_SIZES ==> best.is_none(),
    ensures
        match searched_size(rects, lo, hi, best) {
            Some(i) => 0 <= i < CANVAS_SIZES && fits(rects, i) && (i == 0 || !fits(rects, i - 1)),
            None => !fits(rects, CANVAS_SIZES - 1),
        },
    decreases hi - lo,
{
    if lo < hi {
        let mid = lo + (hi - lo) / 2;
        if fits(rects, mid) {
            lemma_searched_size_first(rects, lo, mid, Some(mid));
        } else {
            lemma_searched_size_first(rects, mid + 1, hi, best);
        }
    }
}

/// A search that settles on a size settles on one that fits.
pub proof fn lemma_searched_size_fits(rects: Seq<RectToPack>, lo: int, hi: int, best: Option<int>)
    requires
        best matches Some(b) ==> fits(rects, b),
    ensures
        searched_size(rects, lo, hi, best) matches Some(i) ==> fits(rects, i),
    decreases hi - lo,
{
    if lo < hi {
        let mid = lo + (hi - lo) / 2;
        if fits(rects, mid) {
            lemma_searched_size_fits(rects, lo, mid, Some(mid));
        } else {
            lemma_searched_size_fits(rects, mid + 1, hi, best);
        }
    }
}

/// The rectangle is wider or taller than the largest canvas.
pub open spec fn is_oversized(rect: RectToPack) -> bool {
    rect.width > 4096 || rect.height > 4096
}

/// One of the rectangles is wider or taller than the largest canvas.
pub open spec fn has_oversized(rects: Seq<RectToPack>) -> bool {
    exists|k: int| 0 <= k < rects.len() && #[trigger] is_oversized(rects[k])
}

/// A rectangle that is wider or taller than a canvas keeps the rectangles
/// from fitting on it, whatever the packer proposes.
pub proof fn lemma_too_large_for(rects: Seq<RectToPack>, k: int, i: int)
    requires
        0 <= k < rects.len(),
        rects[k].width > spec_canvas_size(i) || rects[k].height > spec_canvas_size(i),
    ensures
        !fits(rects, i),
{
    let size = spec_canvas_size(i);
    match packed_locations(rects, size) {
        Some(found) => {
            if layout_valid(rects, size, found) {
                assert(found[k].is_some() && found[k].unwrap().inside(size));
            }
        },
        None => {},
    }
}

/// Rectangles of which one is wider or taller than the largest canvas are
/// not laid out: the search settles on no size.
pub proof fn lemma_oversized_fails(rects: Seq<RectToPack>, k: int)
    requires
        0 <= k < rects.len(),
        is_oversized(rects[k]),
    ensures
        searched_size(rects, 0, CANVAS_SIZES as int, None).is_none(),
{
    assert forall|i: int| 0 <= i < CANVAS_SIZES implies !fits(rects, i) by {
        lemma_too_large_for(rects, k, i);
    }
    lemma_searched_size_smallest(rects, 0, CANVAS_SIZES as int, None);
}

/// If rectangles that fit on one canvas size fit on every larger one, the
/// search settles on the smallest size that fits, and on none only if none
/// fits.
pub proof fn lemma_searched_size_smallest(rects: Seq<RectToPack>, lo: int, hi: int, best: Option<int>)
    requires
        0 <= lo <= hi <= CANVAS_SIZES,
        forall|i: int, j: int| 0 <= i <= j < CANVAS_SIZES && fits(rects, i) ==> fits(rects, j),
        forall|j: int| 0 <= j < lo ==> !fits(rects, j),
        hi < CANVAS_SIZES ==> best == Some(hi) && fits(rects, hi),
        hi == CANVAS_SIZES ==> best.is_none(),
    ensures
        match searched_size(rects, lo, hi, best) {
            Some(i) => 0 <= i < CANVAS_SIZES && fits(rects, i) && forall|j: int|
                0 <= j < i ==> !fits(rects, j),
            None => forall|j: int| 0 <= j < CANVAS_SIZES ==> !fits(rects, j),
        },
    decreases hi - lo,
{
    if lo < hi {
        let mid = lo + (hi - lo) / 2;
        if fits(rects, mid) {
            lemma_searched_size_smallest(rects, lo, mid, Some(mid));
        } else {
            assert forall|j: int| 0 <= j < mid + 1 implies !fits(rects, j) by {
                if fits(rects, j) {
                    assert(fits(rects, mid));
                }
            }
            lemma_searched_size_smallest(rects, mid + 1, hi, best);
        }
    } else {
        if hi < CANVAS_SIZES {
        } else {
        }
    }
}


/// Position of pixel `(x, y)` in a canvas of `size` columns stored row by row.
pub open spec fn cell(size: int, x: int, y: int) -> int {
    y * size + x
}

/// Pixels of the canvas have positions within the canvas, and different
/// pixels have different positions.
pub proof fn lemma_cell(size: int, x: int, y: int, x2: int, y2: int)
    requires
        0 <= x < size,
        0 <= y < size,
        0 <= x2 < size,
        0 <= y2 < size,
    ensures
        0 <= cell(size, x, y) < size * size,
        cell(size, x, y) == cell(size, x2, y2) ==> x == x2 && y == y2,
{
    assert(0 <= y * size && y * size + size <= size * size) by (nonlinear_arith)
        requires
            0 <= y < size,
    ;
    if cell(size, x, y) == cell(size, x2, y2) {
        vstd::arithmetic::div_mod::lemma_fundamental_div_mod_converse(cell(size, x, y), size, y, x);
        vstd::arithmetic::div_mod::lemma_fundamental_div_mod_converse(cell(size, x, y), size, y2, x2);
    }
}

/// `v`, or the last valid coordinate if `v` lies beyond it.
pub open spec fn clamped(v: int, limit: int) -> int {
    if v >= limit {
        limit - 1
    } else {
        v
    }
}

/// One rectangle of one texture, and where it goes on the canvas.
#[derive(Debug)]
pub struct Patch<'a> {
    pub texture: &'a TextureMap,
    pub extents: Extents,
    pub location: Placement,
}

impl<'a> Patch<'a> {
    /// The patch can be copied to a canvas of `size` by `size`: its location
    /// has the size of its extents and lies within the canvas, and unless it
    /// is empty its texture has pixels to copy.
    pub open spec fn ready(&self, size: u32) -> bool {
        &&& self.texture.wf()
        &&& self.extents.wf()
        &&& self.location.width == self.extents.spec_width()
        &&& self.location.height == self.extents.spec_height()
        &&& self.location.inside(size)
        &&& (self.location.width > 0 && self.location.height > 0 ==> self.texture.width > 0
            && self.texture.height > 0)
    }

    /// The palette index that the patch puts at canvas pixel `(x, y)`:
    /// that of the texture pixel at the same place within the extents, with
    /// coordinates beyond the texture's last row or column clamped to it.
    pub open spec fn source(&self, x: int, y: int) -> u8 {
        self.texture.pixel(
            clamped(self.extents.min_x + (x - self.location.x), self.texture.width as int),
            clamped(self.extents.min_y + (y - self.location.y), self.texture.height as int),
        )
    }
}

/// Copies the used rectangle of a texture to its place on the canvas.
///
/// Pixels outside the location are left as they are.
pub fn blit(patch: &Patch, canvas: &mut Vec<u8>, size: u32)
    requires
        patch.ready(size),
        old(canvas)@.len() == size as int * size as int,
    ensures
        final(canvas)@.len() == old(canvas)@.len(),
        forall|x: int, y: int|
            0 <= x < size && 0 <= y < size ==> final(canvas)@[#[trigger] cell(size as int, x, y)] == (
            if patch.location.holds(x, y) {
                patch.source(x, y)
            } else {
                old(canvas)@[cell(size as int, x, y)]
            }),
{
    let width = patch.location.width;
    let height = patch.location.height;
    if width == 0 || height == 0 {
        return ;
    }
    let texture = patch.texture;
    let tw = texture.width as u32;
    let th = texture.height as u32;
    let stride = size as usize;
    let mut dy: u32 = 0;
    while dy < height
        invariant
            dy <= height,
            width == patch.location.width,
            height == patch.location.height,
            width > 0,
            texture == patch.texture,
            tw == texture.width,
            th == texture.height,
            stride == size,
            patch.ready(size),
            canvas@.len() == size as int * size as int,
            forall|x: int, y: int|
                0 <= x < size && 0 <= y < size ==> canvas@[#[trigger] cell(size as int, x, y)] == (
                if patch.location.holds(x, y) && y < patch.location.y + dy {
                    patch.source(x, y)
                } else {
                    old(canvas)@[cell(size as int, x, y)]
                }),
        decreases height - dy,
    {
        let from_y = patch.extents.min_y + dy;
        let source_y = if from_y >= th { th - 1 } else { from_y };
        let y = patch.location.y + dy;
        let mut dx: u32 = 0;
        while dx < width
            invariant
                dx <= width,
                dy < height,
                width == patch.location.width,
                height == patch.location.height,
                texture == patch.texture,
                tw == texture.width,
                th == texture.height,
                stride == size,
                patch.ready(size),
                y == patch.location.y + dy,
                source_y as int == clamped(patch.extents.min_y + dy, th as int),
                0 <= source_y < th,
                canvas@.len() == size as int * size as int,
                forall|x: int, yy: int|
                    0 <= x < size && 0 <= yy < size ==> canvas@[#[trigger] cell(size as int, x, yy)] == (
                    if patch.location.holds(x, yy) && (yy < y || (yy == y && x < patch.location.x
                        + dx)) {
                        patch.source(x, yy)
                    } else {
                        old(canvas)@[cell(size as int, x, yy)]
                    }),
            decreases width - dx,
        {
            let from_x = patch.extents.min_x + dx;
            let source_x = if from_x >= tw { tw - 1 } else { from_x };
            let x = patch.location.x + dx;
            proof {
                lemma_cell(size as int, x as int, y as int, x as int, y as int);
                assert(0 <= y * size) by (nonlinear_arith)
                    requires
                        0 <= y,
                        0 <= size,
                ;
                assert(canvas@.len() == canvas.len());
                assert(0 <= source_y * tw && source_y * tw + tw <= th * tw) by (nonlinear_arith)
                    requires
                        0 <= source_y < th,
                        0 <= tw,
                ;
                assert(th * tw == tw * th) by (nonlinear_arith);
                assert(th * tw <= 65535 * 65535) by (nonlinear_arith)
                    requires
                        th <= 65535,
                        tw <= 65535,
                ;
            }
            let value = texture.data[source_y as usize * tw as usize + source_x as usize];
            let at = y as usize * stride + x as usize;
            let ghost before = canvas@;
            canvas[at] = value;
            proof {
                assert(value == patch.source(x as int, y as int));
                assert forall|cx: int, cy: int| 0 <= cx < size && 0 <= cy < size implies canvas@[#[trigger] cell(
                    size as int,
                    cx,
                    cy,
                )] == (if patch.location.holds(cx, cy) && (cy < y || (cy == y && cx < patch.location.x
                    + dx + 1)) {
                    patch.source(cx, cy)
                } else {
                    old(canvas)@[cell(size as int, cx, cy)]
                }) by {
                    lemma_cell(size as int, cx, cy, x as int, y as int);
                }
            }
            dx += 1;
        }
        dy += 1;
    }
}

/// The palette index at canvas pixel `(x, y)` once the patches have been
/// copied in order onto a canvas of zeros: that of the last patch that holds
/// the pixel, or 0 where no patch does.
pub open spec fn rendered(patches: Seq<Patch>, x: int, y: int) -> u8
    decreases patches.len(),
{
    if patches.len() == 0 {
        0
    } else if patches.last().location.holds(x, y) {
        patches.last().source(x, y)
    } else {
        rendered(patches.drop_last(), x, y)
    }
}

/// Fills the atlas of one costume: a canvas of `size` by `size` palette
/// indices, zero where no patch lies.
pub fn render_atlas(size: u32, patches: &Vec<Patch>) -> (canvas: Vec<u8>)
    requires
        size as int * size as int <= usize::MAX,
        forall|i: int| 0 <= i < patches@.len() ==> (#[trigger] patches@[i]).ready(size),
    ensures
        canvas@.len() == size as int * size as int,
        forall|x: int, y: int|
            0 <= x < size && 0 <= y < size ==> canvas@[#[trigger] cell(size as int, x, y)] == rendered(
                patches@,
                x,
                y,
            ),
{
    assert(size as usize * size as usize == size as int * size as int) by (nonlinear_arith)
        requires
            size as int * size as int <= usize::MAX,
            size as usize == size as int,
    ;
    let mut canvas: Vec<u8> = vec![0u8; size as usize * size as usize];
    proof {
        assert forall|x: int, y: int| 0 <= x < size && 0 <= y < size implies canvas@[#[trigger] cell(
            size as int,
            x,
            y,
        )] == rendered(patches@.take(0), x, y) by {
            lemma_cell(size as int, x, y, x, y);
        }
    }
    let mut i: usize = 0;
    while i < patches.len()
        invariant
            i <= patches.len(),
            canvas@.len() == size as int * size as int,
            forall|k: int| 0 <= k < patches@.len() ==> (#[trigger] patches@[k]).ready(size),
            forall|x: int, y: int|
                0 <= x < size && 0 <= y < size ==> canvas@[#[trigger] cell(size as int, x, y)]
                    == rendered(patches@.take(i as int), x, y),
        decreases patches.len() - i,
    {
        blit(&patches[i], &mut canvas, size);
        proof {
            assert(patches@.take(i + 1).drop_last() == patches@.take(i as int));
            assert(patches@.take(i + 1).last() == patches@[i as int]);
        }
        i += 1;
    }
    proof {
        assert(patches@.take(patches@.len() as int) == patches@);
    }
    canvas
}


/// No two of the patches share a canvas pixel.
pub open spec fn patches_apart(patches: Seq<Patch>) -> bool {
    forall|i: int, j: int|
        0 <= i < j < patches.len() ==> (#[trigger] patches[i]).location.disjoint(
            (#[trigger] patches[j]).location,
        )
}

/// Where no patch holds a pixel, the atlas is zero there.
pub proof fn lemma_rendered_blank(patches: Seq<Patch>, x: int, y: int)
    requires
        forall|k: int| 0 <= k < patches.len() ==> !(#[trigger] patches[k]).location.holds(x, y),
    ensures
        rendered(patches, x, y) == 0,
    decreases patches.len(),
{
    if patches.len() > 0 {
        let before = patches.drop_last();
        assert(!patches[patches.len() - 1].location.holds(x, y));
        assert forall|k: int| 0 <= k < before.len() implies !(#[trigger] before[k]).location.holds(x, y) by {
            assert(before[k] == patches[k]);
        }
        lemma_rendered_blank(before, x, y);
    }
}

/// Where the patches lie apart, as those of a checked layout do, the order
/// in which they are copied does not matter: every pixel of the atlas comes
/// from the one patch that holds it.
pub proof fn lemma_rendered_apart(patches: Seq<Patch>, k: int, x: int, y: int)
    requires
        patches_apart(patches),
        0 <= k < patches.len(),
        patches[k].location.holds(x, y),
    ensures
        rendered(patches, x, y) == patches[k].source(x, y),
    decreases patches.len(),
{
    let last = patches.len() - 1;
    if k < last {
        assert(patches[k].location.disjoint(patches[last].location));
        assert(!patches[last].location.holds(x, y));
        let before = patches.drop_last();
        assert forall|i: int, j: int| 0 <= i < j < before.len() implies (#[trigger] before[i]).location.disjoint(
            (#[trigger] before[j]).location,
        ) by {
            assert(before[i] == patches[i] && before[j] == patches[j]);
        }
        assert(before[k] == patches[k]);
        lemma_rendered_apart(before, k, x, y);
    }
}

} // verus!
