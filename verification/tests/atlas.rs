use chunky_gltf::atlas::{
    blit, canvas_size, check_costume, check_layout, collect_extents, compared_texture, copied_texture,
    find_use, first_mismatch, first_uses, measured_texture, pack_to_minimal_square, rects_of, render_atlas,
    validate_costumes, Extents, Mismatch, Patch, PixelSize, Placement, RectToPack, TextureUse,
};
use chunky_gltf::chunky::{ChunkId, ChunkTag};
use chunky_gltf::error::Error;
use chunky_gltf::tmap::TextureMap;

fn texture_id(number: u32) -> ChunkId {
    ChunkId { tag: ChunkTag(u32::from_be_bytes(*b"TMAP")), number }
}

fn extents(min_x: u32, min_y: u32, max_x: u32, max_y: u32) -> Extents {
    Extents { min_x, min_y, max_x, max_y }
}

fn used(number: u32, e: Extents) -> Option<TextureUse> {
    Some(TextureUse { texture: texture_id(number), extents: e })
}

fn size(width: u32, height: u32) -> Option<PixelSize> {
    Some(PixelSize { width, height })
}

#[test]
fn parts_without_mesh_or_texture_take_no_part() {
    let texture = Some(texture_id(1));
    let other = Some(texture_id(2));
    assert_eq!(measured_texture(Some(4), texture, 3), texture);
    assert_eq!(measured_texture(None, texture, 3), None);
    assert_eq!(measured_texture(Some(4), texture, 0), None);
    assert_eq!(measured_texture(Some(4), None, 3), None);

    assert_eq!(compared_texture(Some(4), size(1, 1), texture), texture);
    assert_eq!(compared_texture(None, size(1, 1), texture), None);
    assert_eq!(compared_texture(Some(4), None, texture), None);
    assert_eq!(compared_texture(Some(4), size(1, 1), None), None);

    assert_eq!(copied_texture(Some(4), texture, other), other);
    assert_eq!(copied_texture(None, texture, other), None);
    assert_eq!(copied_texture(Some(4), None, other), None);
    assert_eq!(copied_texture(Some(4), texture, None), None);
}

#[test]
fn extents_measure_and_unite() {
    let a = extents(2, 3, 10, 4);
    assert_eq!((a.width(), a.height()), (8, 1));
    let b = extents(5, 0, 6, 20);
    assert_eq!(a.union(b), extents(2, 0, 10, 20));
    assert_eq!(b.union(a), extents(2, 0, 10, 20));
    assert_eq!(a.union(a), a);
    assert_eq!(extents(4, 4, 4, 4).width(), 0);
}

#[test]
fn uses_of_one_texture_are_united_in_order_of_first_use() {
    let parts = vec![
        None,
        used(5, extents(4, 4, 8, 8)),
        used(2, extents(0, 0, 3, 3)),
        None,
        used(5, extents(1, 6, 5, 9)),
        used(2, extents(0, 0, 1, 1)),
        used(9, extents(7, 7, 7, 7)),
    ];
    let uses = collect_extents(&parts);
    assert_eq!(
        uses,
        vec![
            TextureUse { texture: texture_id(5), extents: extents(1, 4, 8, 9) },
            TextureUse { texture: texture_id(2), extents: extents(0, 0, 3, 3) },
            TextureUse { texture: texture_id(9), extents: extents(7, 7, 7, 7) },
        ]
    );
    assert_eq!(find_use(&uses, texture_id(2)), Some(1));
    assert_eq!(find_use(&uses, texture_id(3)), None);
    assert!(collect_extents(&vec![None, None]).is_empty());
}

#[test]
fn costumes_that_disagree_with_the_first_are_left_out() {
    let first = vec![size(8, 8), None, size(4, 2)];
    let same = vec![size(8, 8), size(1, 1), size(4, 2)];
    let untextured = vec![None, None, size(4, 2)];
    let wider = vec![size(8, 8), None, size(5, 2)];
    let both = vec![size(8, 9), None, size(5, 2)];
    assert_eq!(first_mismatch(&first, &same), None);
    assert_eq!(first_mismatch(&first, &untextured), None);
    assert_eq!(first_mismatch(&first, &wider), Some(2));
    assert_eq!(first_mismatch(&first, &both), Some(0));
    assert_eq!(check_costume(&first, &same), Ok(()));
    assert_eq!(check_costume(&first, &wider), Err(Error::IncompatibleTextureTransform));

    let costumes = vec![10, 11, 12, 13, 14];
    let sizes = vec![first.clone(), wider, same, both, untextured];
    let validation = validate_costumes(&costumes, &sizes);
    assert_eq!(validation.valid, vec![10, 12, 14]);
    assert_eq!(
        validation.rejected,
        vec![Mismatch { costume: 11, part: 2 }, Mismatch { costume: 13, part: 0 }]
    );

    let nothing = validate_costumes(&vec![], &vec![]);
    assert!(nothing.valid.is_empty() && nothing.rejected.is_empty());
}

#[test]
fn the_first_costume_is_valid_whatever_the_others_are() {
    let validation = validate_costumes(&vec![3, 4], &vec![vec![size(1, 1)], vec![size(2, 2)]]);
    assert_eq!(validation.valid, vec![3]);
    assert_eq!(validation.rejected, vec![Mismatch { costume: 4, part: 0 }]);
}

#[test]
fn each_rectangle_is_copied_from_the_first_part_that_uses_it() {
    let keys = vec![
        None,
        Some(texture_id(4)),
        Some(texture_id(1)),
        Some(texture_id(4)),
        None,
        Some(texture_id(1)),
        Some(texture_id(7)),
    ];
    assert_eq!(first_uses(&keys), vec![1, 2, 6]);
    assert!(first_uses(&vec![None, None]).is_empty());
    assert!(first_uses(&vec![]).is_empty());
}

#[test]
fn every_used_texture_gives_a_rectangle_of_its_extents() {
    let uses = vec![
        TextureUse { texture: texture_id(5), extents: extents(1, 4, 8, 9) },
        TextureUse { texture: texture_id(2), extents: extents(3, 3, 3, 10) },
    ];
    assert_eq!(
        rects_of(&uses),
        vec![
            RectToPack { key: texture_id(5).key(), width: 7, height: 5 },
            RectToPack { key: texture_id(2).key(), width: 0, height: 7 },
        ]
    );
    assert!(rects_of(&vec![]).is_empty());
}

#[test]
fn the_size_before_the_chosen_one_does_not_fit() {
    for side in [1u32, 8, 9, 33, 100, 255, 256, 257, 1000, 4096] {
        let rects = vec![
            RectToPack { key: 1, width: side, height: side },
            RectToPack { key: 2, width: side / 2, height: side },
        ];
        match pack_to_minimal_square(&rects) {
            Ok(layout) => {
                if layout.size > 8 {
                    let smaller = layout.size / 2;
                    assert!(side + side / 2 > smaller || side > smaller);
                }
                assert!(layout.size >= side);
            }
            Err(e) => {
                assert_eq!(e, Error::PackingFailed);
                assert!(side + side / 2 > 4096);
            }
        }
    }
}

#[test]
fn single_rectangle_takes_the_smallest_canvas() {
    let rects = vec![RectToPack { key: 1, width: 8, height: 8 }];
    let layout = pack_to_minimal_square(&rects).unwrap();
    assert_eq!(layout.size, 8);
    assert_eq!(layout.placements, vec![Placement { x: 0, y: 0, width: 8, height: 8 }]);
}

#[test]
fn no_rectangles_take_the_smallest_canvas() {
    let layout = pack_to_minimal_square(&vec![]).unwrap();
    assert_eq!(layout.size, 8);
    assert!(layout.placements.is_empty());
}

fn apart(a: &Placement, b: &Placement) -> bool {
    a.x + a.width <= b.x || b.x + b.width <= a.x || a.y + a.height <= b.y || b.y + b.height <= a.y
}

#[test]
fn rectangles_lie_within_the_canvas_and_apart() {
    let rects: Vec<RectToPack> = (0..20u64)
        .map(|i| RectToPack { key: 1000 - i, width: 5 + (i as u32 * 7) % 23, height: 3 + (i as u32 * 11) % 17 })
        .collect();
    let layout = pack_to_minimal_square(&rects).unwrap();
    assert!([8, 16, 32, 64, 128, 256, 512, 1024, 2048, 4096].contains(&layout.size));
    assert_eq!(layout.placements.len(), rects.len());
    let area: u32 = rects.iter().map(|r| r.width * r.height).sum();
    assert!(layout.size * layout.size >= area);
    for (rect, placed) in rects.iter().zip(&layout.placements) {
        assert_eq!((placed.width, placed.height), (rect.width, rect.height));
        assert!(placed.x + placed.width <= layout.size);
        assert!(placed.y + placed.height <= layout.size);
    }
    for (i, a) in layout.placements.iter().enumerate() {
        for b in &layout.placements[i + 1..] {
            assert!(apart(a, b));
            assert!(a.is_disjoint(b));
        }
    }
    // The same rectangles are laid out the same again.
    assert_eq!(pack_to_minimal_square(&rects).unwrap().placements, layout.placements);
}

#[test]
fn the_canvas_grows_with_the_rectangles() {
    let square = |side: u32| vec![RectToPack { key: 1, width: side, height: side }];
    assert_eq!(pack_to_minimal_square(&square(9)).unwrap().size, 16);
    assert_eq!(pack_to_minimal_square(&square(16)).unwrap().size, 16);
    assert_eq!(pack_to_minimal_square(&square(17)).unwrap().size, 32);
    assert_eq!(pack_to_minimal_square(&square(2049)).unwrap().size, 4096);
    assert_eq!(pack_to_minimal_square(&square(4096)).unwrap().size, 4096);
    let two = vec![
        RectToPack { key: 1, width: 8, height: 8 },
        RectToPack { key: 2, width: 8, height: 8 },
    ];
    assert_eq!(pack_to_minimal_square(&two).unwrap().size, 16);
}

#[test]
fn rectangles_too_large_for_any_canvas_fail() {
    let wide = vec![RectToPack { key: 1, width: 4097, height: 1 }];
    assert_eq!(pack_to_minimal_square(&wide).unwrap_err(), Error::PackingFailed);
    let tall = vec![RectToPack { key: 1, width: 1, height: 1 }, RectToPack { key: 2, width: 0, height: 4097 }];
    assert_eq!(pack_to_minimal_square(&tall).unwrap_err(), Error::PackingFailed);
    let many = vec![
        RectToPack { key: 1, width: 4096, height: 4096 },
        RectToPack { key: 2, width: 1, height: 1 },
    ];
    assert_eq!(pack_to_minimal_square(&many).unwrap_err(), Error::PackingFailed);
}

#[test]
fn canvas_sizes_are_the_powers_of_two_from_8_to_4096() {
    let sizes: Vec<u32> = (0..10).map(canvas_size).collect();
    assert_eq!(sizes, vec![8, 16, 32, 64, 128, 256, 512, 1024, 2048, 4096]);
}

#[test]
fn layouts_are_checked() {
    let rects = vec![
        RectToPack { key: 1, width: 4, height: 4 },
        RectToPack { key: 2, width: 4, height: 4 },
    ];
    let at = |x, y| Some(Placement { x, y, width: 4, height: 4 });
    assert_eq!(
        check_layout(&rects, 8, &vec![at(0, 0), at(4, 4)]),
        Some(vec![at(0, 0).unwrap(), at(4, 4).unwrap()])
    );
    assert!(check_layout(&rects, 8, &vec![at(0, 0), at(4, 0)]).is_some());
    // Overlapping, beyond the canvas, of another size, missing, too few.
    assert!(check_layout(&rects, 8, &vec![at(0, 0), at(3, 3)]).is_none());
    assert!(check_layout(&rects, 8, &vec![at(0, 0), at(5, 4)]).is_none());
    assert!(check_layout(&rects, 8, &vec![at(0, 0), at(4, 5)]).is_none());
    let thin = Some(Placement { x: 4, y: 4, width: 3, height: 4 });
    assert!(check_layout(&rects, 8, &vec![at(0, 0), thin]).is_none());
    assert!(check_layout(&rects, 8, &vec![at(0, 0), None]).is_none());
    assert!(check_layout(&rects, 8, &vec![at(0, 0)]).is_none());
    assert!(check_layout(&rects, 7, &vec![at(0, 0), at(4, 4)]).is_none());
}

#[test]
fn empty_rectangles_overlap_nothing() {
    let full = Placement { x: 0, y: 0, width: 8, height: 8 };
    let line = Placement { x: 3, y: 3, width: 0, height: 5 };
    assert!(full.is_disjoint(&line));
    assert!(line.is_disjoint(&full));
    assert!(!full.is_disjoint(&Placement { x: 7, y: 7, width: 1, height: 1 }));
    assert!(full.is_disjoint(&Placement { x: 8, y: 0, width: 1, height: 1 }));
    assert!(!Placement { x: u32::MAX - 1, y: 0, width: 1, height: 1 }
        .is_disjoint(&Placement { x: u32::MAX - 1, y: 0, width: 1, height: 1 }));
}

fn gradient(width: u16, height: u16) -> TextureMap {
    let data = (0..width as usize * height as usize).map(|i| (i + 1) as u8).collect();
    TextureMap { width, height, data }
}

#[test]
fn blit_copies_the_used_rectangle() {
    let texture = gradient(4, 3);
    let patch = Patch {
        texture: &texture,
        extents: extents(1, 1, 3, 3),
        location: Placement { x: 2, y: 0, width: 2, height: 2 },
    };
    let mut canvas = vec![0xee; 16];
    blit(&patch, &mut canvas, 4);
    let expected = vec![
        0xee, 0xee, 6, 7,
        0xee, 0xee, 10, 11,
        0xee, 0xee, 0xee, 0xee,
        0xee, 0xee, 0xee, 0xee,
    ];
    assert_eq!(canvas, expected);
}

#[test]
fn blit_clamps_to_the_last_row_and_column() {
    let texture = gradient(2, 2);
    let patch = Patch {
        texture: &texture,
        extents: extents(1, 0, 4, 3),
        location: Placement { x: 0, y: 1, width: 3, height: 3 },
    };
    let mut canvas = vec![0; 16];
    blit(&patch, &mut canvas, 4);
    let expected = vec![
        0, 0, 0, 0,
        2, 2, 2, 0,
        4, 4, 4, 0,
        4, 4, 4, 0,
    ];
    assert_eq!(canvas, expected);
}

#[test]
fn atlas_is_zero_where_no_patch_lies() {
    let red = gradient(2, 2);
    let blue = TextureMap { width: 1, height: 1, data: vec![200] };
    let patches = vec![
        Patch { texture: &red, extents: extents(0, 0, 2, 2), location: Placement { x: 0, y: 0, width: 2, height: 2 } },
        Patch { texture: &blue, extents: extents(0, 0, 1, 1), location: Placement { x: 3, y: 2, width: 1, height: 1 } },
        Patch { texture: &blue, extents: extents(0, 0, 0, 0), location: Placement { x: 1, y: 1, width: 0, height: 0 } },
        // A later patch covers an earlier one.
        Patch { texture: &blue, extents: extents(0, 0, 1, 1), location: Placement { x: 1, y: 0, width: 1, height: 1 } },
    ];
    let canvas = render_atlas(4, &patches);
    let expected = vec![
        1, 200, 0, 0,
        3, 4, 0, 0,
        0, 0, 0, 200,
        0, 0, 0, 0,
    ];
    assert_eq!(canvas, expected);
    assert_eq!(render_atlas(8, &vec![]), vec![0; 64]);
    assert!(render_atlas(0, &vec![]).is_empty());
}
