use chunky_gltf::scene::{
    append_indices, attach_joints, joint_nodes, last_position, mesh_layout, part_index, parts_of_set,
    set_size, BufferView, JointNodes, MeshLayout,
};
use chunky_gltf::sorting::{pack, sort_quads, unpack};

#[test]
fn every_joint_has_three_nodes_after_the_root() {
    assert_eq!(joint_nodes(0), Some(JointNodes { scale: 1, rotate: 2, translate: 3 }));
    assert_eq!(joint_nodes(1), Some(JointNodes { scale: 4, rotate: 5, translate: 6 }));
    assert_eq!(joint_nodes(100), Some(JointNodes { scale: 301, rotate: 302, translate: 303 }));
    assert_eq!(
        joint_nodes(0x5555_5553),
        Some(JointNodes { scale: 0xffff_fffa, rotate: 0xffff_fffb, translate: 0xffff_fffc })
    );
    assert_eq!(joint_nodes(0x5555_5554), None);
}

#[test]
fn joints_hang_under_their_parents_in_order() {
    let hierarchy = attach_joints(&vec![65535, 0, 0, 2, 65535, 2, 4]).unwrap();
    assert_eq!(hierarchy.root_children, vec![1, 13]);
    assert_eq!(
        hierarchy.joint_children,
        vec![vec![4, 7], vec![], vec![10, 16], vec![], vec![19], vec![], vec![]]
    );
    let empty = attach_joints(&vec![]).unwrap();
    assert!(empty.root_children.is_empty() && empty.joint_children.is_empty());
    // A joint may come before its parent.
    let forward = attach_joints(&vec![1, 65535]).unwrap();
    assert_eq!(forward.root_children, vec![4]);
    assert_eq!(forward.joint_children, vec![vec![], vec![1]]);
}

#[test]
fn a_parent_that_is_not_there_is_refused() {
    assert!(attach_joints(&vec![65535, 2]).is_none());
    assert!(attach_joints(&vec![0]).is_some());
    assert!(attach_joints(&vec![1]).is_none());
}

#[test]
fn parts_are_numbered_within_their_set() {
    let groups = vec![0, 1, 0, 0, 2, 1, 0];
    let indices: Vec<usize> = (0..groups.len()).map(|i| part_index(&groups, i)).collect();
    assert_eq!(indices, vec![0, 0, 1, 2, 0, 1, 3]);
    assert_eq!(set_size(&groups, 0), 4);
    assert_eq!(set_size(&groups, 1), 2);
    assert_eq!(set_size(&groups, 3), 0);
    assert_eq!(parts_of_set(&groups, 0), vec![0, 2, 3, 6]);
    assert_eq!(parts_of_set(&groups, 2), vec![4]);
    assert!(parts_of_set(&groups, 9).is_empty());
}

#[test]
fn a_costume_uses_what_was_made_for_it_last() {
    let ids = vec![4, 8, 4, 15, 8];
    assert_eq!(last_position(&ids, 4), Some(2));
    assert_eq!(last_position(&ids, 8), Some(4));
    assert_eq!(last_position(&ids, 15), Some(3));
    assert_eq!(last_position(&ids, 16), None);
    assert_eq!(last_position(&vec![], 0), None);
}

#[test]
fn mesh_attributes_follow_each_other() {
    let view = |byte_offset, byte_length, byte_stride| BufferView { byte_offset, byte_length, byte_stride };
    assert_eq!(
        mesh_layout(100, 3, 1),
        Some(MeshLayout {
            positions: view(100, 36, Some(12)),
            normals: view(136, 36, Some(12)),
            texcoords: view(172, 24, Some(8)),
            indices: view(196, 6, None),
            padding: 2,
            end: 204,
        })
    );
    // An even number of faces needs no padding.
    let even = mesh_layout(0, 1, 2).unwrap();
    assert_eq!((even.indices.byte_offset, even.indices.byte_length, even.padding, even.end), (32, 12, 0, 44));
    let empty = mesh_layout(8, 0, 0).unwrap();
    assert_eq!((empty.padding, empty.end), (0, 8));
    // A start that is not aligned is made up for.
    assert_eq!(mesh_layout(1, 0, 0).unwrap().padding, 3);
    assert_eq!(mesh_layout(2, 0, 1).unwrap().end, 8);
}

#[test]
fn meshes_laid_out_one_after_the_other_are_aligned() {
    let mut start = 0;
    let mut ends = Vec::new();
    for (vertices, faces) in [(3, 1), (1, 0), (5, 3), (0, 1), (65535, 65535), (2, 2)] {
        let layout = mesh_layout(start, vertices, faces).unwrap();
        assert_eq!(layout.positions.byte_offset, start);
        for view in [layout.positions, layout.normals, layout.texcoords, layout.indices] {
            assert_eq!(view.byte_offset % 4, 0);
        }
        assert_eq!(layout.end % 4, 0);
        start = layout.end;
        ends.push(start);
    }
    assert_eq!(ends, vec![104, 136, 316, 324, 2_490_656, 2_490_732]);
}

#[test]
fn mesh_layout_stays_within_32_bits() {
    assert!(mesh_layout(u32::MAX, 0, 0).is_none());
    assert_eq!(mesh_layout(u32::MAX - 3, 0, 0).unwrap().end, u32::MAX - 3);
    assert!(mesh_layout(u32::MAX - 3, 0, 1).is_none());
    assert!(mesh_layout(u32::MAX - 32 * 65535, 65535, 1).is_none());
    assert!(mesh_layout(u32::MAX - 32 * 65535 - 3, 65535, 0).is_some());
}

#[test]
fn indices_are_written_low_byte_first_and_padded() {
    let mut buffer = vec![9, 9, 9, 9];
    append_indices(&vec![[1, 0x0203, 0xffee]], &mut buffer);
    assert_eq!(buffer, vec![9, 9, 9, 9, 1, 0, 3, 2, 0xee, 0xff, 0, 0]);
    append_indices(&vec![[1, 2, 3], [4, 5, 6]], &mut buffer);
    assert_eq!(buffer.len(), 24);
    assert_eq!(&buffer[12..], &[1, 0, 2, 0, 3, 0, 4, 0, 5, 0, 6, 0]);
    let mut unaligned = vec![7];
    append_indices(&vec![], &mut unaligned);
    assert_eq!(unaligned, vec![7, 0, 0, 0]);
}

#[test]
fn records_are_sorted_key_by_key() {
    let mut records = vec![
        (2, 0, 0, 0),
        (1, 9, 9, 9),
        (1, 9, 9, 8),
        (0, u32::MAX, 0, 0),
        (1, 0, u32::MAX, u32::MAX),
        (u32::MAX, u32::MAX, u32::MAX, u32::MAX),
        (1, 9, 9, 9),
        (0, 0, 0, 0),
    ];
    let mut expected = records.clone();
    expected.sort();
    sort_quads(&mut records);
    assert_eq!(records, expected);
    assert_eq!(records[0], (0, 0, 0, 0));
    assert_eq!(records[7], (u32::MAX, u32::MAX, u32::MAX, u32::MAX));
}

#[test]
fn packing_keeps_keys_and_order() {
    assert_eq!(pack((1, 2, 3, 4)), (1u128 << 96) | (2 << 64) | (3 << 32) | 4);
    assert_eq!(unpack(pack((0xdeadbeef, 0, u32::MAX, 7))), (0xdeadbeef, 0, u32::MAX, 7));
    assert_eq!(pack((u32::MAX, u32::MAX, u32::MAX, u32::MAX)), u128::MAX);
    assert!(pack((1, 0, 0, 0)) > pack((0, u32::MAX, u32::MAX, u32::MAX)));
}
