//! The layout of the exported scene: which nodes stand for which joint, how
//! the joints hang together, which part of a set a body part is, and where
//! the attributes of each mesh lie in the binary buffer.

use vstd::prelude::*;
use crate::glpi::PARENT_ROOT;
use crate::order::{u16_at, Endian};

verus! {

/// The node that every joint without a parent hangs under.
pub const ROOT_NODE: u32 = 0;

/// Number of nodes that stand for one joint.
pub const NODES_PER_JOINT: u32 = 3;

/// The three nodes of a joint, each the only child of the one before: the
/// first carries the scale, the second the rotation, the third the
/// translation. The children of the joint hang under the third.
#[derive(Clone, Copy, Debug, PartialEq, Eq, Structural)]
pub struct JointNodes {
    pub scale: u32,
    pub rotate: u32,
    pub translate: u32,
}

/// The first of the three nodes of joint `index`.
pub open spec fn scale_node(index: int) -> int {
    1 + NODES_PER_JOINT * index
}

/// Greatest number of joints whose nodes can be numbered.
pub const MAX_JOINTS: usize = 0x5555_5554;

/// The nodes of joint `index`; `None` where their numbers do not fit.
pub fn joint_nodes(index: usize) -> (r: Option<JointNodes>)
    ensures
        index >= MAX_JOINTS ==> r.is_none(),
        index < MAX_JOINTS ==> r == Some(
            JointNodes {
                scale: scale_node(index as int) as u32,
                rotate: (scale_node(index as int) + 1) as u32,
                translate: (scale_node(index as int) + 2) as u32,
            },
        ),
{
    if index >= MAX_JOINTS {
        return None;
    }
    let scale = 1 + NODES_PER_JOINT * index as u32;
    Some(JointNodes { scale, rotate: scale + 1, translate: scale + 2 })
}

/// Among the first `n` joints, the first nodes of those whose parent is
/// `parent`, in order.
pub open spec fn children_among(parents: Seq<u16>, parent: int, n: int) -> Seq<u32>
    decreases n,
{
    if n <= 0 {
        Seq::empty()
    } else if parents[n - 1] as int == parent {
        children_among(parents, parent, n - 1).push(scale_node(n - 1) as u32)
    } else {
        children_among(parents, parent, n - 1)
    }
}

/// Every joint hangs under the root or under a joint that there is.
pub open spec fn parents_valid(parents: Seq<u16>) -> bool {
    forall|i: int|
        0 <= i < parents.len() ==> #[trigger] parents[i] == PARENT_ROOT || parents[i] < parents.len()
}

/// What hangs under what: the children of the root node, and for every
/// joint the children of its third node. A joint is named by its first node.
#[derive(Debug)]
pub struct Hierarchy {
    pub root_children: Vec<u32>,
    pub joint_children: Vec<Vec<u32>>,
}

/// Works out the children of the root and of every joint. `None` where a
/// joint names a parent that is not there, or where there are more joints
/// than nodes can be numbered for.
pub fn attach_joints(parents: &Vec<u16>) -> (r: Option<Hierarchy>)
    ensures
        match r {
            Some(h) => parents_valid(parents@) && parents@.len() <= MAX_JOINTS && h.root_children@
                == children_among(parents@, PARENT_ROOT as int, parents@.len() as int)
                && h.joint_children@.len() == parents@.len() && forall|o: int|
                0 <= o < parents@.len() && o != PARENT_ROOT ==> (#[trigger] h.joint_children@[o])@
                    == children_among(parents@, o, parents@.len() as int),
            None => !parents_valid(parents@) || parents@.len() > MAX_JOINTS,
        },
{
    let n = parents.len();
    if n > MAX_JOINTS {
        return None;
    }
    let mut root_children: Vec<u32> = Vec::new();
    let mut joint_children: Vec<Vec<u32>> = Vec::new();
    let mut k: usize = 0;
    while k < n
        invariant
            k <= n,
            joint_children@.len() == k,
            forall|o: int| 0 <= o < k ==> (#[trigger] joint_children@[o])@ == Seq::<u32>::empty(),
        decreases n - k,
    {
        joint_children.push(Vec::new());
        k += 1;
    }
    let mut i: usize = 0;
    while i < n
        invariant
            i <= n,
            n == parents@.len(),
            n <= MAX_JOINTS,
            joint_children@.len() == n,
            forall|j: int| 0 <= j < i ==> #[trigger] parents@[j] == PARENT_ROOT || parents@[j] < n,
            root_children@ == children_among(parents@, PARENT_ROOT as int, i as int),
            forall|o: int|
                0 <= o < n && o != PARENT_ROOT ==> (#[trigger] joint_children@[o])@ == children_among(
                    parents@,
                    o,
                    i as int,
                ),
        decreases n - i,
    {
        let parent = parents[i];
        let node = 1 + NODES_PER_JOINT * i as u32;
        if parent == PARENT_ROOT {
            root_children.push(node);
        } else if (parent as usize) < n {
            let ghost before = joint_children@;
            let mut list: Vec<u32> = Vec::new();
            std::mem::swap(&mut list, &mut joint_children[parent as usize]);
            list.push(node);
            joint_children[parent as usize] = list;
            proof {
                assert forall|o: int| 0 <= o < n && o != PARENT_ROOT implies (
                #[trigger] joint_children@[o])@ == children_among(parents@, o, i + 1) by {
                    if o != parent {
                        assert(joint_children@[o] == before[o]);
                    }
                }
            }
        } else {
            assert(!(parents@[i as int] == PARENT_ROOT || parents@[i as int] < parents@.len()));
            return None;
        }
        i += 1;
    }
    Some(Hierarchy { root_children, joint_children })
}

/// How many of the first `n` parts belong to set `set`.
pub open spec fn count_in_set(groups: Seq<u16>, set: u16, n: int) -> nat
    decreases n,
{
    if n <= 0 {
        0
    } else {
        count_in_set(groups, set, n - 1) + if groups[n - 1] == set { 1nat } else { 0nat }
    }
}

/// Which part of its set body part `index` is: the number of parts before
/// it that belong to the same set.
pub fn part_index(groups: &Vec<u16>, index: usize) -> (r: usize)
    requires
        index < groups@.len(),
    ensures
        r == count_in_set(groups@, groups@[index as int], index as int),
        r <= index,
{
    let set = groups[index];
    let mut count: usize = 0;
    let mut j: usize = 0;
    while j < index
        invariant
            j <= index < groups@.len(),
            set == groups@[index as int],
            count == count_in_set(groups@, set, j as int),
            count <= j,
        decreases index - j,
    {
        if groups[j] == set {
            count += 1;
        }
        j += 1;
    }
    count
}

/// How many body parts belong to set `set`.
pub fn set_size(groups: &Vec<u16>, set: u16) -> (r: usize)
    ensures
        r == count_in_set(groups@, set, groups@.len() as int),
{
    let mut count: usize = 0;
    let mut j: usize = 0;
    while j < groups.len()
        invariant
            j <= groups@.len(),
            count == count_in_set(groups@, set, j as int),
            count <= j,
        decreases groups.len() - j,
    {
        if groups[j] == set {
            count += 1;
        }
        j += 1;
    }
    count
}

/// The body parts that belong to set `set`, in ascending order. The
/// position of a part in the result is its part index.
pub fn parts_of_set(groups: &Vec<u16>, set: u16) -> (r: Vec<usize>)
    ensures
        r@.len() == count_in_set(groups@, set, groups@.len() as int),
        forall|k: int|
            0 <= k < r@.len() ==> (#[trigger] r@[k]) < groups@.len() && groups@[r@[k] as int] == set
                && count_in_set(groups@, set, r@[k] as int) == k,
{
    let mut parts: Vec<usize> = Vec::new();
    let mut j: usize = 0;
    while j < groups.len()
        invariant
            j <= groups@.len(),
            parts@.len() == count_in_set(groups@, set, j as int),
            forall|k: int|
                0 <= k < parts@.len() ==> (#[trigger] parts@[k]) < j && groups@[parts@[k] as int] == set
                    && count_in_set(groups@, set, parts@[k] as int) == k,
        decreases groups.len() - j,
    {
        if groups[j] == set {
            parts.push(j);
        }
        j += 1;
    }
    parts
}

/// The last position at which `id` occurs in `ids`.
///
/// An image, a texture and a material are made for every costume of every
/// set, in the order of `ids`; a costume that occurs more than once uses
/// those that were made last.
pub fn last_position(ids: &Vec<u32>, id: u32) -> (r: Option<usize>)
    ensures
        match r {
            Some(p) => p < ids@.len() && ids@[p as int] == id && forall|q: int|
                p < q < ids@.len() ==> ids@[q] != id,
            None => forall|q: int| 0 <= q < ids@.len() ==> ids@[q] != id,
        },
{
    let mut p = ids.len();
    while p > 0
        invariant
            p <= ids@.len(),
            forall|q: int| p <= q < ids@.len() ==> ids@[q] != id,
        decreases p,
    {
        p -= 1;
        if ids[p] == id {
            return Some(p);
        }
    }
    None
}

/// Size in bytes of a position or a normal in the buffer: three floats.
pub const VECTOR3_SIZE: u64 = 12;

/// Size in bytes of a texture coordinate in the buffer: two floats.
pub const VECTOR2_SIZE: u64 = 8;

/// Size in bytes of the indices of one face in the buffer.
pub const FACE_INDICES_SIZE: u64 = 6;

/// What the start of every attribute is a multiple of.
pub const ALIGNMENT: u64 = 4;

/// A run of bytes in the buffer that holds one attribute of one mesh.
#[derive(Clone, Copy, Debug, PartialEq, Eq, Structural)]
pub struct BufferView {
    pub byte_offset: u32,
    pub byte_length: u32,
    /// Distance from one element to the next; none for indices.
    pub byte_stride: Option<u32>,
}

/// Where the attributes of one mesh lie in the buffer, and where the next
/// mesh starts.
#[derive(Clone, Copy, Debug, PartialEq, Eq, Structural)]
pub struct MeshLayout {
    pub positions: BufferView,
    pub normals: BufferView,
    pub texcoords: BufferView,
    pub indices: BufferView,
    /// Number of zero bytes after the indices.
    pub padding: u32,
    pub end: u32,
}

/// The number of bytes to add to `len` to reach a multiple of four.
pub open spec fn padding_after(len: int) -> int {
    (ALIGNMENT - len % (ALIGNMENT as int)) % (ALIGNMENT as int)
}

/// The layout of a mesh of `vertices` vertices and `faces` faces that
/// starts at byte `start`: positions, normals, texture coordinates and
/// indices, one after the other, and zeros up to the next multiple of four.
pub open spec fn layout_of(start: int, vertices: int, faces: int) -> MeshLayout {
    let normals_at = start + 12 * vertices;
    let texcoords_at = start + 24 * vertices;
    let indices_at = start + 32 * vertices;
    let indices_end = indices_at + 6 * faces;
    MeshLayout {
        positions: BufferView {
            byte_offset: start as u32,
            byte_length: (12 * vertices) as u32,
            byte_stride: Some(12u32),
        },
        normals: BufferView {
            byte_offset: normals_at as u32,
            byte_length: (12 * vertices) as u32,
            byte_stride: Some(12u32),
        },
        texcoords: BufferView {
            byte_offset: texcoords_at as u32,
            byte_length: (8 * vertices) as u32,
            byte_stride: Some(8u32),
        },
        indices: BufferView {
            byte_offset: indices_at as u32,
            byte_length: (6 * faces) as u32,
            byte_stride: None,
        },
        padding: padding_after(indices_end) as u32,
        end: (indices_end + padding_after(indices_end)) as u32,
    }
}

/// Where the layout of such a mesh ends.
pub open spec fn layout_end(start: int, vertices: int, faces: int) -> int {
    let indices_end = start + 32 * vertices + 6 * faces;
    indices_end + padding_after(indices_end)
}

/// Where mesh `n` starts in a buffer that holds the meshes of `sizes` one
/// after the other from its first byte on. A mesh is given by its number of
/// vertices and its number of faces.
pub open spec fn mesh_start(sizes: Seq<(nat, nat)>, n: int) -> int
    decreases n,
{
    if n <= 0 {
        0
    } else {
        layout_end(mesh_start(sizes, n - 1), sizes[n - 1].0 as int, sizes[n - 1].1 as int)
    }
}

/// A mesh that starts at a multiple of four has each of its attributes
/// start at a multiple of four, and ends at one.
pub proof fn lemma_views_aligned(start: int, vertices: int, faces: int)
    requires
        0 <= start,
        start % 4 == 0,
        0 <= vertices,
        0 <= faces,
        layout_end(start, vertices, faces) <= u32::MAX,
    ensures
        layout_of(start, vertices, faces).positions.byte_offset % 4 == 0,
        layout_of(start, vertices, faces).normals.byte_offset % 4 == 0,
        layout_of(start, vertices, faces).texcoords.byte_offset % 4 == 0,
        layout_of(start, vertices, faces).indices.byte_offset % 4 == 0,
        layout_of(start, vertices, faces).end == layout_end(start, vertices, faces),
        layout_end(start, vertices, faces) % 4 == 0,
        layout_end(start, vertices, faces) >= start,
{
}

/// In a buffer that holds meshes one after the other from its first byte
/// on, every mesh starts at a multiple of four.
pub proof fn lemma_mesh_start_aligned(sizes: Seq<(nat, nat)>, n: int)
    requires
        0 <= n <= sizes.len(),
    ensures
        mesh_start(sizes, n) >= 0,
        mesh_start(sizes, n) % 4 == 0,
    decreases n,
{
    if n > 0 {
        lemma_mesh_start_aligned(sizes, n - 1);
    }
}

/// In a buffer that holds meshes one after the other from its first byte
/// on, every attribute of every mesh starts at a multiple of four, as far as
/// 32 bits can address the buffer.
pub proof fn lemma_buffer_aligned(sizes: Seq<(nat, nat)>, n: int)
    requires
        0 <= n < sizes.len(),
        mesh_start(sizes, n + 1) <= u32::MAX,
    ensures
        ({
            let layout = layout_of(mesh_start(sizes, n), sizes[n].0 as int, sizes[n].1 as int);
            &&& layout.positions.byte_offset % 4 == 0
            &&& layout.normals.byte_offset % 4 == 0
            &&& layout.texcoords.byte_offset % 4 == 0
            &&& layout.indices.byte_offset % 4 == 0
            &&& layout.end == mesh_start(sizes, n + 1)
        }),
{
    lemma_mesh_start_aligned(sizes, n);
    lemma_views_aligned(mesh_start(sizes, n), sizes[n].0 as int, sizes[n].1 as int);
}

/// Lays out a mesh in the buffer. `None` where the buffer would grow
/// beyond what 32 bits can address.
pub fn mesh_layout(start: u32, vertices: usize, faces: usize) -> (r: Option<MeshLayout>)
    ensures
        layout_end(start as int, vertices as int, faces as int) > u32::MAX ==> r.is_none(),
        layout_end(start as int, vertices as int, faces as int) <= u32::MAX ==> r == Some(
            layout_of(start as int, vertices as int, faces as int),
        ) && r.unwrap().end % (ALIGNMENT as u32) == 0 && r.unwrap().padding < ALIGNMENT,
{
    if vertices > u32::MAX as usize || faces > u32::MAX as usize {
        return None;
    }
    let v = vertices as u64;
    let f = faces as u64;
    let normals_at = start as u64 + VECTOR3_SIZE * v;
    let texcoords_at = normals_at + VECTOR3_SIZE * v;
    let indices_at = texcoords_at + VECTOR2_SIZE * v;
    let indices_end = indices_at + FACE_INDICES_SIZE * f;
    let padding = (ALIGNMENT - indices_end % ALIGNMENT) % ALIGNMENT;
    let end = indices_end + padding;
    if end > u32::MAX as u64 {
        return None;
    }
    assert(padding == padding_after(indices_end as int));
    assert(end % 4 == 0);
    Some(
        MeshLayout {
            positions: BufferView {
                byte_offset: start,
                byte_length: (VECTOR3_SIZE * v) as u32,
                byte_stride: Some(VECTOR3_SIZE as u32),
            },
            normals: BufferView {
                byte_offset: normals_at as u32,
                byte_length: (VECTOR3_SIZE * v) as u32,
                byte_stride: Some(VECTOR3_SIZE as u32),
            },
            texcoords: BufferView {
                byte_offset: texcoords_at as u32,
                byte_length: (VECTOR2_SIZE * v) as u32,
                byte_stride: Some(VECTOR2_SIZE as u32),
            },
            indices: BufferView {
                byte_offset: indices_at as u32,
                byte_length: (FACE_INDICES_SIZE * f) as u32,
                byte_stride: None,
            },
            padding: padding as u32,
            end: end as u32,
        },
    )
}

/// The two bytes of `value`, the less significant one first.
fn le_bytes(value: u16) -> (r: [u8; 2])
    ensures
        u16_at(r@, 0, Endian::Little) == value,
{
    [(value % 256) as u8, (value / 256) as u8]
}

/// The bytes of the vertex indices of the first `n` faces: for every face
/// its three indices, each as two bytes, the less significant one first.
pub open spec fn index_bytes(faces: Seq<[u16; 3]>, n: int) -> Seq<u8>
    decreases n,
{
    if n <= 0 {
        Seq::empty()
    } else {
        let v = faces[n - 1]@;
        index_bytes(faces, n - 1) + seq![
            (v[0] % 256) as u8,
            (v[0] / 256) as u8,
            (v[1] % 256) as u8,
            (v[1] / 256) as u8,
            (v[2] % 256) as u8,
            (v[2] / 256) as u8,
        ]
    }
}

/// Appends the vertex indices of the faces to the buffer, and then zeros
/// up to the next multiple of four bytes.
pub fn append_indices(faces: &Vec<[u16; 3]>, buffer: &mut Vec<u8>)
    requires
        old(buffer)@.len() + FACE_INDICES_SIZE * faces@.len() + ALIGNMENT <= usize::MAX,
    ensures
        final(buffer)@ == old(buffer)@ + index_bytes(faces@, faces@.len() as int) + Seq::new(
            padding_after(old(buffer)@.len() + FACE_INDICES_SIZE * faces@.len()) as nat,
            |i: int| 0u8,
        ),
        final(buffer)@.len() % (ALIGNMENT as nat) == 0,
{
    let mut i: usize = 0;
    while i < faces.len()
        invariant
            i <= faces@.len(),
            old(buffer)@.len() + FACE_INDICES_SIZE * faces@.len() + ALIGNMENT <= usize::MAX,
            buffer@ == old(buffer)@ + index_bytes(faces@, i as int),
            buffer@.len() == old(buffer)@.len() + FACE_INDICES_SIZE * i,
        decreases faces.len() - i,
    {
        let face = faces[i];
        let ghost before = buffer@;
        let mut c: usize = 0;
        while c < 3
            invariant
                c <= 3,
                face == faces@[i as int],
                buffer@.len() == before.len() + 2 * c,
                buffer@.take(before.len() as int) == before,
                forall|d: int|
                    0 <= d < c ==> buffer@[before.len() + 2 * d] == (#[trigger] face@[d] % 256) as u8
                        && buffer@[before.len() + 2 * d + 1] == (face@[d] / 256) as u8,
            decreases 3 - c,
        {
            let bytes = le_bytes(face[c]);
            let ghost old_buffer = buffer@;
            buffer.push(bytes[0]);
            buffer.push(bytes[1]);
            proof {
                assert(buffer@.take(before.len() as int) =~= old_buffer.take(before.len() as int));
            }
            c += 1;
        }
        proof {
            let v = face@;
            assert(v[0] % 256 == face@[0] % 256);
            assert(buffer@ =~= before + seq![
                (v[0] % 256) as u8,
                (v[0] / 256) as u8,
                (v[1] % 256) as u8,
                (v[1] / 256) as u8,
                (v[2] % 256) as u8,
                (v[2] / 256) as u8,
            ]);
        }
        i += 1;
    }
    let ghost indexed = buffer@;
    let padding = (4 - buffer.len() % 4) % 4;
    let mut k: usize = 0;
    while k < padding
        invariant
            k <= padding < 4,
            indexed.len() + ALIGNMENT <= usize::MAX,
            buffer@ == indexed + Seq::new(k as nat, |i: int| 0u8),
        decreases padding - k,
    {
        buffer.push(0);
        proof {
            assert(buffer@ =~= indexed + Seq::new((k + 1) as nat, |i: int| 0u8));
        }
        k += 1;
    }
}

} // verus!
