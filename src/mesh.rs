use vstd::prelude::*;
use crate::keys::{BlockId, ChunkKey, CHUNK_SIZE, chunk_of};
use crate::terrain::{PlanetTerrain, MAX_RESOLUTION};
use crate::world::{ChunkMods, PlanetData, position_of, lemma_push_unique};

verus! {

/// How far below a column's top the fill on a cliff side reaches, at most.
pub const SLOPE_FILL_DEPTH: u32 = 20;

/// Natural height of a column as the mesher reads it: no column past the edge.
pub open spec fn column_height(t: PlanetTerrain, face: int, u: int, v: int) -> int {
    if u >= t.res() || v >= t.res() {
        0
    } else {
        t.height_at(face, u, v)
    }
}

pub open spec fn min_int(a: int, b: int) -> int {
    if a < b { a } else { b }
}

pub open spec fn max_int(a: int, b: int) -> int {
    if a > b { a } else { b }
}

/// The lowest natural height among a column and its four planar neighbours on the face.
pub open spec fn lowest_around(t: PlanetTerrain, face: int, u: int, v: int) -> int {
    let r = t.res() as int;
    let h = column_height(t, face, u, v);
    let a = if u > 0 { min_int(h, column_height(t, face, u - 1, v)) } else { h };
    let b = if u < r - 1 { min_int(a, column_height(t, face, u + 1, v)) } else { a };
    let c = if v > 0 { min_int(b, column_height(t, face, u, v - 1)) } else { b };
    if v < r - 1 { min_int(c, column_height(t, face, u, v + 1)) } else { c }
}

/// The lowest layer of a column that the mesher considers: the top, or on a cliff the
/// layer above the lower neighbour, no deeper than the fill depth.
pub open spec fn fill_bottom(t: PlanetTerrain, face: int, u: int, v: int) -> int {
    let h = column_height(t, face, u, v);
    let m = lowest_around(t, face, u, v);
    if m < h {
        max_int(m, max_int(h - SLOPE_FILL_DEPTH, 0)) + 1
    } else {
        h
    }
}

/// A block of the natural surface, or of the side of a cliff, that may show faces.
pub open spec fn natural_candidate(t: PlanetTerrain, id: BlockId) -> bool {
    let h = column_height(t, id.face as int, id.u as int, id.v as int);
    h != 0 && fill_bottom(t, id.face as int, id.u as int, id.v as int) <= id.layer <= h
}

/// Whether `id` is one of the blocks beside the mined block `m` that mining exposes.
pub open spec fn beside_mined(m: BlockId, id: BlockId, res: int) -> bool {
    &&& m.face == id.face
    &&& {
        ||| (id.u == m.u && id.v == m.v && (id.layer == m.layer + 1 || (m.layer > 0 && id.layer
            == m.layer - 1)))
        ||| (id.layer == m.layer && id.v == m.v && ((m.u > 0 && id.u == m.u - 1) || (m.u < res - 1
            && id.u == m.u + 1)))
        ||| (id.layer == m.layer && id.u == m.u && ((m.v > 0 && id.v == m.v - 1) || (m.v < res - 1
            && id.v == m.v + 1)))
    }
}

/// Whether `id` lies in the chunk and inside the face.
pub open spec fn in_chunk(key: ChunkKey, id: BlockId, res: int) -> bool {
    chunk_of(id) == key && id.u < res && id.v < res
}

/// A solid block of the chunk that meshing must consider: part of the natural surface
/// or of a cliff side, placed, or exposed by a nearby mined block.
pub open spec fn chunk_voxel(p: PlanetData, key: ChunkKey, id: BlockId) -> bool {
    &&& in_chunk(key, id, p.res() as int)
    &&& p.solid_at(id)
    &&& {
        ||| natural_candidate(p.land(), id)
        ||| p.placed_set().contains(id)
        ||| exists|m: BlockId| p.mined_set().contains(m) && #[trigger] beside_mined(m, id, p.res() as int)
    }
}

/// The natural part of a chunk's candidates: surface and cliff-side blocks still solid.
pub open spec fn natural_voxel(p: PlanetData, key: ChunkKey, id: BlockId) -> bool {
    in_chunk(key, id, p.res() as int) && natural_candidate(p.land(), id) && p.solid_at(id)
}

/// The blocks that edits put forward for a chunk: its placed blocks, and the blocks
/// exposed by mined blocks of it and of its four neighbouring chunks.
pub open spec fn edit_candidate(p: PlanetData, key: ChunkKey, id: BlockId) -> bool {
    ||| (p.placed_set().contains(id) && chunk_of(id) == key)
    ||| exists|m: BlockId|
        p.mined_set().contains(m) && near_chunk(key, chunk_of(m)) && #[trigger] beside_mined(
            m,
            id,
            p.res() as int,
        )
}

/// Whether `k` is `key` or one of its four neighbours on the face.
pub open spec fn near_chunk(key: ChunkKey, k: ChunkKey) -> bool {
    k.face == key.face && ((k.u_idx == key.u_idx && k.v_idx == key.v_idx) || (k.v_idx == key.v_idx
        && (k.u_idx == key.u_idx + 1 || k.u_idx + 1 == key.u_idx)) || (k.u_idx == key.u_idx && (
    k.v_idx == key.v_idx + 1 || k.v_idx + 1 == key.v_idx)))
}

proof fn lemma_in_chunk_bounds(key: ChunkKey, id: BlockId)
    ensures
        chunk_of(id) == key <==> (id.face == key.face && key.u_idx * 32 <= id.u < key.u_idx * 32 + 32
            && key.v_idx * 32 <= id.v < key.v_idx * 32 + 32),
{
}

proof fn lemma_beside_near(key: ChunkKey, m: BlockId, id: BlockId, res: int)
    requires
        chunk_of(id) == key,
        beside_mined(m, id, res),
    ensures
        near_chunk(key, chunk_of(m)),
{
    lemma_in_chunk_bounds(key, id);
}

proof fn lemma_append_unique(a: Seq<BlockId>, b: Seq<BlockId>)
    requires
        a.no_duplicates(),
        b.no_duplicates(),
        forall|x: BlockId| a.contains(x) ==> !b.contains(x),
    ensures
        (a + b).no_duplicates(),
        forall|x: BlockId| (a + b).contains(x) <==> (a.contains(x) || b.contains(x)),
{
    let c = a + b;
    assert forall|i: int, j: int| 0 <= i < c.len() && 0 <= j < c.len() && i != j implies c[i]
        != c[j] by {
        if i < a.len() && j >= a.len() {
            assert(a.contains(c[i]) && b.contains(c[j]));
        }
        if j < a.len() && i >= a.len() {
            assert(a.contains(c[j]) && b.contains(c[i]));
        }
    }
    assert forall|x: BlockId| c.contains(x) <==> (a.contains(x) || b.contains(x)) by {
        if c.contains(x) {
            let i = choose|i: int| 0 <= i < c.len() && c[i] == x;
            if i >= a.len() {
                assert(b[i - a.len()] == x);
            }
        }
        if a.contains(x) {
            let i = choose|i: int| 0 <= i < a.len() && a[i] == x;
            assert(c[i] == x);
        }
        if b.contains(x) {
            let i = choose|i: int| 0 <= i < b.len() && b[i] == x;
            assert(c[a.len() + i] == x);
        }
    }
}

/// A solid block of the column `(face, u, v)` with its layer in `[lo, hi)`.
pub open spec fn column_layers(p: PlanetData, face: u8, u: u32, v: u32, lo: int, hi: int, x: BlockId) -> bool {
    x.face == face && x.u == u && x.v == v && lo <= x.layer < hi && p.solid_at(x)
}

/// Natural height of a column; zero past the edge of the face.
fn column_height_at(t: &PlanetTerrain, face: u8, u: u32, v: u32) -> (r: u32)
    requires
        t.wf(),
        face < 6,
    ensures
        r == column_height(*t, face as int, u as int, v as int),
        r <= 0xffff,
{
    if u >= t.resolution() || v >= t.resolution() {
        0
    } else {
        t.get_height(face, u, v)
    }
}

/// Whether the cell at an offset from `id` is solid as meshing sees it: below the
/// lowest layer counts as solid core, past the edge of the face as empty.
pub open spec fn solid_offset(p: PlanetData, id: BlockId, dl: int, du: int, dv: int) -> bool {
    let l = id.layer + dl;
    let u = id.u + du;
    let v = id.v + dv;
    if 0 <= l <= u32::MAX && 0 <= u < p.res() && 0 <= v < p.res() {
        p.solid_at(BlockId { face: id.face, layer: l as u32, u: u as u32, v: v as u32 })
    } else {
        l < 0
    }
}

/// Ambient-occlusion level of a top-face corner, 0 (open) to 3 (enclosed): one for each
/// solid edge neighbour, and one for the diagonal when an edge neighbour is solid too.
pub open spec fn ao_level(side1: bool, side2: bool, corner: bool) -> int {
    (if side1 { 1int } else { 0 }) + (if side2 { 1int } else { 0 }) + (if corner && (side1 || side2) {
        1int
    } else {
        0
    })
}

/// Whether any of the `n` cells straight above `id` is solid.
pub open spec fn shaded_within(p: PlanetData, id: BlockId, n: nat) -> bool
    decreases n,
{
    if n == 0 {
        false
    } else {
        shaded_within(p, id, (n - 1) as nat) || solid_offset(p, id, n as int, 0, 0)
    }
}

/// Number of sky-probe steps above a block.
pub const SKY_PROBE: u32 = 8;

/// A block is lit unless something solid stands within the probe above it; blocks at or
/// above the natural surface are always lit.
pub open spec fn sky_lit(p: PlanetData, id: BlockId) -> bool {
    !shaded_within(p, id, SKY_PROBE as nat) || id.layer >= p.land().height_at(
        id.face as int,
        id.u as int,
        id.v as int,
    )
}

/// The material a block shows.
#[derive(PartialEq, Eq, Structural, Clone, Copy, Debug)]
pub enum Material {
    CoreRock,
    Grass,
    Dirt,
}

pub open spec fn material_of(p: PlanetData, id: BlockId) -> Material {
    if p.keeps_core() && id.layer < crate::world::CORE_LAYERS {
        Material::CoreRock
    } else if id.layer == p.land().height_at(id.face as int, id.u as int, id.v as int) {
        Material::Grass
    } else {
        Material::Dirt
    }
}

/// What meshing needs to know of one block: which of its six faces are exposed, how
/// occluded each corner of its top face is, whether it is lit, and its material.
#[derive(PartialEq, Eq, Structural, Clone, Copy, Debug)]
pub struct VoxelFaces {
    pub top: bool,
    pub bottom: bool,
    pub right: bool,
    pub left: bool,
    pub back: bool,
    pub front: bool,
    pub ao_bl: u8,
    pub ao_br: u8,
    pub ao_tr: u8,
    pub ao_tl: u8,
    pub lit: bool,
    pub material: Material,
}

/// The description of block `id` in `p`; a face is exposed when the cell beyond it is
/// not solid.
pub open spec fn faces_of(p: PlanetData, id: BlockId) -> VoxelFaces {
    let n = |du: int, dv: int| solid_offset(p, id, 1, du, dv);
    VoxelFaces {
        top: !solid_offset(p, id, 1, 0, 0),
        bottom: !solid_offset(p, id, -1, 0, 0),
        right: !solid_offset(p, id, 0, 1, 0),
        left: !solid_offset(p, id, 0, -1, 0),
        back: !solid_offset(p, id, 0, 0, 1),
        front: !solid_offset(p, id, 0, 0, -1),
        ao_bl: ao_level(n(-1, 0), n(0, -1), n(-1, -1)) as u8,
        ao_br: ao_level(n(1, 0), n(0, -1), n(1, -1)) as u8,
        ao_tr: ao_level(n(1, 0), n(0, 1), n(1, 1)) as u8,
        ao_tl: ao_level(n(-1, 0), n(0, 1), n(-1, 1)) as u8,
        lit: sky_lit(p, id),
        material: material_of(p, id),
    }
}

/// Whether any face of the block is exposed.
pub open spec fn any_exposed(f: VoxelFaces) -> bool {
    f.top || f.bottom || f.right || f.left || f.back || f.front
}

/// Samples across a coarse tile, per side.
pub const LOD_GRID: u32 = 64;

/// Vertices in one row of a coarse tile's grid.
pub const LOD_ROW: u32 = 65;

/// Indices of the grid triangles of a coarse tile.
pub const LOD_GRID_INDICES: usize = 24576;

/// Indices of a coarse tile, skirts included.
pub const LOD_INDICES: usize = 26112;

/// Index `j` of the two triangles of grid cell `c` (row-major): top-left, bottom-left,
/// top-right, then top-right, bottom-left, bottom-right.
pub open spec fn grid_index(c: int, j: int) -> int {
    let tl = (c / 64) * 65 + c % 64;
    let bl = tl + 65;
    if j == 0 {
        tl
    } else if j == 1 || j == 4 {
        bl
    } else if j == 2 || j == 3 {
        tl + 1
    } else {
        bl + 1
    }
}

/// Grid vertex at step `i` along skirt edge `e` (top, bottom, left, right).
pub open spec fn edge_sample(e: int, i: int) -> int {
    if e == 0 {
        i
    } else if e == 1 {
        64 * 65 + i
    } else if e == 2 {
        i * 65
    } else {
        i * 65 + 64
    }
}

/// Index `j` of the two triangles of skirt segment `t` (64 per edge): they join two
/// grid vertices of the edge to their two skirt vertices, with the winding reversed on
/// the bottom and left edges so that the skirts face outward.
pub open spec fn skirt_index(t: int, j: int) -> int {
    let e = t / 64;
    let i = t % 64;
    let s1 = edge_sample(e, i);
    let s2 = edge_sample(e, i + 1);
    let k1 = 65 * 65 + e * 65 + i;
    let k2 = k1 + 1;
    if e == 1 || e == 2 {
        if j == 0 || j == 3 { s1 } else if j == 1 || j == 5 { k2 } else if j == 2 { k1 } else { s2 }
    } else {
        if j == 0 || j == 3 { s1 } else if j == 1 { k1 } else if j == 2 || j == 4 { k2 } else { s2 }
    }
}

/// The mesh-related operations on chunks and blocks.
pub struct MeshGen;

impl MeshGen {
    /// The triangle indices of a coarse tile: its 64 by 64 grid of cells, then the
    /// skirts of its four edges. Vertices are the 65 by 65 grid samples row by row,
    /// followed by 65 skirt vertices per edge.
    pub fn lod_indices() -> (r: Vec<u32>)
        ensures
            r@.len() == LOD_INDICES,
            forall|c: int, j: int|
                0 <= c < 4096 && 0 <= j < 6 ==> r@[6 * c + j] == #[trigger] grid_index(c, j),
            forall|t: int, j: int|
                0 <= t < 256 && 0 <= j < 6 ==> r@[LOD_GRID_INDICES + 6 * t + j]
                    == #[trigger] skirt_index(t, j),
    {
        let mut out: Vec<u32> = Vec::new();
        let mut c: u32 = 0;
        while c < 4096
            invariant
                c <= 4096,
                out@.len() == 6 * c,
                forall|c2: int, j: int|
                    0 <= c2 < c && 0 <= j < 6 ==> out@[6 * c2 + j] == #[trigger] grid_index(c2, j),
            decreases 4096 - c,
        {
            let tl = (c / LOD_GRID) * LOD_ROW + c % LOD_GRID;
            let bl = tl + LOD_ROW;
            let ghost before = out@;
            out.push(tl);
            out.push(bl);
            out.push(tl + 1);
            out.push(tl + 1);
            out.push(bl);
            out.push(bl + 1);
            assert forall|c2: int, j: int|
                0 <= c2 < c + 1 && 0 <= j < 6 implies out@[6 * c2 + j] == #[trigger] grid_index(c2, j) by {
                if c2 < c {
                    assert(out@[6 * c2 + j] == before[6 * c2 + j]);
                }
            }
            c = c + 1;
        }
        let mut t: u32 = 0;
        while t < 256
            invariant
                t <= 256,
                out@.len() == LOD_GRID_INDICES + 6 * t,
                forall|c2: int, j: int|
                    0 <= c2 < 4096 && 0 <= j < 6 ==> out@[6 * c2 + j] == #[trigger] grid_index(c2, j),
                forall|t2: int, j: int|
                    0 <= t2 < t && 0 <= j < 6 ==> out@[LOD_GRID_INDICES + 6 * t2 + j]
                        == #[trigger] skirt_index(t2, j),
            decreases 256 - t,
        {
            let e = t / LOD_GRID;
            let i = t % LOD_GRID;
            let s1 = Self::edge_vertex(e, i);
            let s2 = Self::edge_vertex(e, i + 1);
            let k1 = LOD_ROW * LOD_ROW + e * LOD_ROW + i;
            let k2 = k1 + 1;
            let ghost before = out@;
            if e == 1 || e == 2 {
                out.push(s1);
                out.push(k2);
                out.push(k1);
                out.push(s1);
                out.push(s2);
                out.push(k2);
            } else {
                out.push(s1);
                out.push(k1);
                out.push(k2);
                out.push(s1);
                out.push(k2);
                out.push(s2);
            }
            assert forall|c2: int, j: int|
                0 <= c2 < 4096 && 0 <= j < 6 implies out@[6 * c2 + j] == #[trigger] grid_index(c2, j) by {
                assert(out@[6 * c2 + j] == before[6 * c2 + j]);
            }
            assert forall|t2: int, j: int|
                0 <= t2 < t + 1 && 0 <= j < 6 implies out@[LOD_GRID_INDICES + 6 * t2 + j]
                    == #[trigger] skirt_index(t2, j) by {
                if t2 < t {
                    assert(out@[LOD_GRID_INDICES + 6 * t2 + j] == before[LOD_GRID_INDICES + 6 * t2 + j]);
                }
            }
            t = t + 1;
        }
        out
    }

    fn edge_vertex(e: u32, i: u32) -> (r: u32)
        requires
            e < 4,
            i <= 64,
        ensures
            r == edge_sample(e as int, i as int),
    {
        if e == 0 {
            i
        } else if e == 1 {
            LOD_GRID * LOD_ROW + i
        } else if e == 2 {
            i * LOD_ROW
        } else {
            i * LOD_ROW + LOD_GRID
        }
    }

    /// Whether the cell at the offset from `id` is solid; the core below counts as solid.
    pub fn neighbor_solid(data: &PlanetData, id: BlockId, dl: i64, du: i64, dv: i64) -> (r: bool)
        requires
            data.wf(),
            id.face < 6,
            -16 <= dl <= 16,
            -16 <= du <= 16,
            -16 <= dv <= 16,
        ensures
            r == solid_offset(*data, id, dl as int, du as int, dv as int),
    {
        let res = data.resolution() as i64;
        let l = id.layer as i64 + dl;
        let u = id.u as i64 + du;
        let v = id.v as i64 + dv;
        if 0 <= l && l <= u32::MAX as i64 && 0 <= u && u < res && 0 <= v && v < res {
            data.block_exists(BlockId { face: id.face, layer: l as u32, u: u as u32, v: v as u32 })
        } else {
            l < 0
        }
    }

    /// Ambient-occlusion level of a corner from its two edge neighbours and its diagonal.
    pub fn calculate_ao(side1: bool, side2: bool, corner: bool) -> (r: u8)
        ensures
            r == ao_level(side1, side2, corner),
            r <= 3,
    {
        let mut occ: u8 = 0;
        if side1 {
            occ = occ + 1;
        }
        if side2 {
            occ = occ + 1;
        }
        if corner && (side1 || side2) {
            occ = occ + 1;
        }
        occ
    }

    /// Whether something solid stands within the sky probe above `id`.
    fn sky_blocked(data: &PlanetData, id: BlockId) -> (r: bool)
        requires
            data.wf(),
            id.face < 6,
        ensures
            r == shaded_within(*data, id, SKY_PROBE as nat),
    {
        let mut i: u32 = 1;
        while i <= SKY_PROBE
            invariant
                data.wf(),
                id.face < 6,
                1 <= i <= SKY_PROBE + 1,
                !shaded_within(*data, id, (i - 1) as nat),
            decreases SKY_PROBE + 1 - i,
        {
            if Self::neighbor_solid(data, id, i as i64, 0, 0) {
                proof {
                    Self::lemma_shaded_grows(*data, id, i as nat, SKY_PROBE as nat);
                }
                return true;
            }
            i = i + 1;
        }
        false
    }

    proof fn lemma_shaded_grows(p: PlanetData, id: BlockId, i: nat, n: nat)
        requires
            1 <= i <= n,
            solid_offset(p, id, i as int, 0, 0),
        ensures
            shaded_within(p, id, n),
        decreases n,
    {
        if i < n {
            Self::lemma_shaded_grows(p, id, i, (n - 1) as nat);
        }
    }

    /// The faces, occlusion, light and material of a block, or `None` when every face
    /// is covered and the block shows nothing.
    pub fn voxel_faces(id: BlockId, data: &PlanetData) -> (r: Option<VoxelFaces>)
        requires
            data.wf(),
            id.face < 6,
        ensures
            r == (if any_exposed(faces_of(*data, id)) {
                Some(faces_of(*data, id))
            } else {
                None::<VoxelFaces>
            }),
    {
        let top = !Self::neighbor_solid(data, id, 1, 0, 0);
        let bottom = !Self::neighbor_solid(data, id, -1, 0, 0);
        let right = !Self::neighbor_solid(data, id, 0, 1, 0);
        let left = !Self::neighbor_solid(data, id, 0, -1, 0);
        let back = !Self::neighbor_solid(data, id, 0, 0, 1);
        let front = !Self::neighbor_solid(data, id, 0, 0, -1);
        if !(top || bottom || right || left || back || front) {
            return None;
        }
        let n_l = Self::neighbor_solid(data, id, 1, -1, 0);
        let n_r = Self::neighbor_solid(data, id, 1, 1, 0);
        let n_f = Self::neighbor_solid(data, id, 1, 0, -1);
        let n_b = Self::neighbor_solid(data, id, 1, 0, 1);
        let ao_bl = Self::calculate_ao(n_l, n_f, Self::neighbor_solid(data, id, 1, -1, -1));
        let ao_br = Self::calculate_ao(n_r, n_f, Self::neighbor_solid(data, id, 1, 1, -1));
        let ao_tr = Self::calculate_ao(n_r, n_b, Self::neighbor_solid(data, id, 1, 1, 1));
        let ao_tl = Self::calculate_ao(n_l, n_b, Self::neighbor_solid(data, id, 1, -1, 1));
        let natural_h = data.terrain().get_height(id.face, id.u, id.v);
        let lit = !Self::sky_blocked(data, id) || id.layer >= natural_h;
        let material = if data.has_core() && id.layer < crate::world::CORE_LAYERS {
            Material::CoreRock
        } else if id.layer == natural_h {
            Material::Grass
        } else {
            Material::Dirt
        };
        Some(
            VoxelFaces {
                top,
                bottom,
                right,
                left,
                back,
                front,
                ao_bl,
                ao_br,
                ao_tr,
                ao_tl,
                lit,
                material,
            },
        )
    }

    /// The lowest layer of a column that meshing considers.
    pub fn fill_bottom_at(t: &PlanetTerrain, face: u8, u: u32, v: u32) -> (r: u32)
        requires
            t.wf(),
            face < 6,
        ensures
            r == fill_bottom(*t, face as int, u as int, v as int),
    {
        let res = t.resolution();
        let h = column_height_at(t, face, u, v);
        let mut m = h;
        if u > 0 {
            let x = column_height_at(t, face, u - 1, v);
            if x < m {
                m = x;
            }
        }
        if u < res - 1 {
            let x = column_height_at(t, face, u + 1, v);
            if x < m {
                m = x;
            }
        }
        if v > 0 {
            let x = column_height_at(t, face, u, v - 1);
            if x < m {
                m = x;
            }
        }
        if v < res - 1 {
            let x = column_height_at(t, face, u, v + 1);
            if x < m {
                m = x;
            }
        }
        if m < h {
            let deep = if h >= SLOPE_FILL_DEPTH { h - SLOPE_FILL_DEPTH } else { 0 };
            let b = if m > deep { m } else { deep };
            b + 1
        } else {
            h
        }
    }

    /// Whether `id` is a surface or cliff-side block of the natural terrain.
    pub fn is_natural_candidate(t: &PlanetTerrain, id: BlockId) -> (r: bool)
        requires
            t.wf(),
            id.face < 6,
        ensures
            r == natural_candidate(*t, id),
    {
        let h = column_height_at(t, id.face, id.u, id.v);
        h != 0 && Self::fill_bottom_at(t, id.face, id.u, id.v) <= id.layer && id.layer <= h
    }

    /// The natural candidates of one column that are still solid, lowest first.
    fn column_blocks(data: &PlanetData, face: u8, u: u32, v: u32) -> (r: Vec<BlockId>)
        requires
            data.wf(),
            face < 6,
        ensures
            r@.no_duplicates(),
            forall|x: BlockId|
                #[trigger] r@.contains(x) <==> (x.face == face && x.u == u && x.v == v && natural_candidate(
                    data.land(),
                    x,
                ) && data.solid_at(x)),
    {
        let ghost t0 = data.land();
        let t = data.terrain();
        let h = column_height_at(t, face, u, v);
        let mut r: Vec<BlockId> = Vec::new();
        if h != 0 {
            let lo = Self::fill_bottom_at(t, face, u, v);
            let mut l: u32 = lo;
            while l <= h
                invariant
                    data.wf(),
                    face < 6,
                    *t == data.land(),
                    h == column_height(data.land(), face as int, u as int, v as int),
                    lo == fill_bottom(data.land(), face as int, u as int, v as int),
                    h != 0,
                    h <= 0xffff,
                    lo <= l <= h + 1,
                    r@.no_duplicates(),
                    forall|x: BlockId|
                        #[trigger] r@.contains(x) <==> column_layers(*data, face, u, v, lo as int, l as int, x),
                decreases h + 1 - l,
            {
                let id = BlockId { face, layer: l, u, v };
                let ghost before = r@;
                let e = data.block_exists(id);
                assert(e == data.solid_at(id));
                if e {
                    proof {
                        lemma_push_unique(r@, id);
                    }
                    Self::push_block(&mut r, id);
                }
                assert forall|x: BlockId| #[trigger] r@.contains(x) <==> column_layers(*data, face, u, v, lo as int, l + 1, x) by {
                    if x.face == face && x.u == u && x.v == v && x.layer == l {
                        assert(x == id);
                    }
                }
                l = l + 1;
            }
        }
        assert forall|x: BlockId| r@.contains(x) <==> (x.face == face && x.u == u && x.v == v
            && natural_candidate(data.land(), x) && data.solid_at(x)) by {
            if x.face == face && x.u == u && x.v == v {
                assert(column_height(t0, x.face as int, x.u as int, x.v as int) == h);
            }
        }
        r
    }

    /// The natural candidates of a chunk that are still solid.
    fn natural_blocks(key: ChunkKey, data: &PlanetData) -> (r: Vec<BlockId>)
        requires
            data.wf(),
            key.face < 6,
            key.u_idx * CHUNK_SIZE < data.res(),
            key.v_idx * CHUNK_SIZE < data.res(),
        ensures
            r@.no_duplicates(),
            forall|x: BlockId| r@.contains(x) <==> natural_voxel(*data, key, x),
    {
        let res = data.resolution();
        let u_start = key.u_idx * CHUNK_SIZE;
        let v_start = key.v_idx * CHUNK_SIZE;
        let u_end = if u_start + CHUNK_SIZE < res { u_start + CHUNK_SIZE } else { res };
        let v_end = if v_start + CHUNK_SIZE < res { v_start + CHUNK_SIZE } else { res };
        proof {
            assert forall|x: BlockId| #[trigger] in_chunk(key, x, res as int) <==> (x.face == key.face && u_start
                <= x.u < u_end && v_start <= x.v < v_end) by {
                lemma_in_chunk_bounds(key, x);
            }
        }
        let mut out: Vec<BlockId> = Vec::new();
        let mut u: u32 = u_start;
        while u < u_end
            invariant
                data.wf(),
                key.face < 6,
                res == data.res(),
                u_start <= u <= u_end,
                v_start < v_end,
                forall|x: BlockId| #[trigger] in_chunk(key, x, res as int) <==> (x.face == key.face && u_start
                    <= x.u < u_end && v_start <= x.v < v_end),
                out@.no_duplicates(),
                forall|x: BlockId| #[trigger] out@.contains(x) <==> (natural_voxel(*data, key, x) && x.u < u),
            decreases u_end - u,
        {
            let mut v: u32 = v_start;
            while v < v_end
                invariant
                    data.wf(),
                    key.face < 6,
                    res == data.res(),
                    u_start <= u < u_end,
                    v_start <= v <= v_end,
                    forall|x: BlockId| #[trigger] in_chunk(key, x, res as int) <==> (x.face == key.face && u_start
                        <= x.u < u_end && v_start <= x.v < v_end),
                    out@.no_duplicates(),
                    forall|x: BlockId|
                        #[trigger] out@.contains(x) <==> (natural_voxel(*data, key, x) && (x.u < u || (x.u == u
                            && x.v < v))),
                decreases v_end - v,
            {
                let mut col = Self::column_blocks(data, key.face, u, v);
                proof {
                    lemma_append_unique(out@, col@);
                }
                let ghost before = out@;
                let ghost added = col@;
                out.append(&mut col);
                assert forall|x: BlockId|
                    #[trigger] out@.contains(x) <==> (natural_voxel(*data, key, x) && (x.u < u || (x.u == u
                        && x.v < v + 1))) by {
                    if x.u == u && x.v == v && x.face == key.face {
                        assert(in_chunk(key, x, res as int));
                    }
                    if added.contains(x) {
                        assert(in_chunk(key, x, res as int));
                    }
                }
                v = v + 1;
            }
            u = u + 1;
        }
        out
    }

    fn push_block(r: &mut Vec<BlockId>, e: BlockId)
        ensures
            final(r)@ == old(r)@.push(e),
            forall|x: BlockId| final(r)@.contains(x) <==> (old(r)@.contains(x) || x == e),
    {
        let ghost s = r@;
        r.push(e);
        assert forall|x: BlockId| r@.contains(x) <==> (s.contains(x) || x == e) by {
            if r@.contains(x) {
                let a = choose|a: int| 0 <= a < r@.len() && r@[a] == x;
                if a < s.len() {
                    assert(s[a] == x);
                }
            }
            if s.contains(x) {
                let a = choose|a: int| 0 <= a < s.len() && s[a] == x;
                assert(r@[a] == x);
            }
            if x == e {
                assert(r@[s.len() as int] == x);
            }
        }
    }

    /// The blocks beside `id` that mining it exposes: above, below (but for the lowest
    /// layer) and the planar neighbours inside the face.
    fn exposed_by(id: BlockId, res: u32) -> (r: Vec<BlockId>)
        requires
            1 <= res,
            id.layer < res <= MAX_RESOLUTION,
        ensures
            forall|x: BlockId| r@.contains(x) <==> beside_mined(id, x, res as int),
    {
        let mut r: Vec<BlockId> = Vec::new();
        let up = BlockId { layer: id.layer + 1, ..id };
        Self::push_block(&mut r, up);
        let down = BlockId { layer: if id.layer > 0 { id.layer - 1 } else { 0 }, ..id };
        if id.layer > 0 {
            Self::push_block(&mut r, down);
        }
        let left = BlockId { u: if id.u > 0 { id.u - 1 } else { 0 }, ..id };
        if id.u > 0 {
            Self::push_block(&mut r, left);
        }
        let right = BlockId { u: if id.u < res - 1 { id.u + 1 } else { 0 }, ..id };
        if id.u < res - 1 {
            Self::push_block(&mut r, right);
        }
        let front = BlockId { v: if id.v > 0 { id.v - 1 } else { 0 }, ..id };
        if id.v > 0 {
            Self::push_block(&mut r, front);
        }
        let back = BlockId { v: if id.v < res - 1 { id.v + 1 } else { 0 }, ..id };
        if id.v < res - 1 {
            Self::push_block(&mut r, back);
        }
        assert forall|x: BlockId| r@.contains(x) <==> beside_mined(id, x, res as int) by {
            assert(r@.contains(x) <==> (x == up || (id.layer > 0 && x == down) || (id.u > 0 && x
                == left) || (id.u < res - 1 && x == right) || (id.v > 0 && x == front) || (id.v < res
                - 1 && x == back)));
        }
        r
    }

    /// The blocks of a chunk that meshing turns into cubes, each once: surface and
    /// cliff-side blocks, placed blocks, and blocks exposed by mining in this chunk or
    /// next to it, as far as they are still solid.
    pub fn chunk_blocks(key: ChunkKey, data: &PlanetData) -> (r: Vec<BlockId>)
        requires
            data.wf(),
            key.face < 6,
            key.u_idx * CHUNK_SIZE < data.res(),
            key.v_idx * CHUNK_SIZE < data.res(),
        ensures
            r@.no_duplicates(),
            forall|x: BlockId| #[trigger] r@.contains(x) <==> chunk_voxel(*data, key, x),
    {
        let res = data.resolution();
        let t = data.terrain();
        let u_start = key.u_idx * CHUNK_SIZE;
        let v_start = key.v_idx * CHUNK_SIZE;
        let u_end = if u_start + CHUNK_SIZE < res { u_start + CHUNK_SIZE } else { res };
        let v_end = if v_start + CHUNK_SIZE < res { v_start + CHUNK_SIZE } else { res };
        proof {
            assert forall|x: BlockId| #[trigger] in_chunk(key, x, res as int) <==> (x.face == key.face && u_start
                <= x.u < u_end && v_start <= x.v < v_end) by {
                lemma_in_chunk_bounds(key, x);
            }
        }
        let mut out = Self::natural_blocks(key, data);
        let raw = Self::edit_blocks(key, data);
        let mut extra: Vec<BlockId> = Vec::new();
        let mut i: usize = 0;
        while i < raw.len()
            invariant
                data.wf(),
                key.face < 6,
                res == data.res(),
                *t == data.land(),
                i <= raw@.len(),
                forall|x: BlockId| #[trigger] in_chunk(key, x, res as int) <==> (x.face == key.face && u_start
                    <= x.u < u_end && v_start <= x.v < v_end),
                extra@.no_duplicates(),
                forall|x: BlockId|
                    #[trigger] extra@.contains(x) <==> ((exists|a: int| 0 <= a < i && raw@[a] == x)
                        && in_chunk(key, x, res as int) && !natural_candidate(data.land(), x)
                        && data.solid_at(x)),
            decreases raw@.len() - i,
        {
            let x = raw[i];
            let ghost before = extra@;
            if x.face == key.face && u_start <= x.u && x.u < u_end && v_start <= x.v && x.v < v_end {
                assert(in_chunk(key, x, res as int));
                if !Self::is_natural_candidate(t, x) && data.block_exists(x) && position_of(
                    &extra,
                    x,
                ).is_none() {
                    proof {
                        lemma_push_unique(extra@, x);
                    }
                    Self::push_block(&mut extra, x);
                }
            }
            assert forall|y: BlockId|
                #[trigger] extra@.contains(y) <==> ((exists|a: int| 0 <= a < i + 1 && raw@[a] == y)
                    && in_chunk(key, y, res as int) && !natural_candidate(data.land(), y)
                    && data.solid_at(y)) by {
                if y == x {
                    assert(0 <= i < i + 1 && raw@[i as int] == y);
                }
                if exists|a: int| 0 <= a < i + 1 && raw@[a] == y {
                    let a = choose|a: int| 0 <= a < i + 1 && raw@[a] == y;
                    if a < i {
                        assert(exists|a: int| 0 <= a < i && raw@[a] == y);
                    }
                }
            }
            i = i + 1;
        }
        proof {
            assert forall|x: BlockId| out@.contains(x) implies !extra@.contains(x) by {}
            lemma_append_unique(out@, extra@);
        }
        let ghost natural = out@;
        let ghost edits = extra@;
        out.append(&mut extra);
        proof {
            assert forall|x: BlockId| #[trigger] out@.contains(x) <==> chunk_voxel(*data, key, x) by {
                assert(natural.contains(x) || edits.contains(x) <==> out@.contains(x));
                assert(natural.contains(x) <==> natural_voxel(*data, key, x));
                if edits.contains(x) {
                    assert(in_chunk(key, x, res as int));
                    assert(raw@.contains(x));
                    assert(edit_candidate(*data, key, x));
                    if !(data.placed_set().contains(x) && chunk_of(x) == key) {
                        let m = choose|m: BlockId|
                            data.mined_set().contains(m) && near_chunk(key, chunk_of(m))
                                && #[trigger] beside_mined(m, x, data.res() as int);
                        assert(data.mined_set().contains(m) && beside_mined(m, x, data.res() as int));
                    }
                    assert(chunk_voxel(*data, key, x));
                }
                if chunk_voxel(*data, key, x) && !natural_candidate(data.land(), x) {
                    assert(in_chunk(key, x, res as int));
                    if !(data.placed_set().contains(x) && chunk_of(x) == key) {
                        let m = choose|m: BlockId|
                            data.mined_set().contains(m) && #[trigger] beside_mined(
                                m,
                                x,
                                data.res() as int,
                            );
                        lemma_beside_near(key, m, x, data.res() as int);
                        assert(data.mined_set().contains(m) && near_chunk(key, chunk_of(m))
                            && beside_mined(m, x, data.res() as int));
                    }
                    assert(edit_candidate(*data, key, x));
                    assert(raw@.contains(x));
                    let a = choose|a: int| 0 <= a < raw@.len() && raw@[a] == x;
                    assert(edits.contains(x));
                }
            }
        }
        out
    }

    /// Appends to `raw` the blocks exposed by the mined blocks of chunk `k`.
    fn add_chunk_exposed(data: &PlanetData, k: ChunkKey, raw: &mut Vec<BlockId>)
        requires
            data.wf(),
        ensures
            forall|x: BlockId|
                #[trigger] final(raw)@.contains(x) <==> (old(raw)@.contains(x) || exists|m: BlockId|
                    data.mined_set().contains(m) && chunk_of(m) == k && #[trigger] beside_mined(
                        m,
                        x,
                        data.res() as int,
                    )),
    {
        let res = data.resolution();
        match data.chunk_mods(k) {
            Some(mods) => {
                Self::add_mined_candidates(mods, raw, res);
                assert forall|x: BlockId| #[trigger] raw@.contains(x) <==> (old(raw)@.contains(x)
                    || exists|m: BlockId|
                    data.mined_set().contains(m) && chunk_of(m) == k && #[trigger] beside_mined(
                        m,
                        x,
                        res as int,
                    )) by {
                    if exists|m: BlockId|
                        data.mined_set().contains(m) && chunk_of(m) == k && #[trigger] beside_mined(
                            m,
                            x,
                            res as int,
                        ) {
                        let m = choose|m: BlockId|
                            data.mined_set().contains(m) && chunk_of(m) == k && #[trigger] beside_mined(
                                m,
                                x,
                                res as int,
                            );
                        assert(mods.mined_set().contains(m));
                    }
                    if raw@.contains(x) && !old(raw)@.contains(x) {
                        let m = choose|m: BlockId|
                            mods.mined_set().contains(m) && #[trigger] beside_mined(m, x, res as int);
                        assert(chunk_of(m) == k);
                        assert(data.mined_set().contains(m));
                    }
                }
            },
            None => {},
        }
    }

    /// The blocks that the edits put forward for a chunk, possibly repeated, with
    /// perhaps some blocks of other chunks.
    fn edit_blocks(key: ChunkKey, data: &PlanetData) -> (r: Vec<BlockId>)
        requires
            data.wf(),
            key.u_idx * CHUNK_SIZE < data.res(),
            key.v_idx * CHUNK_SIZE < data.res(),
        ensures
            forall|x: BlockId|
                chunk_of(x) == key ==> (#[trigger] r@.contains(x) <==> edit_candidate(*data, key, x)),
    {
        let mut raw: Vec<BlockId> = Vec::new();
        match data.chunk_mods(key) {
            Some(mods) => {
                let placed = mods.placed();
                let mut j: usize = 0;
                while j < placed.len()
                    invariant
                        j <= placed@.len(),
                        placed@ == mods.placed_seq(),
                        forall|x: BlockId|
                            #[trigger] raw@.contains(x) <==> exists|a: int|
                                0 <= a < j && placed@[a] == x,
                    decreases placed@.len() - j,
                {
                    Self::push_block(&mut raw, placed[j]);
                    proof {
                        assert forall|x: BlockId| #[trigger] raw@.contains(x) <==> exists|a: int|
                            0 <= a < j + 1 && placed@[a] == x by {
                            if x == placed@[j as int] {
                                assert(0 <= j < j + 1 && placed@[j as int] == x);
                            }
                        }
                    }
                    j = j + 1;
                }
                assert forall|x: BlockId| #[trigger] raw@.contains(x) <==> mods.placed_set().contains(x) by {
                    if mods.placed_set().contains(x) {
                        let a = choose|a: int| 0 <= a < placed@.len() && placed@[a] == x;
                    }
                }
            },
            None => {},
        }
        let ghost placed_part = raw@;
        let n1 = ChunkKey { u_idx: key.u_idx.wrapping_sub(1), ..key };
        let n2 = ChunkKey { u_idx: key.u_idx + 1, ..key };
        let n3 = ChunkKey { v_idx: key.v_idx.wrapping_sub(1), ..key };
        let n4 = ChunkKey { v_idx: key.v_idx + 1, ..key };
        Self::add_chunk_exposed(data, key, &mut raw);
        Self::add_chunk_exposed(data, n1, &mut raw);
        Self::add_chunk_exposed(data, n2, &mut raw);
        Self::add_chunk_exposed(data, n3, &mut raw);
        Self::add_chunk_exposed(data, n4, &mut raw);
        proof {
            let res = data.res() as int;
            assert forall|x: BlockId| chunk_of(x) == key implies (#[trigger] raw@.contains(x)
                <==> edit_candidate(*data, key, x)) by {
                assert(placed_part.contains(x) <==> data.placed_set().contains(x));
                if exists|m: BlockId|
                    data.mined_set().contains(m) && near_chunk(key, chunk_of(m)) && #[trigger] beside_mined(
                        m,
                        x,
                        res,
                    ) {
                    let m = choose|m: BlockId|
                        data.mined_set().contains(m) && near_chunk(key, chunk_of(m)) && #[trigger] beside_mined(
                            m,
                            x,
                            res,
                        );
                    let c = chunk_of(m);
                    assert(c == key || c == n1 || c == n2 || c == n3 || c == n4);
                }
                if raw@.contains(x) && !placed_part.contains(x) {
                    let m = choose|m: BlockId|
                        data.mined_set().contains(m) && (chunk_of(m) == key || chunk_of(m) == n1
                            || chunk_of(m) == n2 || chunk_of(m) == n3 || chunk_of(m) == n4)
                            && #[trigger] beside_mined(m, x, res);
                    lemma_beside_near(key, m, x, res);
                }
            }
        }
        raw
    }

    /// Appends to `candidates` every block that a mined block of `mods` exposes.
    pub fn add_mined_candidates(mods: &ChunkMods, candidates: &mut Vec<BlockId>, res: u32)
        requires
            1 <= res <= MAX_RESOLUTION,
            forall|id: BlockId| mods.mined_set().contains(id) ==> id.layer < res,
        ensures
            forall|x: BlockId|
                final(candidates)@.contains(x) <==> (old(candidates)@.contains(x) || exists|m: BlockId|
                    mods.mined_set().contains(m) && #[trigger] beside_mined(m, x, res as int)),
    {
        let mined = mods.mined();
        let mut k: usize = 0;
        while k < mined.len()
            invariant
                k <= mined@.len(),
                mined@ == mods.mined_seq(),
                1 <= res <= MAX_RESOLUTION,
                forall|id: BlockId| mods.mined_set().contains(id) ==> id.layer < res,
                forall|x: BlockId|
                    candidates@.contains(x) <==> (old(candidates)@.contains(x) || exists|j: int|
                        0 <= j < k && #[trigger] beside_mined(mined@[j], x, res as int)),
            decreases mined@.len() - k,
        {
            let id = mined[k];
            assert(mods.mined_set().contains(id));
            let ghost before = candidates@;
            let mut exposed = Self::exposed_by(id, res);
            let ghost ex = exposed@;
            candidates.append(&mut exposed);
            assert forall|x: BlockId| candidates@.contains(x) <==> (before.contains(x)
                || beside_mined(id, x, res as int)) by {
                if candidates@.contains(x) {
                    let a = choose|a: int| 0 <= a < candidates@.len() && candidates@[a] == x;
                    if a >= before.len() {
                        assert(ex[a - before.len()] == x);
                    }
                }
                if beside_mined(id, x, res as int) {
                    let a = choose|a: int| 0 <= a < ex.len() && ex[a] == x;
                    assert(candidates@[before.len() + a] == x);
                }
                if before.contains(x) {
                    let a = choose|a: int| 0 <= a < before.len() && before[a] == x;
                    assert(candidates@[a] == x);
                }
            }
            assert forall|x: BlockId| candidates@.contains(x) <==> (old(candidates)@.contains(x)
                || exists|j: int| 0 <= j < k + 1 && #[trigger] beside_mined(mined@[j], x, res as int)) by {
                if beside_mined(id, x, res as int) {
                    assert(beside_mined(mined@[k as int], x, res as int));
                }
                if exists|j: int| 0 <= j < k + 1 && #[trigger] beside_mined(mined@[j], x, res as int) {
                    let j = choose|j: int| 0 <= j < k + 1 && #[trigger] beside_mined(mined@[j], x, res as int);
                    if j < k {
                        assert(before.contains(x));
                    }
                }
            }
            k = k + 1;
        }
        assert forall|x: BlockId| candidates@.contains(x) <==> (old(candidates)@.contains(x)
            || exists|m: BlockId| mods.mined_set().contains(m) && #[trigger] beside_mined(m, x, res as int)) by {
            if exists|m: BlockId| mods.mined_set().contains(m) && #[trigger] beside_mined(m, x, res as int) {
                let m = choose|m: BlockId| mods.mined_set().contains(m) && #[trigger] beside_mined(m, x, res as int);
                let j = choose|j: int| 0 <= j < mined@.len() && mined@[j] == m;
                assert(beside_mined(mined@[j], x, res as int));
            }
            if exists|j: int| 0 <= j < mined@.len() && #[trigger] beside_mined(mined@[j], x, res as int) {
                let j = choose|j: int| 0 <= j < mined@.len() && #[trigger] beside_mined(mined@[j], x, res as int);
                assert(mods.mined_set().contains(mined@[j]));
            }
        }
    }
}

} // verus!
