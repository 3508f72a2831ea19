use vstd::prelude::*;

verus! {

/// Edge length, in cells, of a chunk.
pub const CHUNK_SIZE: u32 = 32;

/// Address of one voxel: a cube face, a radial layer and a cell of the face grid.
#[derive(PartialEq, Eq, Structural, Clone, Copy, Debug, Hash)]
pub struct BlockId {
    pub face: u8,
    pub layer: u32,
    pub u: u32,
    pub v: u32,
}

/// A 32 by 32 column of cells on one face: the unit of meshing and streaming.
#[derive(PartialEq, Eq, Structural, Clone, Copy, Debug, Hash)]
pub struct ChunkKey {
    pub face: u8,
    pub u_idx: u32,
    pub v_idx: u32,
}

/// A coarse square tile of one face, `size` cells on a side, with its corner at `(x, y)`.
#[derive(PartialEq, Eq, Structural, Clone, Copy, Debug, Hash)]
pub struct LodKey {
    pub face: u8,
    pub x: u32,
    pub y: u32,
    pub size: u32,
}

/// A resident unit of geometry: a voxel chunk or a coarse tile.
#[derive(PartialEq, Eq, Structural, Clone, Copy, Debug, Hash)]
pub enum AnyKey {
    Voxel(ChunkKey),
    Lod(LodKey),
}

/// The chunk that owns a block.
pub open spec fn chunk_of(id: BlockId) -> ChunkKey {
    ChunkKey { face: id.face, u_idx: id.u / (CHUNK_SIZE as u32), v_idx: id.v / (CHUNK_SIZE as u32) }
}

/// Whether a key covers the cell `(u, v)` of `face`: a chunk covers its 32 by 32
/// cells, a tile its `size` by `size` cells.
pub open spec fn covers(k: AnyKey, face: u8, u: int, v: int) -> bool {
    match k {
        AnyKey::Voxel(c) => c.face == face && c.u_idx * CHUNK_SIZE <= u < c.u_idx * CHUNK_SIZE
            + CHUNK_SIZE && c.v_idx * CHUNK_SIZE <= v < c.v_idx * CHUNK_SIZE + CHUNK_SIZE,
        AnyKey::Lod(l) => l.face == face && l.x <= u < l.x + l.size && l.y <= v < l.y + l.size,
    }
}

} // verus!
