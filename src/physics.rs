use vstd::prelude::*;
use crate::keys::BlockId;
use crate::world::PlanetData;

verus! {

/// Where a point sits along one axis of its cell: within the shaving margin of the lower
/// face, within the margin of the upper face, or between.
#[derive(PartialEq, Eq, Structural, Clone, Copy, Debug)]
pub enum Edge {
    Low,
    Middle,
    High,
}

/// Whether shaving along one axis empties the point: it lies in the margin of a face
/// whose neighbour inside the shell is not solid.
pub open spec fn shaved_axis(p: PlanetData, id: BlockId, axis: int, e: Edge) -> bool {
    let coord = if axis == 0 { id.u } else if axis == 1 { id.v } else { id.layer };
    let low = if axis == 0 {
        BlockId { u: (id.u - 1) as u32, ..id }
    } else if axis == 1 {
        BlockId { v: (id.v - 1) as u32, ..id }
    } else {
        BlockId { layer: (id.layer - 1) as u32, ..id }
    };
    let high = if axis == 0 {
        BlockId { u: (id.u + 1) as u32, ..id }
    } else if axis == 1 {
        BlockId { v: (id.v + 1) as u32, ..id }
    } else {
        BlockId { layer: (id.layer + 1) as u32, ..id }
    };
    match e {
        Edge::Low => coord > 0 && !p.solid_at(low),
        Edge::High => coord < p.res() - 1 && !p.solid_at(high),
        Edge::Middle => false,
    }
}

/// Whether a point in cell `id`, at the given place along each axis, is solid: its block
/// must exist, and a point in the margin next to an empty neighbour counts as empty, so
/// that bodies do not snag on the seams between blocks.
pub open spec fn solid_point(p: PlanetData, id: BlockId, eu: Edge, ev: Edge, el: Edge) -> bool {
    p.solid_at(id) && !shaved_axis(p, id, 0, eu) && !shaved_axis(p, id, 1, ev) && !shaved_axis(
        p,
        id,
        2,
        el,
    )
}

/// Collision queries against the solid field.
pub struct Physics;

impl Physics {
    fn axis_shaved(data: &PlanetData, id: BlockId, axis: u8, e: Edge) -> (r: bool)
        requires
            data.wf(),
            id.face < 6,
            axis < 3,
            id.u < data.res(),
            id.v < data.res(),
            id.layer < data.res(),
        ensures
            r == shaved_axis(*data, id, axis as int, e),
    {
        let res = data.resolution();
        let coord = if axis == 0 { id.u } else if axis == 1 { id.v } else { id.layer };
        match e {
            Edge::Low => {
                if coord == 0 {
                    return false;
                }
                let n = if axis == 0 {
                    BlockId { u: id.u - 1, ..id }
                } else if axis == 1 {
                    BlockId { v: id.v - 1, ..id }
                } else {
                    BlockId { layer: id.layer - 1, ..id }
                };
                !data.block_exists(n)
            },
            Edge::High => {
                if coord >= res - 1 {
                    return false;
                }
                let n = if axis == 0 {
                    BlockId { u: id.u + 1, ..id }
                } else if axis == 1 {
                    BlockId { v: id.v + 1, ..id }
                } else {
                    BlockId { layer: id.layer + 1, ..id }
                };
                !data.block_exists(n)
            },
            Edge::Middle => false,
        }
    }

    /// Whether a point in cell `id` is solid, given where it sits along each axis of the
    /// cell (u, v, layer).
    pub fn solid_in_cell(data: &PlanetData, id: BlockId, eu: Edge, ev: Edge, el: Edge) -> (r: bool)
        requires
            data.wf(),
            id.face < 6,
            id.u < data.res(),
            id.v < data.res(),
            id.layer < data.res(),
        ensures
            r == solid_point(*data, id, eu, ev, el),
    {
        if !data.block_exists(id) {
            return false;
        }
        !Self::axis_shaved(data, id, 0, eu) && !Self::axis_shaved(data, id, 1, ev)
            && !Self::axis_shaved(data, id, 2, el)
    }
}

} // verus!
