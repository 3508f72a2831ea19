use vstd::prelude::*;

verus! {

/// The integer side of cube-to-sphere addressing: turning the floor of a continuous
/// coordinate into a grid cell or a layer.
pub struct CoordSystem;

impl CoordSystem {
    /// The cell that a floored grid coordinate falls in, clamped to the face.
    pub fn grid_cell(raw: i64, res: u32) -> (r: u32)
        requires
            res >= 1,
        ensures
            r == (if raw < 0 {
                0
            } else if raw > res - 1 {
                (res - 1) as int
            } else {
                raw as int
            }),
            r < res,
    {
        if raw < 0 {
            0
        } else if raw > res as i64 - 1 {
            res - 1
        } else {
            raw as u32
        }
    }

    /// The layer that a floored radial coordinate names, if it lies in the shell.
    pub fn layer_in_shell(raw: i64, res: u32) -> (r: Option<u32>)
        ensures
            r == (if 0 <= raw < res {
                Some(raw as u32)
            } else {
                None::<u32>
            }),
    {
        if raw < 0 || raw >= res as i64 {
            None
        } else {
            Some(raw as u32)
        }
    }
}

} // verus!
