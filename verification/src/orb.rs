//! Orbs: entities that travel over the tiles, turn at arrow tiles, flip
//! switch tiles and cast the spells written in rune tiles.
use vstd::prelude::*;
use crate::player::Entpos;
pub use crate::world::cast_from_runes;

verus! {

#[derive(Clone, Copy, PartialEq, Eq, Structural)]
pub struct Vel {
    pub x: i32,
    pub y: i32,
}

#[derive(Clone, Copy, PartialEq, Eq, Structural)]
pub struct Orb {
    pub flavor: u8,
    pub pos: Entpos,
    pub v: Vel,
    pub age: u32,
}

/// The unit step of direction `dir`: 0 up, 1 right, 2 down, 3 left.
pub open spec fn dir_spec(dir: u8) -> (i32, i32) {
    if dir == 0 {
        (0i32, -1i32)
    } else if dir == 1 {
        (1i32, 0i32)
    } else if dir == 2 {
        (0i32, 1i32)
    } else {
        (-1i32, 0i32)
    }
}

/// The unit step of direction `dir` (`dir < 4`).
pub fn dir_to_xyint(dir: u8) -> (r: (i32, i32))
    requires
        dir < 4,
    ensures
        r == dir_spec(dir),
{
    let xs: [i32; 4] = [0, 1, 0, -1];
    let ys: [i32; 4] = [-1, 0, 1, 0];
    (xs[dir as usize], ys[dir as usize])
}

/// A new orb of flavour `fl` in tile `(x, y)` heading in direction `dir`
/// at half a tile per step, placed near the tile's edge it leaves from.
pub open spec fn orb_new_spec(x: i32, y: i32, dir: u8, fl: u8) -> Orb {
    let v = dir_spec(dir);
    Orb {
        flavor: fl,
        pos: Entpos { x: x, y: y, subx: (128 + v.0 * 112) as u8, suby: (128 + v.1 * 112) as u8 },
        v: Vel { x: (v.0 * 128) as i32, y: (v.1 * 128) as i32 },
        age: 0,
    }
}

impl Orb {
    pub fn new(x: i32, y: i32, dir: u8, fl: u8) -> (o: Orb)
        requires
            dir < 4,
        ensures
            o == orb_new_spec(x, y, dir, fl),
    {
        let v = dir_to_xyint(dir);
        Orb {
            flavor: fl,
            pos: Entpos { x: x, y: y, subx: (128 + v.0 * 112) as u8, suby: (128 + v.1 * 112) as u8 },
            v: Vel { x: v.0 * 128, y: v.1 * 128 },
            age: 0,
        }
    }
}

} // verus!
