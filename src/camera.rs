//! Where the camera looks: at the player, held inside the current level.
use vstd::prelude::*;
use crate::geometry::{Vec2, Vec3};

verus! {

pub open spec fn clamp_spec(v: int, lo: int, hi: int) -> int {
    if v < lo {
        lo
    } else if v > hi {
        hi
    } else {
        v
    }
}

/// The camera position that follows `player` but keeps the view, spanning
/// `view_min..view_max` around the camera, inside a level of `level_size`
/// placed at `level_origin`, at the level's depth.
pub open spec fn camera_position_spec(player: Vec3, level_origin: Vec3, level_size: Vec2, view_min: Vec2, view_max: Vec2) -> Vec3 {
    let lo_x = level_origin.x - view_min.x;
    let lo_y = level_origin.y - view_min.y;
    let hi_x = level_size.x - view_max.x + level_origin.x;
    let hi_y = level_size.y - view_max.y + level_origin.y;
    Vec3 {
        x: clamp_spec(player.x as int, lo_x, if hi_x < lo_x { lo_x } else { hi_x }) as i64,
        y: clamp_spec(player.y as int, lo_y, if hi_y < lo_y { lo_y } else { hi_y }) as i64,
        z: level_origin.z,
    }
}

fn clamp_axis(v: i64, lo: i64, hi: i64) -> (r: i64)
    ensures
        r == clamp_spec(v as int, lo as int, if hi < lo { lo as int } else { hi as int }),
{
    let hi = if hi < lo { lo } else { hi };
    if v < lo {
        lo
    } else if v > hi {
        hi
    } else {
        v
    }
}

/// Follows the player while keeping the view inside the level; where the
/// level is smaller than the view, the view's low corner is kept in.
pub fn camera_position(player: Vec3, level_origin: Vec3, level_size: Vec2, view_min: Vec2, view_max: Vec2) -> (r: Vec3)
    requires
        player.in_world(),
        level_origin.in_world(),
        level_size.in_world(),
        view_min.in_world(),
        view_max.in_world(),
    ensures
        r == camera_position_spec(player, level_origin, level_size, view_min, view_max),
{
    let lo_x = level_origin.x - view_min.x;
    let lo_y = level_origin.y - view_min.y;
    let hi_x = level_size.x - view_max.x + level_origin.x;
    let hi_y = level_size.y - view_max.y + level_origin.y;
    Vec3 {
        x: clamp_axis(player.x, lo_x, hi_x),
        y: clamp_axis(player.y, lo_y, hi_y),
        z: level_origin.z,
    }
}

} // verus!
