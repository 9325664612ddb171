use vstd::prelude::*;
use crate::map::{CollisionMap, WorldPos};

verus! {

/// A body's collision circle: its radius and its centre's offset from the
/// body's position, in world units.
#[derive(Debug, Clone, Copy, PartialEq, Eq, Structural)]
pub struct Collider {
    pub radius: i32,
    pub offset_x: i32,
    pub offset_y: i32,
}

/// Collision radius of the player's body, in world units.
pub const COLLIDER_RADIUS: i32 = 24;

/// A displacement in world units.
#[derive(Debug, Clone, Copy, PartialEq, Eq, Structural)]
pub struct Displacement {
    pub dx: i64,
    pub dy: i64,
}

impl Default for Collider {
    fn default() -> (r: Collider)
        ensures
            r.radius == COLLIDER_RADIUS,
            r.offset_x == 0,
            r.offset_y == 0,
    {
        Collider { radius: COLLIDER_RADIUS, offset_x: 0, offset_y: 0 }
    }
}

impl Collider {
    /// Centre of the collision circle for a body at (x, y).
    pub fn world_position(&self, x: i32, y: i32) -> (r: WorldPos)
        requires
            i32::MIN <= x + self.offset_x <= i32::MAX,
            i32::MIN <= y + self.offset_y <= i32::MAX,
        ensures
            r.x == x + self.offset_x,
            r.y == y + self.offset_y,
    {
        WorldPos { x: x + self.offset_x, y: y + self.offset_y }
    }
}

/// Checks one frame's movement of a body at (x, y) that wants to move by
/// (delta_x, delta_y). The collision circle sweeps from its centre towards
/// the centre moved by that displacement. Returns the displacement the
/// sweep allows when it differs from the wanted one (the body's velocity
/// must then follow it), and `None` when the wanted movement stands or no
/// map has been built yet.
pub fn validate_movement(
    map: Option<&CollisionMap>,
    collider: &Collider,
    x: i32,
    y: i32,
    delta_x: i32,
    delta_y: i32,
) -> (r: Option<Displacement>)
    requires
        map.is_some() ==> map.unwrap()@.wf(),
        i32::MIN <= x + collider.offset_x <= i32::MAX,
        i32::MIN <= y + collider.offset_y <= i32::MAX,
        i32::MIN <= x + collider.offset_x + delta_x <= i32::MAX,
        i32::MIN <= y + collider.offset_y + delta_y <= i32::MAX,
    ensures
        map.is_none() ==> r.is_none(),
        map.is_some() ==> {
            let cx = x + collider.offset_x;
            let cy = y + collider.offset_y;
            let end = map.unwrap()@.sweep(cx, cy, cx + delta_x, cy + delta_y, collider.radius as int);
            let moved_x = end.0 - cx;
            let moved_y = end.1 - cy;
            r == if moved_x == delta_x && moved_y == delta_y {
                None::<Displacement>
            } else {
                Some(Displacement { dx: moved_x as i64, dy: moved_y as i64 })
            }
        },
{
    match map {
        None => None,
        Some(m) => {
            let current = collider.world_position(x, y);
            let desired = WorldPos { x: current.x + delta_x, y: current.y + delta_y };
            let valid = m.sweep_circle(current, desired, collider.radius);
            let moved_x = valid.x as i64 - current.x as i64;
            let moved_y = valid.y as i64 - current.y as i64;
            if moved_x == delta_x as i64 && moved_y == delta_y as i64 {
                None
            } else {
                Some(Displacement { dx: moved_x, dy: moved_y })
            }
        },
    }
}

} // verus!
