//! Axis locks of the generic 6-DOF joint and the validity of joint body indices.

use vstd::prelude::*;

verus! {

/// Which of the three axes (of the first body's frame) a joint holds fixed.
#[derive(Clone, Copy, Debug)]
pub struct AxisLock {
    pub x: bool,
    pub y: bool,
    pub z: bool,
}

impl AxisLock {
    /// Every axis locked.
    pub fn all_locked() -> (lock: Self)
        ensures
            lock.x && lock.y && lock.z,
    {
        AxisLock { x: true, y: true, z: true }
    }

    /// A lock with each axis set as given.
    pub fn from_bools(x: bool, y: bool, z: bool) -> (lock: Self)
        ensures
            lock.x == x,
            lock.y == y,
            lock.z == z,
    {
        AxisLock { x, y, z }
    }
}

/// Whether a joint between bodies `a` and `b` can be solved in a world of
/// `body_count` bodies: both exist and they are two different bodies.
/// A joint that fails this is skipped by every solver.
pub fn joint_bodies_valid(a: usize, b: usize, body_count: usize) -> (valid: bool)
    ensures
        valid == (a < body_count && b < body_count && a != b),
{
    !(a >= body_count || b >= body_count || a == b)
}

} // verus!
