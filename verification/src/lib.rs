//! An offline Monte Carlo ray tracer over fixed-point arithmetic: scenes of
//! spheres and parallelograms behind one hit-testing contract, a bounding
//! volume hierarchy proved to answer exactly like the brute-force scan, and
//! a recursive integrator whose colour arithmetic provably never amplifies
//! light. Every quantity is an i64 mantissa counting 1/65536 steps, so each
//! contract is an exact statement about integers.

pub mod aabb;
pub mod bvh_node;
pub mod camera;
pub mod color;
pub mod fx;
pub mod hittable;
pub mod hittable_list;
pub mod interval;
pub mod libs;
pub mod material;
pub mod quad;
pub mod ray;
pub mod sphere;
pub mod vec3;
