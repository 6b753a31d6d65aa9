//! Signed-distance-field ray marching and lighting in fixed-point arithmetic.
//!
//! Every coordinate, length, angle and intensity is an integer count of
//! millionths (see `fixed::SCALE`); divisions round toward zero and square
//! roots round down. Normalizing the zero vector leaves it zero.
//!
//! - `fixed`: the scale, floor square root and rounding division.
//! - `trig`: cosine and sine of a fixed-point angle.
//! - `vectors`: three-component vector algebra.
//! - `world_objects`: spheres, boxes and the ground, with their distances.
//! - `marching`: scenes, sphere tracing, normals and lighting.

pub mod fixed;
pub mod trig;
pub mod vectors;
pub mod world_objects;
pub mod marching;
