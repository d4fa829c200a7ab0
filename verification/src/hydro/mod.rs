//! Geometry shared by the hydrodynamics solvers.
pub mod geometry;
