//! Enumeration and counting of three-dimensional polycubes, with the
//! rotation-canonical form that decides when two shapes are the same.
pub mod counter;
pub mod generator;
pub mod hashing;
pub mod polycube;
pub mod position;
pub mod rotation;
pub mod summary;
