//! Verified puzzle solvers: one module per puzzle, with the spatial
//! clustering and minimum-spanning-tree engine (`p_08`) at the core, and
//! the frame computation for the grid-erosion animation alongside its
//! puzzle (`visualizer_p04`).
pub mod p_01;
pub mod p_02;
pub mod p_02_fp;
pub mod p_03;
pub mod p_04;
pub mod p_05;
pub mod p_06;
pub mod p_07;
pub mod p_08;
pub mod visualizer_p04;
