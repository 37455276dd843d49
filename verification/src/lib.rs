//! Records snapshots of NixOS system closures and compares them.
//!
//! The verified core of the tool: parsing of SSH targets and store paths,
//! grouping of closures into packages, and the per-package difference of
//! two closures.
pub mod cli;
pub mod diff;
pub mod nix;
pub mod text;
