//! Deployment of an imported 3D asset hierarchy into a scene tree.
//!
//! An importer yields a tree of nodes, each with a name, a local matrix, a list
//! of mesh indices and children. [`deploy::deploy`] turns such a tree into
//! objects of a [`scene::Scene`]: one object per node, one more per mesh where a
//! node has several, linked as the nodes were. Every function is verified
//! against a contract over the mathematical view of its arguments.
pub mod deploy;
pub mod error;
pub mod import;
pub mod matrix;
pub mod names;
pub mod scene;
pub mod setup;
pub mod tables;
