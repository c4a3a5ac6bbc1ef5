//! Sparse voxel volumes: run-length encoded grids of materials, and the
//! composition of several placed volumes into one.
//!
//! * `tensor` holds the volume and its operations, `segments` and `content`
//!   what they mean, `laws` what holds between them.
//! * `addressing` maps cells to addresses, `placement` and `composition`
//!   carry voxels into a shared frame.
//! * `scene` holds models and the graph of placed entities, `format` reads
//!   models and fonts from bytes, `rhi` lays out the elements of buffers,
//!   `terrain` and `ai` serve the world around the volumes: which blocks to
//!   build, and how to walk between voxels.

pub mod addressing;
pub mod ai;
pub mod composition;
pub mod content;
pub mod format;
pub mod laws;
pub mod placement;
pub mod rhi;
pub mod scene;
pub mod segments;
pub mod tensor;
pub mod terrain;
