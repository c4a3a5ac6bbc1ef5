//! File formats of assets.

pub mod fnt;
pub mod vox;
