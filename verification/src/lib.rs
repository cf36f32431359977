//! Decoding of "chunky" asset archives and preparation of their 3D character
//! data for export: the container index, the two packed-chunk codecs, the
//! typed record loaders in raw fixed-point form, texture-atlas layout and
//! blitting, and the buffer and node layout of the exported scene.
//!
//! Everything here works on plain bytes and integers. Floating-point
//! conversion, file access and the encoders of the output formats are left to
//! the caller.

pub mod atlas;
pub mod bits;
pub mod brender;
pub mod chunky;
pub mod error;
pub mod ggcl;
pub mod ggcm;
pub mod ggf;
pub mod glbs;
pub mod glf;
pub mod glpi;
pub mod glxf;
pub mod kauai;
pub mod mbmp;
pub mod modl;
pub mod mtrl;
pub mod order;
pub mod scene;
pub mod sorting;
pub mod tmap;
pub mod tmpl;
pub mod txxf;
