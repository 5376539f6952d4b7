//! Decoders for image formats that are less common: X BitMap, SGI, PCX, WBMP, PSD and
//! OpenRaster.

pub mod decimal;
pub mod ora;
pub mod pcx;
pub mod psd;
pub mod registry;
pub mod sgi;
pub mod source;
pub mod types;
pub mod wbmp;
pub mod xbm;
