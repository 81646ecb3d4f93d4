pub mod atlas;
pub mod atlas_set;
pub mod fitter;
pub mod format;
pub mod packer;
pub mod soundbank;
pub mod util;
