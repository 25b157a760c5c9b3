//! `ublk-azblob`: a block device over an Azure page blob, as a verified library.

pub mod auth;
pub mod backend;
pub mod bench;
pub mod bloburl;
pub mod cli;
pub mod coordination;
pub mod csi;
pub mod device;
pub mod import;
pub mod nbd_target;
pub mod paths;
pub mod table;
pub mod text;
pub mod ublk_target;
pub mod wire;
