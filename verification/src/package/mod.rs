pub mod db;
pub mod install;
pub mod build_file;
pub mod checksum;
pub mod pkgbuild_laws;
