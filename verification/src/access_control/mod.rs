pub mod account_files;
pub mod application;
pub mod group;
pub mod id_alloc;
pub mod user;
