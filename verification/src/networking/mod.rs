pub mod hostname;
